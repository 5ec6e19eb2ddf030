//! Reading a curriculum sheet: the header row and its columns, the courses of the
//! rows keyed by normalised name, and the offer codes given to them by name.
use vstd::prelude::*;
use crate::models::RamoDisponible;
use crate::datafiles::{norm_name, normalize_name_chars};
use crate::text::{
    all_digits, chars_eq, chars_of, contains_seq, contains_sub, digits_value, is_ws, lemma_chars_deep_view,
    lemma_digits_value_nonneg, lit, lower_of, parse_i32, parse_i32_spec, replace_all, replace_chars, split_chars,
    split_on, split_state, string_from_chars, to_lower, trim, trim_chars, trim_end, trim_start,
};

verus! {

/// Where the data of a curriculum sheet lies: the header row (if one was found) and
/// the columns of names, identifiers, semesters and prerequisites.
#[derive(Debug, Clone, Copy)]
pub struct MallaColumns {
    pub header_row: Option<usize>,
    pub name_col: usize,
    pub id_col: usize,
    pub sem_col: Option<usize>,
    pub req_col: Option<usize>,
}

/// The columns assumed before any header is read.
pub open spec fn initial_columns() -> MallaColumns {
    MallaColumns { header_row: None, name_col: 2, id_col: 0, sem_col: None, req_col: None }
}

/// Whether a lower-cased header names the course names (not the column of courses a
/// course opens).
pub open spec fn is_name_header(l: Seq<char>) -> bool {
    contains_seq(l, "nombre"@) || (contains_seq(l, "asignatura"@) && !contains_seq(l, "abre"@)) || contains_seq(l, "curso"@)
}

/// Whether a lower-cased header names the identifiers.
pub open spec fn is_id_header(l: Seq<char>) -> bool {
    contains_seq(l, "id"@) || contains_seq(l, "ident"@) || contains_seq(l, "codigo"@) || contains_seq(l, "código"@)
}

/// The columns after reading the lower-cased cell `l` of row `i`, column `j`.
pub open spec fn column_step(c: MallaColumns, i: usize, j: usize, l: Seq<char>) -> MallaColumns {
    let c1 = if is_name_header(l) && (c.header_row is None || c.name_col == 2) {
        MallaColumns { header_row: Some(i), name_col: j, id_col: c.id_col, sem_col: c.sem_col, req_col: c.req_col }
    } else {
        c
    };
    let c2 = if is_id_header(l) {
        MallaColumns { header_row: Some(i), name_col: c1.name_col, id_col: j, sem_col: c1.sem_col, req_col: c1.req_col }
    } else {
        c1
    };
    let c3 = if contains_seq(l, "semestre"@) {
        MallaColumns { header_row: Some(i), name_col: c2.name_col, id_col: c2.id_col, sem_col: Some(j), req_col: c2.req_col }
    } else {
        c2
    };
    if contains_seq(l, "requisito"@) {
        MallaColumns { header_row: Some(i), name_col: c3.name_col, id_col: c3.id_col, sem_col: c3.sem_col, req_col: Some(j) }
    } else {
        c3
    }
}

/// The columns after reading the first `n` cells of row `i`.
pub open spec fn cells_fold(c: MallaColumns, i: usize, row: Seq<String>, n: int) -> MallaColumns
    decreases n,
{
    if n <= 0 {
        c
    } else {
        column_step(cells_fold(c, i, row, n - 1), i, (n - 1) as usize, lower_of(row[n - 1]@))
    }
}

/// The columns after reading the first `n` rows.
pub open spec fn rows_fold(rows: Seq<Vec<String>>, n: int) -> MallaColumns
    decreases n,
{
    if n <= 0 {
        initial_columns()
    } else {
        cells_fold(rows_fold(rows, n - 1), (n - 1) as usize, rows[n - 1]@, rows[n - 1]@.len() as int)
    }
}

/// The columns found in the first four rows of a curriculum sheet.
pub open spec fn detected_columns(rows: Seq<Vec<String>>) -> MallaColumns {
    rows_fold(rows, if rows.len() < 4 { rows.len() as int } else { 4 })
}

/// Reads the header of a curriculum sheet from its first four rows, cell by cell: a
/// cell naming names (`nombre`, `asignatura` without `abre`, `curso`) sets the name
/// column when none was found yet or it is still the third; one naming identifiers
/// (`id`, `ident`, `codigo`, `código`) the identifier column; `semestre` the semester
/// column; `requisito` the prerequisites column. Each such cell makes its row the
/// header row. Without header the names are in the third column and the identifiers
/// in the first.
pub fn detect_malla_columns(rows: &Vec<Vec<String>>) -> (r: MallaColumns)
    ensures
        r == detected_columns(rows@),
        r.header_row matches Some(h) ==> h < 4,
{
    let words = (lit("nombre"), lit("asignatura"), lit("abre"), lit("curso"));
    let ids = (lit("id"), lit("ident"), lit("codigo"), lit("código"));
    let sem = lit("semestre");
    let req = lit("requisito");
    let mut c = MallaColumns { header_row: None, name_col: 2, id_col: 0, sem_col: None, req_col: None };
    let n: usize = if rows.len() < 4 { rows.len() } else { 4 };
    let mut i: usize = 0;
    while i < n
        invariant
            i <= n <= rows.len(),
            n == (if rows.len() < 4 { rows.len() } else { 4 }),
            words.0@ == "nombre"@ && words.1@ == "asignatura"@ && words.2@ == "abre"@ && words.3@ == "curso"@,
            ids.0@ == "id"@ && ids.1@ == "ident"@ && ids.2@ == "codigo"@ && ids.3@ == "código"@,
            sem@ == "semestre"@ && req@ == "requisito"@,
            c == rows_fold(rows@, i as int),
            c.header_row matches Some(h) ==> h < 4,
        decreases n - i,
    {
        let row = &rows[i];
        let ghost base = c;
        let mut j: usize = 0;
        while j < row.len()
            invariant
                j <= row.len(),
                i < n <= rows.len(),
                row == rows@[i as int],
                words.0@ == "nombre"@ && words.1@ == "asignatura"@ && words.2@ == "abre"@ && words.3@ == "curso"@,
                ids.0@ == "id"@ && ids.1@ == "ident"@ && ids.2@ == "codigo"@ && ids.3@ == "código"@,
                sem@ == "semestre"@ && req@ == "requisito"@,
                c == cells_fold(base, i, row@, j as int),
                n <= 4,
                c.header_row matches Some(h) ==> h < 4,
            decreases row.len() - j,
        {
            let l = to_lower(&chars_of(row[j].as_str()));
            let name_h = contains_sub(&l, &words.0) || (contains_sub(&l, &words.1) && !contains_sub(&l, &words.2))
                || contains_sub(&l, &words.3);
            if name_h && (c.header_row.is_none() || c.name_col == 2) {
                c = MallaColumns { header_row: Some(i), name_col: j, id_col: c.id_col, sem_col: c.sem_col, req_col: c.req_col };
            }
            if contains_sub(&l, &ids.0) || contains_sub(&l, &ids.1) || contains_sub(&l, &ids.2) || contains_sub(&l, &ids.3) {
                c = MallaColumns { header_row: Some(i), name_col: c.name_col, id_col: j, sem_col: c.sem_col, req_col: c.req_col };
            }
            if contains_sub(&l, &sem) {
                c = MallaColumns { header_row: Some(i), name_col: c.name_col, id_col: c.id_col, sem_col: Some(j), req_col: c.req_col };
            }
            if contains_sub(&l, &req) {
                c = MallaColumns { header_row: Some(i), name_col: c.name_col, id_col: c.id_col, sem_col: c.sem_col, req_col: Some(j) };
            }
            j = j + 1;
        }
        i = i + 1;
    }
    c
}

/// A course as plain values: identifier, name, code, slack, sequence number, critical
/// flag, prerequisites, elective flag, semester.
pub type RamoView = (i32, Seq<char>, Seq<char>, i32, i32, bool, Seq<i32>, bool, Option<i32>);

/// The plain values of a course.
pub open spec fn ramo_view(r: RamoDisponible) -> RamoView {
    (r.id, r.nombre@, r.codigo@, r.holgura, r.numb_correlativo, r.critico, r.requisitos_ids@, r.electivo, r.semestre)
}

/// The plain values of keyed courses.
pub open spec fn keyed_views(v: Seq<(String, RamoDisponible)>) -> Seq<(Seq<char>, RamoView)> {
    v.map_values(|e: (String, RamoDisponible)| (e.0@, ramo_view(e.1)))
}

/// The cell `k` of a row, when the row has one.
pub open spec fn row_cell(row: Seq<String>, k: int) -> Option<Seq<char>> {
    if 0 <= k < row.len() {
        Some(row[k]@)
    } else {
        None
    }
}

/// The integers among the trimmed pieces, in order.
pub open spec fn parsed_ints(ps: Seq<Seq<char>>) -> Seq<i32>
    decreases ps.len(),
{
    if ps.len() == 0 {
        Seq::empty()
    } else {
        match parse_i32_spec(trim(ps.last())) {
            Some(v) => parsed_ints(ps.drop_last()).push(v),
            None => parsed_ints(ps.drop_last()),
        }
    }
}

/// The prerequisite identifiers of a cell such as `"1.2"` or `"1, 2"`: the integers
/// among its trimmed pieces between `.` and `,` (none for an empty cell or `—`).
pub open spec fn prereq_ids(cell: Seq<char>) -> Seq<i32> {
    parsed_ints(split_on(replace_all(trim(cell), seq!['.'], seq![',']), ','))
}

/// The course of one row of the curriculum, keyed by its normalised name; `None` for
/// a row without name cell or with an empty normalised name. The identifier is the
/// integer in the identifier cell (0 when there is none or it does not parse), which
/// is also the sequence number.
pub open spec fn row_course(row: Seq<String>, c: MallaColumns) -> Option<(Seq<char>, RamoView)> {
    if row.len() == 0 || row.len() <= c.name_col {
        None
    } else {
        let nombre = row[c.name_col as int]@;
        let id = match parse_i32_spec(match row_cell(row, c.id_col as int) { Some(x) => x, None => "0"@ }) {
            Some(v) => v,
            None => 0i32,
        };
        let sem = match c.sem_col {
            Some(col) => match row_cell(row, col as int) {
                Some(x) => parse_i32_spec(trim(x)),
                None => None,
            },
            None => None,
        };
        let reqs = match c.req_col {
            Some(col) => match row_cell(row, col as int) {
                Some(x) => prereq_ids(x),
                None => Seq::empty(),
            },
            None => Seq::empty(),
        };
        let key = norm_name(nombre);
        if key.len() == 0 {
            None
        } else {
            Some((key, (id, nombre, Seq::empty(), 0i32, id, false, reqs, false, sem)))
        }
    }
}

/// Index of the entry with key `k`.
pub open spec fn key_index(m: Seq<(Seq<char>, RamoView)>, k: Seq<char>, i: int) -> Option<int>
    decreases m.len() - i,
{
    if i < 0 || i >= m.len() {
        None
    } else if m[i].0 == k {
        Some(i)
    } else {
        key_index(m, k, i + 1)
    }
}

/// `m` with the entry of key `k` replaced by `(k, v)`, or `(k, v)` appended.
pub open spec fn put_key(m: Seq<(Seq<char>, RamoView)>, k: Seq<char>, v: RamoView) -> Seq<(Seq<char>, RamoView)> {
    match key_index(m, k, 0) {
        Some(i) => m.update(i, (k, v)),
        None => m.push((k, v)),
    }
}

/// The courses of the rows `0..n` of a curriculum sheet from the row after the header
/// (from the third row without header), keyed by normalised name, a later row
/// replacing an earlier one with the same key.
pub open spec fn malla_courses(rows: Seq<Vec<String>>, c: MallaColumns, n: int) -> Seq<(Seq<char>, RamoView)>
    decreases n,
{
    if n <= 0 {
        Seq::empty()
    } else {
        let prev = malla_courses(rows, c, n - 1);
        let start = match c.header_row { Some(h) => h + 1, None => 2 };
        if n - 1 < start {
            prev
        } else {
            match row_course(rows[n - 1]@, c) {
                Some((k, v)) => put_key(prev, k, v),
                None => prev,
            }
        }
    }
}

fn parsed_ints_exec(ps: &Vec<Vec<char>>) -> (r: Vec<i32>)
    ensures
        r@ == parsed_ints(ps.deep_view()),
{
    let mut out: Vec<i32> = Vec::new();
    let mut i: usize = 0;
    while i < ps.len()
        invariant
            i <= ps.len(),
            out@ == parsed_ints(ps.deep_view().subrange(0, i as int)),
        decreases ps.len() - i,
    {
        assert(ps.deep_view().subrange(0, i + 1).drop_last() =~= ps.deep_view().subrange(0, i as int));
        proof {
            lemma_chars_deep_view(ps@[i as int]);
        }
        match parse_i32(&trim_chars(&ps[i])) {
            Some(v) => out.push(v),
            None => {},
        }
        i = i + 1;
    }
    assert(ps.deep_view().subrange(0, ps.len() as int) =~= ps.deep_view());
    out
}

/// The prerequisite identifiers of a cell.
fn prereq_ids_exec(cell: &Vec<char>) -> (r: Vec<i32>)
    ensures
        r@ == prereq_ids(cell@),
{
    let dot = lit(".");
    let comma = lit(",");
    proof {
        reveal_strlit(".");
        reveal_strlit(",");
    }
    assert(dot@ =~= seq!['.']);
    assert(comma@ =~= seq![',']);
    let t = trim_chars(cell);
    let u = replace_chars(&t, &dot, &comma);
    parsed_ints_exec(&split_chars(&u, ','))
}

/// The course of one row (see `row_course`).
fn row_course_exec(row: &Vec<String>, c: &MallaColumns) -> (r: Option<(String, RamoDisponible)>)
    ensures
        match r {
            Some(e) => row_course(row@, *c) == Some((e.0@, ramo_view(e.1))),
            None => row_course(row@, *c) is None,
        },
{
    if row.len() == 0 || row.len() <= c.name_col {
        return None;
    }
    let nombre = &row[c.name_col];
    let id_cell = if c.id_col < row.len() { chars_of(row[c.id_col].as_str()) } else { lit("0") };
    proof {
        reveal_strlit("0");
    }
    let id: i32 = match parse_i32(&id_cell) {
        Some(v) => v,
        None => 0,
    };
    let sem: Option<i32> = match c.sem_col {
        Some(col) => if col < row.len() { parse_i32(&trim_chars(&chars_of(row[col].as_str()))) } else { None },
        None => None,
    };
    let reqs: Vec<i32> = match c.req_col {
        Some(col) => if col < row.len() { prereq_ids_exec(&chars_of(row[col].as_str())) } else { Vec::new() },
        None => Vec::new(),
    };
    let key = normalize_name_chars(&chars_of(nombre.as_str()));
    if key.len() == 0 {
        return None;
    }
    let r = RamoDisponible {
        id,
        nombre: nombre.clone(),
        codigo: String::new(),
        holgura: 0,
        numb_correlativo: id,
        critico: false,
        requisitos_ids: reqs,
        electivo: false,
        semestre: sem,
    };
    assert(ramo_view(r) =~= (id, nombre@, Seq::<char>::empty(), 0i32, id, false, reqs@, false, sem));
    Some((string_from_chars(&key), r))
}

proof fn lemma_key_index(m: Seq<(Seq<char>, RamoView)>, k: Seq<char>, i: int)
    requires
        0 <= i,
    ensures
        match key_index(m, k, i) {
            Some(j) => i <= j < m.len() && m[j].0 == k && forall|q: int| i <= q < j ==> m[q].0 != k,
            None => forall|q: int| i <= q < m.len() ==> m[q].0 != k,
        },
    decreases m.len() - i,
{
    if i < m.len() && m[i].0 != k {
        lemma_key_index(m, k, i + 1);
    }
}

/// Index of the entry with key `k`.
pub(crate) fn find_key(m: &Vec<(String, RamoDisponible)>, k: &Vec<char>) -> (r: Option<usize>)
    ensures
        match r {
            Some(i) => i < m.len() && key_index(keyed_views(m@), k@, 0) == Some(i as int),
            None => key_index(keyed_views(m@), k@, 0) is None,
        },
{
    let ghost mv = keyed_views(m@);
    let mut i: usize = 0;
    while i < m.len()
        invariant
            i <= m.len(),
            mv == keyed_views(m@),
            forall|q: int| 0 <= q < i ==> mv[q].0 != k@,
        decreases m.len() - i,
    {
        assert(mv[i as int].0 == m@[i as int].0@);
        if chars_eq(&chars_of(m[i].0.as_str()), k) {
            proof {
                lemma_key_index(mv, k@, 0);
            }
            return Some(i);
        }
        i = i + 1;
    }
    proof {
        lemma_key_index(mv, k@, 0);
    }
    None
}

/// The courses of a curriculum sheet (see `malla_courses`), with the columns found in
/// its header.
pub fn malla_ramos(rows: &Vec<Vec<String>>, c: &MallaColumns) -> (r: Vec<(String, RamoDisponible)>)
    requires
        c.header_row matches Some(h) ==> h < usize::MAX,
    ensures
        keyed_views(r@) == malla_courses(rows@, *c, rows.len() as int),
{
    let start: usize = match c.header_row {
        Some(h) => h + 1,
        None => 2,
    };
    let mut out: Vec<(String, RamoDisponible)> = Vec::new();
    let mut i: usize = 0;
    while i < rows.len()
        invariant
            i <= rows.len(),
            start == match c.header_row { Some(h) => h + 1, None => 2 },
            keyed_views(out@) == malla_courses(rows@, *c, i as int),
        decreases rows.len() - i,
    {
        if i >= start {
            match row_course_exec(&rows[i], c) {
                Some(e) => {
                    let ghost o = keyed_views(out@);
                    let ghost ev = (e.0@, ramo_view(e.1));
                    match find_key(&out, &chars_of(e.0.as_str())) {
                        Some(j) => {
                            out.set(j, e);
                            assert(keyed_views(out@) =~= o.update(j as int, ev));
                        },
                        None => {
                            out.push(e);
                            assert(keyed_views(out@) =~= o.push(ev));
                        },
                    }
                },
                None => {},
            }
        }
        i = i + 1;
    }
    out
}

/// The entries after giving each course named in offer row `row` (code in column 2,
/// name in column 3) that code, when the course has none yet and the code is not
/// empty; rows with fewer than three cells change nothing.
pub open spec fn offer_code_step(m: Seq<(Seq<char>, RamoView)>, row: Seq<String>) -> Seq<(Seq<char>, RamoView)> {
    if row.len() < 3 {
        m
    } else {
        let code = row[1]@;
        match key_index(m, norm_name(row[2]@), 0) {
            Some(i) => if m[i].1.2.len() == 0 && code.len() > 0 {
                let v = m[i].1;
                m.update(i, (m[i].0, (v.0, v.1, code, v.3, v.4, v.5, v.6, v.7, v.8)))
            } else {
                m
            },
            None => m,
        }
    }
}

/// The entries after the offer rows `1..n` (row 0 is the header).
pub open spec fn offer_codes(m: Seq<(Seq<char>, RamoView)>, rows: Seq<Vec<String>>, n: int) -> Seq<(Seq<char>, RamoView)>
    decreases n,
{
    if n <= 1 {
        m
    } else {
        offer_code_step(offer_codes(m, rows, n - 1), rows[n - 1]@)
    }
}

/// Gives the courses of the curriculum the codes of the academic offer, matching
/// normalised names: a course takes the first non-empty code of an offer row (after
/// the header) with its name, and keeps it.
pub fn asignar_codigos_oferta(ramos: &mut Vec<(String, RamoDisponible)>, oferta_rows: &Vec<Vec<String>>)
    ensures
        keyed_views(final(ramos)@) == offer_codes(keyed_views(old(ramos)@), oferta_rows@, oferta_rows.len() as int),
{
    let ghost m0 = keyed_views(ramos@);
    let mut i: usize = 1;
    if oferta_rows.len() == 0 {
        return;
    }
    while i < oferta_rows.len()
        invariant
            1 <= i <= oferta_rows.len(),
            m0 == keyed_views(old(ramos)@),
            keyed_views(ramos@) == offer_codes(m0, oferta_rows@, i as int),
        decreases oferta_rows.len() - i,
    {
        let row = &oferta_rows[i];
        if row.len() >= 3 {
            let key = normalize_name_chars(&chars_of(row[2].as_str()));
            match find_key(ramos, &key) {
                Some(j) => {
                    if ramos[j].1.codigo.as_str().unicode_len() == 0 && row[1].as_str().unicode_len() > 0 {
                        let ghost o = keyed_views(ramos@);
                        let (k, mut r) = ramos.remove(j);
                        let ghost after_remove = ramos@;
                        r.codigo = row[1].clone();
                        let ghost ev = (k@, ramo_view(r));
                        ramos.insert(j, (k, r));
                        assert(keyed_views(ramos@) =~= o.update(j as int, ev));
                    }
                },
                None => {},
            }
        }
        i = i + 1;
    }
}

/// The courses of a curriculum sheet with the codes of the academic offer: the header
/// read from the first four rows, the courses of the rows after it keyed by
/// normalised name, and each course given the first non-empty offer code of its name.
pub fn malla_desde_hojas(malla_rows: &Vec<Vec<String>>, oferta_rows: &Vec<Vec<String>>) -> (r: Vec<(String, RamoDisponible)>)
    ensures
        keyed_views(r@) == offer_codes(
            malla_courses(malla_rows@, detected_columns(malla_rows@), malla_rows.len() as int),
            oferta_rows@,
            oferta_rows.len() as int,
        ),
{
    let c = detect_malla_columns(malla_rows);
    let mut ramos = malla_ramos(malla_rows, &c);
    asignar_codigos_oferta(&mut ramos, oferta_rows);
    ramos
}

/// Whether no two entries share a key.
pub open spec fn distinct_keys(m: Seq<(Seq<char>, RamoView)>) -> bool {
    forall|a: int, b: int| 0 <= a < b < m.len() ==> (#[trigger] m[a]).0 != (#[trigger] m[b]).0
}

proof fn lemma_put_key_distinct(m: Seq<(Seq<char>, RamoView)>, k: Seq<char>, v: RamoView)
    requires
        distinct_keys(m),
    ensures
        distinct_keys(put_key(m, k, v)),
{
    lemma_key_index(m, k, 0);
    let p = put_key(m, k, v);
    assert forall|a: int, b: int| 0 <= a < b < p.len() implies (#[trigger] p[a]).0 != (#[trigger] p[b]).0 by {
        match key_index(m, k, 0) {
            Some(i) => {
                if a != i && b != i {
                    assert(p[a] == m[a] && p[b] == m[b]);
                }
            },
            None => {
                if b == m.len() {
                    assert(p[a] == m[a]);
                } else {
                    assert(p[a] == m[a] && p[b] == m[b]);
                }
            },
        }
    }
}

proof fn lemma_offer_codes_keys(m: Seq<(Seq<char>, RamoView)>, rows: Seq<Vec<String>>, n: int)
    ensures
        offer_codes(m, rows, n).len() == m.len(),
        forall|a: int| 0 <= a < m.len() ==> (#[trigger] offer_codes(m, rows, n)[a]).0 == m[a].0,
    decreases n,
{
    if n > 1 {
        lemma_offer_codes_keys(m, rows, n - 1);
        let prev = offer_codes(m, rows, n - 1);
        let row = rows[n - 1]@;
        if row.len() >= 3 {
            lemma_key_index(prev, norm_name(row[2]@), 0);
        }
    }
}

/// The courses read from a curriculum sheet, with their offer codes, never share
/// a normalised name.
pub proof fn lemma_malla_keys_distinct(malla_rows: Seq<Vec<String>>, oferta_rows: Seq<Vec<String>>, n: int)
    ensures
        distinct_keys(offer_codes(
            malla_courses(malla_rows, detected_columns(malla_rows), n),
            oferta_rows,
            oferta_rows.len() as int,
        )),
    decreases n,
{
    lemma_courses_distinct(malla_rows, detected_columns(malla_rows), n);
    let m = malla_courses(malla_rows, detected_columns(malla_rows), n);
    lemma_offer_codes_keys(m, oferta_rows, oferta_rows.len() as int);
    let o = offer_codes(m, oferta_rows, oferta_rows.len() as int);
    assert forall|a: int, b: int| 0 <= a < b < o.len() implies (#[trigger] o[a]).0 != (#[trigger] o[b]).0 by {
        assert(o[a].0 == m[a].0 && o[b].0 == m[b].0);
    }
}

proof fn lemma_courses_distinct(rows: Seq<Vec<String>>, c: MallaColumns, n: int)
    ensures
        distinct_keys(malla_courses(rows, c, n)),
    decreases n,
{
    if n > 0 {
        lemma_courses_distinct(rows, c, n - 1);
        let start = match c.header_row { Some(h) => h + 1, None => 2 };
        if n - 1 >= start {
            match row_course(rows[n - 1]@, c) {
                Some((k, v)) => {
                    lemma_put_key_distinct(malla_courses(rows, c, n - 1), k, v);
                },
                None => {},
            }
        }
    }
}


/// The integers among the pieces of `c` between `.` and `,`, without trimming `c` first.
spec fn pieces_ids(c: Seq<char>) -> Seq<i32> {
    parsed_ints(split_on(replace_all(c, seq!['.'], seq![',']), ','))
}

proof fn lemma_replace_concat(x: Seq<char>, y: Seq<char>)
    ensures
        replace_all(x + y, seq!['.'], seq![',']) == replace_all(x, seq!['.'], seq![',']) + replace_all(
            y,
            seq!['.'],
            seq![','],
        ),
    decreases x.len(),
{
    let pat = seq!['.'];
    let rep = seq![','];
    if x.len() == 0 {
        assert(x + y =~= y);
        assert(Seq::<char>::empty() + replace_all(y, pat, rep) =~= replace_all(y, pat, rep));
    } else {
        let s = x + y;
        let x1 = x.drop_first();
        lemma_replace_concat(x1, y);
        assert(s.subrange(0, 1) =~= x.subrange(0, 1));
        assert(s.subrange(1, s.len() as int) =~= x1 + y);
        assert(s.drop_first() =~= x1 + y);
        assert(x.subrange(1, x.len() as int) =~= x1);
        assert(s[0] == x[0]);
        if x.subrange(0, 1) == pat {
            assert(rep + (replace_all(x1, pat, rep) + replace_all(y, pat, rep)) =~= (rep + replace_all(x1, pat, rep))
                + replace_all(y, pat, rep));
        } else {
            assert(seq![x[0]] + (replace_all(x1, pat, rep) + replace_all(y, pat, rep)) =~= (seq![x[0]] + replace_all(
                x1,
                pat,
                rep,
            )) + replace_all(y, pat, rep));
        }
    }
}

proof fn lemma_replace_char(c: char)
    ensures
        replace_all(seq![c], seq!['.'], seq![',']) == (if c == '.' { seq![','] } else { seq![c] }),
{
    let s = seq![c];
    let pat = seq!['.'];
    let rep = seq![','];
    assert(s.subrange(0, 1) =~= s);
    assert(s.subrange(1, 1) =~= Seq::<char>::empty());
    assert(s.drop_first() =~= Seq::<char>::empty());
    assert(pat.len() == 1);
    assert(s.len() == 1);
    assert(replace_all(Seq::<char>::empty(), pat, rep) == Seq::<char>::empty());
    if c != '.' {
        assert(s != pat) by {
            assert(s[0] != pat[0]);
        }
        assert(seq![c] + Seq::<char>::empty() =~= seq![c]);
    } else {
        assert(s =~= pat);
        assert(rep + Seq::<char>::empty() =~= rep);
    }
}

proof fn lemma_replace_keeps(x: Seq<char>)
    requires
        !x.contains('.'),
    ensures
        replace_all(x, seq!['.'], seq![',']) == x,
    decreases x.len(),
{
    if x.len() > 0 {
        let x1 = x.drop_first();
        assert(!x1.contains('.')) by {
            if x1.contains('.') {
                let k = choose|k: int| 0 <= k < x1.len() && x1[k] == '.';
                assert(x[k + 1] == '.');
            }
        }
        assert(x[0] != '.');
        lemma_replace_keeps(x1);
        assert(x =~= seq![x[0]] + x1);
        lemma_replace_concat(seq![x[0]], x1);
        lemma_replace_char(x[0]);
    }
}

proof fn lemma_split_join(x: Seq<char>, y: Seq<char>, d: char)
    ensures
        split_state(x + seq![d] + y, d) == (split_on(x, d) + split_state(y, d).0, split_state(y, d).1),
    decreases y.len(),
{
    let s = x + seq![d] + y;
    if y.len() == 0 {
        assert(s.drop_last() =~= x);
        assert(s.last() == d);
        assert(split_on(x, d) + Seq::<Seq<char>>::empty() =~= split_on(x, d));
    } else {
        lemma_split_join(x, y.drop_last(), d);
        assert(s.drop_last() =~= x + seq![d] + y.drop_last());
        assert(s.last() == y.last());
        let sy = split_state(y.drop_last(), d);
        if y.last() == d {
            assert((split_on(x, d) + sy.0).push(sy.1) =~= split_on(x, d) + sy.0.push(sy.1));
        }
    }
}

proof fn lemma_split_on_join(x: Seq<char>, y: Seq<char>, d: char)
    ensures
        split_on(x + seq![d] + y, d) == split_on(x, d) + split_on(y, d),
{
    lemma_split_join(x, y, d);
    let sy = split_state(y, d);
    assert((split_on(x, d) + sy.0).push(sy.1) =~= split_on(x, d) + sy.0.push(sy.1));
}

proof fn lemma_split_none(t: Seq<char>, d: char)
    requires
        !t.contains(d),
    ensures
        split_state(t, d) == (Seq::<Seq<char>>::empty(), t),
    decreases t.len(),
{
    if t.len() > 0 {
        let t1 = t.drop_last();
        assert(!t1.contains(d)) by {
            if t1.contains(d) {
                let k = choose|k: int| 0 <= k < t1.len() && t1[k] == d;
                assert(t[k] == d);
            }
        }
        assert(t.last() != d) by {
            assert(t[t.len() - 1] == t.last());
        }
        lemma_split_none(t1, d);
        assert(t1.push(t.last()) =~= t);
    } else {
        assert(t =~= Seq::<char>::empty());
    }
}

/// Splitting after one more leading character that is not the separator prefixes the
/// first piece with it.
proof fn lemma_split_prefix(w: char, z: Seq<char>, d: char)
    requires
        w != d,
    ensures
        split_state(z, d).0.len() > 0 ==> split_state(seq![w] + z, d) == (
            split_state(z, d).0.update(0, seq![w] + split_state(z, d).0[0]),
            split_state(z, d).1,
        ),
        split_state(z, d).0.len() == 0 ==> split_state(seq![w] + z, d) == (
            split_state(z, d).0,
            seq![w] + split_state(z, d).1,
        ),
    decreases z.len(),
{
    let s = seq![w] + z;
    if z.len() == 0 {
        assert(s =~= seq![w]);
        assert(s.drop_last() =~= Seq::<char>::empty());
        assert(s.last() == w);
        let e = split_state(Seq::<char>::empty(), d);
        assert(e == (Seq::<Seq<char>>::empty(), Seq::<char>::empty()));
        assert(split_state(z, d) == e);
        assert(split_state(s, d) == (e.0, e.1.push(w)));
        assert(Seq::<char>::empty().push(w) =~= seq![w] + Seq::<char>::empty());
    } else {
        lemma_split_prefix(w, z.drop_last(), d);
        assert(s.drop_last() =~= seq![w] + z.drop_last());
        assert(s.last() == z.last());
        let st0 = split_state(z.drop_last(), d);
        if z.last() == d {
            if st0.0.len() > 0 {
                assert(st0.0.update(0, seq![w] + st0.0[0]).push(st0.1) =~= st0.0.push(st0.1).update(
                    0,
                    seq![w] + st0.0.push(st0.1)[0],
                ));
            } else {
                assert(st0.0.push(seq![w] + st0.1) =~= st0.0.push(st0.1).update(0, seq![w] + st0.0.push(st0.1)[0]));
            }
        } else {
            assert((seq![w] + st0.1).push(z.last()) =~= seq![w] + st0.1.push(z.last()));
        }
    }
}

proof fn lemma_parsed_concat(ps: Seq<Seq<char>>, qs: Seq<Seq<char>>)
    ensures
        parsed_ints(ps + qs) == parsed_ints(ps) + parsed_ints(qs),
    decreases qs.len(),
{
    if qs.len() == 0 {
        assert(ps + qs =~= ps);
        assert(parsed_ints(ps) + Seq::<i32>::empty() =~= parsed_ints(ps));
    } else {
        lemma_parsed_concat(ps, qs.drop_last());
        assert((ps + qs).drop_last() =~= ps + qs.drop_last());
        assert((ps + qs).last() == qs.last());
        match parse_i32_spec(trim(qs.last())) {
            Some(v) => {
                assert((parsed_ints(ps) + parsed_ints(qs.drop_last())).push(v) =~= parsed_ints(ps) + parsed_ints(
                    qs.drop_last(),
                ).push(v));
            },
            None => {},
        }
    }
}

proof fn lemma_parsed_trim_eq(ps: Seq<Seq<char>>, qs: Seq<Seq<char>>)
    requires
        ps.len() == qs.len(),
        forall|i: int| 0 <= i < ps.len() ==> trim(#[trigger] ps[i]) == trim(qs[i]),
    ensures
        parsed_ints(ps) == parsed_ints(qs),
    decreases ps.len(),
{
    if ps.len() > 0 {
        assert forall|i: int| 0 <= i < ps.drop_last().len() implies trim(#[trigger] ps.drop_last()[i]) == trim(
            qs.drop_last()[i],
        ) by {
            assert(ps.drop_last()[i] == ps[i]);
            assert(qs.drop_last()[i] == qs[i]);
        }
        lemma_parsed_trim_eq(ps.drop_last(), qs.drop_last());
        assert(trim(ps[ps.len() - 1]) == trim(qs[qs.len() - 1]));
    }
}

proof fn lemma_trim_start_push(p: Seq<char>, c: char)
    ensures
        trim_start(p.push(c)) == (if trim_start(p).len() > 0 { trim_start(p).push(c) } else { trim_start(seq![c]) }),
    decreases p.len(),
{
    if p.len() == 0 {
        assert(p.push(c) =~= seq![c]);
    } else {
        assert(p.push(c)[0] == p[0]);
        if is_ws(p[0]) {
            assert(p.push(c).drop_first() =~= p.drop_first().push(c));
            lemma_trim_start_push(p.drop_first(), c);
        }
    }
}

proof fn lemma_trim_push_ws(p: Seq<char>, w: char)
    requires
        is_ws(w),
    ensures
        trim(p.push(w)) == trim(p),
{
    lemma_trim_start_push(p, w);
    let q = trim_start(p);
    if q.len() > 0 {
        assert(q.push(w).drop_last() =~= q);
        assert(q.push(w).last() == w);
    } else {
        assert(seq![w].drop_first() =~= Seq::<char>::empty());
        assert(seq![w][0] == w);
        assert(trim_start(seq![w]) == trim_start(Seq::<char>::empty()));
        assert(q =~= Seq::<char>::empty());
    }
}

proof fn lemma_trim_prepend_ws(p: Seq<char>, w: char)
    requires
        is_ws(w),
    ensures
        trim(seq![w] + p) == trim(p),
{
    let s = seq![w] + p;
    assert(s[0] == w);
    assert(s.drop_first() =~= p);
}

proof fn lemma_pieces_drop_first(c: Seq<char>)
    requires
        c.len() > 0,
        is_ws(c[0]),
    ensures
        pieces_ids(c) == pieces_ids(c.drop_first()),
{
    let w = c[0];
    let c1 = c.drop_first();
    assert(c =~= seq![w] + c1);
    lemma_replace_concat(seq![w], c1);
    lemma_replace_char(w);
    let z = replace_all(c1, seq!['.'], seq![',']);
    assert(replace_all(c, seq!['.'], seq![',']) == seq![w] + z);
    lemma_split_prefix(w, z, ',');
    let a = split_on(seq![w] + z, ',');
    let b = split_on(z, ',');
    assert(a.len() == b.len());
    assert forall|i: int| 0 <= i < a.len() implies trim(#[trigger] a[i]) == trim(b[i]) by {
        if i == 0 {
            assert(a[0] == seq![w] + b[0]);
            lemma_trim_prepend_ws(b[0], w);
        } else {
            assert(a[i] == b[i]);
        }
    }
    lemma_parsed_trim_eq(a, b);
}

proof fn lemma_pieces_drop_last(c: Seq<char>)
    requires
        c.len() > 0,
        is_ws(c.last()),
    ensures
        pieces_ids(c) == pieces_ids(c.drop_last()),
{
    let w = c.last();
    let c1 = c.drop_last();
    assert(c =~= c1 + seq![w]);
    lemma_replace_concat(c1, seq![w]);
    lemma_replace_char(w);
    let z = replace_all(c1, seq!['.'], seq![',']);
    assert(z + seq![w] =~= z.push(w));
    assert(replace_all(c, seq!['.'], seq![',']) == z.push(w));
    assert(z.push(w).drop_last() =~= z);
    assert(z.push(w).last() == w);
    let a = split_on(z.push(w), ',');
    let b = split_on(z, ',');
    assert(a.len() == b.len());
    assert forall|i: int| 0 <= i < a.len() implies trim(#[trigger] a[i]) == trim(b[i]) by {
        if i == a.len() - 1 {
            assert(a[i] == b[i].push(w));
            lemma_trim_push_ws(b[i], w);
        } else {
            assert(a[i] == b[i]);
        }
    }
    lemma_parsed_trim_eq(a, b);
}

proof fn lemma_pieces_trim_start(c: Seq<char>)
    ensures
        pieces_ids(trim_start(c)) == pieces_ids(c),
    decreases c.len(),
{
    if c.len() > 0 && is_ws(c[0]) {
        lemma_pieces_trim_start(c.drop_first());
        lemma_pieces_drop_first(c);
    }
}

proof fn lemma_pieces_trim_end(c: Seq<char>)
    ensures
        pieces_ids(trim_end(c)) == pieces_ids(c),
    decreases c.len(),
{
    if c.len() > 0 && is_ws(c.last()) {
        lemma_pieces_trim_end(c.drop_last());
        lemma_pieces_drop_last(c);
    }
}

/// Trimming the cell first changes nothing: its pieces are trimmed one by one.
proof fn lemma_prereq_pieces(c: Seq<char>)
    ensures
        prereq_ids(c) == pieces_ids(c),
{
    lemma_pieces_trim_start(c);
    lemma_pieces_trim_end(trim_start(c));
}

proof fn lemma_prereq_join_sep(a: Seq<char>, b: Seq<char>, sep: char)
    requires
        sep == ',' || sep == '.',
    ensures
        prereq_ids(a + seq![sep] + b) == prereq_ids(a) + prereq_ids(b),
{
    let pat = seq!['.'];
    let rep = seq![','];
    lemma_prereq_pieces(a + seq![sep] + b);
    lemma_prereq_pieces(a);
    lemma_prereq_pieces(b);
    lemma_replace_concat(a + seq![sep], b);
    lemma_replace_concat(a, seq![sep]);
    lemma_replace_char(sep);
    let ra = replace_all(a, pat, rep);
    let rb = replace_all(b, pat, rep);
    assert(replace_all(a + seq![sep] + b, pat, rep) == ra + seq![','] + rb);
    lemma_split_on_join(ra, rb, ',');
    lemma_parsed_concat(split_on(ra, ','), split_on(rb, ','));
}

/// A prerequisite cell made of two parts joined by `,` or by `.` lists the
/// identifiers of the first part followed by those of the second; so `,` and `.`
/// separate alike.
pub proof fn lemma_prereq_ids_join(a: Seq<char>, b: Seq<char>)
    ensures
        prereq_ids(a + seq![','] + b) == prereq_ids(a) + prereq_ids(b),
        prereq_ids(a + seq!['.'] + b) == prereq_ids(a) + prereq_ids(b),
{
    lemma_prereq_join_sep(a, b, ',');
    lemma_prereq_join_sep(a, b, '.');
}

/// A cell holding one number (white space around it allowed) lists that number.
pub proof fn lemma_prereq_ids_number(d: Seq<char>)
    requires
        trim(d).len() > 0,
        all_digits(trim(d)),
        digits_value(trim(d)) <= i32::MAX,
    ensures
        prereq_ids(d) == seq![digits_value(trim(d)) as i32],
{
    let t = trim(d);
    assert(!t.contains('.')) by {
        if t.contains('.') {
            let k = choose|k: int| 0 <= k < t.len() && t[k] == '.';
            assert(crate::text::is_digit(t[k]));
        }
    }
    assert(!t.contains(',')) by {
        if t.contains(',') {
            let k = choose|k: int| 0 <= k < t.len() && t[k] == ',';
            assert(crate::text::is_digit(t[k]));
        }
    }
    lemma_replace_keeps(t);
    lemma_split_none(t, ',');
    assert(split_on(t, ',') =~= seq![t]);
    assert(seq![t].drop_last() =~= Seq::<Seq<char>>::empty());
    assert(crate::text::is_digit(t[0]));
    assert(crate::text::is_digit(t[t.len() - 1]));
    assert(!is_ws(t[0]));
    assert(!is_ws(t.last()));
    assert(trim_start(t) == t);
    assert(trim_end(t) == t);
    assert(trim(t) == t);
    assert(!(t[0] == '+' || t[0] == '-'));
    lemma_digits_value_nonneg(t);
    assert(crate::text::int_syntax(t) == Some(digits_value(t)));
    assert(parse_i32_spec(t) == Some(digits_value(t) as i32));
    let u = replace_all(t, seq!['.'], seq![',']);
    assert(u == t);
    assert(prereq_ids(d) == parsed_ints(seq![t]));
    assert(seq![t].last() == t);
    assert(parsed_ints(seq![t].drop_last()) == Seq::<i32>::empty());
    assert(parsed_ints(seq![t]) == Seq::<i32>::empty().push(digits_value(t) as i32));
    assert(Seq::<i32>::empty().push(digits_value(t) as i32) =~= seq![digits_value(t) as i32]);
}

} // verus!
