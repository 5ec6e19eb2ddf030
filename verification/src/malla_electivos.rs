//! The curriculum with its electives: each course of the curriculum sheet keyed by its
//! normalised name, each elective slot given, in order, the next easiest elective code,
//! and each course linked to the course of the previous sequence number.
use vstd::prelude::*;
use crate::models::RamoDisponible;
use crate::datafiles::{int_text, int_text_exec, norm_name, normalize_name_chars};
use crate::malla::{find_key, keyed_views, put_key, ramo_view, row_cell, RamoView};
use crate::text::{chars_eq, chars_of, lit, lower_of, parse_i32, parse_i32_spec, string_from_chars, to_lower, trim, trim_chars};

verus! {

/// The text of cell `k` of a row, empty when the row has no such cell.
pub open spec fn cell_text(row: Seq<String>, k: int) -> Seq<char> {
    match row_cell(row, k) {
        Some(x) => x,
        None => Seq::empty(),
    }
}

/// Whether an elective-flag cell says yes: lower-cased, `true`, `1`, `sí` or `si`.
pub open spec fn elective_mark(cell: Seq<char>) -> bool {
    let l = lower_of(cell);
    l == "true"@ || l == "1"@ || l == "sí"@ || l == "si"@
}

/// The identifier of a row: the integer in its trimmed second cell, 0 when there is none.
pub open spec fn row_id(row: Seq<String>) -> i32 {
    match parse_i32_spec(trim(cell_text(row, 1))) {
        Some(v) => v,
        None => 0,
    }
}

/// The code and elective flag listed for normalised name `key` (the first entry of
/// that name), from `i` on.
pub open spec fn name_entry(pn: Seq<(Seq<char>, Seq<char>, bool)>, key: Seq<char>, i: int) -> Option<(Seq<char>, bool)>
    decreases pn.len() - i,
{
    if i < 0 || i >= pn.len() {
        None
    } else if pn[i].0 == key {
        Some((pn[i].1, pn[i].2))
    } else {
        name_entry(pn, key, i + 1)
    }
}

/// The key of an elective slot of identifier `id`: `electivo_profesional_{id}`.
pub open spec fn elective_key(id: i32) -> Seq<char> {
    "electivo_profesional_"@ + int_text(id as int)
}

/// The courses of the rows `1..n` of a curriculum sheet (name in the first cell,
/// identifier in the second, elective flag in the sixth, semester `sems[k]` for row
/// `k`) and the number of elective slots filled. A row with an empty trimmed name or
/// identifier 0 is left out. The `c`-th elective row is keyed `elective_key(id)` and
/// takes the `c`-th code of `elect` (its identifier text when there are fewer codes);
/// another row is keyed by its normalised name and takes the code and elective flag
/// listed for that name in `pn` (an empty code and no flag when none is). A later row
/// replaces an earlier one of the same key. Sequence numbers are the identifiers; no
/// prerequisites yet.
pub open spec fn elective_fold(
    rows: Seq<Vec<String>>,
    sems: Seq<Option<i32>>,
    elect: Seq<Seq<char>>,
    pn: Seq<(Seq<char>, Seq<char>, bool)>,
    n: int,
) -> (Seq<(Seq<char>, RamoView)>, int)
    decreases n,
{
    if n <= 1 {
        (Seq::empty(), 0)
    } else {
        let (m, cnt) = elective_fold(rows, sems, elect, pn, n - 1);
        let row = rows[n - 1]@;
        let nombre = trim(cell_text(row, 0));
        let id_text = trim(cell_text(row, 1));
        let id = row_id(row);
        if nombre.len() == 0 || id == 0 {
            (m, cnt)
        } else if elective_mark(cell_text(row, 5)) {
            let code = if cnt < elect.len() { elect[cnt] } else { id_text };
            (put_key(m, elective_key(id), (id, nombre, code, 0i32, id, false, Seq::empty(), true, sems[n - 1])), cnt + 1)
        } else {
            let key = norm_name(nombre);
            let (code, el) = match name_entry(pn, key, 0) {
                Some(x) => x,
                None => (Seq::empty(), false),
            };
            (put_key(m, key, (id, nombre, code, 0i32, id, false, Seq::empty(), el, sems[n - 1])), cnt)
        }
    }
}

/// The sequence number before `x` (wrapping at the smallest `i32`).
pub open spec fn corr_prev(x: i32) -> i32 {
    if x == i32::MIN { i32::MAX } else { (x - 1) as i32 }
}

/// Whether some course has sequence number `c`.
pub open spec fn has_corr(m: Seq<(Seq<char>, RamoView)>, c: i32) -> bool {
    exists|j: int| 0 <= j < m.len() && (#[trigger] m[j]).1.4 == c
}

/// The courses with each one without prerequisites given, as its only prerequisite,
/// the course of the previous sequence number when there is one.
pub open spec fn link_prev(m: Seq<(Seq<char>, RamoView)>) -> Seq<(Seq<char>, RamoView)> {
    m.map_values(|e: (Seq<char>, RamoView)| if e.1.6.len() == 0 && has_corr(m, corr_prev(e.1.4)) {
        (e.0, (e.1.0, e.1.1, e.1.2, e.1.3, e.1.4, e.1.5, seq![corr_prev(e.1.4)], e.1.7, e.1.8))
    } else {
        e
    })
}

/// The plain values of the name index.
pub open spec fn name_index_view(pn: Seq<(String, String, bool)>) -> Seq<(Seq<char>, Seq<char>, bool)> {
    pn.map_values(|e: (String, String, bool)| (e.0@, e.1@, e.2))
}

fn name_entry_exec(pn: &Vec<(String, String, bool)>, key: &Vec<char>) -> (r: Option<(Vec<char>, bool)>)
    ensures
        match r {
            Some((c, e)) => name_entry(name_index_view(pn@), key@, 0) == Some((c@, e)),
            None => name_entry(name_index_view(pn@), key@, 0) is None,
        },
{
    let ghost v = name_index_view(pn@);
    let mut i: usize = 0;
    while i < pn.len()
        invariant
            i <= pn.len(),
            v == name_index_view(pn@),
            name_entry(v, key@, 0) == name_entry(v, key@, i as int),
        decreases pn.len() - i,
    {
        assert(v[i as int] == (pn@[i as int].0@, pn@[i as int].1@, pn@[i as int].2));
        if chars_eq(&chars_of(pn[i].0.as_str()), key) {
            return Some((chars_of(pn[i].1.as_str()), pn[i].2));
        }
        i = i + 1;
    }
    None
}

fn cell_text_exec(row: &Vec<String>, k: usize) -> (r: Vec<char>)
    ensures
        r@ == cell_text(row@, k as int),
{
    if k < row.len() {
        chars_of(row[k].as_str())
    } else {
        Vec::new()
    }
}

fn elective_mark_exec(cell: &Vec<char>) -> (r: bool)
    ensures
        r == elective_mark(cell@),
{
    let l = to_lower(cell);
    proof {
        reveal_strlit("true");
        reveal_strlit("1");
        reveal_strlit("sí");
        reveal_strlit("si");
    }
    chars_eq(&l, &lit("true")) || chars_eq(&l, &lit("1")) || chars_eq(&l, &lit("sí")) || chars_eq(&l, &lit("si"))
}

/// Puts `(k, v)` into `m`, replacing the entry of key `k` if there is one.
fn put_entry(m: &mut Vec<(String, RamoDisponible)>, k: Vec<char>, v: RamoDisponible)
    ensures
        keyed_views(final(m)@) == put_key(keyed_views(old(m)@), k@, ramo_view(v)),
{
    let ghost o = keyed_views(m@);
    let key = string_from_chars(&k);
    let ghost ev = (key@, ramo_view(v));
    match find_key(m, &k) {
        Some(j) => {
            m.set(j, (key, v));
            assert(keyed_views(m@) =~= o.update(j as int, ev));
        },
        None => {
            m.push((key, v));
            assert(keyed_views(m@) =~= o.push(ev));
        },
    }
}

/// The curriculum with its electives, from the rows of the curriculum sheet (the first
/// row is the header), the semester of each row as the caller read it, the elective
/// codes from the easiest to the hardest, and the code and elective flag of each
/// normalised course name: see `elective_fold` and `link_prev`.
pub fn malla_con_electivos(
    rows: &Vec<Vec<String>>,
    semestres: &Vec<Option<i32>>,
    electivos: &Vec<String>,
    por_nombre: &Vec<(String, String, bool)>,
) -> (r: Vec<(String, RamoDisponible)>)
    requires
        semestres.len() == rows.len(),
    ensures
        keyed_views(r@) == link_prev(elective_fold(rows@, semestres@, electivos@.map_values(|s: String| s@),
            name_index_view(por_nombre@), rows.len() as int).0),
{
    let ghost ev = electivos@.map_values(|s: String| s@);
    let ghost pn = name_index_view(por_nombre@);
    let mut m: Vec<(String, RamoDisponible)> = Vec::new();
    let mut cnt: usize = 0;
    let mut i: usize = 1;
    assert(keyed_views(m@) =~= Seq::<(Seq<char>, RamoView)>::empty());
    while i < rows.len()
        invariant
            1 <= i,
            i <= rows.len() || i == 1,
            semestres.len() == rows.len(),
            ev == electivos@.map_values(|s: String| s@),
            pn == name_index_view(por_nombre@),
            (keyed_views(m@), cnt as int) == elective_fold(rows@, semestres@, ev, pn, i as int),
            cnt <= i,
        decreases rows.len() - i,
    {
        let row = &rows[i];
        let nombre = trim_chars(&cell_text_exec(row, 0));
        let id_text = trim_chars(&cell_text_exec(row, 1));
        let id: i32 = match parse_i32(&id_text) {
            Some(v) => v,
            None => 0,
        };
        if nombre.len() == 0 || id == 0 {
        } else if elective_mark_exec(&cell_text_exec(row, 5)) {
            let code = if cnt < electivos.len() {
                assert(ev[cnt as int] == electivos@[cnt as int]@);
                chars_of(electivos[cnt].as_str())
            } else {
                id_text
            };
            let mut key = lit("electivo_profesional_");
            let digits = int_text_exec(id);
            let mut q: usize = 0;
            let ghost k0 = key@;
            while q < digits.len()
                invariant
                    q <= digits.len(),
                    key@ == k0 + digits@.subrange(0, q as int),
                decreases digits.len() - q,
            {
                key.push(digits[q]);
                q = q + 1;
                assert(key@ =~= k0 + digits@.subrange(0, q as int));
            }
            proof {
                reveal_strlit("electivo_profesional_");
                assert(digits@.subrange(0, digits.len() as int) =~= digits@);
            }
            let v = RamoDisponible {
                id,
                nombre: string_from_chars(&nombre),
                codigo: string_from_chars(&code),
                holgura: 0,
                numb_correlativo: id,
                critico: false,
                requisitos_ids: Vec::new(),
                electivo: true,
                semestre: semestres[i],
            };
            assert(v.requisitos_ids@ =~= Seq::<i32>::empty());
            put_entry(&mut m, key, v);
            cnt = cnt + 1;
        } else {
            let key = normalize_name_chars(&nombre);
            let (code, el) = match name_entry_exec(por_nombre, &key) {
                Some(x) => x,
                None => (Vec::new(), false),
            };
            assert(code@.len() == 0 ==> code@ =~= Seq::<char>::empty());
            let v = RamoDisponible {
                id,
                nombre: string_from_chars(&nombre),
                codigo: string_from_chars(&code),
                holgura: 0,
                numb_correlativo: id,
                critico: false,
                requisitos_ids: Vec::new(),
                electivo: el,
                semestre: semestres[i],
            };
            assert(v.requisitos_ids@ =~= Seq::<i32>::empty());
            put_entry(&mut m, key, v);
        }
        i = i + 1;
    }
    let ghost m1 = keyed_views(m@);
    proof {
        if rows.len() <= 1 {
            reveal_with_fuel(elective_fold, 2);
            assert(elective_fold(rows@, semestres@, ev, pn, rows.len() as int).0 =~= Seq::<(Seq<char>, RamoView)>::empty());
            assert(elective_fold(rows@, semestres@, ev, pn, 1).0 =~= Seq::<(Seq<char>, RamoView)>::empty());
            assert(i == 1);
            assert(m1 == elective_fold(rows@, semestres@, ev, pn, 1).0);
            assert(m1 =~= Seq::<(Seq<char>, RamoView)>::empty());
        } else {
            assert(i == rows.len());
        }
        assert(m1 == elective_fold(rows@, semestres@, ev, pn, rows.len() as int).0);
    }
    let mut out: Vec<(String, RamoDisponible)> = Vec::new();
    let mut k: usize = 0;
    while k < m.len()
        invariant
            k <= m.len(),
            m1 == keyed_views(m@),
            out.len() == k,
            keyed_views(out@) == link_prev(m1).subrange(0, k as int),
        decreases m.len() - k,
    {
        let c = m[k].1.numb_correlativo;
        let prev: i32 = if c == i32::MIN { i32::MAX } else { c - 1 };
        let mut found = false;
        let mut j: usize = 0;
        while j < m.len()
            invariant
                j <= m.len(),
                m1 == keyed_views(m@),
                found == exists|x: int| 0 <= x < j && (#[trigger] m1[x]).1.4 == prev,
            decreases m.len() - j,
        {
            assert(m1[j as int] == (m@[j as int].0@, ramo_view(m@[j as int].1)));
            if m[j].1.numb_correlativo == prev {
                found = true;
            }
            j = j + 1;
        }
        let e = &m[k];
        let mut reqs: Vec<i32> = Vec::new();
        for x in 0..e.1.requisitos_ids.len()
            invariant
                reqs@ == e.1.requisitos_ids@.subrange(0, x as int),
        {
            reqs.push(e.1.requisitos_ids[x]);
        }
        assert(reqs@ =~= e.1.requisitos_ids@);
        if e.1.requisitos_ids.len() == 0 && found {
            reqs = Vec::new();
            reqs.push(prev);
        }
        let r = RamoDisponible {
            id: e.1.id,
            nombre: string_from_chars(&chars_of(e.1.nombre.as_str())),
            codigo: string_from_chars(&chars_of(e.1.codigo.as_str())),
            holgura: e.1.holgura,
            numb_correlativo: e.1.numb_correlativo,
            critico: e.1.critico,
            requisitos_ids: reqs,
            electivo: e.1.electivo,
            semestre: e.1.semestre,
        };
        let ghost ov = keyed_views(out@);
        out.push((string_from_chars(&chars_of(e.0.as_str())), r));
        proof {
            assert(m1[k as int] == (m@[k as int].0@, ramo_view(m@[k as int].1)));
            assert(corr_prev(c) == prev);
            assert(out.len() == k + 1);
            assert(keyed_views(out@) =~= ov.push(keyed_views(out@)[k as int]));
            assert(link_prev(m1).subrange(0, k + 1) =~= link_prev(m1).subrange(0, k as int).push(link_prev(m1)[k as int]));
            if e.1.requisitos_ids.len() == 0 && found {
                assert(reqs@ =~= seq![prev]);
            }
        }
        k = k + 1;
    }
    assert(link_prev(m1).subrange(0, m.len() as int) =~= link_prev(m1));
    out
}

} // verus!
