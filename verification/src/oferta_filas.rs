//! Rows of the academic offer: the base code of a course code, the raw section of a
//! sheet row, and the grouping of rows into sections.
use vstd::prelude::*;
use crate::models::{Seccion, str_views};
use crate::text::{
    chars_of, chars_eq, first_index, lemma_chars_deep_view, lemma_first_index, lit, position_of, replace_all,
    replace_chars, slice_chars, split_chars, split_on, string_from_chars, trim, trim_chars,
};

verus! {

/// Whether `c` is an ASCII letter or digit (`char::is_ascii_alphanumeric`).
pub open spec fn ascii_alnum(c: char) -> bool {
    ('a' <= c <= 'z') || ('A' <= c <= 'Z') || ('0' <= c <= '9')
}

/// `s` without its trailing characters that are not ASCII letters or digits.
pub open spec fn strip_tail(s: Seq<char>) -> Seq<char>
    decreases s.len(),
{
    if s.len() > 0 && !ascii_alnum(s.last()) {
        strip_tail(s.drop_last())
    } else {
        s
    }
}

/// The part of `s` before its first `_` (all of it when there is none).
pub open spec fn before_underscore(s: Seq<char>) -> Seq<char> {
    match first_index(s, '_', 0) {
        Some(k) => s.take(k),
        None => s,
    }
}

/// The base code of a course code: trimmed, cut at the first `_`, without trailing
/// characters that are not ASCII letters or digits (`"CBF1000_LA01"` is `"CBF1000"`).
pub open spec fn base_code(code: Seq<char>) -> Seq<char> {
    strip_tail(before_underscore(trim(code)))
}

/// `char::is_ascii_alphanumeric`.
fn is_ascii_alnum(c: char) -> (r: bool)
    ensures
        r == ascii_alnum(c),
{
    ('a' <= c && c <= 'z') || ('A' <= c && c <= 'Z') || ('0' <= c && c <= '9')
}

/// The base code of a course code, without the suffix of a class event.
pub fn base_course_code(code: &str) -> (r: String)
    ensures
        r@ == base_code(code@),
{
    let t = trim_chars(&chars_of(code));
    let first = match position_of(&t, '_') {
        Some(k) => {
            proof {
                lemma_first_index(t@, '_', 0);
            }
            slice_chars(&t, 0, k)
        },
        None => slice_chars(&t, 0, t.len()),
    };
    assert(first@ == before_underscore(t@)) by {
        assert(t@.subrange(0, t.len() as int) =~= t@);
    }
    let mut n: usize = first.len();
    assert(first@.take(n as int) =~= first@);
    while n > 0 && !is_ascii_alnum(first[n - 1])
        invariant
            n <= first.len(),
            strip_tail(first@.take(n as int)) == strip_tail(first@),
        decreases n,
    {
        assert(first@.take(n as int).drop_last() =~= first@.take(n - 1));
        n = n - 1;
    }
    let out = slice_chars(&first, 0, n);
    assert(out@ =~= first@.take(n as int));
    string_from_chars(&out)
}

/// A section as plain values: code, name, section, timetable entries, teacher, box code.
pub type SeccionView = (Seq<char>, Seq<char>, Seq<char>, Seq<Seq<char>>, Seq<char>, Seq<char>);

/// The plain values of a section.
pub open spec fn seccion_view(s: Seccion) -> SeccionView {
    (s.codigo@, s.nombre@, s.seccion@, str_views(s.horario@), s.profesor@, s.codigo_box@)
}

/// The trimmed non-empty pieces of `ps`, in order.
pub open spec fn nonempty_trims(ps: Seq<Seq<char>>) -> Seq<Seq<char>>
    decreases ps.len(),
{
    if ps.len() == 0 {
        Seq::empty()
    } else if trim(ps.last()).len() > 0 {
        nonempty_trims(ps.drop_last()).push(trim(ps.last()))
    } else {
        nonempty_trims(ps.drop_last())
    }
}

/// The timetable entries of a cell: `"Sin horario"` for an empty cell, else the
/// trimmed non-empty pieces between `,` and `;`.
pub open spec fn horario_entries(h: Seq<char>) -> Seq<Seq<char>> {
    if h.len() == 0 {
        seq!["Sin horario"@]
    } else {
        nonempty_trims(split_on(replace_all(h, seq![';'], seq![',']), ','))
    }
}

/// The cell `k` of a row, when the row has one.
pub open spec fn cell(row: Seq<String>, k: int) -> Option<Seq<char>> {
    if 0 <= k < row.len() {
        Some(row[k]@)
    } else {
        None
    }
}

/// A cell's text, or `dflt` when the row has no such cell.
pub open spec fn cell_or(row: Seq<String>, k: int, dflt: Seq<char>) -> Seq<char> {
    match cell(row, k) {
        Some(c) => c,
        None => dflt,
    }
}

/// Whether every cell of the row is blank.
pub open spec fn blank_row(row: Seq<String>) -> bool {
    forall|k: int| 0 <= k < row.len() ==> trim(#[trigger] row[k]@).len() == 0
}

/// The raw section of one offer row (code in column 2, name in 3, section in 4,
/// timetable in 8, teacher in 10, box code in 19). Cells read from a workbook are
/// trimmed, missing ones empty, and an empty box code is the course code. Cells read
/// from the sheet's XML keep their text; missing ones are `"Sin nombre"`, `"1"`, no
/// timetable, `"Sin asignar"` and the course code. Rows without a code give none.
pub open spec fn offer_row(row: Seq<String>, from_xml: bool) -> Option<SeccionView> {
    let codigo = trim(cell_or(row, 1, Seq::empty()));
    if (!from_xml && row.len() == 0) || (from_xml && blank_row(row)) || codigo.len() == 0 {
        None
    } else if !from_xml {
        let cb = trim(cell_or(row, 18, Seq::empty()));
        Some((codigo, trim(cell_or(row, 2, Seq::empty())), trim(cell_or(row, 3, Seq::empty())),
            horario_entries(trim(cell_or(row, 7, Seq::empty()))), trim(cell_or(row, 9, Seq::empty())),
            if cb.len() == 0 { codigo } else { cb }))
    } else {
        Some((codigo, cell_or(row, 2, "Sin nombre"@), cell_or(row, 3, "1"@), horario_entries(cell_or(row, 7, Seq::empty())),
            cell_or(row, 9, "Sin asignar"@), cell_or(row, 18, codigo)))
    }
}

fn nonempty_trims_exec(ps: &Vec<Vec<char>>) -> (r: Vec<String>)
    ensures
        str_views(r@) == nonempty_trims(ps.deep_view()),
{
    let mut out: Vec<String> = Vec::new();
    let mut i: usize = 0;
    while i < ps.len()
        invariant
            i <= ps.len(),
            str_views(out@) == nonempty_trims(ps.deep_view().subrange(0, i as int)),
        decreases ps.len() - i,
    {
        assert(ps.deep_view().subrange(0, i + 1).drop_last() =~= ps.deep_view().subrange(0, i as int));
        proof {
            lemma_chars_deep_view(ps@[i as int]);
        }
        let t = trim_chars(&ps[i]);
        if t.len() > 0 {
            let ghost o = str_views(out@);
            out.push(string_from_chars(&t));
            assert(str_views(out@) =~= o.push(t@));
        }
        i = i + 1;
    }
    assert(ps.deep_view().subrange(0, ps.len() as int) =~= ps.deep_view());
    out
}

/// The timetable entries of a timetable cell.
fn horario_entries_exec(h: &Vec<char>) -> (r: Vec<String>)
    ensures
        str_views(r@) == horario_entries(h@),
{
    if h.len() == 0 {
        let mut out: Vec<String> = Vec::new();
        out.push(String::from_str("Sin horario"));
        assert(str_views(out@) =~= seq!["Sin horario"@]);
        return out;
    }
    let semi = lit(";");
    let comma = lit(",");
    proof {
        reveal_strlit(";");
        reveal_strlit(",");
    }
    assert(semi@ =~= seq![';']);
    assert(comma@ =~= seq![',']);
    let unified = replace_chars(h, &semi, &comma);
    let pieces = split_chars(&unified, ',');
    nonempty_trims_exec(&pieces)
}

/// The text of cell `k`, or `dflt`.
fn cell_text(row: &Vec<String>, k: usize, dflt: &str) -> (r: Vec<char>)
    ensures
        r@ == cell_or(row@, k as int, dflt@),
{
    if k < row.len() {
        chars_of(row[k].as_str())
    } else {
        chars_of(dflt)
    }
}

fn blank_row_exec(row: &Vec<String>) -> (r: bool)
    ensures
        r == blank_row(row@),
{
    let mut k: usize = 0;
    while k < row.len()
        invariant
            k <= row.len(),
            forall|j: int| 0 <= j < k ==> trim(#[trigger] row@[j]@).len() == 0,
        decreases row.len() - k,
    {
        if trim_chars(&chars_of(row[k].as_str())).len() > 0 {
            return false;
        }
        k = k + 1;
    }
    true
}

/// The raw section of one row of the academic offer, `None` for a row without a
/// course code (see `offer_row`).
pub fn oferta_row(row: &Vec<String>, from_xml: bool) -> (r: Option<Seccion>)
    ensures
        match r {
            Some(s) => offer_row(row@, from_xml) == Some(seccion_view(s)),
            None => offer_row(row@, from_xml) is None,
        },
{
    proof {
        reveal_strlit("");
        reveal_strlit("Sin nombre");
        reveal_strlit("1");
        reveal_strlit("Sin asignar");
    }
    assert(""@ =~= Seq::<char>::empty());
    let codigo = trim_chars(&cell_text(row, 1, ""));
    if !from_xml && row.len() == 0 {
        return None;
    }
    if from_xml && blank_row_exec(row) {
        return None;
    }
    if codigo.len() == 0 {
        return None;
    }
    if !from_xml {
        let cb = trim_chars(&cell_text(row, 18, ""));
        let codigo_box = if cb.len() == 0 { string_from_chars(&codigo) } else { string_from_chars(&cb) };
        Some(Seccion {
            codigo: string_from_chars(&codigo),
            nombre: string_from_chars(&trim_chars(&cell_text(row, 2, ""))),
            seccion: string_from_chars(&trim_chars(&cell_text(row, 3, ""))),
            horario: horario_entries_exec(&trim_chars(&cell_text(row, 7, ""))),
            profesor: string_from_chars(&trim_chars(&cell_text(row, 9, ""))),
            codigo_box,
        })
    } else {
        let codigo_box = if 18 < row.len() { row[18].clone() } else { string_from_chars(&codigo) };
        Some(Seccion {
            codigo: string_from_chars(&codigo),
            nombre: string_from_chars(&cell_text(row, 2, "Sin nombre")),
            seccion: string_from_chars(&cell_text(row, 3, "1")),
            horario: horario_entries_exec(&cell_text(row, 7, "")),
            profesor: string_from_chars(&cell_text(row, 9, "Sin asignar")),
            codigo_box,
        })
    }
}

/// The key under which rows are grouped: base code, section, box code.
pub open spec fn row_key(r: SeccionView) -> (Seq<char>, Seq<char>, Seq<char>) {
    (base_code(r.0), r.2, r.5)
}

/// The key of a grouped section (its code is already the base code).
pub open spec fn group_key(a: SeccionView) -> (Seq<char>, Seq<char>, Seq<char>) {
    (a.0, a.2, a.5)
}

/// Index of the first group of `st[i..]` with key `key`.
pub open spec fn find_group(st: Seq<SeccionView>, key: (Seq<char>, Seq<char>, Seq<char>), i: int) -> Option<int>
    decreases st.len() - i,
{
    if i < 0 || i >= st.len() {
        None
    } else if group_key(st[i]) == key {
        Some(i)
    } else {
        find_group(st, key, i + 1)
    }
}

/// `hs` followed by the entries of `new` that are not already there, in order.
pub open spec fn add_unique(hs: Seq<Seq<char>>, new: Seq<Seq<char>>) -> Seq<Seq<char>>
    decreases new.len(),
{
    if new.len() == 0 {
        hs
    } else {
        let h = add_unique(hs, new.drop_last());
        if h.contains(new.last()) {
            h
        } else {
            h.push(new.last())
        }
    }
}

/// A group after taking in one more row: the first name, the first non-blank
/// teacher, and the timetable entries not yet seen.
pub open spec fn absorb(a: SeccionView, r: SeccionView) -> SeccionView {
    (a.0, if a.1.len() == 0 { r.1 } else { a.1 }, a.2, add_unique(a.3, r.3),
        if a.4.len() == 0 && trim(r.4).len() > 0 { r.4 } else { a.4 }, a.5)
}

/// The group that a row starts.
pub open spec fn fresh_group(r: SeccionView) -> SeccionView {
    absorb((base_code(r.0), Seq::empty(), r.2, Seq::empty(), Seq::empty(), r.5), r)
}

/// The groups of the rows, in order of first appearance of their key.
pub open spec fn group_rows(rows: Seq<SeccionView>) -> Seq<SeccionView>
    decreases rows.len(),
{
    if rows.len() == 0 {
        Seq::empty()
    } else {
        let st = group_rows(rows.drop_last());
        match find_group(st, row_key(rows.last()), 0) {
            Some(i) => st.update(i, absorb(st[i], rows.last())),
            None => st.push(fresh_group(rows.last())),
        }
    }
}

/// A finished group: `"Sin horario"` when it has no timetable entry.
pub open spec fn finish_group(a: SeccionView) -> SeccionView {
    if a.3.len() == 0 {
        (a.0, a.1, a.2, seq!["Sin horario"@], a.4, a.5)
    } else {
        a
    }
}

/// The sections of the offer rows: one per base code, section and box code.
pub open spec fn grouped_sections(rows: Seq<SeccionView>) -> Seq<SeccionView> {
    group_rows(rows).map_values(|a: SeccionView| finish_group(a))
}

proof fn lemma_find_group(st: Seq<SeccionView>, key: (Seq<char>, Seq<char>, Seq<char>), i: int)
    requires
        0 <= i,
    ensures
        match find_group(st, key, i) {
            Some(j) => i <= j < st.len() && group_key(st[j]) == key
                && forall|q: int| i <= q < j ==> group_key(#[trigger] st[q]) != key,
            None => forall|q: int| i <= q < st.len() ==> group_key(#[trigger] st[q]) != key,
        },
    decreases st.len() - i,
{
    if i < st.len() && group_key(st[i]) != key {
        lemma_find_group(st, key, i + 1);
    }
}

fn contains_string(hs: &Vec<String>, h: &String) -> (r: bool)
    ensures
        r == str_views(hs@).contains(h@),
{
    let mut k: usize = 0;
    while k < hs.len()
        invariant
            k <= hs.len(),
            forall|j: int| 0 <= j < k ==> (#[trigger] hs@[j])@ != h@,
        decreases hs.len() - k,
    {
        if chars_eq(&chars_of(hs[k].as_str()), &chars_of(h.as_str())) {
            assert(str_views(hs@)[k as int] == h@);
            return true;
        }
        k = k + 1;
    }
    assert forall|j: int| 0 <= j < str_views(hs@).len() implies str_views(hs@)[j] != h@ by {
        assert(hs@[j]@ != h@);
    }
    false
}

fn add_unique_exec(hs: &mut Vec<String>, new: &Vec<String>)
    ensures
        str_views(final(hs)@) == add_unique(str_views(old(hs)@), str_views(new@)),
{
    let ghost h0 = str_views(hs@);
    let ghost nv = str_views(new@);
    let mut k: usize = 0;
    while k < new.len()
        invariant
            k <= new.len(),
            nv == str_views(new@),
            str_views(hs@) == add_unique(h0, nv.subrange(0, k as int)),
        decreases new.len() - k,
    {
        assert(nv.subrange(0, k + 1).drop_last() =~= nv.subrange(0, k as int));
        assert(nv.subrange(0, k + 1).last() == new@[k as int]@);
        if !contains_string(hs, &new[k]) {
            let ghost o = str_views(hs@);
            hs.push(new[k].clone());
            assert(str_views(hs@) =~= o.push(new@[k as int]@));
        }
        k = k + 1;
    }
    assert(nv.subrange(0, new.len() as int) =~= nv);
}

fn copy_section(s: &Seccion) -> (r: Seccion)
    ensures
        seccion_view(r) == seccion_view(*s),
{
    Seccion {
        codigo: s.codigo.clone(),
        nombre: s.nombre.clone(),
        seccion: s.seccion.clone(),
        horario: crate::models::copy_strings(&s.horario),
        profesor: s.profesor.clone(),
        codigo_box: s.codigo_box.clone(),
    }
}

/// Takes row `r` into group `a`.
fn absorb_exec(a: &mut Seccion, r: &Seccion)
    ensures
        seccion_view(*final(a)) == absorb(seccion_view(*old(a)), seccion_view(*r)),
{
    if a.nombre.as_str().unicode_len() == 0 {
        a.nombre = r.nombre.clone();
    }
    add_unique_exec(&mut a.horario, &r.horario);
    if a.profesor.as_str().unicode_len() == 0 && trim_chars(&chars_of(r.profesor.as_str())).len() > 0 {
        a.profesor = r.profesor.clone();
    }
}

/// Groups raw offer rows into sections, one per base code, section and box code, in
/// order of first appearance: the name of the first row, the first non-blank teacher,
/// every timetable entry once (`"Sin horario"` when there is none).
pub fn agrupar_filas_oferta(rows: &Vec<Seccion>) -> (r: Vec<Seccion>)
    ensures
        r@.map_values(|s: Seccion| seccion_view(s)) == grouped_sections(rows@.map_values(|s: Seccion| seccion_view(s))),
{
    let ghost rv = rows@.map_values(|s: Seccion| seccion_view(s));
    let mut groups: Vec<Seccion> = Vec::new();
    let mut i: usize = 0;
    while i < rows.len()
        invariant
            i <= rows.len(),
            rv == rows@.map_values(|s: Seccion| seccion_view(s)),
            groups@.map_values(|s: Seccion| seccion_view(s)) == group_rows(rv.subrange(0, i as int)),
        decreases rows.len() - i,
    {
        let ghost gv = groups@.map_values(|s: Seccion| seccion_view(s));
        assert(rv.subrange(0, i + 1).drop_last() =~= rv.subrange(0, i as int));
        assert(rv.subrange(0, i + 1).last() == seccion_view(rows@[i as int]));
        let r = &rows[i];
        let base = base_course_code(r.codigo.as_str());
        let bc = chars_of(base.as_str());
        let sc = chars_of(r.seccion.as_str());
        let cb = chars_of(r.codigo_box.as_str());
        let ghost key = row_key(seccion_view(*r));
        let mut j: usize = 0;
        let mut found = false;
        while j < groups.len()
            invariant_except_break
                !found,
            invariant
                j <= groups.len(),
                gv == groups@.map_values(|s: Seccion| seccion_view(s)),
                key == (bc@, sc@, cb@),
                forall|q: int| 0 <= q < j ==> group_key(#[trigger] gv[q]) != key,
            ensures
                found ==> j < groups.len() && group_key(gv[j as int]) == key,
                !found ==> forall|q: int| 0 <= q < gv.len() ==> group_key(#[trigger] gv[q]) != key,
            decreases groups.len() - j,
        {
            let g = &groups[j];
            assert(gv[j as int] == seccion_view(*g));
            if chars_eq(&chars_of(g.codigo.as_str()), &bc) && chars_eq(&chars_of(g.seccion.as_str()), &sc)
                && chars_eq(&chars_of(g.codigo_box.as_str()), &cb) {
                found = true;
                break;
            }
            j = j + 1;
        }
        proof {
            lemma_find_group(gv, key, 0);
        }
        if found {
            assert(find_group(gv, key, 0) == Some(j as int)) by {
                match find_group(gv, key, 0) {
                    Some(x) => {
                        if x < j {
                            assert(group_key(gv[x]) != key);
                        } else if x > j {
                            assert(group_key(gv[j as int]) != key);
                        }
                    },
                    None => {
                        assert(group_key(gv[j as int]) != key);
                    },
                }
            }
            let mut g = copy_section(&groups[j]);
            absorb_exec(&mut g, r);
            let ghost nv = seccion_view(g);
            groups.set(j, g);
            assert(groups@.map_values(|s: Seccion| seccion_view(s)) =~= gv.update(j as int, nv));
        } else {
            assert(find_group(gv, key, 0) is None) by {
                match find_group(gv, key, 0) {
                    Some(x) => {
                        assert(group_key(gv[x]) != key);
                    },
                    None => {},
                }
            }
            let mut g = Seccion {
                codigo: base,
                nombre: String::new(),
                seccion: r.seccion.clone(),
                horario: Vec::new(),
                profesor: String::new(),
                codigo_box: r.codigo_box.clone(),
            };
            assert(seccion_view(g) =~= (base_code(r.codigo@), Seq::<char>::empty(), r.seccion@, Seq::<Seq<char>>::empty(), Seq::<char>::empty(), r.codigo_box@));
            absorb_exec(&mut g, r);
            let ghost nv = seccion_view(g);
            groups.push(g);
            assert(groups@.map_values(|s: Seccion| seccion_view(s)) =~= gv.push(nv));
        }
        i = i + 1;
    }
    assert(rv.subrange(0, rows.len() as int) =~= rv);
    let ghost gv = groups@.map_values(|s: Seccion| seccion_view(s));
    let mut out: Vec<Seccion> = Vec::new();
    let mut k: usize = 0;
    while k < groups.len()
        invariant
            k <= groups.len(),
            gv == groups@.map_values(|s: Seccion| seccion_view(s)),
            out@.map_values(|s: Seccion| seccion_view(s)) == gv.subrange(0, k as int).map_values(|a: SeccionView| finish_group(a)),
        decreases groups.len() - k,
    {
        let mut g = copy_section(&groups[k]);
        if g.horario.len() == 0 {
            g.horario.push(String::from_str("Sin horario"));
            assert(str_views(g.horario@) =~= seq!["Sin horario"@]);
        }
        let ghost o = out@.map_values(|s: Seccion| seccion_view(s));
        let ghost nv = seccion_view(g);
        assert(nv == finish_group(gv[k as int]));
        out.push(g);
        assert(out@.map_values(|s: Seccion| seccion_view(s)) =~= o.push(nv));
        assert(gv.subrange(0, k + 1).map_values(|a: SeccionView| finish_group(a)) =~= gv.subrange(0, k as int).map_values(|a: SeccionView| finish_group(a)).push(finish_group(gv[k as int])));
        k = k + 1;
    }
    assert(gv.subrange(0, groups.len() as int) =~= gv);
    out
}

/// The raw sections of the rows `1..n` of a sheet (row 0 is the header).
pub open spec fn sheet_rows(rows: Seq<Vec<String>>, from_xml: bool, n: int) -> Seq<SeccionView>
    decreases n,
{
    if n <= 1 {
        Seq::empty()
    } else {
        match offer_row(rows[n - 1]@, from_xml) {
            Some(v) => sheet_rows(rows, from_xml, n - 1).push(v),
            None => sheet_rows(rows, from_xml, n - 1),
        }
    }
}

/// The raw sections of a whole sheet.
pub open spec fn sheet_sections(sheet: Vec<Vec<String>>, from_xml: bool) -> Seq<SeccionView> {
    sheet_rows(sheet@, from_xml, sheet@.len() as int)
}

/// Index of the first sheet of `sheets[i..]` with at least one section row.
pub open spec fn first_filled_sheet(sheets: Seq<Vec<Vec<String>>>, from_xml: bool, i: int) -> Option<int>
    decreases sheets.len() - i,
{
    if i < 0 || i >= sheets.len() {
        None
    } else if sheet_sections(sheets[i], from_xml).len() > 0 {
        Some(i)
    } else {
        first_filled_sheet(sheets, from_xml, i + 1)
    }
}

/// The raw sections of the rows of one sheet, header skipped.
fn sheet_rows_exec(sheet: &Vec<Vec<String>>, from_xml: bool) -> (r: Vec<Seccion>)
    ensures
        r@.map_values(|s: Seccion| seccion_view(s)) == sheet_sections(*sheet, from_xml),
{
    let mut out: Vec<Seccion> = Vec::new();
    let mut k: usize = 1;
    if sheet.len() == 0 {
        return out;
    }
    while k < sheet.len()
        invariant
            1 <= k <= sheet.len(),
            out@.map_values(|s: Seccion| seccion_view(s)) == sheet_rows(sheet@, from_xml, k as int),
        decreases sheet.len() - k,
    {
        let ghost o = out@.map_values(|s: Seccion| seccion_view(s));
        match oferta_row(&sheet[k], from_xml) {
            Some(sec) => {
                let ghost v = seccion_view(sec);
                out.push(sec);
                assert(out@.map_values(|s: Seccion| seccion_view(s)) =~= o.push(v));
            },
            None => {},
        }
        k = k + 1;
    }
    out
}

/// The sections of an academic offer read sheet by sheet: the rows of the first sheet
/// that has any, grouped by base code, section and box code; `None` when no sheet has
/// a row with a course code.
pub fn secciones_de_hojas(sheets: &Vec<Vec<Vec<String>>>, from_xml: bool) -> (r: Option<Vec<Seccion>>)
    ensures
        match first_filled_sheet(sheets@, from_xml, 0) {
            Some(i) => r matches Some(v) && v@.map_values(|s: Seccion| seccion_view(s))
                == grouped_sections(sheet_sections(sheets@[i], from_xml)),
            None => r is None,
        },
{
    let mut i: usize = 0;
    while i < sheets.len()
        invariant
            i <= sheets.len(),
            first_filled_sheet(sheets@, from_xml, 0) == first_filled_sheet(sheets@, from_xml, i as int),
        decreases sheets.len() - i,
    {
        let rows = sheet_rows_exec(&sheets[i], from_xml);
        if rows.len() > 0 {
            assert(first_filled_sheet(sheets@, from_xml, i as int) == Some(i as int));
            return Some(agrupar_filas_oferta(&rows));
        }
        i = i + 1;
    }
    None
}

/// Whether no two groups share a key.
pub open spec fn keys_distinct(gs: Seq<SeccionView>) -> bool {
    forall|a: int, b: int| 0 <= a < b < gs.len() ==> group_key(#[trigger] gs[a]) != group_key(#[trigger] gs[b])
}

proof fn lemma_group_rows_distinct(rows: Seq<SeccionView>)
    ensures
        keys_distinct(group_rows(rows)),
        forall|k: int| 0 <= k < rows.len() ==> (exists|g: int| 0 <= g < group_rows(rows).len()
            && group_key(#[trigger] group_rows(rows)[g]) == row_key(#[trigger] rows[k])),
    decreases rows.len(),
{
    if rows.len() > 0 {
        let pre = rows.drop_last();
        lemma_group_rows_distinct(pre);
        let st = group_rows(pre);
        let r = rows.last();
        lemma_find_group(st, row_key(r), 0);
        let gs = group_rows(rows);
        assert forall|k: int| 0 <= k < rows.len() implies (exists|g: int| 0 <= g < gs.len()
            && group_key(#[trigger] gs[g]) == row_key(#[trigger] rows[k])) by {
            if k < rows.len() - 1 {
                assert(rows[k] == pre[k]);
                let g = choose|g: int| 0 <= g < st.len() && group_key(#[trigger] st[g]) == row_key(pre[k]);
                assert(group_key(gs[g]) == group_key(st[g]));
            } else {
                match find_group(st, row_key(r), 0) {
                    Some(i) => {
                        assert(group_key(gs[i]) == row_key(r));
                    },
                    None => {
                        assert(group_key(gs[st.len() as int]) == row_key(r));
                    },
                }
            }
        }
    }
}

/// The sections of grouped offer rows never share base code, section and box
/// code, and every row's key is the key of some section.
pub proof fn lemma_grouped_keys(rows: Seq<SeccionView>)
    ensures
        keys_distinct(grouped_sections(rows)),
        forall|k: int| 0 <= k < rows.len() ==> (exists|g: int| 0 <= g < grouped_sections(rows).len()
            && group_key(#[trigger] grouped_sections(rows)[g]) == row_key(#[trigger] rows[k])),
{
    lemma_group_rows_distinct(rows);
    let gs = group_rows(rows);
    let fs = grouped_sections(rows);
    assert forall|a: int| 0 <= a < fs.len() implies group_key(#[trigger] fs[a]) == group_key(gs[a]) by {}
    assert forall|k: int| 0 <= k < rows.len() implies (exists|g: int| 0 <= g < fs.len()
        && group_key(#[trigger] fs[g]) == row_key(#[trigger] rows[k])) by {
        let g = choose|g: int| 0 <= g < gs.len() && group_key(#[trigger] gs[g]) == row_key(rows[k]);
        assert(group_key(fs[g]) == group_key(gs[g]));
    }
}


} // verus!
