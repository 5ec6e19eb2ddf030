//! The prerequisite tables of a curriculum workbook: which sheets hold them, the code
//! and prerequisite columns of each, and the lists of prerequisite codes per course.
use vstd::prelude::*;
use crate::text::{
    chars_eq, chars_of, contains_seq, contains_sub, lit, lower_of, string_from_chars, to_lower, trim, trim_chars,
};

verus! {

/// The text of cell `col` of a row; empty past the row's end.
pub open spec fn cell_at(row: Seq<String>, col: int) -> Seq<char> {
    if 0 <= col < row.len() {
        row[col]@
    } else {
        Seq::empty()
    }
}

/// Whether a header cell names the course-code column.
pub open spec fn code_header(cell: Seq<char>) -> bool {
    contains_seq(lower_of(cell), "código"@) || contains_seq(lower_of(cell), "codigo"@) || contains_seq(lower_of(cell), "id"@)
}

/// Whether a header cell names the prerequisite column.
pub open spec fn req_header(cell: Seq<char>) -> bool {
    contains_seq(lower_of(cell), "requisito"@) || contains_seq(lower_of(cell), "requisitos"@)
        || contains_seq(lower_of(cell), "requerimiento"@)
}

/// The code and prerequisite columns after reading the first `k` header cells: the
/// last cell naming each, else columns 0 and 1.
pub open spec fn header_cols(header: Seq<String>, k: int) -> (int, int)
    decreases k,
{
    if k <= 0 || k > header.len() {
        (0, 1)
    } else {
        let (c, p) = header_cols(header, k - 1);
        (
            if code_header(header[k - 1]@) { k - 1 } else { c },
            if req_header(header[k - 1]@) { k - 1 } else { p },
        )
    }
}

/// The columns of a sheet: read from its first row, if any.
pub open spec fn sheet_cols(rows: Seq<Vec<String>>) -> (int, int) {
    if rows.len() > 0 {
        header_cols(rows[0]@, rows[0]@.len() as int)
    } else {
        (0, 1)
    }
}

/// Whether `c` separates prerequisite codes.
pub open spec fn is_sep(c: char) -> bool {
    c == ',' || c == ';'
}

/// Splitting state after reading `s`: the finished pieces and the piece in progress.
pub open spec fn sep_state(s: Seq<char>) -> (Seq<Seq<char>>, Seq<char>)
    decreases s.len(),
{
    if s.len() == 0 {
        (Seq::empty(), Seq::empty())
    } else {
        let (done, cur) = sep_state(s.drop_last());
        if is_sep(s.last()) {
            (done.push(cur), Seq::empty())
        } else {
            (done, cur.push(s.last()))
        }
    }
}

/// The trimmed non-empty pieces among the first `k` of `parts`.
pub open spec fn kept_pieces(parts: Seq<Seq<char>>, k: int) -> Seq<Seq<char>>
    decreases k,
{
    if k <= 0 || k > parts.len() {
        Seq::empty()
    } else if trim(parts[k - 1]).len() > 0 {
        kept_pieces(parts, k - 1).push(trim(parts[k - 1]))
    } else {
        kept_pieces(parts, k - 1)
    }
}

/// The prerequisite codes written in a cell: split at commas and semicolons, trimmed,
/// empty pieces dropped.
pub open spec fn req_codes(s: Seq<char>) -> Seq<Seq<char>> {
    let (done, cur) = sep_state(s);
    kept_pieces(done.push(cur), done.len() + 1int)
}

/// The first position of `key` among the keys of `m`, from `i` on.
pub open spec fn key_pos(m: Seq<(Seq<char>, Seq<Seq<char>>)>, key: Seq<char>, i: int) -> Option<int>
    decreases m.len() - i,
{
    if i < 0 || i >= m.len() {
        None
    } else if m[i].0 == key {
        Some(i)
    } else {
        key_pos(m, key, i + 1)
    }
}

/// `m` with `list` appended to the entry of `key`, or with a new entry at the end.
pub open spec fn append_entry(m: Seq<(Seq<char>, Seq<Seq<char>>)>, key: Seq<char>, list: Seq<Seq<char>>)
    -> Seq<(Seq<char>, Seq<Seq<char>>)>
{
    match key_pos(m, key, 0) {
        Some(i) => m.update(i, (key, m[i].1 + list)),
        None => m.push((key, list)),
    }
}

/// The table after the rows `1..k` of a sheet with columns `c` (code) and `p`
/// (prerequisites): a row with both cells filled adds its codes, if any, to its course.
pub open spec fn rows_table(
    m: Seq<(Seq<char>, Seq<Seq<char>>)>,
    rows: Seq<Vec<String>>,
    c: int,
    p: int,
    k: int,
) -> Seq<(Seq<char>, Seq<Seq<char>>)>
    decreases k,
{
    if k <= 1 || k > rows.len() {
        m
    } else {
        let prev = rows_table(m, rows, c, p, k - 1);
        let code = cell_at(rows[k - 1]@, c);
        let raw = cell_at(rows[k - 1]@, p);
        if code.len() == 0 || raw.len() == 0 || req_codes(raw).len() == 0 {
            prev
        } else {
            append_entry(prev, code, req_codes(raw))
        }
    }
}

/// The table after the sheets `sheets[lo..k]`.
pub open spec fn sheets_table(sheets: Seq<Vec<Vec<String>>>, lo: int, k: int) -> Seq<(Seq<char>, Seq<Seq<char>>)>
    decreases k,
{
    if k <= lo || k <= 0 || k > sheets.len() {
        Seq::empty()
    } else {
        let rows = sheets[k - 1]@;
        rows_table(sheets_table(sheets, lo, k - 1), rows, sheet_cols(rows).0, sheet_cols(rows).1, rows.len() as int)
    }
}

/// Whether a workbook of this file name keeps its prerequisites on its first sheet
/// (the historical curricula of 2010, 2018 and 2020).
pub open spec fn first_sheet_file(file_name: Seq<char>) -> bool {
    contains_seq(lower_of(file_name), "malla2020"@) || contains_seq(lower_of(file_name), "malla2018"@)
        || contains_seq(lower_of(file_name), "malla2010"@)
}

/// The prerequisite table of a workbook: from its first sheet for the historical
/// curricula, else from every sheet but the first.
pub open spec fn prereq_table(file_name: Seq<char>, sheets: Seq<Vec<Vec<String>>>) -> Seq<(Seq<char>, Seq<Seq<char>>)> {
    if sheets.len() == 0 {
        Seq::empty()
    } else if first_sheet_file(file_name) {
        sheets_table(sheets, 0, 1)
    } else {
        sheets_table(sheets, 1, sheets.len() as int)
    }
}

/// The table as plain values.
pub open spec fn table_view(t: Seq<(String, Vec<String>)>) -> Seq<(Seq<char>, Seq<Seq<char>>)> {
    t.map_values(|e: (String, Vec<String>)| (e.0@, e.1@.map_values(|s: String| s@)))
}

/// Whether header cell `cell` names the code column and the prerequisite column.
fn header_kind(cell: &String) -> (r: (bool, bool))
    ensures
        r.0 == code_header(cell@),
        r.1 == req_header(cell@),
{
    let low = to_lower(&chars_of(cell.as_str()));
    let is_code = contains_sub(&low, &lit("código")) || contains_sub(&low, &lit("codigo")) || contains_sub(&low, &lit("id"));
    let is_req = contains_sub(&low, &lit("requisito")) || contains_sub(&low, &lit("requisitos"))
        || contains_sub(&low, &lit("requerimiento"));
    (is_code, is_req)
}

/// The code and prerequisite columns of a sheet.
fn columns_of(rows: &Vec<Vec<String>>) -> (r: (usize, usize))
    ensures
        r.0 as int == sheet_cols(rows@).0,
        r.1 as int == sheet_cols(rows@).1,
{
    if rows.len() == 0 {
        return (0, 1);
    }
    let header = &rows[0];
    let mut c: usize = 0;
    let mut p: usize = 1;
    let mut k: usize = 0;
    while k < header.len()
        invariant
            k <= header.len(),
            header == &rows@[0],
            (c as int, p as int) == header_cols(header@, k as int),
        decreases header.len() - k,
    {
        let (is_code, is_req) = header_kind(&header[k]);
        if is_code {
            c = k;
        }
        if is_req {
            p = k;
        }
        k = k + 1;
    }
    (c, p)
}

/// The text of cell `col` of a row, as characters; empty past the row's end.
fn cell_chars(row: &Vec<String>, col: usize) -> (r: Vec<char>)
    ensures
        r@ == cell_at(row@, col as int),
{
    if col < row.len() {
        chars_of(row[col].as_str())
    } else {
        Vec::new()
    }
}

/// The prerequisite codes written in a cell.
fn req_codes_exec(raw: &Vec<char>) -> (r: Vec<Vec<char>>)
    ensures
        r.deep_view() == req_codes(raw@),
{
    let mut done: Vec<Vec<char>> = Vec::new();
    let mut cur: Vec<char> = Vec::new();
    let mut i: usize = 0;
    while i < raw.len()
        invariant
            i <= raw.len(),
            (done.deep_view(), cur@) == sep_state(raw@.subrange(0, i as int)),
        decreases raw.len() - i,
    {
        let ghost pre = raw@.subrange(0, i as int);
        assert(raw@.subrange(0, i + 1).drop_last() =~= pre);
        assert(raw@.subrange(0, i + 1).last() == raw@[i as int]);
        let c = raw[i];
        if c == ',' || c == ';' {
            let ghost od = done.deep_view();
            let ghost oc = cur@;
            let piece = cur;
            cur = Vec::new();
            done.push(piece);
            proof {
                crate::text::lemma_chars_deep_view(done@[done.len() - 1]);
                assert(done.deep_view() =~= od.push(oc));
            }
        } else {
            cur.push(c);
        }
        i = i + 1;
    }
    assert(raw@.subrange(0, raw.len() as int) =~= raw@);
    let ghost od = done.deep_view();
    let ghost oc = cur@;
    done.push(cur);
    proof {
        crate::text::lemma_chars_deep_view(done@[done.len() - 1]);
        assert(done.deep_view() =~= od.push(oc));
    }
    let ghost parts = done.deep_view();
    let mut out: Vec<Vec<char>> = Vec::new();
    let mut k: usize = 0;
    while k < done.len()
        invariant
            k <= done.len(),
            parts == done.deep_view(),
            out.deep_view() == kept_pieces(parts, k as int),
        decreases done.len() - k,
    {
        let t = trim_chars(&done[k]);
        proof {
            crate::text::lemma_chars_deep_view(done@[k as int]);
        }
        if t.len() > 0 {
            let ghost o = out.deep_view();
            let ghost tv = t@;
            out.push(t);
            proof {
                crate::text::lemma_chars_deep_view(out@[out.len() - 1]);
                assert(out.deep_view() =~= o.push(tv));
            }
        }
        k = k + 1;
    }
    out
}

/// The working table as plain values.
pub open spec fn work_view(t: Seq<(Vec<char>, Vec<Vec<char>>)>) -> Seq<(Seq<char>, Seq<Seq<char>>)> {
    t.map_values(|e: (Vec<char>, Vec<Vec<char>>)| (e.0@, e.1.deep_view()))
}

proof fn lemma_key_pos_at(m: Seq<(Seq<char>, Seq<Seq<char>>)>, key: Seq<char>, i: int, k: int)
    requires
        0 <= i <= k < m.len(),
        m[k].0 == key,
        forall|q: int| i <= q < k ==> (#[trigger] m[q]).0 != key,
    ensures
        key_pos(m, key, i) == Some(k),
    decreases k - i,
{
    if i < k {
        lemma_key_pos_at(m, key, i + 1, k);
    }
}

proof fn lemma_key_pos_none(m: Seq<(Seq<char>, Seq<Seq<char>>)>, key: Seq<char>, i: int)
    requires
        0 <= i <= m.len(),
        forall|q: int| i <= q < m.len() ==> (#[trigger] m[q]).0 != key,
    ensures
        key_pos(m, key, i) is None,
    decreases m.len() - i,
{
    if i < m.len() {
        lemma_key_pos_none(m, key, i + 1);
    }
}

/// Adds `list` to the entry of `key`, or adds an entry at the end.
fn append_exec(table: &mut Vec<(Vec<char>, Vec<Vec<char>>)>, key: Vec<char>, list: Vec<Vec<char>>)
    ensures
        work_view(final(table)@) == append_entry(work_view(old(table)@), key@, list.deep_view()),
{
    let ghost m = work_view(table@);
    let mut q: usize = 0;
    while q < table.len()
        invariant
            q <= table.len(),
            m == work_view(table@),
            m == work_view(old(table)@),
            forall|x: int| 0 <= x < q ==> (#[trigger] m[x]).0 != key@,
        decreases table.len() - q,
    {
        if chars_eq(&table[q].0, &key) {
            proof {
                lemma_key_pos_at(m, key@, 0, q as int);
            }
            let ghost t0 = table@;
            let mut e = table.remove(q);
            let ghost old_list = e.1.deep_view();
            assert(e == t0[q as int]);
            assert(m[q as int] == (e.0@, old_list));
            assert(e.0@ == key@);
            let mut z: usize = 0;
            while z < list.len()
                invariant
                    z <= list.len(),
                    e.0@ == key@,
                    e.1.deep_view() == old_list + list.deep_view().subrange(0, z as int),
                decreases list.len() - z,
            {
                let ghost o = e.1.deep_view();
                let item = crate::text::slice_chars(&list[z], 0, list[z].len());
                proof {
                    crate::text::lemma_chars_deep_view(list@[z as int]);
                    assert(list@[z as int]@.subrange(0, list@[z as int].len() as int) =~= list@[z as int]@);
                }
                let ghost iv = item@;
                e.1.push(item);
                proof {
                    crate::text::lemma_chars_deep_view(e.1@[e.1.len() - 1]);
                    assert(e.1.deep_view() =~= o.push(iv));
                    assert(e.1.deep_view() =~= old_list + list.deep_view().subrange(0, z + 1));
                }
                z = z + 1;
            }
            assert(list.deep_view().subrange(0, list.len() as int) =~= list.deep_view());
            let ghost ev = (e.0@, e.1.deep_view());
            assert(ev.0 == key@);
            assert(ev.1 =~= m[q as int].1 + list.deep_view());
            table.insert(q, e);
            assert(work_view(table@) =~= m.update(q as int, ev));
            return;
        }
        q = q + 1;
    }
    proof {
        lemma_key_pos_none(m, key@, 0);
    }
    let ghost kv = (key@, list.deep_view());
    table.push((key, list));
    assert(work_view(table@) =~= m.push(kv));
}

/// Adds the rows of a sheet (all but the header) to the table.
fn add_sheet(table: &mut Vec<(Vec<char>, Vec<Vec<char>>)>, rows: &Vec<Vec<String>>)
    ensures
        work_view(final(table)@) == rows_table(work_view(old(table)@), rows@, sheet_cols(rows@).0, sheet_cols(rows@).1,
            rows.len() as int),
{
    let ghost m0 = work_view(table@);
    let (c, p) = columns_of(rows);
    if rows.len() <= 1 {
        return;
    }
    let mut k: usize = 1;
    while k < rows.len()
        invariant
            1 <= k <= rows.len(),
            c as int == sheet_cols(rows@).0 && p as int == sheet_cols(rows@).1,
            work_view(table@) == rows_table(m0, rows@, c as int, p as int, k as int),
        decreases rows.len() - k,
    {
        let code = cell_chars(&rows[k], c);
        let raw = cell_chars(&rows[k], p);
        if code.len() > 0 && raw.len() > 0 {
            let list = req_codes_exec(&raw);
            if list.len() > 0 {
                append_exec(table, code, list);
            }
        }
        k = k + 1;
    }
}

/// The prerequisite table of a workbook, read from its sheets (rows of cell texts):
/// for a workbook whose file name (lower-cased) contains "malla2020", "malla2018" or
/// "malla2010", from its first sheet; for another, from every sheet but the first. In
/// each sheet the header row names the code column (a cell containing "código",
/// "codigo" or "id"; else the first column) and the prerequisite column (a cell
/// containing "requisito" or "requerimiento"; else the second), the last such cell
/// winning; every later row with both cells filled adds the codes of its prerequisite
/// cell (split at commas and semicolons, trimmed, empty pieces dropped) to its
/// course, courses in order of first appearance.
pub fn prerequisitos_de_hojas(file_name: &str, sheets: &Vec<Vec<Vec<String>>>) -> (r: Vec<(String, Vec<String>)>)
    ensures
        table_view(r@) == prereq_table(file_name@, sheets@),
{
    let mut table: Vec<(Vec<char>, Vec<Vec<char>>)> = Vec::new();
    if sheets.len() > 0 {
        let low = to_lower(&chars_of(file_name));
        let first = contains_sub(&low, &lit("malla2020")) || contains_sub(&low, &lit("malla2018"))
            || contains_sub(&low, &lit("malla2010"));
        let lo: usize = if first { 0 } else { 1 };
        let hi: usize = if first { 1 } else { sheets.len() };
        assert(work_view(table@) =~= sheets_table(sheets@, lo as int, lo as int));
        let mut k: usize = lo;
        while k < hi
            invariant
                lo <= k <= hi <= sheets.len(),
                work_view(table@) == sheets_table(sheets@, lo as int, k as int),
            decreases hi - k,
        {
            add_sheet(&mut table, &sheets[k]);
            k = k + 1;
        }
    }
    let mut out: Vec<(String, Vec<String>)> = Vec::new();
    let mut t: usize = 0;
    while t < table.len()
        invariant
            t <= table.len(),
            table_view(out@) == work_view(table@).subrange(0, t as int),
        decreases table.len() - t,
    {
        let key = string_from_chars(&table[t].0);
        let mut items: Vec<String> = Vec::new();
        let mut z: usize = 0;
        while z < table[t].1.len()
            invariant
                t < table.len(),
                z <= table@[t as int].1.len(),
                items@.map_values(|s: String| s@) == table@[t as int].1.deep_view().subrange(0, z as int),
            decreases table@[t as int].1.len() - z,
        {
            let ghost o = items@.map_values(|s: String| s@);
            let item = string_from_chars(&table[t].1[z]);
            proof {
                crate::text::lemma_chars_deep_view(table@[t as int].1@[z as int]);
            }
            items.push(item);
            assert(items@.map_values(|s: String| s@) =~= o.push(item@));
            assert(table@[t as int].1.deep_view().subrange(0, z + 1) =~= o.push(item@));
            z = z + 1;
        }
        assert(table@[t as int].1.deep_view().subrange(0, table@[t as int].1.len() as int) =~= table@[t as int].1.deep_view());
        let ghost o = table_view(out@);
        let ghost ev = (key@, items@.map_values(|s: String| s@));
        out.push((key, items));
        assert(table_view(out@) =~= o.push(ev));
        assert(work_view(table@).subrange(0, t + 1) =~= work_view(table@).subrange(0, t as int).push(ev));
        t = t + 1;
    }
    assert(work_view(table@).subrange(0, table.len() as int) =~= work_view(table@));
    out
}

} // verus!
