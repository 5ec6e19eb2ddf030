//! The approval-rate sheet: its header row, the columns it names, and for each course
//! row the texts that hold its rates. Reading those texts as numbers is left to the
//! caller.
use vstd::prelude::*;
use crate::datafiles::{norm_name, normalize_name_chars};
use crate::prereqs::cell_at;
use crate::text::{
    chars_eq, chars_of, contains_seq, contains_sub, lit, lower_of, replace_all, replace_chars, string_from_chars,
    to_lower, trim, trim_chars,
};

verus! {

/// The columns of an approval-rate sheet: course code, approved students, total
/// students, percentage, course name and elective mark.
#[derive(Debug, Clone, Copy, PartialEq, Eq)]
pub struct ColumnasPorcentaje {
    pub codigo: usize,
    pub aprobados: Option<usize>,
    pub total: Option<usize>,
    pub porcentaje: Option<usize>,
    pub nombre: Option<usize>,
    pub electivo: Option<usize>,
}

/// Whether a lower-cased header cell names a course column.
pub open spec fn names_course(h: Seq<char>) -> bool {
    contains_seq(h, "codigo"@) || contains_seq(h, "ramo"@) || contains_seq(h, "asignatura"@)
}

/// Whether some cell of a row, lower-cased, names a course column.
pub open spec fn is_header(row: Seq<String>) -> bool {
    exists|j: int| 0 <= j < row.len() && names_course(lower_of(#[trigger] row[j]@))
}

/// The header row: the first of the first eight rows (from `i` on) that is a header.
pub open spec fn header_index(rows: Seq<Vec<String>>, i: int) -> Option<int>
    decreases 8 - i,
{
    if i < 0 || i >= 8 || i >= rows.len() {
        None
    } else if is_header(rows[i]@) {
        Some(i)
    } else {
        header_index(rows, i + 1)
    }
}

/// The columns named by the first `k` lower-cased header cells, the last naming each
/// winning; the code column is 0 when none names it.
pub open spec fn columns_upto(header: Seq<String>, k: int) -> ColumnasPorcentaje
    decreases k,
{
    if k <= 0 || k > header.len() {
        ColumnasPorcentaje { codigo: 0, aprobados: None, total: None, porcentaje: None, nombre: None, electivo: None }
    } else {
        let c = columns_upto(header, k - 1);
        let h = lower_of(header[k - 1]@);
        let i = (k - 1) as usize;
        ColumnasPorcentaje {
            codigo: if contains_seq(h, "codigo"@) || h == "ramo"@ || h == "asignatura"@ { i } else { c.codigo },
            aprobados: if contains_seq(h, "aprob"@) { Some(i) } else { c.aprobados },
            total: if contains_seq(h, "total"@) { Some(i) } else { c.total },
            porcentaje: if contains_seq(h, "porcentaje"@) || contains_seq(h, "%"@) { Some(i) } else { c.porcentaje },
            nombre: if contains_seq(h, "denomin"@) || contains_seq(h, "asignatura"@) { Some(i) } else { c.nombre },
            electivo: if contains_seq(h, "electivo"@) { Some(i) } else { c.electivo },
        }
    }
}

/// A course row of the sheet: its code and the texts of its rates, ready to be read as
/// numbers (commas as decimal points, the percentage without `%`).
#[derive(Debug)]
pub struct FilaPorcentaje {
    pub codigo: String,
    /// Approved and total students, when the sheet has both columns.
    pub aprobados: Option<String>,
    pub total: Option<String>,
    /// The percentage, when the sheet has that column.
    pub porcentaje: Option<String>,
    /// The normalised course name, when the sheet has a name column and it is filled.
    pub nombre_clave: Option<String>,
    pub es_electivo: bool,
}

/// Whether a lower-cased cell marks an elective.
pub open spec fn marks_elective(v: Seq<char>) -> bool {
    v == "true"@ || v == "1"@ || v == "sí"@ || v == "si"@
}

/// The texts a row gives for its rates and name, given its code cell is filled.
pub open spec fn row_texts(row: Seq<String>, c: ColumnasPorcentaje) -> (
    Seq<char>,
    Option<Seq<char>>,
    Option<Seq<char>>,
    Option<Seq<char>>,
    Option<Seq<char>>,
    bool,
) {
    let both = c.aprobados is Some && c.total is Some;
    (
        trim(cell_at(row, c.codigo as int)),
        if both { Some(replace_all(cell_at(row, c.aprobados.unwrap() as int), ","@, "."@)) } else { None },
        if both { Some(replace_all(cell_at(row, c.total.unwrap() as int), ","@, "."@)) } else { None },
        match c.porcentaje {
            Some(p) => Some(replace_all(replace_all(cell_at(row, p as int), "%"@, ""@), ","@, "."@)),
            None => None,
        },
        match c.nombre {
            Some(n) => if trim(cell_at(row, n as int)).len() > 0 {
                Some(norm_name(trim(cell_at(row, n as int))))
            } else {
                None
            },
            None => None,
        },
        match c.electivo {
            Some(e) => marks_elective(lower_of(cell_at(row, e as int))),
            None => false,
        },
    )
}

/// A row as plain values.
pub open spec fn fila_porcentaje_view(f: FilaPorcentaje) -> (
    Seq<char>,
    Option<Seq<char>>,
    Option<Seq<char>>,
    Option<Seq<char>>,
    Option<Seq<char>>,
    bool,
) {
    (
        f.codigo@,
        match f.aprobados { Some(s) => Some(s@), None => None },
        match f.total { Some(s) => Some(s@), None => None },
        match f.porcentaje { Some(s) => Some(s@), None => None },
        match f.nombre_clave { Some(s) => Some(s@), None => None },
        f.es_electivo,
    )
}

/// The course rows among `rows[from..k]`: those whose trimmed code cell is filled.
pub open spec fn course_rows(rows: Seq<Vec<String>>, c: ColumnasPorcentaje, from: int, k: int) -> Seq<(
    Seq<char>,
    Option<Seq<char>>,
    Option<Seq<char>>,
    Option<Seq<char>>,
    Option<Seq<char>>,
    bool,
)>
    decreases k,
{
    if k <= from || k <= 0 || k > rows.len() {
        Seq::empty()
    } else if trim(cell_at(rows[k - 1]@, c.codigo as int)).len() > 0 {
        course_rows(rows, c, from, k - 1).push(row_texts(rows[k - 1]@, c))
    } else {
        course_rows(rows, c, from, k - 1)
    }
}

/// Whether some cell of `row` names a course column.
fn header_like(row: &Vec<String>) -> (r: bool)
    ensures
        r == is_header(row@),
{
    let mut j: usize = 0;
    while j < row.len()
        invariant
            j <= row.len(),
            forall|q: int| 0 <= q < j ==> !names_course(lower_of(#[trigger] row@[q]@)),
        decreases row.len() - j,
    {
        let h = to_lower(&chars_of(row[j].as_str()));
        if contains_sub(&h, &lit("codigo")) || contains_sub(&h, &lit("ramo")) || contains_sub(&h, &lit("asignatura")) {
            assert(names_course(lower_of(row@[j as int]@)));
            return true;
        }
        j = j + 1;
    }
    false
}

/// The header row of an approval-rate sheet: the first of its first eight rows with a
/// cell that, lower-cased, contains "codigo", "ramo" or "asignatura".
pub fn fila_cabecera_porcentajes(rows: &Vec<Vec<String>>) -> (r: Option<usize>)
    ensures
        match header_index(rows@, 0) {
            Some(i) => r == Some(i as usize),
            None => r is None,
        },
{
    let mut i: usize = 0;
    while i < 8 && i < rows.len()
        invariant
            i <= 8,
            header_index(rows@, 0) == header_index(rows@, i as int),
        decreases 8 - i,
    {
        if header_like(&rows[i]) {
            return Some(i);
        }
        i = i + 1;
    }
    None
}

/// The columns a header row names (cells lower-cased): the code column is the last
/// cell containing "codigo" or equal to "ramo" or "asignatura" (else column 0); the
/// approved, total, percentage, name and elective columns are the last cells
/// containing "aprob", "total", "porcentaje" or "%", "denomin" or "asignatura", and
/// "electivo".
pub fn columnas_porcentajes(header: &Vec<String>) -> (r: ColumnasPorcentaje)
    ensures
        r == columns_upto(header@, header.len() as int),
{
    let mut c = ColumnasPorcentaje { codigo: 0, aprobados: None, total: None, porcentaje: None, nombre: None, electivo: None };
    let mut k: usize = 0;
    while k < header.len()
        invariant
            k <= header.len(),
            c == columns_upto(header@, k as int),
        decreases header.len() - k,
    {
        let h = to_lower(&chars_of(header[k].as_str()));
        if contains_sub(&h, &lit("codigo")) || chars_eq(&h, &lit("ramo")) || chars_eq(&h, &lit("asignatura")) {
            c.codigo = k;
        }
        if contains_sub(&h, &lit("aprob")) {
            c.aprobados = Some(k);
        }
        if contains_sub(&h, &lit("total")) {
            c.total = Some(k);
        }
        if contains_sub(&h, &lit("porcentaje")) || contains_sub(&h, &lit("%")) {
            c.porcentaje = Some(k);
        }
        if contains_sub(&h, &lit("denomin")) || contains_sub(&h, &lit("asignatura")) {
            c.nombre = Some(k);
        }
        if contains_sub(&h, &lit("electivo")) {
            c.electivo = Some(k);
        }
        k = k + 1;
    }
    c
}

/// The text of cell `col` of a row, as characters.
fn cell_text(row: &Vec<String>, col: usize) -> (r: Vec<char>)
    ensures
        r@ == cell_at(row@, col as int),
{
    if col < row.len() {
        chars_of(row[col].as_str())
    } else {
        Vec::new()
    }
}

/// The rate texts of a row.
fn row_fila(row: &Vec<String>, c: ColumnasPorcentaje) -> (r: FilaPorcentaje)
    ensures
        fila_porcentaje_view(r) == row_texts(row@, c),
{
    let codigo = string_from_chars(&trim_chars(&cell_text(row, c.codigo)));
    let (aprobados, total) = match (c.aprobados, c.total) {
        (Some(a), Some(t)) => (
            Some(string_from_chars(&replace_chars(&cell_text(row, a), &lit(","), &lit(".")))),
            Some(string_from_chars(&replace_chars(&cell_text(row, t), &lit(","), &lit(".")))),
        ),
        _ => (None, None),
    };
    let porcentaje = match c.porcentaje {
        Some(p) => {
            let sin = replace_chars(&cell_text(row, p), &lit("%"), &lit(""));
            Some(string_from_chars(&replace_chars(&sin, &lit(","), &lit("."))))
        },
        None => None,
    };
    let nombre_clave = match c.nombre {
        Some(n) => {
            let t = trim_chars(&cell_text(row, n));
            if t.len() > 0 {
                Some(string_from_chars(&normalize_name_chars(&t)))
            } else {
                None
            }
        },
        None => None,
    };
    let es_electivo = match c.electivo {
        Some(e) => {
            let v = to_lower(&cell_text(row, e));
            chars_eq(&v, &lit("true")) || chars_eq(&v, &lit("1")) || chars_eq(&v, &lit("sí")) || chars_eq(&v, &lit("si"))
        },
        None => false,
    };
    FilaPorcentaje { codigo, aprobados, total, porcentaje, nombre_clave, es_electivo }
}

/// The course rows of an approval-rate sheet after its header row `cabecera`, read
/// with columns `cols`: every row whose trimmed code cell is filled, with the texts of
/// its approved and total students (when the sheet has both columns) and of its
/// percentage (commas read as decimal points, `%` dropped), its normalised name (when
/// filled) and whether its elective cell, lower-cased, is "true", "1", "sí" or "si".
pub fn filas_porcentajes(rows: &Vec<Vec<String>>, cabecera: usize, cols: ColumnasPorcentaje) -> (r: Vec<FilaPorcentaje>)
    ensures
        r@.map_values(|f: FilaPorcentaje| fila_porcentaje_view(f)) == course_rows(rows@, cols, cabecera as int + 1,
            rows.len() as int),
{
    let mut out: Vec<FilaPorcentaje> = Vec::new();
    if cabecera >= rows.len() {
        return out;
    }
    let mut k: usize = cabecera + 1;
    while k < rows.len()
        invariant
            cabecera < k <= rows.len(),
            out@.map_values(|f: FilaPorcentaje| fila_porcentaje_view(f)) == course_rows(rows@, cols, cabecera as int + 1,
                k as int),
        decreases rows.len() - k,
    {
        let code = trim_chars(&cell_text(&rows[k], cols.codigo));
        if code.len() > 0 {
            let f = row_fila(&rows[k], cols);
            let ghost o = out@.map_values(|f: FilaPorcentaje| fila_porcentaje_view(f));
            let ghost fv = fila_porcentaje_view(f);
            out.push(f);
            assert(out@.map_values(|f: FilaPorcentaje| fila_porcentaje_view(f)) =~= o.push(fv));
        }
        k = k + 1;
    }
    out
}

} // verus!
