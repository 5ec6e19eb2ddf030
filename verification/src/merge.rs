//! The join of the curriculum, the academic offer and the approval-rate tables by
//! normalised course name, ordered by curriculum code (numeric codes first).
use vstd::prelude::*;
use crate::models::{RamoDisponible, Seccion};
use crate::datafiles::{norm_name, normalize_name_chars};
use crate::plan_pool::{first_eq, find_eq};
use crate::selector::{chars_le, lemma_seq_le_antisym, lemma_seq_le_total, lemma_seq_le_trans, seq_le};
use crate::text::{chars_eq, chars_of, parse_i32, parse_i32_spec};

verus! {

/// Where the approval rate of a joined row comes from: an entry of the table keyed by
/// normalised name, an entry of the table keyed by box code, or neither.
#[derive(Clone, Copy, Debug, PartialEq, Eq)]
pub enum PaMatch {
    PorNombre(usize),
    PorBox(usize),
    Ninguno,
}

/// A row of the join: a curriculum course, the offered section that matched it by
/// name (if any), and the approval-rate entry found for it. The rates themselves stay
/// in the tables, which `pa` points into.
#[derive(Debug)]
pub struct FilaMerge {
    pub malla_codigo: String,
    pub malla_nombre: String,
    pub oferta: Option<Seccion>,
    pub pa_codigo: Option<String>,
    pub pa: PaMatch,
    pub es_electivo: Option<bool>,
}

/// A section as plain values: code, box code, name, section number, timetable
/// entries and teacher.
pub type OfertaView = (Seq<char>, Seq<char>, Seq<char>, Seq<char>, Seq<Seq<char>>, Seq<char>);

/// The plain values of a section (see `OfertaView`).
pub open spec fn oferta_view(s: Seccion) -> OfertaView {
    (s.codigo@, s.codigo_box@, s.nombre@, s.seccion@, s.horario@.map_values(|h: String| h@), s.profesor@)
}

/// A joined row as plain values.
pub open spec fn fila_view(f: FilaMerge) -> (
    Seq<char>,
    Seq<char>,
    Option<OfertaView>,
    Option<Seq<char>>,
    PaMatch,
    Option<bool>,
) {
    (
        f.malla_codigo@,
        f.malla_nombre@,
        match f.oferta {
            Some(s) => Some(oferta_view(s)),
            None => None,
        },
        match f.pa_codigo {
            Some(c) => Some(c@),
            None => None,
        },
        f.pa,
        f.es_electivo,
    )
}

/// Joined rows as plain values.
pub open spec fn filas_view(rows: Seq<FilaMerge>) -> Seq<(
    Seq<char>,
    Seq<char>,
    Option<OfertaView>,
    Option<Seq<char>>,
    PaMatch,
    Option<bool>,
)> {
    rows.map_values(|f: FilaMerge| fila_view(f))
}

/// The keys of the by-name rate table.
pub open spec fn name_keys(names: Seq<(String, String, bool)>) -> Seq<Seq<char>> {
    names.map_values(|t: (String, String, bool)| t.0@)
}

/// The characters of each string.
pub open spec fn str_views(v: Seq<String>) -> Seq<Seq<char>> {
    v.map_values(|s: String| s@)
}

/// The row for course `code`/`nombre` and an offered section `s` of the same name: the
/// rate entry found by the course's normalised name, else the one found by the
/// section's box code (which then is the rate code), else none.
pub open spec fn fila_con_oferta(
    code: Seq<char>,
    nombre: Seq<char>,
    s: Seccion,
    boxes: Seq<String>,
    names: Seq<(String, String, bool)>,
) -> (Seq<char>, Seq<char>, Option<OfertaView>, Option<Seq<char>>, PaMatch, Option<bool>) {
    match first_eq(name_keys(names), norm_name(nombre), 0) {
        Some(j) => (code, nombre, Some(oferta_view(s)), Some(names[j].1@), PaMatch::PorNombre(j as usize), None),
        None => match first_eq(str_views(boxes), s.codigo_box@, 0) {
            Some(b) => (code, nombre, Some(oferta_view(s)), Some(s.codigo_box@), PaMatch::PorBox(b as usize), None),
            None => (code, nombre, Some(oferta_view(s)), None, PaMatch::Ninguno, None),
        },
    }
}

/// The rows for course `code`/`nombre` and the first `k` offered sections: one for each
/// section whose normalised name is that of the course.
pub open spec fn filas_oferta(
    code: Seq<char>,
    nombre: Seq<char>,
    oferta: Seq<Seccion>,
    boxes: Seq<String>,
    names: Seq<(String, String, bool)>,
    k: int,
) -> Seq<(Seq<char>, Seq<char>, Option<OfertaView>, Option<Seq<char>>, PaMatch, Option<bool>)>
    decreases k,
{
    if k <= 0 || k > oferta.len() {
        Seq::empty()
    } else {
        let prev = filas_oferta(code, nombre, oferta, boxes, names, k - 1);
        if norm_name(oferta[k - 1].nombre@) == norm_name(nombre) {
            prev.push(fila_con_oferta(code, nombre, oferta[k - 1], boxes, names))
        } else {
            prev
        }
    }
}

/// The rows of one curriculum course: those of its offered sections; without any, a
/// single row with the rate entry found by its normalised name (and that entry's
/// elective mark), or an empty row.
pub open spec fn filas_de(
    code: Seq<char>,
    ramo: RamoDisponible,
    oferta: Seq<Seccion>,
    boxes: Seq<String>,
    names: Seq<(String, String, bool)>,
) -> Seq<(Seq<char>, Seq<char>, Option<OfertaView>, Option<Seq<char>>, PaMatch, Option<bool>)> {
    let rows = filas_oferta(code, ramo.nombre@, oferta, boxes, names, oferta.len() as int);
    if rows.len() > 0 {
        rows
    } else {
        match first_eq(name_keys(names), norm_name(ramo.nombre@), 0) {
            Some(j) => seq![(code, ramo.nombre@, None, Some(names[j].1@), PaMatch::PorNombre(j as usize), Some(names[j].2))],
            None => seq![(code, ramo.nombre@, None, None, PaMatch::Ninguno, None)],
        }
    }
}

/// The rows of the first `k` curriculum courses, course after course.
pub open spec fn filas_todas(
    malla: Seq<(String, RamoDisponible)>,
    oferta: Seq<Seccion>,
    boxes: Seq<String>,
    names: Seq<(String, String, bool)>,
    k: int,
) -> Seq<(Seq<char>, Seq<char>, Option<OfertaView>, Option<Seq<char>>, PaMatch, Option<bool>)>
    decreases k,
{
    if k <= 0 || k > malla.len() {
        Seq::empty()
    } else {
        filas_todas(malla, oferta, boxes, names, k - 1) + filas_de(malla[k - 1].0@, malla[k - 1].1, oferta, boxes, names)
    }
}

/// Whether curriculum code `a` sorts before `b`: codes that read as `i32` by value and
/// before the others, which sort as text.
pub open spec fn code_lt(a: Seq<char>, b: Seq<char>) -> bool {
    match (parse_i32_spec(a), parse_i32_spec(b)) {
        (Some(x), Some(y)) => x < y,
        (Some(_), None) => true,
        (None, Some(_)) => false,
        (None, None) => seq_le(a, b) && a != b,
    }
}

/// Whether row `i` of `u` comes before row `j` in a stable sort by curriculum code.
pub open spec fn placed_before(
    u: Seq<(Seq<char>, Seq<char>, Option<OfertaView>, Option<Seq<char>>, PaMatch, Option<bool>)>,
    i: usize,
    j: usize,
) -> bool {
    code_lt(u[i as int].0, u[j as int].0) || (!code_lt(u[j as int].0, u[i as int].0) && i < j)
}

/// Whether `perm` lists every row of `u` once, in the order of a stable sort by
/// curriculum code.
pub open spec fn stable_order(
    u: Seq<(Seq<char>, Seq<char>, Option<OfertaView>, Option<Seq<char>>, PaMatch, Option<bool>)>,
    perm: Seq<usize>,
) -> bool {
    &&& perm.len() == u.len()
    &&& forall|k: int| 0 <= k < perm.len() ==> #[trigger] perm[k] < u.len()
    &&& forall|a: int, b: int| 0 <= a < b < perm.len() ==> placed_before(u, #[trigger] perm[a], #[trigger] perm[b])
}

proof fn lemma_code_asym(a: Seq<char>, b: Seq<char>)
    requires
        code_lt(a, b),
    ensures
        !code_lt(b, a),
{
    if parse_i32_spec(a) is None && parse_i32_spec(b) is None && code_lt(b, a) {
        lemma_seq_le_antisym(a, b);
    }
}

proof fn lemma_code_lt_le(a: Seq<char>, b: Seq<char>, c: Seq<char>)
    requires
        code_lt(a, b),
        !code_lt(c, b),
    ensures
        code_lt(a, c),
{
    if parse_i32_spec(a) is None && parse_i32_spec(b) is None && parse_i32_spec(c) is None {
        lemma_seq_le_total(b, c);
        if !seq_le(b, c) {
            assert(b == c);
        }
        lemma_seq_le_trans(a, b, c);
        if a == c {
            lemma_seq_le_antisym(a, b);
        }
    }
}

/// Whether curriculum code `a` sorts before `b`, given what each reads as.
fn code_lt_exec(a: &Vec<char>, na: Option<i32>, b: &Vec<char>, nb: Option<i32>) -> (r: bool)
    requires
        na == parse_i32_spec(a@),
        nb == parse_i32_spec(b@),
    ensures
        r == code_lt(a@, b@),
{
    match (na, nb) {
        (Some(x), Some(y)) => x < y,
        (Some(_), None) => true,
        (None, Some(_)) => false,
        (None, None) => chars_le(a, b) && !chars_eq(a, b),
    }
}

/// A copy of a section.
fn copy_seccion(s: &Seccion) -> (r: Seccion)
    ensures
        oferta_view(r) == oferta_view(*s),
{
    s.duplicate()
}

/// A copy of a joined row.
fn copy_fila(f: &FilaMerge) -> (r: FilaMerge)
    ensures
        fila_view(r) == fila_view(*f),
{
    FilaMerge {
        malla_codigo: f.malla_codigo.clone(),
        malla_nombre: f.malla_nombre.clone(),
        oferta: match &f.oferta {
            Some(s) => Some(copy_seccion(s)),
            None => None,
        },
        pa_codigo: match &f.pa_codigo {
            Some(c) => Some(c.clone()),
            None => None,
        },
        pa: f.pa,
        es_electivo: f.es_electivo,
    }
}

/// The rows in the order of a stable sort by curriculum code.
fn sort_filas(rows: &Vec<FilaMerge>) -> (r: Vec<FilaMerge>)
    ensures
        exists|perm: Seq<usize>| #[trigger] stable_order(filas_view(rows@), perm)
            && r.len() == perm.len()
            && forall|k: int| 0 <= k < r.len() ==> fila_view(#[trigger] r@[k])
                == filas_view(rows@)[perm[k] as int],
{
    let ghost u = filas_view(rows@);
    let n = rows.len();
    let mut codes: Vec<Vec<char>> = Vec::new();
    let mut nums: Vec<Option<i32>> = Vec::new();
    let mut z: usize = 0;
    while z < n
        invariant
            z <= n == rows.len(),
            u == filas_view(rows@),
            codes.len() == z && nums.len() == z,
            forall|k: int| 0 <= k < z ==> (#[trigger] codes@[k])@ == u[k].0,
            forall|k: int| 0 <= k < z ==> #[trigger] nums@[k] == parse_i32_spec(u[k].0),
        decreases n - z,
    {
        let c = chars_of(rows[z].malla_codigo.as_str());
        let v = parse_i32(&c);
        assert(u[z as int] == fila_view(rows@[z as int]));
        codes.push(c);
        nums.push(v);
        z = z + 1;
    }
    let mut ord: Vec<usize> = Vec::new();
    let mut i: usize = 0;
    while i < n
        invariant
            i <= n == rows.len() == codes.len() == nums.len(),
            u == filas_view(rows@),
            forall|k: int| 0 <= k < n ==> (#[trigger] codes@[k])@ == u[k].0,
            forall|k: int| 0 <= k < n ==> #[trigger] nums@[k] == parse_i32_spec(u[k].0),
            ord.len() == i,
            forall|k: int| 0 <= k < ord.len() ==> #[trigger] ord@[k] < i,
            forall|a: int, b: int| 0 <= a < b < ord.len() ==> placed_before(u, #[trigger] ord@[a], #[trigger] ord@[b]),
        decreases n - i,
    {
        let mut q: usize = 0;
        while q < ord.len() && !code_lt_exec(&codes[i], nums[i], &codes[ord[q]], nums[ord[q]])
            invariant
                q <= ord.len(),
                i < n == codes.len() == nums.len(),
                forall|k: int| 0 <= k < n ==> (#[trigger] codes@[k])@ == u[k].0,
            forall|k: int| 0 <= k < n ==> #[trigger] nums@[k] == parse_i32_spec(u[k].0),
                forall|k: int| 0 <= k < ord.len() ==> #[trigger] ord@[k] < i,
                forall|a: int| 0 <= a < q ==> !code_lt(u[i as int].0, u[#[trigger] ord@[a] as int].0),
            decreases ord.len() - q,
        {
            q = q + 1;
        }
        let ghost old_ord = ord@;
        proof {
            if q < old_ord.len() {
                assert(code_lt(u[i as int].0, u[old_ord[q as int] as int].0));
            }
        }
        ord.insert(q, i);
        proof {
            assert(ord@ == old_ord.insert(q as int, i));
            assert forall|a: int, b: int| 0 <= a < b < ord.len() implies placed_before(u, #[trigger] ord@[a], #[trigger] ord@[b]) by {
                if b < q {
                    assert(ord@[a] == old_ord[a] && ord@[b] == old_ord[b]);
                } else if a > q {
                    assert(ord@[a] == old_ord[a - 1] && ord@[b] == old_ord[b - 1]);
                } else if a == q {
                    let y = old_ord[b - 1];
                    assert(ord@[b] == y);
                    if b - 1 > q {
                        assert(placed_before(u, old_ord[q as int], old_ord[b - 1]));
                        if code_lt(u[old_ord[q as int] as int].0, u[y as int].0) {
                            lemma_code_asym(u[old_ord[q as int] as int].0, u[y as int].0);
                        }
                    }
                    lemma_code_lt_le(u[i as int].0, u[old_ord[q as int] as int].0, u[y as int].0);
                } else if b == q {
                    assert(ord@[a] == old_ord[a]);
                    assert(!code_lt(u[i as int].0, u[old_ord[a] as int].0));
                } else {
                    assert(ord@[a] == old_ord[a] && ord@[b] == old_ord[b - 1]);
                }
            }
        }
        i = i + 1;
    }
    let mut out: Vec<FilaMerge> = Vec::new();
    let mut k: usize = 0;
    while k < n
        invariant
            k <= n == rows.len() == ord.len(),
            u == filas_view(rows@),
            forall|q: int| 0 <= q < ord.len() ==> #[trigger] ord@[q] < n,
            out.len() == k,
            forall|q: int| 0 <= q < k ==> fila_view(#[trigger] out@[q]) == u[ord@[q] as int],
        decreases n - k,
    {
        out.push(copy_fila(&rows[ord[k]]));
        k = k + 1;
    }
    assert(stable_order(u, ord@));
    out
}

/// The characters of each string.
fn string_keys(v: &[String]) -> (r: Vec<Vec<char>>)
    ensures
        r.deep_view() == str_views(v@),
{
    let mut out: Vec<Vec<char>> = Vec::new();
    let mut k: usize = 0;
    while k < v.len()
        invariant
            k <= v.len(),
            out.deep_view() == str_views(v@).subrange(0, k as int),
        decreases v.len() - k,
    {
        let c = chars_of(v[k].as_str());
        let ghost o = out.deep_view();
        let ghost cv = c@;
        out.push(c);
        proof {
            crate::text::lemma_chars_deep_view(out@[k as int]);
        }
        assert(out.deep_view() =~= o.push(cv));
        assert(out.deep_view() =~= str_views(v@).subrange(0, k + 1));
        k = k + 1;
    }
    assert(str_views(v@).subrange(0, v.len() as int) =~= str_views(v@));
    out
}

/// The keys of the by-name rate table, as characters.
fn name_key_chars(v: &[(String, String, bool)]) -> (r: Vec<Vec<char>>)
    ensures
        r.deep_view() == name_keys(v@),
{
    let mut out: Vec<Vec<char>> = Vec::new();
    let mut k: usize = 0;
    while k < v.len()
        invariant
            k <= v.len(),
            out.deep_view() == name_keys(v@).subrange(0, k as int),
        decreases v.len() - k,
    {
        let c = chars_of(v[k].0.as_str());
        let ghost o = out.deep_view();
        let ghost cv = c@;
        out.push(c);
        proof {
            crate::text::lemma_chars_deep_view(out@[k as int]);
        }
        assert(out.deep_view() =~= o.push(cv));
        assert(out.deep_view() =~= name_keys(v@).subrange(0, k + 1));
        k = k + 1;
    }
    assert(name_keys(v@).subrange(0, v.len() as int) =~= name_keys(v@));
    out
}

/// The row for a course and an offered section of the same name.
fn make_fila_con_oferta(
    code: &String,
    nombre: &String,
    s: &Seccion,
    boxes: &[String],
    names: &[(String, String, bool)],
    name_idx: Option<usize>,
    keys_b: &Vec<Vec<char>>,
) -> (r: FilaMerge)
    requires
        match name_idx {
            Some(j) => j < names.len() && first_eq(name_keys(names@), norm_name(nombre@), 0) == Some(j as int),
            None => first_eq(name_keys(names@), norm_name(nombre@), 0) is None,
        },
        keys_b.deep_view() == str_views(boxes@),
    ensures
        fila_view(r) == fila_con_oferta(code@, nombre@, *s, boxes@, names@),
{
    match name_idx {
        Some(j) => FilaMerge {
            malla_codigo: code.clone(),
            malla_nombre: nombre.clone(),
            oferta: Some(copy_seccion(s)),
            pa_codigo: Some(names[j].1.clone()),
            pa: PaMatch::PorNombre(j),
            es_electivo: None,
        },
        None => {
            let b = find_eq(keys_b, &chars_of(s.codigo_box.as_str()));
            match b {
                Some(bi) => FilaMerge {
                    malla_codigo: code.clone(),
                    malla_nombre: nombre.clone(),
                    oferta: Some(copy_seccion(s)),
                    pa_codigo: Some(s.codigo_box.clone()),
                    pa: PaMatch::PorBox(bi),
                    es_electivo: None,
                },
                None => FilaMerge {
                    malla_codigo: code.clone(),
                    malla_nombre: nombre.clone(),
                    oferta: Some(copy_seccion(s)),
                    pa_codigo: None,
                    pa: PaMatch::Ninguno,
                    es_electivo: None,
                },
            }
        },
    }
}

/// Joins the curriculum courses (`malla`, code and course), the offered sections and
/// the two approval-rate tables: `porcent_boxes` are the box codes keying one table,
/// `porcent_names` the normalised names keying the other, with their rate code and
/// elective mark. Each course gives one row per offered section of the same
/// normalised name, or, without any, a single row; the rows are then stably sorted by
/// curriculum code.
pub fn merge_malla_oferta_porcentajes(
    malla: &[(String, RamoDisponible)],
    oferta: &[Seccion],
    porcent_boxes: &[String],
    porcent_names: &[(String, String, bool)],
) -> (r: Vec<FilaMerge>)
    ensures
        exists|perm: Seq<usize>| #[trigger] stable_order(
            filas_todas(malla@, oferta@, porcent_boxes@, porcent_names@, malla.len() as int), perm)
            && r.len() == perm.len()
            && forall|k: int| 0 <= k < r.len() ==> fila_view(#[trigger] r@[k])
                == filas_todas(malla@, oferta@, porcent_boxes@, porcent_names@, malla.len() as int)[perm[k] as int],
{
    let ghost (bv, nv) = (porcent_boxes@, porcent_names@);
    let keys_n = name_key_chars(porcent_names);
    let keys_b = string_keys(porcent_boxes);
    let mut onames: Vec<Vec<char>> = Vec::new();
    let mut z: usize = 0;
    while z < oferta.len()
        invariant
            z <= oferta.len(),
            onames.len() == z,
            forall|k: int| 0 <= k < z ==> (#[trigger] onames@[k])@ == norm_name(oferta@[k].nombre@),
        decreases oferta.len() - z,
    {
        onames.push(normalize_name_chars(&chars_of(oferta[z].nombre.as_str())));
        z = z + 1;
    }
    let mut rows: Vec<FilaMerge> = Vec::new();
    let mut m: usize = 0;
    while m < malla.len()
        invariant
            m <= malla.len(),
            bv == porcent_boxes@ && nv == porcent_names@,
            keys_n.deep_view() == name_keys(nv),
            keys_b.deep_view() == str_views(bv),
            onames.len() == oferta.len(),
            forall|k: int| 0 <= k < oferta.len() ==> (#[trigger] onames@[k])@ == norm_name(oferta@[k].nombre@),
            filas_view(rows@) == filas_todas(malla@, oferta@, bv, nv, m as int),
        decreases malla.len() - m,
    {
        let code = &malla[m].0;
        let ramo = &malla[m].1;
        let key = normalize_name_chars(&chars_of(ramo.nombre.as_str()));
        let name_idx = find_eq(&keys_n, &key);
        proof {
            assert(keys_n.deep_view().len() == nv.len());
        }
        let ghost before = filas_view(rows@);
        let ghost mut added: Seq<(Seq<char>, Seq<char>, Option<OfertaView>, Option<Seq<char>>, PaMatch, Option<bool>)> = Seq::empty();
        let mut any = false;
        let mut j: usize = 0;
        while j < oferta.len()
            invariant
                j <= oferta.len() == onames.len(),
                m < malla.len(),
                code == &malla@[m as int].0,
                ramo == &malla@[m as int].1,
                key@ == norm_name(ramo.nombre@),
                bv == porcent_boxes@ && nv == porcent_names@,
                keys_b.deep_view() == str_views(bv),
                match name_idx {
                    Some(x) => x < porcent_names.len() && first_eq(name_keys(nv), norm_name(ramo.nombre@), 0) == Some(x as int),
                    None => first_eq(name_keys(nv), norm_name(ramo.nombre@), 0) is None,
                },
                forall|k: int| 0 <= k < oferta.len() ==> (#[trigger] onames@[k])@ == norm_name(oferta@[k].nombre@),
                added == filas_oferta(code@, ramo.nombre@, oferta@, bv, nv, j as int),
                any == (added.len() > 0),
                filas_view(rows@) == before + added,
            decreases oferta.len() - j,
        {
            if chars_eq(&onames[j], &key) {
                let f = make_fila_con_oferta(code, &ramo.nombre, &oferta[j], porcent_boxes, porcent_names, name_idx, &keys_b);
                let ghost o = rows@;
                rows.push(f);
                proof {
                    added = added.push(fila_view(f));
                    assert(filas_view(rows@) =~= filas_view(o).push(fila_view(f)));
                }
                any = true;
            }
            j = j + 1;
        }
        if !any {
            let f = match name_idx {
                Some(x) => FilaMerge {
                    malla_codigo: code.clone(),
                    malla_nombre: ramo.nombre.clone(),
                    oferta: None,
                    pa_codigo: Some(porcent_names[x].1.clone()),
                    pa: PaMatch::PorNombre(x),
                    es_electivo: Some(porcent_names[x].2),
                },
                None => FilaMerge {
                    malla_codigo: code.clone(),
                    malla_nombre: ramo.nombre.clone(),
                    oferta: None,
                    pa_codigo: None,
                    pa: PaMatch::Ninguno,
                    es_electivo: None,
                },
            };
            let ghost o = rows@;
            rows.push(f);
            proof {
                added = added.push(fila_view(f));
                assert(filas_view(rows@) =~= filas_view(o).push(fila_view(f)));
            }
        }
        proof {
            assert(added =~= filas_de(code@, *ramo, oferta@, bv, nv));
            assert(filas_todas(malla@, oferta@, bv, nv, m + 1) == filas_todas(malla@, oferta@, bv, nv, m as int)
                + filas_de(malla@[m as int].0@, malla@[m as int].1, oferta@, bv, nv));
        }
        m = m + 1;
    }
    sort_filas(&rows)
}

/// No curriculum course is lost by the join: each course has at least one row, and
/// the rows of the first `k` courses are at least `k`.
pub proof fn lemma_join_covers_courses(
    malla: Seq<(String, RamoDisponible)>,
    oferta: Seq<Seccion>,
    boxes: Seq<String>,
    names: Seq<(String, String, bool)>,
    k: int,
)
    requires
        0 <= k <= malla.len(),
    ensures
        filas_todas(malla, oferta, boxes, names, k).len() >= k,
        forall|c: int| 0 <= c < k ==> exists|t: int| 0 <= t < filas_todas(malla, oferta, boxes, names, k).len()
            && (#[trigger] filas_todas(malla, oferta, boxes, names, k)[t]).0 == (#[trigger] malla[c]).0@,
    decreases k,
{
    if k > 0 {
        lemma_join_covers_courses(malla, oferta, boxes, names, k - 1);
        let prev = filas_todas(malla, oferta, boxes, names, k - 1);
        let own = filas_de(malla[k - 1].0@, malla[k - 1].1, oferta, boxes, names);
        let all = filas_todas(malla, oferta, boxes, names, k);
        assert(all == prev + own);
        lemma_rows_of_course(malla[k - 1].0@, malla[k - 1].1, oferta, boxes, names);
        assert forall|c: int| 0 <= c < k implies exists|t: int| 0 <= t < all.len() && (#[trigger] all[t]).0 == (#[trigger] malla[c]).0@ by {
            if c < k - 1 {
                let t0 = choose|t: int| 0 <= t < prev.len() && (#[trigger] prev[t]).0 == (#[trigger] malla[c]).0@;
                assert(all[t0] == prev[t0]);
            } else {
                assert(all[prev.len() as int] == own[0]);
            }
        }
    }
}

proof fn lemma_rows_of_course(
    code: Seq<char>,
    ramo: RamoDisponible,
    oferta: Seq<Seccion>,
    boxes: Seq<String>,
    names: Seq<(String, String, bool)>,
)
    ensures
        filas_de(code, ramo, oferta, boxes, names).len() >= 1,
        forall|t: int| 0 <= t < filas_de(code, ramo, oferta, boxes, names).len()
            ==> (#[trigger] filas_de(code, ramo, oferta, boxes, names)[t]).0 == code,
{
    lemma_offer_rows_code(code, ramo.nombre@, oferta, boxes, names, oferta.len() as int);
}

proof fn lemma_offer_rows_code(
    code: Seq<char>,
    nombre: Seq<char>,
    oferta: Seq<Seccion>,
    boxes: Seq<String>,
    names: Seq<(String, String, bool)>,
    k: int,
)
    ensures
        forall|t: int| 0 <= t < filas_oferta(code, nombre, oferta, boxes, names, k).len()
            ==> (#[trigger] filas_oferta(code, nombre, oferta, boxes, names, k)[t]).0 == code,
    decreases k,
{
    if k > 0 && k <= oferta.len() {
        lemma_offer_rows_code(code, nombre, oferta, boxes, names, k - 1);
        let prev = filas_oferta(code, nombre, oferta, boxes, names, k - 1);
        let cur = filas_oferta(code, nombre, oferta, boxes, names, k);
        assert forall|t: int| 0 <= t < cur.len() implies (#[trigger] cur[t]).0 == code by {
            if t < prev.len() {
                assert(cur[t] == prev[t]);
            } else {
                assert(cur[t] == fila_con_oferta(code, nombre, oferta[k - 1], boxes, names));
            }
        }
    }
}

} // verus!
