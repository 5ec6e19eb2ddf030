//! The courses a student may enrol in: pending curriculum courses offered this term,
//! general-education (CFG) courses, and elective courses outside the curriculum.
use vstd::prelude::*;
use crate::models::{RamoDisponible, Seccion};
use crate::datafiles::{norm_name, normalize_name_chars};
use crate::selector::{chars_le, seq_le};
use crate::text::{chars_of, chars_eq, lit, occurs, occurs_at, slice_chars, string_from_chars, to_upper, trim, trim_chars, upper_of};

verus! {

/// A course offered to the student.
#[derive(Debug, Clone)]
pub struct CursoDisponible {
    pub id: i32,
    pub codigo: String,
    pub nombre: String,
    pub semestre: Option<i32>,
    pub requisitos_ids: Vec<i32>,
    pub electivo: bool,
    pub is_cfg: bool,
    pub is_electivo: bool,
}

/// The courses offered to a student, with the counts of passed CFG and elective courses.
#[derive(Debug, Clone)]
pub struct CursosDisponibles {
    pub cursos: Vec<CursoDisponible>,
    pub cfgs_aprobados: usize,
    pub electivos_aprobados: usize,
    pub mostrar_cfgs: bool,
    pub mostrar_electivos: bool,
}

/// A course as plain values: identifier, code, name, semester, prerequisites, elective
/// flag, CFG flag, elective-outside-curriculum flag.
pub type CursoView = (int, Seq<char>, Seq<char>, Option<i32>, Seq<i32>, bool, bool, bool);

/// The plain values of a course.
pub open spec fn curso_view(c: CursoDisponible) -> CursoView {
    (c.id as int, c.codigo@, c.nombre@, c.semestre, c.requisitos_ids@, c.electivo, c.is_cfg, c.is_electivo)
}

/// Whether a section of the CFG file is English I, which counts as a regular course.
pub open spec fn is_ingles(nombre: Seq<char>) -> bool {
    norm_name(nombre) == norm_name("Inglés I"@) || norm_name(nombre) == norm_name("Ingles I"@)
}

/// The sections of the term as (code, name, is CFG): those of the offer, then those of
/// the CFG file, English I renamed "Inglés 1" and not counted as CFG.
pub open spec fn offer_entries(oferta: Seq<Seccion>, cfg: Seq<Seccion>) -> Seq<(Seq<char>, Seq<char>, bool)> {
    oferta.map_values(|s: Seccion| (s.codigo@, s.nombre@, false)) + cfg.map_values(
        |s: Seccion| if is_ingles(s.nombre@) {
            (s.codigo@, "Inglés 1"@, false)
        } else {
            (s.codigo@, s.nombre@, true)
        },
    )
}

/// Whether a code or name is among the passed entries (codes compared upper-cased,
/// names normalised).
pub open spec fn entry_passed(pasados: Seq<String>, codigo: Seq<char>, nombre: Seq<char>) -> bool {
    exists|k: int| 0 <= k < pasados.len() && (upper_of(#[trigger] pasados[k]@) == upper_of(codigo) || norm_name(
        pasados[k]@,
    ) == norm_name(nombre))
}

/// Whether `s` starts with `CFG`.
pub open spec fn starts_cfg(s: Seq<char>) -> bool {
    occurs(s, "CFG"@, 0)
}

/// Number of passed entries that are CFG courses.
pub open spec fn count_cfg(pasados: Seq<String>) -> nat
    decreases pasados.len(),
{
    if pasados.len() == 0 {
        0
    } else {
        count_cfg(pasados.drop_last()) + if starts_cfg(upper_of(pasados.last()@)) { 1nat } else { 0nat }
    }
}

/// Whether a passed entry names a curriculum course, by upper-cased code or normalised name.
pub open spec fn in_malla(ramos: Seq<RamoDisponible>, codigo: Seq<char>, nombre: Seq<char>) -> bool {
    exists|j: int| 0 <= j < ramos.len() && (upper_of((#[trigger] ramos[j]).codigo@) == upper_of(codigo) || norm_name(
        ramos[j].nombre@,
    ) == norm_name(nombre))
}

/// Number of passed entries that are electives: not CFG and naming no curriculum course.
pub open spec fn count_elect(ramos: Seq<RamoDisponible>, pasados: Seq<String>) -> nat
    decreases pasados.len(),
{
    if pasados.len() == 0 {
        0
    } else {
        let p = pasados.last()@;
        count_elect(ramos, pasados.drop_last()) + if !starts_cfg(upper_of(p)) && !in_malla(ramos, p, p) {
            1nat
        } else {
            0nat
        }
    }
}

/// Semester of the first curriculum course whose upper-cased code is `code`, if it has one.
pub open spec fn semester_of_code(ramos: Seq<RamoDisponible>, code: Seq<char>, i: int) -> Option<i32>
    decreases ramos.len() - i,
{
    if i < 0 || i >= ramos.len() {
        None
    } else if upper_of(ramos[i].codigo@) == upper_of(code) {
        ramos[i].semestre
    } else {
        semester_of_code(ramos, code, i + 1)
    }
}

/// The latest semester among the passed courses (0 if none), over `pasados[0..n]`.
pub open spec fn max_passed_sem(ramos: Seq<RamoDisponible>, pasados: Seq<String>, n: int) -> int
    decreases n,
{
    if n <= 0 {
        0
    } else {
        let m = max_passed_sem(ramos, pasados, n - 1);
        match semester_of_code(ramos, pasados[n - 1]@, 0) {
            Some(s) => if s > m { s as int } else { m },
            None => m,
        }
    }
}

/// Whether a curriculum course counts as passed by its code (for prerequisites).
pub open spec fn id_approved(ramos: Seq<RamoDisponible>, pasados: Seq<String>, id: i32) -> bool {
    exists|j: int| 0 <= j < ramos.len() && (#[trigger] ramos[j]).id == id && exists|k: int| 0 <= k < pasados.len()
        && upper_of(#[trigger] pasados[k]@) == upper_of(ramos[j].codigo@)
}

/// Whether a curriculum course may be offered: not passed, at most two semesters
/// after the latest passed one, prerequisites passed, and offered this term.
pub open spec fn malla_ok(r: RamoDisponible, ramos: Seq<RamoDisponible>, es: Seq<(Seq<char>, Seq<char>, bool)>, pasados: Seq<String>) -> bool {
    &&& !entry_passed(pasados, r.codigo@, r.nombre@)
    &&& (r.semestre matches Some(s) ==> s <= max_passed_sem(ramos, pasados, pasados.len() as int) + 2)
    &&& forall|q: int| 0 <= q < r.requisitos_ids@.len() ==> #[trigger] r.requisitos_ids@[q] <= 0 || id_approved(ramos, pasados, r.requisitos_ids@[q])
    &&& exists|e: int| 0 <= e < es.len() && (upper_of((#[trigger] es[e]).0) == upper_of(r.codigo@) || norm_name(es[e].1) == norm_name(r.nombre@))
}

/// A candidate: its key (upper-cased code), its course with a provisional identifier,
/// whether it passes its checks, and its kind (0 curriculum, 1 CFG, 2 elective).
pub type Candidate = (Seq<char>, CursoView, bool, int);

/// The curriculum candidates.
pub open spec fn malla_part(ramos: Seq<RamoDisponible>, es: Seq<(Seq<char>, Seq<char>, bool)>, pasados: Seq<String>) -> Seq<Candidate> {
    ramos.map_values(|r: RamoDisponible| (
        upper_of(r.codigo@),
        (r.id as int, r.codigo@, r.nombre@, r.semestre, r.requisitos_ids@, r.electivo, false, false),
        malla_ok(r, ramos, es, pasados),
        0int,
    ))
}

/// The CFG candidates: CFG sections not passed.
pub open spec fn cfg_part(es: Seq<(Seq<char>, Seq<char>, bool)>, pasados: Seq<String>) -> Seq<Candidate> {
    es.map_values(|e: (Seq<char>, Seq<char>, bool)| (
        upper_of(e.0),
        (0int, e.0, e.1, None::<i32>, Seq::<i32>::empty(), false, true, false),
        e.2 && !entry_passed(pasados, e.0, e.1),
        1int,
    ))
}

/// The elective candidates: sections that are not CFG, name no curriculum course, and
/// are not passed.
pub open spec fn elect_part(ramos: Seq<RamoDisponible>, es: Seq<(Seq<char>, Seq<char>, bool)>, pasados: Seq<String>) -> Seq<Candidate> {
    es.map_values(|e: (Seq<char>, Seq<char>, bool)| (
        upper_of(e.0),
        (0int, e.0, e.1, None::<i32>, Seq::<i32>::empty(), true, false, true),
        !e.2 && !in_malla(ramos, e.0, e.1) && !entry_passed(pasados, e.0, e.1),
        2int,
    ))
}

/// The candidates, in the order they are considered: curriculum courses, then CFG
/// sections when fewer than four CFGs are passed, then sections outside the curriculum
/// when fewer than three electives are passed.
pub open spec fn candidates(ramos: Seq<RamoDisponible>, es: Seq<(Seq<char>, Seq<char>, bool)>, pasados: Seq<String>) -> Seq<Candidate> {
    malla_part(ramos, es, pasados) + (if count_cfg(pasados) < 4 { cfg_part(es, pasados) } else { Seq::empty() }) + (
    if count_elect(ramos, pasados) < 3 {
        elect_part(ramos, es, pasados)
    } else {
        Seq::empty()
    })
}

/// Accepting candidates in order: the keys seen, the courses accepted, and how many
/// CFG and elective courses were accepted (they are numbered from 1000 and 2000).
pub type Accepted = (Seq<Seq<char>>, Seq<CursoView>, int, int);

/// Considering one candidate: it is accepted when it passes its checks and its key was
/// not seen; CFG and elective courses are numbered from 1000 and 2000.
pub open spec fn accept_step(st: Accepted, c: Candidate) -> Accepted {
    if c.2 && !st.0.contains(c.0) {
        let v = c.1;
        let id = if c.3 == 0 { v.0 } else if c.3 == 1 { 1000 + st.2 } else { 2000 + st.3 };
        (
            st.0.push(c.0),
            st.1.push((id, v.1, v.2, v.3, v.4, v.5, v.6, v.7)),
            if c.3 == 1 { st.2 + 1 } else { st.2 },
            if c.3 == 2 { st.3 + 1 } else { st.3 },
        )
    } else {
        st
    }
}

/// The state after considering the first `n` candidates.
pub open spec fn accept(cands: Seq<Candidate>, n: int) -> Accepted
    decreases n,
{
    if n <= 0 {
        (Seq::empty(), Seq::empty(), 0, 0)
    } else {
        accept_step(accept(cands, n - 1), cands[n - 1])
    }
}

/// The listing order: curriculum courses, then CFG, then electives; by semester (none
/// counting as 99) and code.
pub open spec fn curso_le(a: CursoView, b: CursoView) -> bool {
    let ta = if a.6 { 1int } else if a.7 { 2int } else { 0int };
    let tb = if b.6 { 1int } else if b.7 { 2int } else { 0int };
    let sa = match a.3 { Some(s) => s as int, None => 99int };
    let sb = match b.3 { Some(s) => s as int, None => 99int };
    ta < tb || (ta == tb && (sa < sb || (sa == sb && seq_le(a.1, b.1))))
}

/// `x` inserted after every course that does not come after it.
pub open spec fn ins_curso(s: Seq<CursoView>, x: CursoView) -> Seq<CursoView>
    decreases s.len(),
{
    if s.len() == 0 {
        seq![x]
    } else if curso_le(s.last(), x) {
        s.push(x)
    } else {
        ins_curso(s.drop_last(), x).push(s.last())
    }
}

/// The courses in listing order (stable).
pub open spec fn sort_cursos(s: Seq<CursoView>) -> Seq<CursoView>
    decreases s.len(),
{
    if s.len() == 0 {
        Seq::empty()
    } else {
        ins_curso(sort_cursos(s.drop_last()), s.last())
    }
}

/// The listing of courses offered to a student.
pub open spec fn disponibles(ramos: Seq<RamoDisponible>, oferta: Seq<Seccion>, cfg: Seq<Seccion>, pasados: Seq<String>) -> Seq<CursoView> {
    let cands = candidates(ramos, offer_entries(oferta, cfg), pasados);
    sort_cursos(accept(cands, cands.len() as int).1)
}


/// The plain values of the working state.
pub open spec fn state_view(seen: Seq<Vec<char>>, out: Seq<CursoDisponible>, c1: i32, c2: i32) -> Accepted {
    (seen.map_values(|v: Vec<char>| v@), out.map_values(|c: CursoDisponible| curso_view(c)), c1 as int, c2 as int)
}

fn contains_chars(v: &Vec<Vec<char>>, x: &Vec<char>) -> (r: bool)
    ensures
        r == v@.map_values(|w: Vec<char>| w@).contains(x@),
{
    let ghost vv = v@.map_values(|w: Vec<char>| w@);
    let mut k: usize = 0;
    while k < v.len()
        invariant
            k <= v.len(),
            vv == v@.map_values(|w: Vec<char>| w@),
            forall|j: int| 0 <= j < k ==> (#[trigger] v@[j])@ != x@,
        decreases v.len() - k,
    {
        if chars_eq(&v[k], x) {
            assert(vv[k as int] == x@);
            return true;
        }
        k = k + 1;
    }
    assert forall|j: int| 0 <= j < vv.len() implies vv[j] != x@ by {
        assert(vv[j] == v@[j]@);
    }
    false
}

/// A copy of a list of prerequisite identifiers.
fn copy_ids(v: &Vec<i32>) -> (r: Vec<i32>)
    ensures
        r@ == v@,
{
    let mut out: Vec<i32> = Vec::new();
    let mut i: usize = 0;
    while i < v.len()
        invariant
            i <= v.len(),
            out@ == v@.subrange(0, i as int),
        decreases v.len() - i,
    {
        out.push(v[i]);
        i = i + 1;
        assert(out@ =~= v@.subrange(0, i as int));
    }
    assert(v@.subrange(0, v.len() as int) =~= v@);
    out
}

/// Considers one candidate (see `accept_step`).
fn accept_one(
    seen: &mut Vec<Vec<char>>,
    out: &mut Vec<CursoDisponible>,
    c1: &mut i32,
    c2: &mut i32,
    key: &Vec<char>,
    item: &CursoDisponible,
    ok: bool,
    kind: u8,
    bound: usize,
)
    requires
        *old(c1) <= old(out).len() && *old(c2) <= old(out).len() && 0 <= *old(c1) && 0 <= *old(c2),
        old(out).len() < bound,
        bound + 2000 <= i32::MAX,
    ensures
        state_view(final(seen)@, final(out)@, *final(c1), *final(c2)) == accept_step(
            state_view(old(seen)@, old(out)@, *old(c1), *old(c2)),
            (key@, curso_view(*item), ok, kind as int),
        ),
        *final(c1) <= final(out).len() && *final(c2) <= final(out).len() && 0 <= *final(c1) && 0 <= *final(c2),
        final(out).len() <= old(out).len() + 1,
{
    let ghost st = state_view(seen@, out@, *c1, *c2);
    if ok && !contains_chars(seen, key) {
        let id: i32 = if kind == 0 { item.id } else if kind == 1 { 1000 + *c1 } else { 2000 + *c2 };
        let ghost kv = key@;
        let ghost iv = curso_view(*item);
        let ghost s0 = seen@;
        let ghost o0 = out@;
        seen.push(slice_chars(key, 0, key.len()));
        assert(key@.subrange(0, key.len() as int) =~= key@);
        out.push(CursoDisponible {
            id,
            codigo: item.codigo.clone(),
            nombre: item.nombre.clone(),
            semestre: item.semestre,
            requisitos_ids: copy_ids(&item.requisitos_ids),
            electivo: item.electivo,
            is_cfg: item.is_cfg,
            is_electivo: item.is_electivo,
        });
        if kind == 1 {
            *c1 = *c1 + 1;
        } else if kind == 2 {
            *c2 = *c2 + 1;
        }
        assert(seen@.map_values(|v: Vec<char>| v@) =~= s0.map_values(|v: Vec<char>| v@).push(kv));
        assert(out@.map_values(|c: CursoDisponible| curso_view(c)) =~= o0.map_values(|c: CursoDisponible| curso_view(c)).push(
            (id as int, iv.1, iv.2, iv.3, iv.4, iv.5, iv.6, iv.7),
        ));
    }
}

/// The plain values of the term's entries.
pub open spec fn entries_view(v: Seq<(Vec<char>, Vec<char>, bool)>) -> Seq<(Seq<char>, Seq<char>, bool)> {
    v.map_values(|e: (Vec<char>, Vec<char>, bool)| (e.0@, e.1@, e.2))
}

fn is_ingles_exec(nombre: &str) -> (r: bool)
    ensures
        r == is_ingles(nombre@),
{
    let n = normalize_name_chars(&chars_of(nombre));
    chars_eq(&n, &normalize_name_chars(&lit("Inglés I"))) || chars_eq(&n, &normalize_name_chars(&lit("Ingles I")))
}

fn offer_entries_exec(oferta: &[Seccion], cfg: &[Seccion]) -> (r: Vec<(Vec<char>, Vec<char>, bool)>)
    ensures
        entries_view(r@) == offer_entries(oferta@, cfg@),
{
    let mut out: Vec<(Vec<char>, Vec<char>, bool)> = Vec::new();
    let mut i: usize = 0;
    while i < oferta.len()
        invariant
            i <= oferta.len(),
            entries_view(out@) == oferta@.subrange(0, i as int).map_values(|s: Seccion| (s.codigo@, s.nombre@, false)),
        decreases oferta.len() - i,
    {
        let ghost o0 = out@;
        out.push((chars_of(oferta[i].codigo.as_str()), chars_of(oferta[i].nombre.as_str()), false));
        i = i + 1;
        assert(entries_view(out@) =~= entries_view(o0).push((oferta@[i - 1].codigo@, oferta@[i - 1].nombre@, false)));
        assert(oferta@.subrange(0, i as int).map_values(|s: Seccion| (s.codigo@, s.nombre@, false)) =~= oferta@.subrange(
            0,
            i - 1,
        ).map_values(|s: Seccion| (s.codigo@, s.nombre@, false)).push((oferta@[i - 1].codigo@, oferta@[i - 1].nombre@, false)));
    }
    assert(oferta@.subrange(0, oferta.len() as int) =~= oferta@);
    let ghost first = entries_view(out@);
    let mut k: usize = 0;
    while k < cfg.len()
        invariant
            k <= cfg.len(),
            first == oferta@.map_values(|s: Seccion| (s.codigo@, s.nombre@, false)),
            entries_view(out@) == first + cfg@.subrange(0, k as int).map_values(
                |s: Seccion| if is_ingles(s.nombre@) {
                    (s.codigo@, "Inglés 1"@, false)
                } else {
                    (s.codigo@, s.nombre@, true)
                },
            ),
        decreases cfg.len() - k,
    {
        let ghost o0 = out@;
        let ing = is_ingles_exec(cfg[k].nombre.as_str());
        let e = if ing {
            (chars_of(cfg[k].codigo.as_str()), lit("Inglés 1"), false)
        } else {
            (chars_of(cfg[k].codigo.as_str()), chars_of(cfg[k].nombre.as_str()), true)
        };
        let ghost ev = (e.0@, e.1@, e.2);
        out.push(e);
        k = k + 1;
        assert(entries_view(out@) =~= entries_view(o0).push(ev));
        assert(cfg@.subrange(0, k as int).map_values(
            |s: Seccion| if is_ingles(s.nombre@) {
                (s.codigo@, "Inglés 1"@, false)
            } else {
                (s.codigo@, s.nombre@, true)
            },
        ) =~= cfg@.subrange(0, k - 1).map_values(
            |s: Seccion| if is_ingles(s.nombre@) {
                (s.codigo@, "Inglés 1"@, false)
            } else {
                (s.codigo@, s.nombre@, true)
            },
        ).push(ev));
    }
    assert(cfg@.subrange(0, cfg.len() as int) =~= cfg@);
    out
}

/// Upper-cased and normalised forms of the passed entries.
pub(crate) fn pasados_forms(pasados: &[String]) -> (r: (Vec<Vec<char>>, Vec<Vec<char>>))
    ensures
        r.0.len() == pasados.len() && r.1.len() == pasados.len(),
        forall|k: int| 0 <= k < pasados.len() ==> (#[trigger] r.0@[k])@ == upper_of(pasados@[k]@),
        forall|k: int| 0 <= k < pasados.len() ==> (#[trigger] r.1@[k])@ == norm_name(pasados@[k]@),
{
    let mut ups: Vec<Vec<char>> = Vec::new();
    let mut norms: Vec<Vec<char>> = Vec::new();
    let mut k: usize = 0;
    while k < pasados.len()
        invariant
            k <= pasados.len(),
            ups.len() == k && norms.len() == k,
            forall|j: int| 0 <= j < k ==> (#[trigger] ups@[j])@ == upper_of(pasados@[j]@),
            forall|j: int| 0 <= j < k ==> (#[trigger] norms@[j])@ == norm_name(pasados@[j]@),
        decreases pasados.len() - k,
    {
        let c = chars_of(pasados[k].as_str());
        ups.push(to_upper(&c));
        norms.push(normalize_name_chars(&c));
        k = k + 1;
    }
    (ups, norms)
}

/// Upper-cased codes and normalised names of the curriculum courses.
fn ramos_forms(ramos: &[RamoDisponible]) -> (r: (Vec<Vec<char>>, Vec<Vec<char>>))
    ensures
        r.0.len() == ramos.len() && r.1.len() == ramos.len(),
        forall|j: int| 0 <= j < ramos.len() ==> (#[trigger] r.0@[j])@ == upper_of(ramos@[j].codigo@),
        forall|j: int| 0 <= j < ramos.len() ==> (#[trigger] r.1@[j])@ == norm_name(ramos@[j].nombre@),
{
    let mut ups: Vec<Vec<char>> = Vec::new();
    let mut norms: Vec<Vec<char>> = Vec::new();
    let mut j: usize = 0;
    while j < ramos.len()
        invariant
            j <= ramos.len(),
            ups.len() == j && norms.len() == j,
            forall|x: int| 0 <= x < j ==> (#[trigger] ups@[x])@ == upper_of(ramos@[x].codigo@),
            forall|x: int| 0 <= x < j ==> (#[trigger] norms@[x])@ == norm_name(ramos@[x].nombre@),
        decreases ramos.len() - j,
    {
        ups.push(to_upper(&chars_of(ramos[j].codigo.as_str())));
        norms.push(normalize_name_chars(&chars_of(ramos[j].nombre.as_str())));
        j = j + 1;
    }
    (ups, norms)
}

/// Upper-cased codes and normalised names of the term's entries.
fn entries_forms(es: &Vec<(Vec<char>, Vec<char>, bool)>) -> (r: (Vec<Vec<char>>, Vec<Vec<char>>))
    ensures
        r.0.len() == es.len() && r.1.len() == es.len(),
        forall|e: int| 0 <= e < es.len() ==> (#[trigger] r.0@[e])@ == upper_of(es@[e].0@),
        forall|e: int| 0 <= e < es.len() ==> (#[trigger] r.1@[e])@ == norm_name(es@[e].1@),
{
    let mut ups: Vec<Vec<char>> = Vec::new();
    let mut norms: Vec<Vec<char>> = Vec::new();
    let mut e: usize = 0;
    while e < es.len()
        invariant
            e <= es.len(),
            ups.len() == e && norms.len() == e,
            forall|x: int| 0 <= x < e ==> (#[trigger] ups@[x])@ == upper_of(es@[x].0@),
            forall|x: int| 0 <= x < e ==> (#[trigger] norms@[x])@ == norm_name(es@[x].1@),
        decreases es.len() - e,
    {
        ups.push(to_upper(&es[e].0));
        norms.push(normalize_name_chars(&es[e].1));
        e = e + 1;
    }
    (ups, norms)
}

/// Whether entry `k` of the forms matches: `a[k] == x` or `b[k] == y`.
pub open spec fn pair_hit(a: Seq<Vec<char>>, b: Seq<Vec<char>>, x: Seq<char>, y: Seq<char>, k: int) -> bool {
    a[k]@ == x || b[k]@ == y
}

/// Whether some pair of forms matches.
fn any_pair_match(a: &Vec<Vec<char>>, b: &Vec<Vec<char>>, x: &Vec<char>, y: &Vec<char>) -> (r: bool)
    requires
        a.len() == b.len(),
    ensures
        r == exists|k: int| 0 <= k < a.len() && #[trigger] pair_hit(a@, b@, x@, y@, k),
{
    let mut k: usize = 0;
    while k < a.len()
        invariant
            k <= a.len() == b.len(),
            forall|j: int| 0 <= j < k ==> !#[trigger] pair_hit(a@, b@, x@, y@, j),
        decreases a.len() - k,
    {
        let m1 = chars_eq(&a[k], x);
        let m2 = chars_eq(&b[k], y);
        if m1 || m2 {
            assert(pair_hit(a@, b@, x@, y@, k as int));
            return true;
        }
        k = k + 1;
    }
    false
}


pub(crate) fn count_cfg_exec(pups: &Vec<Vec<char>>, pasados: Ghost<Seq<String>>) -> (r: usize)
    requires
        pups.len() == pasados@.len(),
        forall|k: int| 0 <= k < pups.len() ==> (#[trigger] pups@[k])@ == upper_of(pasados@[k]@),
    ensures
        r == count_cfg(pasados@),
{
    let cfg = lit("CFG");
    let mut n: usize = 0;
    let mut k: usize = 0;
    while k < pups.len()
        invariant
            k <= pups.len() == pasados@.len(),
            cfg@ == "CFG"@,
            forall|j: int| 0 <= j < pups.len() ==> (#[trigger] pups@[j])@ == upper_of(pasados@[j]@),
            n == count_cfg(pasados@.subrange(0, k as int)),
            n <= k,
        decreases pups.len() - k,
    {
        assert(pasados@.subrange(0, k + 1).drop_last() =~= pasados@.subrange(0, k as int));
        if occurs_at(&pups[k], &cfg, 0) {
            n = n + 1;
        }
        k = k + 1;
    }
    assert(pasados@.subrange(0, pups.len() as int) =~= pasados@);
    n
}

fn count_elect_exec(
    pups: &Vec<Vec<char>>,
    pnorms: &Vec<Vec<char>>,
    rups: &Vec<Vec<char>>,
    rnorms: &Vec<Vec<char>>,
    ramos: Ghost<Seq<RamoDisponible>>,
    pasados: Ghost<Seq<String>>,
) -> (r: usize)
    requires
        pups.len() == pasados@.len() && pnorms.len() == pasados@.len(),
        forall|k: int| 0 <= k < pups.len() ==> (#[trigger] pups@[k])@ == upper_of(pasados@[k]@),
        forall|k: int| 0 <= k < pnorms.len() ==> (#[trigger] pnorms@[k])@ == norm_name(pasados@[k]@),
        rups.len() == ramos@.len() && rnorms.len() == ramos@.len(),
        forall|j: int| 0 <= j < ramos@.len() ==> (#[trigger] rups@[j])@ == upper_of(ramos@[j].codigo@),
        forall|j: int| 0 <= j < ramos@.len() ==> (#[trigger] rnorms@[j])@ == norm_name(ramos@[j].nombre@),
    ensures
        r == count_elect(ramos@, pasados@),
{
    let cfg = lit("CFG");
    let mut n: usize = 0;
    let mut k: usize = 0;
    while k < pups.len()
        invariant
            k <= pups.len() == pasados@.len() == pnorms.len(),
            cfg@ == "CFG"@,
            forall|j: int| 0 <= j < pups.len() ==> (#[trigger] pups@[j])@ == upper_of(pasados@[j]@),
            forall|j: int| 0 <= j < pnorms.len() ==> (#[trigger] pnorms@[j])@ == norm_name(pasados@[j]@),
            rups.len() == ramos@.len() && rnorms.len() == ramos@.len(),
            forall|j: int| 0 <= j < ramos@.len() ==> (#[trigger] rups@[j])@ == upper_of(ramos@[j].codigo@),
            forall|j: int| 0 <= j < ramos@.len() ==> (#[trigger] rnorms@[j])@ == norm_name(ramos@[j].nombre@),
            n == count_elect(ramos@, pasados@.subrange(0, k as int)),
            n <= k,
        decreases pups.len() - k,
    {
        assert(pasados@.subrange(0, k + 1).drop_last() =~= pasados@.subrange(0, k as int));
        let ghost p = pasados@[k as int]@;
        let hit = any_pair_match(rups, rnorms, &pups[k], &pnorms[k]);
        proof {
            if hit {
                let j = choose|j: int| 0 <= j < rups.len() && #[trigger] pair_hit(rups@, rnorms@, pups@[k as int]@, pnorms@[k as int]@, j);
                assert(upper_of(ramos@[j].codigo@) == upper_of(p) || norm_name(ramos@[j].nombre@) == norm_name(p));
            }
            if in_malla(ramos@, p, p) {
                let j = choose|j: int| 0 <= j < ramos@.len() && (upper_of((#[trigger] ramos@[j]).codigo@) == upper_of(p) || norm_name(
                    ramos@[j].nombre@,
                ) == norm_name(p));
                assert(pair_hit(rups@, rnorms@, pups@[k as int]@, pnorms@[k as int]@, j));
            }
        }
        if !occurs_at(&pups[k], &cfg, 0) && !hit {
            n = n + 1;
        }
        k = k + 1;
    }
    assert(pasados@.subrange(0, pups.len() as int) =~= pasados@);
    n
}

proof fn lemma_semester_of_code(ramos: Seq<RamoDisponible>, code: Seq<char>, i: int, j: int)
    requires
        0 <= i <= j <= ramos.len(),
        forall|k: int| i <= k < j ==> upper_of((#[trigger] ramos[k]).codigo@) != upper_of(code),
    ensures
        semester_of_code(ramos, code, i) == semester_of_code(ramos, code, j),
    decreases j - i,
{
    if i < j {
        lemma_semester_of_code(ramos, code, i + 1, j);
    }
}

proof fn lemma_max_sem_mono(ramos: Seq<RamoDisponible>, pasados: Seq<String>, i: int, j: int)
    requires
        0 <= i <= j,
    ensures
        0 <= max_passed_sem(ramos, pasados, i) <= max_passed_sem(ramos, pasados, j),
    decreases j - i,
{
    lemma_max_sem_nonneg(ramos, pasados, i);
    if i < j {
        lemma_max_sem_mono(ramos, pasados, i, j - 1);
    }
}

proof fn lemma_max_sem_nonneg(ramos: Seq<RamoDisponible>, pasados: Seq<String>, i: int)
    ensures
        0 <= max_passed_sem(ramos, pasados, i),
    decreases i,
{
    if i > 0 {
        lemma_max_sem_nonneg(ramos, pasados, i - 1);
    }
}

fn max_sem_exec(rups: &Vec<Vec<char>>, pups: &Vec<Vec<char>>, ramos: &[RamoDisponible], pasados: Ghost<Seq<String>>) -> (r: i32)
    requires
        pups.len() == pasados@.len(),
        forall|k: int| 0 <= k < pups.len() ==> (#[trigger] pups@[k])@ == upper_of(pasados@[k]@),
        rups.len() == ramos.len(),
        forall|j: int| 0 <= j < ramos.len() ==> (#[trigger] rups@[j])@ == upper_of(ramos@[j].codigo@),
        max_passed_sem(ramos@, pasados@, pasados@.len() as int) <= i32::MAX,
    ensures
        r == max_passed_sem(ramos@, pasados@, pasados@.len() as int),
{
    let mut m: i32 = 0;
    let mut k: usize = 0;
    while k < pups.len()
        invariant
            k <= pups.len() == pasados@.len(),
            forall|x: int| 0 <= x < pups.len() ==> (#[trigger] pups@[x])@ == upper_of(pasados@[x]@),
            rups.len() == ramos.len(),
            forall|j: int| 0 <= j < ramos.len() ==> (#[trigger] rups@[j])@ == upper_of(ramos@[j].codigo@),
            max_passed_sem(ramos@, pasados@, pasados@.len() as int) <= i32::MAX,
            m == max_passed_sem(ramos@, pasados@, k as int),
        decreases pups.len() - k,
    {
        let mut j: usize = 0;
        while j < rups.len() && !chars_eq(&rups[j], &pups[k])
            invariant
                k < pups.len(),
                j <= rups.len() == ramos.len(),
                forall|x: int| 0 <= x < ramos.len() ==> (#[trigger] rups@[x])@ == upper_of(ramos@[x].codigo@),
                pups@[k as int]@ == upper_of(pasados@[k as int]@),
                forall|x: int| 0 <= x < j ==> upper_of((#[trigger] ramos@[x]).codigo@) != upper_of(pasados@[k as int]@),
            decreases rups.len() - j,
        {
            j = j + 1;
        }
        proof {
            lemma_semester_of_code(ramos@, pasados@[k as int]@, 0, j as int);
            lemma_max_sem_mono(ramos@, pasados@, k + 1, pasados@.len() as int);
        }
        if j < rups.len() {
            match ramos[j].semestre {
                Some(sv) => {
                    if sv > m {
                        m = sv;
                    }
                },
                None => {},
            }
        }
        k = k + 1;
    }
    m
}

/// A candidate being built: key, course, checks passed, kind.
pub type CandExec = (Vec<char>, CursoDisponible, bool, u8);

/// The plain values of a candidate.
pub open spec fn cand_view(c: CandExec) -> Candidate {
    (c.0@, curso_view(c.1), c.2, c.3 as int)
}

/// The plain values of candidates.
pub open spec fn cands_view(v: Seq<CandExec>) -> Seq<Candidate> {
    v.map_values(|c: CandExec| cand_view(c))
}

fn entry_passed_exec(
    pups: &Vec<Vec<char>>,
    pnorms: &Vec<Vec<char>>,
    cu: &Vec<char>,
    nn: &Vec<char>,
    pasados: Ghost<Seq<String>>,
    codigo: Ghost<Seq<char>>,
    nombre: Ghost<Seq<char>>,
) -> (r: bool)
    requires
        pups.len() == pasados@.len() && pnorms.len() == pasados@.len(),
        forall|k: int| 0 <= k < pups.len() ==> (#[trigger] pups@[k])@ == upper_of(pasados@[k]@),
        forall|k: int| 0 <= k < pnorms.len() ==> (#[trigger] pnorms@[k])@ == norm_name(pasados@[k]@),
        cu@ == upper_of(codigo@),
        nn@ == norm_name(nombre@),
    ensures
        r == entry_passed(pasados@, codigo@, nombre@),
{
    let hit = any_pair_match(pups, pnorms, cu, nn);
    proof {
        if hit {
            let k = choose|k: int| 0 <= k < pups.len() && #[trigger] pair_hit(pups@, pnorms@, cu@, nn@, k);
            assert(upper_of(pasados@[k]@) == upper_of(codigo@) || norm_name(pasados@[k]@) == norm_name(nombre@));
        }
        if entry_passed(pasados@, codigo@, nombre@) {
            let k = choose|k: int| 0 <= k < pasados@.len() && (upper_of(#[trigger] pasados@[k]@) == upper_of(codigo@) || norm_name(
                pasados@[k]@,
            ) == norm_name(nombre@));
            assert(pair_hit(pups@, pnorms@, cu@, nn@, k));
        }
    }
    hit
}

fn in_malla_exec(
    rups: &Vec<Vec<char>>,
    rnorms: &Vec<Vec<char>>,
    cu: &Vec<char>,
    nn: &Vec<char>,
    ramos: Ghost<Seq<RamoDisponible>>,
    codigo: Ghost<Seq<char>>,
    nombre: Ghost<Seq<char>>,
) -> (r: bool)
    requires
        rups.len() == ramos@.len() && rnorms.len() == ramos@.len(),
        forall|j: int| 0 <= j < ramos@.len() ==> (#[trigger] rups@[j])@ == upper_of(ramos@[j].codigo@),
        forall|j: int| 0 <= j < ramos@.len() ==> (#[trigger] rnorms@[j])@ == norm_name(ramos@[j].nombre@),
        cu@ == upper_of(codigo@),
        nn@ == norm_name(nombre@),
    ensures
        r == in_malla(ramos@, codigo@, nombre@),
{
    let hit = any_pair_match(rups, rnorms, cu, nn);
    proof {
        if hit {
            let j = choose|j: int| 0 <= j < rups.len() && #[trigger] pair_hit(rups@, rnorms@, cu@, nn@, j);
            assert(upper_of(ramos@[j].codigo@) == upper_of(codigo@) || norm_name(ramos@[j].nombre@) == norm_name(nombre@));
        }
        if in_malla(ramos@, codigo@, nombre@) {
            let j = choose|j: int| 0 <= j < ramos@.len() && (upper_of((#[trigger] ramos@[j]).codigo@) == upper_of(codigo@)
                || norm_name(ramos@[j].nombre@) == norm_name(nombre@));
            assert(pair_hit(rups@, rnorms@, cu@, nn@, j));
        }
    }
    hit
}

/// Whether each curriculum course's code is among the passed entries (upper-cased).
fn approved_flags(rups: &Vec<Vec<char>>, pups: &Vec<Vec<char>>, ramos: Ghost<Seq<RamoDisponible>>, pasados: Ghost<Seq<String>>) -> (r: Vec<bool>)
    requires
        pups.len() == pasados@.len(),
        forall|k: int| 0 <= k < pups.len() ==> (#[trigger] pups@[k])@ == upper_of(pasados@[k]@),
        rups.len() == ramos@.len(),
        forall|j: int| 0 <= j < ramos@.len() ==> (#[trigger] rups@[j])@ == upper_of(ramos@[j].codigo@),
    ensures
        r.len() == ramos@.len(),
        forall|j: int| 0 <= j < ramos@.len() ==> #[trigger] r@[j] == exists|k: int| 0 <= k < pasados@.len() && upper_of(
            #[trigger] pasados@[k]@,
        ) == upper_of(ramos@[j].codigo@),
{
    let mut out: Vec<bool> = Vec::new();
    let mut j: usize = 0;
    while j < rups.len()
        invariant
            j <= rups.len() == ramos@.len(),
            pups.len() == pasados@.len(),
            forall|k: int| 0 <= k < pups.len() ==> (#[trigger] pups@[k])@ == upper_of(pasados@[k]@),
            forall|x: int| 0 <= x < ramos@.len() ==> (#[trigger] rups@[x])@ == upper_of(ramos@[x].codigo@),
            out.len() == j,
            forall|x: int| 0 <= x < j ==> #[trigger] out@[x] == exists|k: int| 0 <= k < pasados@.len() && upper_of(
                #[trigger] pasados@[k]@,
            ) == upper_of(ramos@[x].codigo@),
        decreases rups.len() - j,
    {
        let hit = contains_chars(pups, &rups[j]);
        proof {
            let pv = pups@.map_values(|w: Vec<char>| w@);
            if hit {
                let k = choose|k: int| 0 <= k < pv.len() && pv[k] == rups@[j as int]@;
                assert(upper_of(pasados@[k]@) == upper_of(ramos@[j as int].codigo@));
            }
            if exists|k: int| 0 <= k < pasados@.len() && upper_of(#[trigger] pasados@[k]@) == upper_of(ramos@[j as int].codigo@) {
                let k = choose|k: int| 0 <= k < pasados@.len() && upper_of(#[trigger] pasados@[k]@) == upper_of(ramos@[j as int].codigo@);
                assert(pv[k] == rups@[j as int]@);
            }
        }
        out.push(hit);
        j = j + 1;
    }
    out
}

fn id_approved_exec(ramos: &[RamoDisponible], ap: &Vec<bool>, id: i32, pasados: Ghost<Seq<String>>) -> (r: bool)
    requires
        ap.len() == ramos.len(),
        forall|j: int| 0 <= j < ramos.len() ==> #[trigger] ap@[j] == exists|k: int| 0 <= k < pasados@.len() && upper_of(
            #[trigger] pasados@[k]@,
        ) == upper_of(ramos@[j].codigo@),
    ensures
        r == id_approved(ramos@, pasados@, id),
{
    let mut j: usize = 0;
    while j < ramos.len()
        invariant
            j <= ramos.len() == ap.len(),
            forall|x: int| 0 <= x < ramos.len() ==> #[trigger] ap@[x] == exists|k: int| 0 <= k < pasados@.len() && upper_of(
                #[trigger] pasados@[k]@,
            ) == upper_of(ramos@[x].codigo@),
            forall|x: int| 0 <= x < j ==> !((#[trigger] ramos@[x]).id == id && ap@[x]),
        decreases ramos.len() - j,
    {
        if ramos[j].id == id && ap[j] {
            return true;
        }
        j = j + 1;
    }
    assert forall|x: int| 0 <= x < ramos.len() implies !((#[trigger] ramos@[x]).id == id && exists|k: int| 0 <= k < pasados@.len()
        && upper_of(#[trigger] pasados@[k]@) == upper_of(ramos@[x].codigo@)) by {
        assert(ap@[x] == exists|k: int| 0 <= k < pasados@.len() && upper_of(#[trigger] pasados@[k]@) == upper_of(ramos@[x].codigo@));
    }
    false
}

/// A copy of a course.
fn copy_curso(c: &CursoDisponible) -> (r: CursoDisponible)
    ensures
        curso_view(r) == curso_view(*c),
{
    CursoDisponible {
        id: c.id,
        codigo: c.codigo.clone(),
        nombre: c.nombre.clone(),
        semestre: c.semestre,
        requisitos_ids: copy_ids(&c.requisitos_ids),
        electivo: c.electivo,
        is_cfg: c.is_cfg,
        is_electivo: c.is_electivo,
    }
}

/// The candidates of the curriculum courses.
fn malla_cands_exec(
    ramos: &[RamoDisponible],
    rups: &Vec<Vec<char>>,
    rnorms: &Vec<Vec<char>>,
    pups: &Vec<Vec<char>>,
    pnorms: &Vec<Vec<char>>,
    eups: &Vec<Vec<char>>,
    enorms: &Vec<Vec<char>>,
    ap: &Vec<bool>,
    max_sem: i32,
    pasados: Ghost<Seq<String>>,
    es: Ghost<Seq<(Seq<char>, Seq<char>, bool)>>,
) -> (r: Vec<CandExec>)
    requires
        pups.len() == pasados@.len() && pnorms.len() == pasados@.len(),
        forall|k: int| 0 <= k < pups.len() ==> (#[trigger] pups@[k])@ == upper_of(pasados@[k]@),
        forall|k: int| 0 <= k < pnorms.len() ==> (#[trigger] pnorms@[k])@ == norm_name(pasados@[k]@),
        rups.len() == ramos.len() && rnorms.len() == ramos.len() && ap.len() == ramos.len(),
        forall|j: int| 0 <= j < ramos.len() ==> (#[trigger] rups@[j])@ == upper_of(ramos@[j].codigo@),
        forall|j: int| 0 <= j < ramos.len() ==> (#[trigger] rnorms@[j])@ == norm_name(ramos@[j].nombre@),
        forall|j: int| 0 <= j < ramos.len() ==> #[trigger] ap@[j] == exists|k: int| 0 <= k < pasados@.len() && upper_of(
            #[trigger] pasados@[k]@,
        ) == upper_of(ramos@[j].codigo@),
        eups.len() == es@.len() && enorms.len() == es@.len(),
        forall|e: int| 0 <= e < es@.len() ==> (#[trigger] eups@[e])@ == upper_of(es@[e].0),
        forall|e: int| 0 <= e < es@.len() ==> (#[trigger] enorms@[e])@ == norm_name(es@[e].1),
        max_sem == max_passed_sem(ramos@, pasados@, pasados@.len() as int),
    ensures
        cands_view(r@) == malla_part(ramos@, es@, pasados@),
{
    let mut out: Vec<CandExec> = Vec::new();
    let mut j: usize = 0;
    while j < ramos.len()
        invariant
            j <= ramos.len(),
            pups.len() == pasados@.len() && pnorms.len() == pasados@.len(),
            forall|k: int| 0 <= k < pups.len() ==> (#[trigger] pups@[k])@ == upper_of(pasados@[k]@),
            forall|k: int| 0 <= k < pnorms.len() ==> (#[trigger] pnorms@[k])@ == norm_name(pasados@[k]@),
            rups.len() == ramos.len() && rnorms.len() == ramos.len() && ap.len() == ramos.len(),
            forall|x: int| 0 <= x < ramos.len() ==> (#[trigger] rups@[x])@ == upper_of(ramos@[x].codigo@),
            forall|x: int| 0 <= x < ramos.len() ==> (#[trigger] rnorms@[x])@ == norm_name(ramos@[x].nombre@),
            forall|x: int| 0 <= x < ramos.len() ==> #[trigger] ap@[x] == exists|k: int| 0 <= k < pasados@.len() && upper_of(
                #[trigger] pasados@[k]@,
            ) == upper_of(ramos@[x].codigo@),
            eups.len() == es@.len() && enorms.len() == es@.len(),
            forall|e: int| 0 <= e < es@.len() ==> (#[trigger] eups@[e])@ == upper_of(es@[e].0),
            forall|e: int| 0 <= e < es@.len() ==> (#[trigger] enorms@[e])@ == norm_name(es@[e].1),
            max_sem == max_passed_sem(ramos@, pasados@, pasados@.len() as int),
            cands_view(out@) == malla_part(ramos@, es@, pasados@).subrange(0, j as int),
        decreases ramos.len() - j,
    {
        let r = &ramos[j];
        let ghost rv = ramos@[j as int];
        let mut ok = !entry_passed_exec(pups, pnorms, &rups[j], &rnorms[j], pasados, Ghost(rv.codigo@), Ghost(rv.nombre@));
        if ok {
            match r.semestre {
                Some(sv) => {
                    if sv as i64 > max_sem as i64 + 2 {
                        ok = false;
                    }
                },
                None => {},
            }
        }
        if ok {
            let mut q: usize = 0;
            while q < r.requisitos_ids.len()
                invariant_except_break
                    ok,
                invariant
                    j < ramos.len(),
                    r == ramos@[j as int],
                    q <= r.requisitos_ids.len(),
                    ap.len() == ramos.len(),
                    forall|x: int| 0 <= x < ramos.len() ==> #[trigger] ap@[x] == exists|k: int| 0 <= k < pasados@.len() && upper_of(
                        #[trigger] pasados@[k]@,
                    ) == upper_of(ramos@[x].codigo@),
                    forall|x: int| 0 <= x < q ==> #[trigger] r.requisitos_ids@[x] <= 0 || id_approved(ramos@, pasados@, r.requisitos_ids@[x]),
                ensures
                    ok <==> forall|x: int| 0 <= x < r.requisitos_ids@.len() ==> #[trigger] r.requisitos_ids@[x] <= 0 || id_approved(
                        ramos@,
                        pasados@,
                        r.requisitos_ids@[x],
                    ),
                decreases r.requisitos_ids.len() - q,
            {
                let req = r.requisitos_ids[q];
                if req > 0 && !id_approved_exec(ramos, ap, req, pasados) {
                    ok = false;
                    break;
                }
                q = q + 1;
            }
        }
        if ok {
            let hit = any_pair_match(eups, enorms, &rups[j], &rnorms[j]);
            proof {
                if hit {
                    let e = choose|e: int| 0 <= e < eups.len() && #[trigger] pair_hit(eups@, enorms@, rups@[j as int]@, rnorms@[j as int]@, e);
                    assert(upper_of((es@[e]).0) == upper_of(rv.codigo@) || norm_name(es@[e].1) == norm_name(rv.nombre@));
                }
                if exists|e: int| 0 <= e < es@.len() && (upper_of((#[trigger] es@[e]).0) == upper_of(rv.codigo@) || norm_name(es@[e].1)
                    == norm_name(rv.nombre@)) {
                    let e = choose|e: int| 0 <= e < es@.len() && (upper_of((#[trigger] es@[e]).0) == upper_of(rv.codigo@) || norm_name(
                        es@[e].1,
                    ) == norm_name(rv.nombre@));
                    assert(pair_hit(eups@, enorms@, rups@[j as int]@, rnorms@[j as int]@, e));
                }
            }
            ok = hit;
        }
        assert(ok == malla_ok(rv, ramos@, es@, pasados@));
        let item = CursoDisponible {
            id: r.id,
            codigo: r.codigo.clone(),
            nombre: r.nombre.clone(),
            semestre: r.semestre,
            requisitos_ids: copy_ids(&r.requisitos_ids),
            electivo: r.electivo,
            is_cfg: false,
            is_electivo: false,
        };
        let key = to_upper(&chars_of(r.codigo.as_str()));
        let ghost o0 = out@;
        out.push((key, item, ok, 0u8));
        assert(cands_view(out@) =~= cands_view(o0).push(malla_part(ramos@, es@, pasados@)[j as int]));
        assert(malla_part(ramos@, es@, pasados@).subrange(0, j + 1) =~= malla_part(ramos@, es@, pasados@).subrange(0, j as int).push(
            malla_part(ramos@, es@, pasados@)[j as int],
        ));
        j = j + 1;
    }
    assert(malla_part(ramos@, es@, pasados@).subrange(0, ramos.len() as int) =~= malla_part(ramos@, es@, pasados@));
    out
}

/// The candidates of the sections of the term: CFG candidates (`elective` false) or
/// elective candidates (`elective` true).
fn section_cands_exec(
    esv: &Vec<(Vec<char>, Vec<char>, bool)>,
    eups: &Vec<Vec<char>>,
    enorms: &Vec<Vec<char>>,
    pups: &Vec<Vec<char>>,
    pnorms: &Vec<Vec<char>>,
    rups: &Vec<Vec<char>>,
    rnorms: &Vec<Vec<char>>,
    elective: bool,
    ramos: Ghost<Seq<RamoDisponible>>,
    pasados: Ghost<Seq<String>>,
) -> (r: Vec<CandExec>)
    requires
        pups.len() == pasados@.len() && pnorms.len() == pasados@.len(),
        forall|k: int| 0 <= k < pups.len() ==> (#[trigger] pups@[k])@ == upper_of(pasados@[k]@),
        forall|k: int| 0 <= k < pnorms.len() ==> (#[trigger] pnorms@[k])@ == norm_name(pasados@[k]@),
        rups.len() == ramos@.len() && rnorms.len() == ramos@.len(),
        forall|j: int| 0 <= j < ramos@.len() ==> (#[trigger] rups@[j])@ == upper_of(ramos@[j].codigo@),
        forall|j: int| 0 <= j < ramos@.len() ==> (#[trigger] rnorms@[j])@ == norm_name(ramos@[j].nombre@),
        eups.len() == esv.len() && enorms.len() == esv.len(),
        forall|e: int| 0 <= e < esv.len() ==> (#[trigger] eups@[e])@ == upper_of(esv@[e].0@),
        forall|e: int| 0 <= e < esv.len() ==> (#[trigger] enorms@[e])@ == norm_name(esv@[e].1@),
    ensures
        cands_view(r@) == if elective {
            elect_part(ramos@, entries_view(esv@), pasados@)
        } else {
            cfg_part(entries_view(esv@), pasados@)
        },
{
    let ghost es = entries_view(esv@);
    let ghost target = if elective { elect_part(ramos@, es, pasados@) } else { cfg_part(es, pasados@) };
    let mut out: Vec<CandExec> = Vec::new();
    let mut e: usize = 0;
    while e < esv.len()
        invariant
            e <= esv.len(),
            es == entries_view(esv@),
            target == (if elective { elect_part(ramos@, es, pasados@) } else { cfg_part(es, pasados@) }),
            pups.len() == pasados@.len() && pnorms.len() == pasados@.len(),
            forall|k: int| 0 <= k < pups.len() ==> (#[trigger] pups@[k])@ == upper_of(pasados@[k]@),
            forall|k: int| 0 <= k < pnorms.len() ==> (#[trigger] pnorms@[k])@ == norm_name(pasados@[k]@),
            rups.len() == ramos@.len() && rnorms.len() == ramos@.len(),
            forall|j: int| 0 <= j < ramos@.len() ==> (#[trigger] rups@[j])@ == upper_of(ramos@[j].codigo@),
            forall|j: int| 0 <= j < ramos@.len() ==> (#[trigger] rnorms@[j])@ == norm_name(ramos@[j].nombre@),
            eups.len() == esv.len() && enorms.len() == esv.len(),
            forall|x: int| 0 <= x < esv.len() ==> (#[trigger] eups@[x])@ == upper_of(esv@[x].0@),
            forall|x: int| 0 <= x < esv.len() ==> (#[trigger] enorms@[x])@ == norm_name(esv@[x].1@),
            cands_view(out@) == target.subrange(0, e as int),
        decreases esv.len() - e,
    {
        let ghost ev = es[e as int];
        assert(ev == (esv@[e as int].0@, esv@[e as int].1@, esv@[e as int].2));
        let passed = entry_passed_exec(pups, pnorms, &eups[e], &enorms[e], pasados, Ghost(ev.0), Ghost(ev.1));
        let ok = if elective {
            !esv[e].2 && !in_malla_exec(rups, rnorms, &eups[e], &enorms[e], ramos, Ghost(ev.0), Ghost(ev.1)) && !passed
        } else {
            esv[e].2 && !passed
        };
        let item = CursoDisponible {
            id: 0,
            codigo: string_from_chars(&esv[e].0),
            nombre: string_from_chars(&esv[e].1),
            semestre: None,
            requisitos_ids: Vec::new(),
            electivo: elective,
            is_cfg: !elective,
            is_electivo: elective,
        };
        let key = to_upper(&esv[e].0);
        let kind: u8 = if elective { 2 } else { 1 };
        let ghost o0 = out@;
        out.push((key, item, ok, kind));
        assert(item.requisitos_ids@ =~= Seq::<i32>::empty());
        assert(cands_view(out@) =~= cands_view(o0).push(target[e as int]));
        assert(target.subrange(0, e + 1) =~= target.subrange(0, e as int).push(target[e as int]));
        e = e + 1;
    }
    assert(target.subrange(0, esv.len() as int) =~= target);
    out
}

fn curso_le_exec(a: &CursoDisponible, b: &CursoDisponible) -> (r: bool)
    ensures
        r == curso_le(curso_view(*a), curso_view(*b)),
{
    let ta: u8 = if a.is_cfg { 1 } else if a.is_electivo { 2 } else { 0 };
    let tb: u8 = if b.is_cfg { 1 } else if b.is_electivo { 2 } else { 0 };
    let sa: i32 = match a.semestre { Some(s) => s, None => 99 };
    let sb: i32 = match b.semestre { Some(s) => s, None => 99 };
    ta < tb || (ta == tb && (sa < sb || (sa == sb && chars_le(&chars_of(a.codigo.as_str()), &chars_of(b.codigo.as_str())))))
}

proof fn lemma_ins_curso_at(s: Seq<CursoView>, x: CursoView, p: int)
    requires
        0 <= p <= s.len(),
        forall|q: int| p <= q < s.len() ==> !curso_le(#[trigger] s[q], x),
        p > 0 ==> curso_le(s[p - 1], x),
    ensures
        ins_curso(s, x) == s.insert(p, x),
    decreases s.len(),
{
    if s.len() == 0 {
        assert(s.insert(p, x) =~= seq![x]);
    } else if curso_le(s.last(), x) {
        assert(p == s.len());
        assert(s.insert(p, x) =~= s.push(x));
    } else {
        lemma_ins_curso_at(s.drop_last(), x, p);
        assert(s.drop_last().insert(p, x).push(s.last()) =~= s.insert(p, x));
    }
}

/// The plain values of courses.
pub open spec fn cursos_view(v: Seq<CursoDisponible>) -> Seq<CursoView> {
    v.map_values(|c: CursoDisponible| curso_view(c))
}

fn sort_cursos_exec(v: &Vec<CursoDisponible>) -> (r: Vec<CursoDisponible>)
    ensures
        cursos_view(r@) == sort_cursos(cursos_view(v@)),
{
    let ghost vv = cursos_view(v@);
    let mut out: Vec<CursoDisponible> = Vec::new();
    let mut i: usize = 0;
    while i < v.len()
        invariant
            i <= v.len(),
            vv == cursos_view(v@),
            cursos_view(out@) == sort_cursos(vv.subrange(0, i as int)),
        decreases v.len() - i,
    {
        assert(vv.subrange(0, i + 1).drop_last() =~= vv.subrange(0, i as int));
        let x = copy_curso(&v[i]);
        let ghost ov = cursos_view(out@);
        let mut p: usize = out.len();
        while p > 0 && !curso_le_exec(&out[p - 1], &x)
            invariant
                p <= out.len(),
                ov == cursos_view(out@),
                forall|q: int| p <= q < out.len() ==> !curso_le(#[trigger] ov[q], curso_view(x)),
            decreases p,
        {
            p = p - 1;
        }
        proof {
            lemma_ins_curso_at(ov, curso_view(x), p as int);
        }
        let ghost xv = curso_view(x);
        out.insert(p, x);
        assert(cursos_view(out@) =~= ov.insert(p as int, xv));
        i = i + 1;
    }
    assert(vv.subrange(0, v.len() as int) =~= vv);
    out
}

/// The courses a student may enrol in this term, as the course catalogue endpoint
/// lists them. Curriculum courses come first: those not passed (by upper-cased code or
/// normalised name), at most two semesters after the latest passed course, with every
/// prerequisite passed (by code; identifiers at most 0 are no courses), and offered this
/// term (by code or name). Then, while fewer than four CFGs are passed, the CFG
/// sections not passed, numbered from 1000; then, while fewer than three electives are
/// passed, the sections outside the curriculum not passed, numbered from 2000. A code
/// (upper-cased) is listed once, the first time. The list is ordered by kind
/// (curriculum, CFG, elective), semester (none as 99) and code.
pub fn cursos_disponibles(
    ramos: &[RamoDisponible],
    oferta: &[Seccion],
    cfg: &[Seccion],
    ramos_pasados: &[String],
) -> (r: CursosDisponibles)
    requires
        ramos.len() + 2 * (oferta.len() + cfg.len()) + 2001 <= i32::MAX,
        max_passed_sem(ramos@, ramos_pasados@, ramos_pasados.len() as int) + 2 <= i32::MAX,
    ensures
        cursos_view(r.cursos@) == disponibles(ramos@, oferta@, cfg@, ramos_pasados@),
        r.cfgs_aprobados == count_cfg(ramos_pasados@),
        r.electivos_aprobados == count_elect(ramos@, ramos_pasados@),
        r.mostrar_cfgs == (count_cfg(ramos_pasados@) < 4),
        r.mostrar_electivos == (count_elect(ramos@, ramos_pasados@) < 3),
{
    let ghost pv = ramos_pasados@;
    let ghost rv = ramos@;
    let esv = offer_entries_exec(oferta, cfg);
    let ghost es = entries_view(esv@);
    let (eups, enorms) = entries_forms(&esv);
    let (pups, pnorms) = pasados_forms(ramos_pasados);
    let (rups, rnorms) = ramos_forms(ramos);
    let ncfg = count_cfg_exec(&pups, Ghost(pv));
    let nel = count_elect_exec(&pups, &pnorms, &rups, &rnorms, Ghost(rv), Ghost(pv));
    proof {
        lemma_max_sem_nonneg(rv, pv, pv.len() as int);
    }
    let max_sem = max_sem_exec(&rups, &pups, ramos, Ghost(pv));
    let ap = approved_flags(&rups, &pups, Ghost(rv), Ghost(pv));
    let mut cands = malla_cands_exec(ramos, &rups, &rnorms, &pups, &pnorms, &eups, &enorms, &ap, max_sem, Ghost(pv), Ghost(es));
    assert(esv.len() == oferta.len() + cfg.len()) by {
        assert(offer_entries(oferta@, cfg@).len() == oferta.len() + cfg.len());
    }
    let ghost c0 = cands_view(cands@);
    if ncfg < 4 {
        let mut more = section_cands_exec(&esv, &eups, &enorms, &pups, &pnorms, &rups, &rnorms, false, Ghost(rv), Ghost(pv));
        let ghost a = cands@;
        let ghost b = more@;
        cands.append(&mut more);
        assert(cands_view(cands@) =~= cands_view(a) + cands_view(b));
    }
    let ghost c1v = cands_view(cands@);
    if nel < 3 {
        let mut more = section_cands_exec(&esv, &eups, &enorms, &pups, &pnorms, &rups, &rnorms, true, Ghost(rv), Ghost(pv));
        let ghost a = cands@;
        let ghost b = more@;
        cands.append(&mut more);
        assert(cands_view(cands@) =~= cands_view(a) + cands_view(b));
    }
    let ghost all = candidates(rv, es, pv);
    assert(es == offer_entries(oferta@, cfg@));
    assert(cands_view(cands@) =~= all);
    let mut seen: Vec<Vec<char>> = Vec::new();
    let mut out: Vec<CursoDisponible> = Vec::new();
    let mut n1: i32 = 0;
    let mut n2: i32 = 0;
    let bound = cands.len() + 1;
    let mut i: usize = 0;
    assert(state_view(seen@, out@, n1, n2) =~= accept(all, 0));
    while i < cands.len()
        invariant
            i <= cands.len(),
            cands.len() + 2001 <= i32::MAX,
            bound == cands.len() + 1,
            cands_view(cands@) == all,
            state_view(seen@, out@, n1, n2) == accept(all, i as int),
            out.len() <= i,
            n1 <= out.len() && n2 <= out.len() && 0 <= n1 && 0 <= n2,
        decreases cands.len() - i,
    {
        let c = &cands[i];
        assert(cand_view(cands@[i as int]) == all[i as int]);
        accept_one(&mut seen, &mut out, &mut n1, &mut n2, &c.0, &c.1, c.2, c.3, bound);
        i = i + 1;
    }
    let sorted = sort_cursos_exec(&out);
    CursosDisponibles {
        cursos: sorted,
        cfgs_aprobados: ncfg,
        electivos_aprobados: nel,
        mostrar_cfgs: ncfg < 4,
        mostrar_electivos: nel < 3,
    }
}

/// A section and its teacher, as the teacher catalogue lists them.
#[derive(Debug, Clone)]
pub struct ProfesorCurso {
    pub profesor: String,
    pub curso_codigo: String,
    pub curso_nombre: String,
    pub seccion: String,
    pub horario: Vec<String>,
    pub is_cfg: bool,
    pub is_electivo: bool,
}

/// A listed section as plain values: teacher, code, name, section, timetable, CFG
/// flag, elective flag.
pub type ProfView = (Seq<char>, Seq<char>, Seq<char>, Seq<char>, Seq<Seq<char>>, bool, bool);

/// The plain values of a listed section.
pub open spec fn prof_view(p: ProfesorCurso) -> ProfView {
    (p.profesor@, p.curso_codigo@, p.curso_nombre@, p.seccion@, p.horario@.map_values(|h: String| h@), p.is_cfg, p.is_electivo)
}

/// The sections of the term with their effective name and CFG flag: those of the
/// offer, then those of the CFG file (English I renamed "Inglés 1" and not CFG).
pub open spec fn term_sections(oferta: Seq<Seccion>, cfg: Seq<Seccion>) -> Seq<(Seccion, Seq<char>, bool)> {
    oferta.map_values(|s: Seccion| (s, s.nombre@, false)) + cfg.map_values(
        |s: Seccion| if is_ingles(s.nombre@) {
            (s, "Inglés 1"@, false)
        } else {
            (s, s.nombre@, true)
        },
    )
}

/// The first curriculum course with the section's upper-cased code or normalised name.
pub open spec fn first_in_malla(ramos: Seq<RamoDisponible>, codigo: Seq<char>, nombre: Seq<char>, i: int) -> Option<int>
    decreases ramos.len() - i,
{
    if i < 0 || i >= ramos.len() {
        None
    } else if upper_of(ramos[i].codigo@) == upper_of(codigo) || norm_name(ramos[i].nombre@) == norm_name(nombre) {
        Some(i)
    } else {
        first_in_malla(ramos, codigo, nombre, i + 1)
    }
}

/// How a section of the term is listed: `None` when it is not, else whether it is CFG
/// and whether it is an elective. A section is listed when it has a teacher and is not
/// passed; a CFG section while fewer than four CFGs are passed; a curriculum section
/// when its course (the first one matching it) is at most two semesters after the
/// latest passed one and has its prerequisites passed; any other section while fewer
/// than three electives are passed.
pub open spec fn prof_kind(t: (Seccion, Seq<char>, bool), ramos: Seq<RamoDisponible>, pasados: Seq<String>) -> Option<(bool, bool)> {
    let s = t.0;
    if entry_passed(pasados, s.codigo@, t.1) || trim(s.profesor@).len() == 0 {
        None
    } else if t.2 {
        if count_cfg(pasados) < 4 { Some((true, false)) } else { None }
    } else {
        match first_in_malla(ramos, s.codigo@, t.1, 0) {
            Some(j) => {
                let r = ramos[j];
                if (r.semestre matches Some(sv) ==> sv <= max_passed_sem(ramos, pasados, pasados.len() as int) + 2)
                    && (forall|q: int| 0 <= q < r.requisitos_ids@.len() ==> #[trigger] r.requisitos_ids@[q] <= 0 || id_approved(ramos, pasados, r.requisitos_ids@[q])) {
                    Some((false, false))
                } else {
                    None
                }
            },
            None => if count_elect(ramos, pasados) < 3 { Some((false, true)) } else { None },
        }
    }
}

/// The listed sections in the order of the term.
pub open spec fn prof_list(ts: Seq<(Seccion, Seq<char>, bool)>, ramos: Seq<RamoDisponible>, pasados: Seq<String>) -> Seq<ProfView>
    decreases ts.len(),
{
    if ts.len() == 0 {
        Seq::empty()
    } else {
        let prev = prof_list(ts.drop_last(), ramos, pasados);
        let t = ts.last();
        match prof_kind(t, ramos, pasados) {
            Some((c, e)) => prev.push((t.0.profesor@, t.0.codigo@, t.1, t.0.seccion@, t.0.horario@.map_values(|h: String| h@), c, e)),
            None => prev,
        }
    }
}

/// `x` inserted after every entry whose teacher does not come after its own.
pub open spec fn ins_prof(s: Seq<ProfView>, x: ProfView) -> Seq<ProfView>
    decreases s.len(),
{
    if s.len() == 0 {
        seq![x]
    } else if seq_le(s.last().0, x.0) {
        s.push(x)
    } else {
        ins_prof(s.drop_last(), x).push(s.last())
    }
}

/// The entries ordered by teacher (stable).
pub open spec fn sort_profs(s: Seq<ProfView>) -> Seq<ProfView>
    decreases s.len(),
{
    if s.len() == 0 {
        Seq::empty()
    } else {
        ins_prof(sort_profs(s.drop_last()), s.last())
    }
}

proof fn lemma_first_in_malla(ramos: Seq<RamoDisponible>, codigo: Seq<char>, nombre: Seq<char>, i: int, j: int)
    requires
        0 <= i <= j <= ramos.len(),
        forall|k: int| i <= k < j ==> !(upper_of((#[trigger] ramos[k]).codigo@) == upper_of(codigo) || norm_name(ramos[k].nombre@)
            == norm_name(nombre)),
    ensures
        first_in_malla(ramos, codigo, nombre, i) == first_in_malla(ramos, codigo, nombre, j),
    decreases j - i,
{
    if i < j {
        lemma_first_in_malla(ramos, codigo, nombre, i + 1, j);
    }
}

/// The context for listing sections: forms of the passed entries and of the curriculum.
struct ProfCtx {
    pups: Vec<Vec<char>>,
    pnorms: Vec<Vec<char>>,
    rups: Vec<Vec<char>>,
    rnorms: Vec<Vec<char>>,
    ap: Vec<bool>,
    max_sem: i32,
    ncfg: usize,
    nel: usize,
}

/// The context holds the forms and counts of `ramos` and `pasados`.
spec fn ctx_ok(c: ProfCtx, ramos: Seq<RamoDisponible>, pasados: Seq<String>) -> bool {
    &&& c.pups.len() == pasados.len() && c.pnorms.len() == pasados.len()
    &&& forall|k: int| 0 <= k < pasados.len() ==> (#[trigger] c.pups@[k])@ == upper_of(pasados[k]@)
    &&& forall|k: int| 0 <= k < pasados.len() ==> (#[trigger] c.pnorms@[k])@ == norm_name(pasados[k]@)
    &&& c.rups.len() == ramos.len() && c.rnorms.len() == ramos.len() && c.ap.len() == ramos.len()
    &&& forall|j: int| 0 <= j < ramos.len() ==> (#[trigger] c.rups@[j])@ == upper_of(ramos[j].codigo@)
    &&& forall|j: int| 0 <= j < ramos.len() ==> (#[trigger] c.rnorms@[j])@ == norm_name(ramos[j].nombre@)
    &&& forall|j: int| 0 <= j < ramos.len() ==> #[trigger] c.ap@[j] == exists|k: int| 0 <= k < pasados.len() && upper_of(
        #[trigger] pasados[k]@,
    ) == upper_of(ramos[j].codigo@)
    &&& c.max_sem == max_passed_sem(ramos, pasados, pasados.len() as int)
    &&& c.ncfg == count_cfg(pasados)
    &&& c.nel == count_elect(ramos, pasados)
}

fn prof_kind_exec(
    sec: &Seccion,
    name: &Vec<char>,
    is_cfg: bool,
    ctx: &ProfCtx,
    ramos: &[RamoDisponible],
    pasados: Ghost<Seq<String>>,
) -> (r: Option<(bool, bool)>)
    requires
        ctx_ok(*ctx, ramos@, pasados@),
    ensures
        r == prof_kind((*sec, name@, is_cfg), ramos@, pasados@),
{
    let cu = to_upper(&chars_of(sec.codigo.as_str()));
    let nn = normalize_name_chars(name);
    if entry_passed_exec(&ctx.pups, &ctx.pnorms, &cu, &nn, pasados, Ghost(sec.codigo@), Ghost(name@)) {
        return None;
    }
    if trim_chars(&chars_of(sec.profesor.as_str())).len() == 0 {
        return None;
    }
    if is_cfg {
        return if ctx.ncfg < 4 { Some((true, false)) } else { None };
    }
    let mut j: usize = 0;
    while j < ramos.len() && !(chars_eq(&ctx.rups[j], &cu) || chars_eq(&ctx.rnorms[j], &nn))
        invariant
            j <= ramos.len(),
            ctx_ok(*ctx, ramos@, pasados@),
            cu@ == upper_of(sec.codigo@),
            nn@ == norm_name(name@),
            forall|k: int| 0 <= k < j ==> !(upper_of((#[trigger] ramos@[k]).codigo@) == upper_of(sec.codigo@) || norm_name(
                ramos@[k].nombre@,
            ) == norm_name(name@)),
        decreases ramos.len() - j,
    {
        j = j + 1;
    }
    proof {
        lemma_first_in_malla(ramos@, sec.codigo@, name@, 0, j as int);
    }
    if j == ramos.len() {
        return if ctx.nel < 3 { Some((false, true)) } else { None };
    }
    let r = &ramos[j];
    let ok_sem = match r.semestre {
        Some(sv) => sv as i64 <= ctx.max_sem as i64 + 2,
        None => true,
    };
    if !ok_sem {
        return None;
    }
    assert(first_in_malla(ramos@, sec.codigo@, name@, 0) == Some(j as int));
    let mut q: usize = 0;
    while q < r.requisitos_ids.len()
        invariant
            j < ramos.len(),
            r == ramos@[j as int],
            q <= r.requisitos_ids.len(),
            ctx_ok(*ctx, ramos@, pasados@),
            first_in_malla(ramos@, sec.codigo@, name@, 0) == Some(j as int),
            !entry_passed(pasados@, sec.codigo@, name@),
            trim(sec.profesor@).len() > 0,
            !is_cfg,
            r.semestre matches Some(sv) ==> sv <= max_passed_sem(ramos@, pasados@, pasados@.len() as int) + 2,
            forall|x: int| 0 <= x < q ==> #[trigger] r.requisitos_ids@[x] <= 0 || id_approved(ramos@, pasados@, r.requisitos_ids@[x]),
        decreases r.requisitos_ids.len() - q,
    {
        let req = r.requisitos_ids[q];
        if req > 0 && !id_approved_exec(ramos, &ctx.ap, req, pasados) {
            assert(first_in_malla(ramos@, sec.codigo@, name@, 0) == Some(j as int));
            assert(!(r.requisitos_ids@[q as int] <= 0 || id_approved(ramos@, pasados@, r.requisitos_ids@[q as int])));
            return None;
        }
        q = q + 1;
    }
    Some((false, false))
}

/// The sections of the term, with their teachers, that a student may take: see
/// `prof_kind`; the list is ordered by teacher (stable).
pub fn profesores_disponibles(
    ramos: &[RamoDisponible],
    oferta: &[Seccion],
    cfg: &[Seccion],
    ramos_pasados: &[String],
) -> (r: Vec<ProfesorCurso>)
    requires
        max_passed_sem(ramos@, ramos_pasados@, ramos_pasados.len() as int) + 2 <= i32::MAX,
        oferta.len() + cfg.len() <= usize::MAX,
    ensures
        r@.map_values(|p: ProfesorCurso| prof_view(p)) == sort_profs(prof_list(term_sections(oferta@, cfg@), ramos@, ramos_pasados@)),
{
    let ghost pv = ramos_pasados@;
    let ghost rv = ramos@;
    let (pups, pnorms) = pasados_forms(ramos_pasados);
    let (rups, rnorms) = ramos_forms(ramos);
    let ncfg = count_cfg_exec(&pups, Ghost(pv));
    let nel = count_elect_exec(&pups, &pnorms, &rups, &rnorms, Ghost(rv), Ghost(pv));
    proof {
        lemma_max_sem_nonneg(rv, pv, pv.len() as int);
    }
    let max_sem = max_sem_exec(&rups, &pups, ramos, Ghost(pv));
    let ap = approved_flags(&rups, &pups, Ghost(rv), Ghost(pv));
    let ctx = ProfCtx { pups, pnorms, rups, rnorms, ap, max_sem, ncfg, nel };
    let ghost ts = term_sections(oferta@, cfg@);
    let n = oferta.len() + cfg.len();
    assert(ts.len() == n);
    let mut list: Vec<ProfesorCurso> = Vec::new();
    let mut i: usize = 0;
    while i < n
        invariant
            i <= n == oferta.len() + cfg.len() == ts.len(),
            ts == term_sections(oferta@, cfg@),
            ctx_ok(ctx, rv, pv),
            rv == ramos@,
            list@.map_values(|p: ProfesorCurso| prof_view(p)) == prof_list(ts.subrange(0, i as int), rv, pv),
        decreases n - i,
    {
        let (sec, name, is_cfg) = if i < oferta.len() {
            (&oferta[i], chars_of(oferta[i].nombre.as_str()), false)
        } else {
            let s = &cfg[i - oferta.len()];
            if is_ingles_exec(s.nombre.as_str()) {
                (s, lit("Inglés 1"), false)
            } else {
                (s, chars_of(s.nombre.as_str()), true)
            }
        };
        assert(ts[i as int] == (*sec, name@, is_cfg));
        assert(ts.subrange(0, i + 1).drop_last() =~= ts.subrange(0, i as int));
        let kind = prof_kind_exec(sec, &name, is_cfg, &ctx, ramos, Ghost(pv));
        let ghost l0 = list@.map_values(|p: ProfesorCurso| prof_view(p));
        match kind {
            Some((c, e)) => {
                let item = ProfesorCurso {
                    profesor: sec.profesor.clone(),
                    curso_codigo: sec.codigo.clone(),
                    curso_nombre: string_from_chars(&name),
                    seccion: sec.seccion.clone(),
                    horario: crate::models::copy_strings(&sec.horario),
                    is_cfg: c,
                    is_electivo: e,
                };
                let ghost iv = prof_view(item);
                list.push(item);
                assert(list@.map_values(|p: ProfesorCurso| prof_view(p)) =~= l0.push(iv));
            },
            None => {},
        }
        i = i + 1;
    }
    assert(ts.subrange(0, n as int) =~= ts);
    sort_profs_exec(&list)
}

proof fn lemma_ins_prof_at(s: Seq<ProfView>, x: ProfView, p: int)
    requires
        0 <= p <= s.len(),
        forall|q: int| p <= q < s.len() ==> !seq_le((#[trigger] s[q]).0, x.0),
        p > 0 ==> seq_le(s[p - 1].0, x.0),
    ensures
        ins_prof(s, x) == s.insert(p, x),
    decreases s.len(),
{
    if s.len() == 0 {
        assert(s.insert(p, x) =~= seq![x]);
    } else if seq_le(s.last().0, x.0) {
        assert(p == s.len());
        assert(s.insert(p, x) =~= s.push(x));
    } else {
        lemma_ins_prof_at(s.drop_last(), x, p);
        assert(s.drop_last().insert(p, x).push(s.last()) =~= s.insert(p, x));
    }
}

fn copy_prof(p: &ProfesorCurso) -> (r: ProfesorCurso)
    ensures
        prof_view(r) == prof_view(*p),
{
    ProfesorCurso {
        profesor: p.profesor.clone(),
        curso_codigo: p.curso_codigo.clone(),
        curso_nombre: p.curso_nombre.clone(),
        seccion: p.seccion.clone(),
        horario: crate::models::copy_strings(&p.horario),
        is_cfg: p.is_cfg,
        is_electivo: p.is_electivo,
    }
}

fn sort_profs_exec(v: &Vec<ProfesorCurso>) -> (r: Vec<ProfesorCurso>)
    ensures
        r@.map_values(|p: ProfesorCurso| prof_view(p)) == sort_profs(v@.map_values(|p: ProfesorCurso| prof_view(p))),
{
    let ghost vv = v@.map_values(|p: ProfesorCurso| prof_view(p));
    let mut out: Vec<ProfesorCurso> = Vec::new();
    let mut i: usize = 0;
    while i < v.len()
        invariant
            i <= v.len(),
            vv == v@.map_values(|p: ProfesorCurso| prof_view(p)),
            out@.map_values(|p: ProfesorCurso| prof_view(p)) == sort_profs(vv.subrange(0, i as int)),
        decreases v.len() - i,
    {
        assert(vv.subrange(0, i + 1).drop_last() =~= vv.subrange(0, i as int));
        let x = copy_prof(&v[i]);
        let xk = chars_of(x.profesor.as_str());
        let ghost ov = out@.map_values(|p: ProfesorCurso| prof_view(p));
        let mut p: usize = out.len();
        while p > 0 && !chars_le(&chars_of(out[p - 1].profesor.as_str()), &xk)
            invariant
                p <= out.len(),
                ov == out@.map_values(|p: ProfesorCurso| prof_view(p)),
                xk@ == x.profesor@,
                forall|q: int| p <= q < out.len() ==> !seq_le((#[trigger] ov[q]).0, prof_view(x).0),
            decreases p,
        {
            p = p - 1;
        }
        proof {
            lemma_ins_prof_at(ov, prof_view(x), p as int);
        }
        let ghost xv = prof_view(x);
        out.insert(p, x);
        assert(out@.map_values(|p: ProfesorCurso| prof_view(p)) =~= ov.insert(p as int, xv));
        i = i + 1;
    }
    assert(vv.subrange(0, v.len() as int) =~= vv);
    out
}
} // verus!
