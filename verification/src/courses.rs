//! The courses a student may take next: the courses of the curriculum whose
//! prerequisites are passed, in curriculum order.
use vstd::prelude::*;
use crate::models::RamoDisponible;
use crate::datafiles::{norm_name, normalize_name_chars};
use crate::text::{chars_of, chars_eq, to_upper, trim, trim_chars, upper_of};

verus! {

/// A course as the curriculum endpoints list it.
#[derive(Debug, Clone)]
pub struct CursoDto {
    pub id: i32,
    pub nombre: String,
    pub codigo: String,
    pub semestre: Option<i32>,
    pub requisitos_ids: Vec<i32>,
    pub electivo: bool,
    pub numb_correlativo: i32,
    pub critico: bool,
}

/// `d` lists course `r`.
pub open spec fn lists_course(d: CursoDto, r: RamoDisponible) -> bool {
    &&& d.id == r.id
    &&& d.nombre@ == r.nombre@
    &&& d.codigo@ == r.codigo@
    &&& d.semestre == r.semestre
    &&& d.requisitos_ids@ == r.requisitos_ids@
    &&& d.electivo == r.electivo
    &&& d.numb_correlativo == r.numb_correlativo
    &&& d.critico == r.critico
}

/// The listing of a course.
pub fn ramo_to_dto(r: &RamoDisponible) -> (d: CursoDto)
    ensures
        lists_course(d, *r),
{
    let mut reqs: Vec<i32> = Vec::new();
    let mut i: usize = 0;
    while i < r.requisitos_ids.len()
        invariant
            i <= r.requisitos_ids.len(),
            reqs@ == r.requisitos_ids@.subrange(0, i as int),
        decreases r.requisitos_ids.len() - i,
    {
        reqs.push(r.requisitos_ids[i]);
        i = i + 1;
        assert(reqs@ =~= r.requisitos_ids@.subrange(0, i as int));
    }
    assert(r.requisitos_ids@.subrange(0, r.requisitos_ids.len() as int) =~= r.requisitos_ids@);
    CursoDto {
        id: r.id,
        nombre: r.nombre.clone(),
        codigo: r.codigo.clone(),
        semestre: r.semestre,
        requisitos_ids: reqs,
        electivo: r.electivo,
        numb_correlativo: r.numb_correlativo,
        critico: r.critico,
    }
}

/// The passed entries the student gave, trimmed, empty ones dropped.
pub open spec fn cleaned(raw: Seq<String>) -> Seq<Seq<char>>
    decreases raw.len(),
{
    if raw.len() == 0 {
        Seq::empty()
    } else if trim(raw.last()@).len() > 0 {
        cleaned(raw.drop_last()).push(trim(raw.last()@))
    } else {
        cleaned(raw.drop_last())
    }
}

/// Whether the course's upper-cased code is one of the passed entries, upper-cased
/// (an empty code never is).
pub open spec fn code_passed(r: RamoDisponible, passed: Seq<Seq<char>>) -> bool {
    upper_of(r.codigo@).len() > 0 && exists|k: int| 0 <= k < passed.len() && upper_of(#[trigger] passed[k]) == upper_of(r.codigo@)
}

/// Whether the course's normalised name is that of a passed entry.
pub open spec fn name_passed(r: RamoDisponible, passed: Seq<Seq<char>>) -> bool {
    exists|k: int| 0 <= k < passed.len() && norm_name(#[trigger] passed[k]) == norm_name(r.nombre@)
}

/// Whether identifier `id` is that of a passed course of the curriculum.
pub open spec fn id_passed(map: Seq<RamoDisponible>, passed: Seq<Seq<char>>, id: i32) -> bool {
    exists|j: int| 0 <= j < map.len() && (#[trigger] map[j]).id == id && (code_passed(map[j], passed) || name_passed(map[j], passed))
}

/// Whether every prerequisite is either not a course (identifier at most 0) or passed.
pub open spec fn prereqs_passed(r: RamoDisponible, map: Seq<RamoDisponible>, passed: Seq<Seq<char>>) -> bool {
    forall|q: int| 0 <= q < r.requisitos_ids@.len() ==> #[trigger] r.requisitos_ids@[q] <= 0 || id_passed(map, passed, r.requisitos_ids@[q])
}

/// Whether a course may be taken next: not passed (by identifier or code) and with its
/// prerequisites passed.
pub open spec fn eligible(r: RamoDisponible, map: Seq<RamoDisponible>, passed: Seq<Seq<char>>) -> bool {
    &&& !id_passed(map, passed, r.id)
    &&& !code_passed(r, passed)
    &&& prereqs_passed(r, map, passed)
}

/// The order key of a course: semester (none last), sequence number, identifier.
pub open spec fn course_key_le(a: RamoDisponible, b: RamoDisponible) -> bool {
    let sa = match a.semestre { Some(s) => s as int, None => i32::MAX as int };
    let sb = match b.semestre { Some(s) => s as int, None => i32::MAX as int };
    sa < sb || (sa == sb && (a.numb_correlativo < b.numb_correlativo || (a.numb_correlativo == b.numb_correlativo
        && a.id <= b.id)))
}

/// `x` inserted after every position whose course does not come after it.
pub open spec fn ins_course(idx: Seq<int>, map: Seq<RamoDisponible>, x: int) -> Seq<int>
    decreases idx.len(),
{
    if idx.len() == 0 {
        seq![x]
    } else if course_key_le(map[idx.last()], map[x]) {
        idx.push(x)
    } else {
        ins_course(idx.drop_last(), map, x).push(idx.last())
    }
}

/// Positions of the eligible courses among `map[0..n]`, in curriculum order (stable).
pub open spec fn eligible_order(map: Seq<RamoDisponible>, passed: Seq<Seq<char>>, n: int) -> Seq<int>
    decreases n,
{
    if n <= 0 {
        Seq::empty()
    } else if eligible(map[n - 1], map, passed) {
        ins_course(eligible_order(map, passed, n - 1), map, n - 1)
    } else {
        eligible_order(map, passed, n - 1)
    }
}


fn cleaned_exec(raw: &[String]) -> (r: Vec<Vec<char>>)
    ensures
        r.len() == cleaned(raw@).len(),
        forall|k: int| 0 <= k < r.len() ==> (#[trigger] r@[k])@ == cleaned(raw@)[k],
{
    let mut out: Vec<Vec<char>> = Vec::new();
    let mut i: usize = 0;
    while i < raw.len()
        invariant
            i <= raw.len(),
            out.len() == cleaned(raw@.subrange(0, i as int)).len(),
            forall|k: int| 0 <= k < out.len() ==> (#[trigger] out@[k])@ == cleaned(raw@.subrange(0, i as int))[k],
        decreases raw.len() - i,
    {
        assert(raw@.subrange(0, i + 1).drop_last() =~= raw@.subrange(0, i as int));
        let t = trim_chars(&chars_of(raw[i].as_str()));
        let ghost o0 = out@;
        if t.len() > 0 {
            out.push(t);
            assert forall|k: int| 0 <= k < out.len() implies (#[trigger] out@[k])@ == cleaned(raw@.subrange(0, i + 1))[k] by {
                if k < o0.len() {
                    assert(out@[k] == o0[k]);
                }
            }
        }
        i = i + 1;
    }
    assert(raw@.subrange(0, raw.len() as int) =~= raw@);
    out
}

/// The upper-cased and the normalised forms of the passed entries.
fn passed_forms(passed: &Vec<Vec<char>>, pv: Ghost<Seq<Seq<char>>>) -> (r: (Vec<Vec<char>>, Vec<Vec<char>>))
    requires
        passed.len() == pv@.len(),
        forall|k: int| 0 <= k < passed.len() ==> (#[trigger] passed@[k])@ == pv@[k],
    ensures
        r.0.len() == pv@.len() && r.1.len() == pv@.len(),
        forall|k: int| 0 <= k < pv@.len() ==> (#[trigger] r.0@[k])@ == upper_of(pv@[k]),
        forall|k: int| 0 <= k < pv@.len() ==> (#[trigger] r.1@[k])@ == norm_name(pv@[k]),
{
    let mut ups: Vec<Vec<char>> = Vec::new();
    let mut norms: Vec<Vec<char>> = Vec::new();
    let mut k: usize = 0;
    while k < passed.len()
        invariant
            k <= passed.len() == pv@.len(),
            forall|j: int| 0 <= j < passed.len() ==> (#[trigger] passed@[j])@ == pv@[j],
            ups.len() == k && norms.len() == k,
            forall|j: int| 0 <= j < k ==> (#[trigger] ups@[j])@ == upper_of(pv@[j]),
            forall|j: int| 0 <= j < k ==> (#[trigger] norms@[j])@ == norm_name(pv@[j]),
        decreases passed.len() - k,
    {
        ups.push(to_upper(&passed[k]));
        norms.push(normalize_name_chars(&passed[k]));
        k = k + 1;
    }
    (ups, norms)
}

fn any_equal(v: &Vec<Vec<char>>, x: &Vec<char>) -> (r: bool)
    ensures
        r == exists|k: int| 0 <= k < v.len() && (#[trigger] v@[k])@ == x@,
{
    let mut k: usize = 0;
    while k < v.len()
        invariant
            k <= v.len(),
            forall|j: int| 0 <= j < k ==> (#[trigger] v@[j])@ != x@,
        decreases v.len() - k,
    {
        if chars_eq(&v[k], x) {
            return true;
        }
        k = k + 1;
    }
    false
}

/// Whether each course is passed, by code or by name.
fn passed_flags(map: &[RamoDisponible], ups: &Vec<Vec<char>>, norms: &Vec<Vec<char>>, pv: Ghost<Seq<Seq<char>>>) -> (r: Vec<bool>)
    requires
        ups.len() == pv@.len() && norms.len() == pv@.len(),
        forall|k: int| 0 <= k < pv@.len() ==> (#[trigger] ups@[k])@ == upper_of(pv@[k]),
        forall|k: int| 0 <= k < pv@.len() ==> (#[trigger] norms@[k])@ == norm_name(pv@[k]),
    ensures
        r.len() == map.len(),
        forall|j: int| 0 <= j < map.len() ==> #[trigger] r@[j] == (code_passed(map@[j], pv@) || name_passed(map@[j], pv@)),
        forall|j: int| 0 <= j < map.len() ==> code_passed(map@[j], pv@) ==> #[trigger] r@[j],
{
    let mut out: Vec<bool> = Vec::new();
    let mut j: usize = 0;
    while j < map.len()
        invariant
            j <= map.len(),
            ups.len() == pv@.len() && norms.len() == pv@.len(),
            forall|k: int| 0 <= k < pv@.len() ==> (#[trigger] ups@[k])@ == upper_of(pv@[k]),
            forall|k: int| 0 <= k < pv@.len() ==> (#[trigger] norms@[k])@ == norm_name(pv@[k]),
            out.len() == j,
            forall|x: int| 0 <= x < j ==> #[trigger] out@[x] == (code_passed(map@[x], pv@) || name_passed(map@[x], pv@)),
        decreases map.len() - j,
    {
        let up = to_upper(&chars_of(map[j].codigo.as_str()));
        let cp = up.len() > 0 && any_equal(ups, &up);
        let nm = normalize_name_chars(&chars_of(map[j].nombre.as_str()));
        let np = any_equal(norms, &nm);
        proof {
            if cp {
                let k = choose|k: int| 0 <= k < ups.len() && (#[trigger] ups@[k])@ == up@;
                assert(upper_of(pv@[k]) == upper_of(map@[j as int].codigo@));
            }
            if code_passed(map@[j as int], pv@) {
                let k = choose|k: int| 0 <= k < pv@.len() && upper_of(#[trigger] pv@[k]) == upper_of(map@[j as int].codigo@);
                assert(ups@[k]@ == up@);
            }
            if np {
                let k = choose|k: int| 0 <= k < norms.len() && (#[trigger] norms@[k])@ == nm@;
                assert(norm_name(pv@[k]) == norm_name(map@[j as int].nombre@));
            }
            if name_passed(map@[j as int], pv@) {
                let k = choose|k: int| 0 <= k < pv@.len() && norm_name(#[trigger] pv@[k]) == norm_name(map@[j as int].nombre@);
                assert(norms@[k]@ == nm@);
            }
        }
        out.push(cp || np);
        j = j + 1;
    }
    out
}

fn id_passed_exec(map: &[RamoDisponible], flags: &Vec<bool>, id: i32, pv: Ghost<Seq<Seq<char>>>) -> (r: bool)
    requires
        flags.len() == map.len(),
        forall|j: int| 0 <= j < map.len() ==> #[trigger] flags@[j] == (code_passed(map@[j], pv@) || name_passed(map@[j], pv@)),
    ensures
        r == id_passed(map@, pv@, id),
{
    let mut j: usize = 0;
    while j < map.len()
        invariant
            j <= map.len() == flags.len(),
            forall|x: int| 0 <= x < map.len() ==> #[trigger] flags@[x] == (code_passed(map@[x], pv@) || name_passed(map@[x], pv@)),
            forall|x: int| 0 <= x < j ==> !((#[trigger] map@[x]).id == id && (code_passed(map@[x], pv@) || name_passed(map@[x], pv@))),
        decreases map.len() - j,
    {
        if map[j].id == id && flags[j] {
            return true;
        }
        j = j + 1;
    }
    false
}

fn key_le_exec(a: &RamoDisponible, b: &RamoDisponible) -> (r: bool)
    ensures
        r == course_key_le(*a, *b),
{
    let sa: i32 = match a.semestre { Some(s) => s, None => i32::MAX };
    let sb: i32 = match b.semestre { Some(s) => s, None => i32::MAX };
    sa < sb || (sa == sb && (a.numb_correlativo < b.numb_correlativo || (a.numb_correlativo == b.numb_correlativo && a.id <= b.id)))
}

proof fn lemma_ins_course_at(idx: Seq<int>, map: Seq<RamoDisponible>, x: int, p: int)
    requires
        0 <= p <= idx.len(),
        forall|q: int| p <= q < idx.len() ==> !course_key_le(map[#[trigger] idx[q]], map[x]),
        p > 0 ==> course_key_le(map[idx[p - 1]], map[x]),
    ensures
        ins_course(idx, map, x) == idx.insert(p, x),
    decreases idx.len(),
{
    if idx.len() == 0 {
        assert(idx.insert(p, x) =~= seq![x]);
    } else if course_key_le(map[idx.last()], map[x]) {
        assert(p == idx.len());
        assert(idx.insert(p, x) =~= idx.push(x));
    } else {
        lemma_ins_course_at(idx.drop_last(), map, x, p);
        assert(idx.drop_last().insert(p, x).push(idx.last()) =~= idx.insert(p, x));
    }
}

/// The courses of the curriculum that a student may take next: those not passed (by
/// identifier, by code, or by name) whose prerequisites are all passed (identifiers at
/// most 0 are no courses). Passed entries are trimmed, empty ones ignored, and compared
/// upper-cased with codes and normalised with names. The list is ordered by semester
/// (courses without one last), sequence number and identifier.
pub fn elegibles_desde_malla(map: &[RamoDisponible], aprobados_raw: &[String]) -> (r: Vec<CursoDto>)
    ensures
        r.len() == eligible_order(map@, cleaned(aprobados_raw@), map.len() as int).len(),
        forall|k: int| 0 <= k < r.len() ==> 0 <= #[trigger] eligible_order(map@, cleaned(aprobados_raw@), map.len() as int)[k]
            < map.len() && lists_course(r@[k], map@[eligible_order(map@, cleaned(aprobados_raw@), map.len() as int)[k]]),
{
    let ghost pv = cleaned(aprobados_raw@);
    let passed = cleaned_exec(aprobados_raw);
    let (ups, norms) = passed_forms(&passed, Ghost(pv));
    let flags = passed_flags(map, &ups, &norms, Ghost(pv));
    let mut order: Vec<usize> = Vec::new();
    let mut i: usize = 0;
    while i < map.len()
        invariant
            i <= map.len() == flags.len(),
            ups.len() == pv.len(),
            forall|k: int| 0 <= k < pv.len() ==> (#[trigger] ups@[k])@ == upper_of(pv[k]),
            forall|j: int| 0 <= j < map.len() ==> #[trigger] flags@[j] == (code_passed(map@[j], pv) || name_passed(map@[j], pv)),
            forall|j: int| 0 <= j < map.len() ==> code_passed(map@[j], pv) ==> #[trigger] flags@[j],
            forall|a: int| 0 <= a < order.len() ==> #[trigger] order@[a] < i,
            order@.map_values(|x: usize| x as int) == eligible_order(map@, pv, i as int),
        decreases map.len() - i,
    {
        let r = &map[i];
        let mut ok = !id_passed_exec(map, &flags, r.id, Ghost(pv));
        if ok {
            let up = to_upper(&chars_of(r.codigo.as_str()));
            if up.len() > 0 && any_equal(&ups, &up) {
                proof {
                    let k = choose|k: int| 0 <= k < ups.len() && (#[trigger] ups@[k])@ == up@;
                    assert(upper_of(pv[k]) == upper_of(map@[i as int].codigo@));
                }
                ok = false;
            } else {
                proof {
                    if code_passed(map@[i as int], pv) {
                        let k = choose|k: int| 0 <= k < pv.len() && upper_of(#[trigger] pv[k]) == upper_of(map@[i as int].codigo@);
                        assert(ups@[k]@ == up@);
                    }
                }
            }
        }
        if ok {
            let mut q: usize = 0;
            while q < r.requisitos_ids.len()
                invariant_except_break
                    ok,
                invariant
                    i < map.len() == flags.len(),
                    r == map@[i as int],
                    q <= r.requisitos_ids.len(),
                    forall|j: int| 0 <= j < map.len() ==> #[trigger] flags@[j] == (code_passed(map@[j], pv) || name_passed(map@[j], pv)),
                    forall|x: int| 0 <= x < q ==> #[trigger] r.requisitos_ids@[x] <= 0 || id_passed(map@, pv, r.requisitos_ids@[x]),
                ensures
                    ok ==> prereqs_passed(*r, map@, pv),
                    !ok ==> !prereqs_passed(*r, map@, pv),
                decreases r.requisitos_ids.len() - q,
            {
                let req = r.requisitos_ids[q];
                if req > 0 && !id_passed_exec(map, &flags, req, Ghost(pv)) {
                    ok = false;
                    break;
                }
                q = q + 1;
            }
        }
        assert(ok == eligible(map@[i as int], map@, pv));
        if ok {
            let ghost ov = order@.map_values(|x: usize| x as int);
            let mut p: usize = order.len();
            while p > 0 && !key_le_exec(&map[order[p - 1]], &map[i])
                invariant
                    p <= order.len(),
                    i < map.len(),
                    ov == order@.map_values(|x: usize| x as int),
                    forall|a: int| 0 <= a < order.len() ==> #[trigger] order@[a] < i,
                    forall|q: int| p <= q < order.len() ==> !course_key_le(map@[#[trigger] ov[q]], map@[i as int]),
                decreases p,
            {
                p = p - 1;
            }
            proof {
                lemma_ins_course_at(ov, map@, i as int, p as int);
            }
            order.insert(p, i);
            assert(order@.map_values(|x: usize| x as int) =~= ov.insert(p as int, i as int));
        }
        i = i + 1;
    }
    let ghost ord = eligible_order(map@, pv, map.len() as int);
    let mut out: Vec<CursoDto> = Vec::new();
    let mut k: usize = 0;
    while k < order.len()
        invariant
            k <= order.len(),
            ord == order@.map_values(|x: usize| x as int),
            forall|a: int| 0 <= a < order.len() ==> #[trigger] order@[a] < map.len(),
            out.len() == k,
            forall|a: int| 0 <= a < k ==> 0 <= #[trigger] ord[a] < map.len() && lists_course(out@[a], map@[ord[a]]),
        decreases order.len() - k,
    {
        assert(ord[k as int] == order@[k as int] as int);
        out.push(ramo_to_dto(&map[order[k]]));
        k = k + 1;
    }
    out
}

/// Whether a course is listed for semester `sem` (every course when `sem` is `None`).
pub open spec fn in_semester(r: RamoDisponible, sem: Option<i32>) -> bool {
    match sem {
        Some(s) => r.semestre == Some(s),
        None => true,
    }
}

/// Positions of the courses of semester `sem` among `map[0..n]`, in curriculum order
/// (stable).
pub open spec fn semester_order(map: Seq<RamoDisponible>, sem: Option<i32>, n: int) -> Seq<int>
    decreases n,
{
    if n <= 0 {
        Seq::empty()
    } else if in_semester(map[n - 1], sem) {
        ins_course(semester_order(map, sem, n - 1), map, n - 1)
    } else {
        semester_order(map, sem, n - 1)
    }
}

/// The courses of semester `sem` (all when `None`), ordered by semester (courses
/// without one last), sequence number and identifier, earlier ones first on ties.
fn cursos_en_orden(map: &[RamoDisponible], sem: Option<i32>) -> (r: Vec<CursoDto>)
    ensures
        r.len() == semester_order(map@, sem, map.len() as int).len(),
        forall|k: int| 0 <= k < r.len() ==> 0 <= #[trigger] semester_order(map@, sem, map.len() as int)[k] < map.len()
            && lists_course(r@[k], map@[semester_order(map@, sem, map.len() as int)[k]]),
{
    let mut order: Vec<usize> = Vec::new();
    let mut i: usize = 0;
    while i < map.len()
        invariant
            i <= map.len(),
            forall|a: int| 0 <= a < order.len() ==> #[trigger] order@[a] < i,
            order@.map_values(|x: usize| x as int) == semester_order(map@, sem, i as int),
        decreases map.len() - i,
    {
        let ok = match sem {
            Some(s) => match map[i].semestre {
                Some(v) => v == s,
                None => false,
            },
            None => true,
        };
        if ok {
            let ghost ov = order@.map_values(|x: usize| x as int);
            let mut p: usize = order.len();
            while p > 0 && !key_le_exec(&map[order[p - 1]], &map[i])
                invariant
                    p <= order.len(),
                    i < map.len(),
                    ov == order@.map_values(|x: usize| x as int),
                    forall|a: int| 0 <= a < order.len() ==> #[trigger] order@[a] < i,
                    forall|q: int| p <= q < order.len() ==> !course_key_le(map@[#[trigger] ov[q]], map@[i as int]),
                decreases p,
            {
                p = p - 1;
            }
            proof {
                lemma_ins_course_at(ov, map@, i as int, p as int);
            }
            order.insert(p, i);
            assert(order@.map_values(|x: usize| x as int) =~= ov.insert(p as int, i as int));
        }
        i = i + 1;
    }
    let ghost ord = semester_order(map@, sem, map.len() as int);
    let mut out: Vec<CursoDto> = Vec::new();
    let mut k: usize = 0;
    while k < order.len()
        invariant
            k <= order.len(),
            ord == order@.map_values(|x: usize| x as int),
            forall|a: int| 0 <= a < order.len() ==> #[trigger] order@[a] < map.len(),
            out.len() == k,
            forall|a: int| 0 <= a < k ==> 0 <= #[trigger] ord[a] < map.len() && lists_course(out@[a], map@[ord[a]]),
        decreases order.len() - k,
    {
        assert(ord[k as int] == order@[k as int] as int);
        out.push(ramo_to_dto(&map[order[k]]));
        k = k + 1;
    }
    out
}

/// The courses of one semester of a curriculum, ordered by sequence number and
/// identifier (curriculum order kept on ties).
pub fn cursos_por_semestre(map: &[RamoDisponible], semestre: i32) -> (r: Vec<CursoDto>)
    ensures
        r.len() == semester_order(map@, Some(semestre), map.len() as int).len(),
        forall|k: int| 0 <= k < r.len() ==> 0 <= #[trigger] semester_order(map@, Some(semestre), map.len() as int)[k]
            < map.len() && lists_course(r@[k], map@[semester_order(map@, Some(semestre), map.len() as int)[k]]),
{
    cursos_en_orden(map, Some(semestre))
}

/// Every course of a curriculum, ordered by semester (courses without one last),
/// sequence number and identifier (curriculum order kept on ties).
pub fn cursos_todos(map: &[RamoDisponible]) -> (r: Vec<CursoDto>)
    ensures
        r.len() == semester_order(map@, None, map.len() as int).len(),
        forall|k: int| 0 <= k < r.len() ==> 0 <= #[trigger] semester_order(map@, None, map.len() as int)[k]
            < map.len() && lists_course(r@[k], map@[semester_order(map@, None, map.len() as int)[k]]),
{
    cursos_en_orden(map, None)
}

/// Every course of the curriculum is listed once: the order of all courses has as
/// many positions as there are courses, and each course of a semester is in that
/// semester's list.
pub proof fn lemma_semester_order_complete(map: Seq<RamoDisponible>, sem: Option<i32>, n: int)
    requires
        0 <= n <= map.len(),
    ensures
        forall|i: int| 0 <= i < n && in_semester(map[i], sem) ==> semester_order(map, sem, n).contains(i),
        forall|k: int| 0 <= k < semester_order(map, sem, n).len() ==> {
            let i = #[trigger] semester_order(map, sem, n)[k];
            0 <= i < n && in_semester(map[i], sem)
        },
        sem is None ==> semester_order(map, sem, n).len() == n,
    decreases n,
{
    if n > 0 {
        lemma_semester_order_complete(map, sem, n - 1);
        let prev = semester_order(map, sem, n - 1);
        let cur = semester_order(map, sem, n);
        if in_semester(map[n - 1], sem) {
            lemma_ins_course_elems(prev, map, n - 1);
        }
        assert forall|i: int| 0 <= i < n && in_semester(map[i], sem) implies cur.contains(i) by {
            if i < n - 1 {
                assert(prev.contains(i));
            }
        }
        assert forall|k: int| 0 <= k < cur.len() implies {
            let i = #[trigger] cur[k];
            0 <= i < n && in_semester(map[i], sem)
        } by {
            if in_semester(map[n - 1], sem) {
                if cur[k] != n - 1 {
                    assert(prev.contains(cur[k]));
                    let k2 = choose|k2: int| 0 <= k2 < prev.len() && prev[k2] == cur[k];
                    assert(prev[k2] == cur[k]);
                }
            }
        }
    }
}

proof fn lemma_ins_course_elems(idx: Seq<int>, map: Seq<RamoDisponible>, x: int)
    ensures
        ins_course(idx, map, x).len() == idx.len() + 1,
        ins_course(idx, map, x).contains(x),
        forall|i: int| idx.contains(i) ==> ins_course(idx, map, x).contains(i),
        forall|k: int| 0 <= k < ins_course(idx, map, x).len() ==> #[trigger] ins_course(idx, map, x)[k] == x
            || idx.contains(ins_course(idx, map, x)[k]),
    decreases idx.len(),
{
    let r = ins_course(idx, map, x);
    if idx.len() == 0 {
        assert(r[0] == x);
    } else if course_key_le(map[idx.last()], map[x]) {
        assert(r == idx.push(x));
        assert(r[idx.len() as int] == x);
        assert forall|i: int| idx.contains(i) implies r.contains(i) by {
            let k = choose|k: int| 0 <= k < idx.len() && idx[k] == i;
            assert(r[k] == i);
        }
        assert forall|k: int| 0 <= k < r.len() implies #[trigger] r[k] == x || idx.contains(r[k]) by {
            if k < idx.len() {
                assert(r[k] == idx[k]);
            }
        }
    } else {
        let d = idx.drop_last();
        lemma_ins_course_elems(d, map, x);
        let rd = ins_course(d, map, x);
        assert(r == rd.push(idx.last()));
        let kx = choose|k: int| 0 <= k < rd.len() && rd[k] == x;
        assert(r[kx] == x);
        assert forall|i: int| idx.contains(i) implies r.contains(i) by {
            let k = choose|k: int| 0 <= k < idx.len() && idx[k] == i;
            if k == idx.len() - 1 {
                assert(r[rd.len() as int] == i);
            } else {
                assert(d[k] == i);
                assert(d.contains(i));
                let k2 = choose|k2: int| 0 <= k2 < rd.len() && rd[k2] == i;
                assert(r[k2] == i);
            }
        }
        assert forall|k: int| 0 <= k < r.len() implies #[trigger] r[k] == x || idx.contains(r[k]) by {
            if k < rd.len() {
                assert(r[k] == rd[k]);
                if rd[k] != x {
                    assert(d.contains(rd[k]));
                    let k2 = choose|k2: int| 0 <= k2 < d.len() && d[k2] == rd[k];
                    assert(idx[k2] == rd[k]);
                }
            } else {
                assert(r[k] == idx.last());
                assert(idx[idx.len() - 1] == idx.last());
            }
        }
    }
}
} // verus!
