//! The pool of sections a timetable plan draws from: sections of courses the student
//! has not passed, within reach of the curriculum semester, with their prerequisites
//! and the user's filters, in a deterministic order.
use vstd::prelude::*;
use crate::models::{RamoDisponible, Seccion, UserFilters};
use crate::datafiles::{norm_name, normalize_name_chars};
use crate::selector::{chars_le, seq_le};
use crate::text::{chars_of, chars_eq, contains_seq, contains_sub, lit, lower_of, to_lower, to_upper, upper_of};
use crate::conflict::{all_expand_fit, all_expanded, any_overlap, solapan_horarios};
use crate::scoring::{code_passed, first_with_id, prereqs_met, requisitos_cumplidos};
use crate::disponibles::{count_cfg, count_cfg_exec, pasados_forms, starts_cfg};
use crate::selector::same_section;

verus! {

/// A section of the term with its kind: a general-education (CFG) section, or an
/// elective one.
#[derive(Debug, Clone)]
pub struct SeccionPlan {
    pub seccion: Seccion,
    pub is_cfg: bool,
    pub is_electivo: bool,
}

/// The sections as the planner takes them: a section whose upper-cased code begins
/// with `CFG` is a CFG section; none is marked elective.
pub fn plan_sections(secs: &Vec<Seccion>) -> (r: Vec<SeccionPlan>)
    ensures
        r.len() == secs.len(),
        forall|k: int| 0 <= k < secs.len() ==> same_section((#[trigger] r@[k]).seccion, secs@[k])
            && r@[k].is_cfg == starts_cfg(upper_of(secs@[k].codigo@)) && !r@[k].is_electivo,
{
    let cfg = lit("CFG");
    proof {
        reveal_strlit("CFG");
    }
    let mut out: Vec<SeccionPlan> = Vec::new();
    let mut i: usize = 0;
    while i < secs.len()
        invariant
            i <= secs.len(),
            cfg@ == "CFG"@,
            out.len() == i,
            forall|k: int| 0 <= k < i ==> same_section((#[trigger] out@[k]).seccion, secs@[k])
                && out@[k].is_cfg == starts_cfg(upper_of(secs@[k].codigo@)) && !out@[k].is_electivo,
        decreases secs.len() - i,
    {
        let up = to_upper(&chars_of(secs[i].codigo.as_str()));
        let starts = crate::text::occurs_at(&up, &cfg, 0);
        assert(starts == starts_cfg(up@));
        out.push(SeccionPlan { seccion: secs[i].duplicate(), is_cfg: starts, is_electivo: false });
        i = i + 1;
    }
    out
}

/// What the student asks of a plan: passed courses, courses to favour, the schedule
/// optimisations wanted (`"compact-days"`, `"spread-days"`, `"minimize-gaps"`), and
/// optional filters.
#[derive(Debug, Clone)]
pub struct PlanParams {
    pub ramos_pasados: Vec<String>,
    pub ramos_prioritarios: Vec<String>,
    pub optimizations: Vec<String>,
    pub filtros: Option<UserFilters>,
}

/// Index of the first of `vs[i..]` equal to `t`.
pub open spec fn first_eq(vs: Seq<Seq<char>>, t: Seq<char>, i: int) -> Option<int>
    decreases vs.len() - i,
{
    if i < 0 || i >= vs.len() {
        None
    } else if vs[i] == t {
        Some(i)
    } else {
        first_eq(vs, t, i + 1)
    }
}

/// The codes of the courses.
pub open spec fn codes_of(ramos: Seq<RamoDisponible>) -> Seq<Seq<char>> {
    ramos.map_values(|r: RamoDisponible| r.codigo@)
}

/// The upper-cased codes of the courses.
pub open spec fn uppers_of(ramos: Seq<RamoDisponible>) -> Seq<Seq<char>> {
    ramos.map_values(|r: RamoDisponible| upper_of(r.codigo@))
}

/// The normalised names of the courses.
pub open spec fn names_of(ramos: Seq<RamoDisponible>) -> Seq<Seq<char>> {
    ramos.map_values(|r: RamoDisponible| norm_name(r.nombre@))
}

proof fn lemma_first_eq(vs: Seq<Seq<char>>, t: Seq<char>, i: int)
    requires
        0 <= i,
    ensures
        match first_eq(vs, t, i) {
            Some(j) => i <= j < vs.len() && vs[j] == t && forall|q: int| i <= q < j ==> vs[q] != t,
            None => forall|q: int| i <= q < vs.len() ==> vs[q] != t,
        },
    decreases vs.len() - i,
{
    if i < vs.len() && vs[i] != t {
        lemma_first_eq(vs, t, i + 1);
    }
}

/// Index of the first of `vs` equal to `t`.
pub(crate) fn find_eq(vs: &Vec<Vec<char>>, t: &Vec<char>) -> (r: Option<usize>)
    ensures
        match r {
            Some(k) => k < vs.len() && first_eq(vs.deep_view(), t@, 0) == Some(k as int),
            None => first_eq(vs.deep_view(), t@, 0) is None,
        },
{
    let mut k: usize = 0;
    while k < vs.len()
        invariant
            k <= vs.len(),
            forall|q: int| 0 <= q < k ==> vs.deep_view()[q] != t@,
        decreases vs.len() - k,
    {
        if chars_eq(&vs[k], t) {
            proof {
                lemma_first_eq(vs.deep_view(), t@, 0);
                assert(vs.deep_view()[k as int] == vs@[k as int]@);
            }
            return Some(k);
        }
        assert(vs.deep_view()[k as int] == vs@[k as int]@);
        k = k + 1;
    }
    proof {
        lemma_first_eq(vs.deep_view(), t@, 0);
    }
    None
}

/// The codes, upper-cased codes and normalised names of the courses.
pub(crate) fn course_forms(ramos: &[RamoDisponible]) -> (r: (Vec<Vec<char>>, Vec<Vec<char>>, Vec<Vec<char>>))
    ensures
        r.0.deep_view() == codes_of(ramos@),
        r.1.deep_view() == uppers_of(ramos@),
        r.2.deep_view() == names_of(ramos@),
{
    let mut codes: Vec<Vec<char>> = Vec::new();
    let mut ups: Vec<Vec<char>> = Vec::new();
    let mut names: Vec<Vec<char>> = Vec::new();
    let mut k: usize = 0;
    while k < ramos.len()
        invariant
            k <= ramos.len(),
            codes.deep_view() == codes_of(ramos@).subrange(0, k as int),
            ups.deep_view() == uppers_of(ramos@).subrange(0, k as int),
            names.deep_view() == names_of(ramos@).subrange(0, k as int),
        decreases ramos.len() - k,
    {
        let c = chars_of(ramos[k].codigo.as_str());
        let u = to_upper(&c);
        let nm = normalize_name_chars(&chars_of(ramos[k].nombre.as_str()));
        let ghost o1 = codes.deep_view();
        let ghost o2 = ups.deep_view();
        let ghost o3 = names.deep_view();
        let ghost (cv, uv, nv) = (c@, u@, nm@);
        ups.push(u);
        names.push(nm);
        codes.push(c);
        proof {
            crate::text::lemma_chars_deep_view(codes@[k as int]);
            crate::text::lemma_chars_deep_view(ups@[k as int]);
            crate::text::lemma_chars_deep_view(names@[k as int]);
        }
        assert(codes.deep_view() =~= o1.push(cv));
        assert(ups.deep_view() =~= o2.push(uv));
        assert(names.deep_view() =~= o3.push(nv));
        assert(codes.deep_view() =~= codes_of(ramos@).subrange(0, k + 1));
        assert(ups.deep_view() =~= uppers_of(ramos@).subrange(0, k + 1));
        assert(names.deep_view() =~= names_of(ramos@).subrange(0, k + 1));
        k = k + 1;
    }
    assert(codes_of(ramos@).subrange(0, ramos.len() as int) =~= codes_of(ramos@));
    assert(uppers_of(ramos@).subrange(0, ramos.len() as int) =~= uppers_of(ramos@));
    assert(names_of(ramos@).subrange(0, ramos.len() as int) =~= names_of(ramos@));
    (codes, ups, names)
}

/// The latest curriculum semester among the first `n` passed codes (each read in the
/// first course with exactly that code), 0 when there is none.
pub open spec fn passed_sem(ramos: Seq<RamoDisponible>, pasados: Seq<String>, n: int) -> int
    decreases n,
{
    if n <= 0 {
        0
    } else {
        let m = passed_sem(ramos, pasados, n - 1);
        match first_eq(codes_of(ramos), pasados[n - 1]@, 0) {
            Some(k) => match ramos[k].semestre {
                Some(s) => if s > m { s as int } else { m },
                None => m,
            },
            None => m,
        }
    }
}

/// The latest semester a planned course may belong to: two after the latest passed.
pub open spec fn sem_limit(ramos: Seq<RamoDisponible>, pasados: Seq<String>) -> int {
    passed_sem(ramos, pasados, pasados.len() as int) + 2
}

/// Whether a course's semester is within `limit` (a course without semester is).
pub open spec fn sem_ok(r: RamoDisponible, limit: int) -> bool {
    match r.semestre {
        Some(s) => s <= limit,
        None => true,
    }
}

/// Whether `x` is one of the strings of `v`.
pub open spec fn in_strs(v: Seq<String>, x: Seq<char>) -> bool {
    exists|k: int| 0 <= k < v.len() && (#[trigger] v[k])@ == x
}

/// Whether a section may enter the plan at all: its code is not a passed one, and its
/// course (found by code, else by normalised name) is within the semester limit; a
/// section of no course of the curriculum only when it is a CFG section.
pub open spec fn reachable(s: SeccionPlan, ramos: Seq<RamoDisponible>, pasados: Seq<String>) -> bool {
    &&& !in_strs(pasados, s.seccion.codigo@)
    &&& match first_eq(codes_of(ramos), s.seccion.codigo@, 0) {
        Some(k) => sem_ok(ramos[k], sem_limit(ramos, pasados)),
        None => match first_eq(names_of(ramos), norm_name(s.seccion.nombre@), 0) {
            Some(k) => sem_ok(ramos[k], sem_limit(ramos, pasados)),
            None => s.is_cfg,
        },
    }
}

/// The positions `0..n`.
pub open spec fn positions(n: int) -> Seq<usize> {
    Seq::new(n as nat, |i: int| i as usize)
}

/// The predicate on positions of `reachable`.
pub open spec fn reachable_at(secs: Seq<SeccionPlan>, ramos: Seq<RamoDisponible>, pasados: Seq<String>) -> spec_fn(usize) -> bool {
    |i: usize| reachable(secs[i as int], ramos, pasados)
}

/// Whether `x` is one of `v`.
pub(crate) fn in_strs_exec(v: &Vec<String>, x: &Vec<char>) -> (r: bool)
    ensures
        r == in_strs(v@, x@),
{
    let mut k: usize = 0;
    while k < v.len()
        invariant
            k <= v.len(),
            forall|j: int| 0 <= j < k ==> (#[trigger] v@[j])@ != x@,
        decreases v.len() - k,
    {
        if chars_eq(&chars_of(v[k].as_str()), x) {
            return true;
        }
        k = k + 1;
    }
    false
}

/// The latest passed semester plus two.
pub(crate) fn sem_limit_exec(ramos: &[RamoDisponible], codes: &Vec<Vec<char>>, pasados: &Vec<String>) -> (r: i32)
    requires
        codes.deep_view() == codes_of(ramos@),
        sem_limit(ramos@, pasados@) <= i32::MAX,
    ensures
        r == sem_limit(ramos@, pasados@),
{
    let mut m: i32 = 0;
    let mut i: usize = 0;
    proof {
        lemma_passed_sem_mono(ramos@, pasados@, pasados.len() as int);
    }
    while i < pasados.len()
        invariant
            i <= pasados.len(),
            codes.deep_view() == codes_of(ramos@),
            m == passed_sem(ramos@, pasados@, i as int),
            forall|j: int| 0 <= j <= pasados.len() ==> #[trigger] passed_sem(ramos@, pasados@, j) <= passed_sem(ramos@, pasados@, pasados.len() as int),
            sem_limit(ramos@, pasados@) <= i32::MAX,
        decreases pasados.len() - i,
    {
        match find_eq(codes, &chars_of(pasados[i].as_str())) {
            Some(k) => {
                match ramos[k].semestre {
                    Some(s) => {
                        if s > m {
                            m = s;
                        }
                    },
                    None => {},
                }
            },
            None => {},
        }
        i = i + 1;
    }
    m + 2
}

proof fn lemma_passed_sem_mono(ramos: Seq<RamoDisponible>, pasados: Seq<String>, n: int)
    ensures
        forall|j: int| 0 <= j <= n ==> #[trigger] passed_sem(ramos, pasados, j) <= passed_sem(ramos, pasados, n),
    decreases n,
{
    if n > 0 {
        lemma_passed_sem_mono(ramos, pasados, n - 1);
    }
}

/// The positions of the reachable sections, in order.
fn reachable_positions(
    secs: &[SeccionPlan],
    ramos: &[RamoDisponible],
    codes: &Vec<Vec<char>>,
    names: &Vec<Vec<char>>,
    pasados: &Vec<String>,
    limit: i32,
) -> (r: Vec<usize>)
    requires
        codes.deep_view() == codes_of(ramos@),
        names.deep_view() == names_of(ramos@),
        limit == sem_limit(ramos@, pasados@),
    ensures
        r@ == positions(secs.len() as int).filter(reachable_at(secs@, ramos@, pasados@)),
{
    let ghost p = reachable_at(secs@, ramos@, pasados@);
    let mut out: Vec<usize> = Vec::new();
    let mut i: usize = 0;
    assert(positions(0) =~= Seq::<usize>::empty());
    while i < secs.len()
        invariant
            i <= secs.len(),
            codes.deep_view() == codes_of(ramos@),
            names.deep_view() == names_of(ramos@),
            limit == sem_limit(ramos@, pasados@),
            p == reachable_at(secs@, ramos@, pasados@),
            out@ == positions(i as int).filter(p),
        decreases secs.len() - i,
    {
        assert(positions(i + 1) =~= positions(i as int).push(i));
        let s = &secs[i];
        let code = chars_of(s.seccion.codigo.as_str());
        let mut keep = !in_strs_exec(pasados, &code);
        if keep {
            keep = match find_eq(codes, &code) {
                Some(k) => match ramos[k].semestre {
                    Some(sv) => sv <= limit,
                    None => true,
                },
                None => match find_eq(names, &normalize_name_chars(&chars_of(s.seccion.nombre.as_str()))) {
                    Some(k) => match ramos[k].semestre {
                        Some(sv) => sv <= limit,
                        None => true,
                    },
                    None => s.is_cfg,
                },
            };
        }
        assert(keep == p(i));
        proof {
            positions(i as int).lemma_filter_push(i, p);
        }
        if keep {
            out.push(i);
        }
        i = i + 1;
    }
    out
}

/// Whether section `a` comes no later than section `b` in the pool order: by
/// upper-cased code, then by box code.
pub open spec fn pool_key_le(secs: Seq<SeccionPlan>, a: usize, b: usize) -> bool {
    let ua = upper_of(secs[a as int].seccion.codigo@);
    let ub = upper_of(secs[b as int].seccion.codigo@);
    (seq_le(ua, ub) && ua != ub) || (ua == ub && seq_le(secs[a as int].seccion.codigo_box@, secs[b as int].seccion.codigo_box@))
}

/// `x` inserted after the last position whose section does not come after it.
pub open spec fn ins_pos(idx: Seq<usize>, secs: Seq<SeccionPlan>, x: usize) -> Seq<usize>
    decreases idx.len(),
{
    if idx.len() == 0 {
        seq![x]
    } else if pool_key_le(secs, idx.last(), x) {
        idx.push(x)
    } else {
        ins_pos(idx.drop_last(), secs, x).push(idx.last())
    }
}

/// The positions ordered by the pool order, equal ones in their order (stable).
pub open spec fn sort_pos(idx: Seq<usize>, secs: Seq<SeccionPlan>) -> Seq<usize>
    decreases idx.len(),
{
    if idx.len() == 0 {
        Seq::empty()
    } else {
        ins_pos(sort_pos(idx.drop_last(), secs), secs, idx.last())
    }
}

/// Inserting a position keeps every position satisfying `p` when the new one does.
proof fn lemma_ins_pos_all(idx: Seq<usize>, secs: Seq<SeccionPlan>, x: usize, p: spec_fn(usize) -> bool)
    requires
        p(x),
        forall|k: int| 0 <= k < idx.len() ==> p(#[trigger] idx[k]),
    ensures
        forall|k: int| 0 <= k < ins_pos(idx, secs, x).len() ==> p(#[trigger] ins_pos(idx, secs, x)[k]),
    decreases idx.len(),
{
    if idx.len() == 0 {
    } else if pool_key_le(secs, idx.last(), x) {
        assert forall|k: int| 0 <= k < idx.push(x).len() implies p(#[trigger] idx.push(x)[k]) by {
            if k < idx.len() {
                assert(idx.push(x)[k] == idx[k]);
            }
        }
    } else {
        let d = idx.drop_last();
        assert forall|k: int| 0 <= k < d.len() implies p(#[trigger] d[k]) by {
            assert(d[k] == idx[k]);
        }
        lemma_ins_pos_all(d, secs, x, p);
        let e = ins_pos(d, secs, x);
        assert forall|k: int| 0 <= k < e.push(idx.last()).len() implies p(#[trigger] e.push(idx.last())[k]) by {
            if k < e.len() {
                assert(e.push(idx.last())[k] == e[k]);
            }
        }
    }
}

/// Sorting positions keeps every position satisfying `p`.
pub proof fn lemma_sort_pos_all(idx: Seq<usize>, secs: Seq<SeccionPlan>, p: spec_fn(usize) -> bool)
    requires
        forall|k: int| 0 <= k < idx.len() ==> p(#[trigger] idx[k]),
    ensures
        forall|k: int| 0 <= k < sort_pos(idx, secs).len() ==> p(#[trigger] sort_pos(idx, secs)[k]),
    decreases idx.len(),
{
    if idx.len() > 0 {
        let d = idx.drop_last();
        assert forall|k: int| 0 <= k < d.len() implies p(#[trigger] d[k]) by {
            assert(d[k] == idx[k]);
        }
        lemma_sort_pos_all(d, secs, p);
        lemma_ins_pos_all(sort_pos(d, secs), secs, idx.last(), p);
    }
}

/// A filtered sequence keeps every element satisfying `p`.
pub proof fn lemma_filter_all(s: Seq<usize>, f: spec_fn(usize) -> bool, p: spec_fn(usize) -> bool)
    requires
        forall|k: int| 0 <= k < s.len() ==> p(#[trigger] s[k]),
    ensures
        forall|k: int| 0 <= k < s.filter(f).len() ==> p(#[trigger] s.filter(f)[k]),
{
    assert forall|k: int| 0 <= k < s.filter(f).len() implies p(#[trigger] s.filter(f)[k]) by {
        let e = s.filter(f)[k];
        assert(s.filter(f).contains(e));
        s.lemma_filter_contains_rev(f, e);
        let j = choose|j: int| 0 <= j < s.len() && s[j] == e;
        assert(p(s[j]));
    }
}

/// Every pool position is a position of `secs` whose section is reachable: not of a
/// passed course, and of a course within the semester limit (or a CFG section).
pub proof fn lemma_pool_reachable(secs: Seq<SeccionPlan>, ramos: Seq<RamoDisponible>, params: PlanParams)
    requires
        secs.len() <= usize::MAX,
    ensures
        forall|k: int| 0 <= k < pool_positions(secs, ramos, params).len()
            ==> (#[trigger] pool_positions(secs, ramos, params)[k]) < secs.len()
            && reachable(secs[pool_positions(secs, ramos, params)[k] as int], ramos, params.ramos_pasados@),
{
    let pv = params.ramos_pasados@;
    let p = |i: usize| (i as int) < secs.len() && reachable(secs[i as int], ramos, pv);
    let ps = positions(secs.len() as int);
    let s1 = ps.filter(reachable_at(secs, ramos, pv));
    assert forall|k: int| 0 <= k < s1.len() implies p(#[trigger] s1[k]) by {
        ps.lemma_filter_pred(reachable_at(secs, ramos, pv), k);
        let e = s1[k];
        assert(s1.contains(e));
        ps.lemma_filter_contains_rev(reachable_at(secs, ramos, pv), e);
        let j = choose|j: int| 0 <= j < ps.len() && ps[j] == e;
        assert(ps[j] == j as usize);
    }
    lemma_sort_pos_all(s1, secs, p);
    let s2 = sort_pos(s1, secs);
    lemma_filter_all(s2, prereq_ok_at(secs, ramos, pv), p);
    let s3 = s2.filter(prereq_ok_at(secs, ramos, pv));
    let s4 = if params.filtros is Some { s3.filter(cumple_at(secs, params.filtros)) } else { s3 };
    if params.filtros is Some {
        lemma_filter_all(s3, cumple_at(secs, params.filtros), p);
    }
    if max_cfgs(pv) == 0 {
        lemma_filter_all(s4, not_cfg_at(secs), p);
    }
    let pool = pool_positions(secs, ramos, params);
    assert forall|k: int| 0 <= k < pool.len() implies p(#[trigger] pool[k]) by {}
}

proof fn lemma_ins_pos_at(idx: Seq<usize>, secs: Seq<SeccionPlan>, x: usize, p: int)
    requires
        0 <= p <= idx.len(),
        forall|q: int| p <= q < idx.len() ==> !pool_key_le(secs, #[trigger] idx[q], x),
        p > 0 ==> pool_key_le(secs, idx[p - 1], x),
    ensures
        ins_pos(idx, secs, x) == idx.insert(p, x),
    decreases idx.len(),
{
    if idx.len() == 0 {
        assert(idx.insert(p, x) =~= seq![x]);
    } else if pool_key_le(secs, idx.last(), x) {
        assert(p == idx.len());
        assert(idx.insert(p, x) =~= idx.push(x));
    } else {
        lemma_ins_pos_at(idx.drop_last(), secs, x, p);
        assert(idx.drop_last().insert(p, x).push(idx.last()) =~= idx.insert(p, x));
    }
}

/// The upper-cased code of every section.
pub(crate) fn section_uppers(secs: &[SeccionPlan]) -> (r: Vec<Vec<char>>)
    ensures
        r.len() == secs.len(),
        forall|i: int| 0 <= i < secs.len() ==> (#[trigger] r@[i])@ == upper_of(secs@[i].seccion.codigo@),
{
    let mut out: Vec<Vec<char>> = Vec::new();
    let mut i: usize = 0;
    while i < secs.len()
        invariant
            i <= secs.len(),
            out.len() == i,
            forall|j: int| 0 <= j < i ==> (#[trigger] out@[j])@ == upper_of(secs@[j].seccion.codigo@),
        decreases secs.len() - i,
    {
        out.push(to_upper(&chars_of(secs[i].seccion.codigo.as_str())));
        i = i + 1;
    }
    out
}

fn pool_key_le_exec(secs: &[SeccionPlan], sups: &Vec<Vec<char>>, a: usize, b: usize) -> (r: bool)
    requires
        a < secs.len() && b < secs.len(),
        sups.len() == secs.len(),
        forall|i: int| 0 <= i < secs.len() ==> (#[trigger] sups@[i])@ == upper_of(secs@[i].seccion.codigo@),
    ensures
        r == pool_key_le(secs@, a, b),
{
    let ua = &sups[a];
    let ub = &sups[b];
    let same = chars_eq(ua, ub);
    if same {
        chars_le(&chars_of(secs[a].seccion.codigo_box.as_str()), &chars_of(secs[b].seccion.codigo_box.as_str()))
    } else {
        chars_le(ua, ub)
    }
}

/// The positions in pool order.
fn sort_positions(secs: &[SeccionPlan], sups: &Vec<Vec<char>>, idx: &Vec<usize>) -> (r: Vec<usize>)
    requires
        sups.len() == secs.len(),
        forall|i: int| 0 <= i < secs.len() ==> (#[trigger] sups@[i])@ == upper_of(secs@[i].seccion.codigo@),
        forall|k: int| 0 <= k < idx.len() ==> #[trigger] idx@[k] < secs.len(),
    ensures
        r@ == sort_pos(idx@, secs@),
        forall|k: int| 0 <= k < r.len() ==> #[trigger] r@[k] < secs.len(),
{
    let mut out: Vec<usize> = Vec::new();
    let mut i: usize = 0;
    while i < idx.len()
        invariant
            i <= idx.len(),
            sups.len() == secs.len(),
            forall|j: int| 0 <= j < secs.len() ==> (#[trigger] sups@[j])@ == upper_of(secs@[j].seccion.codigo@),
            forall|k: int| 0 <= k < idx.len() ==> #[trigger] idx@[k] < secs.len(),
            out@ == sort_pos(idx@.subrange(0, i as int), secs@),
            forall|k: int| 0 <= k < out.len() ==> #[trigger] out@[k] < secs.len(),
        decreases idx.len() - i,
    {
        assert(idx@.subrange(0, i + 1).drop_last() =~= idx@.subrange(0, i as int));
        let x = idx[i];
        let ghost ov = out@;
        let mut p: usize = out.len();
        while p > 0 && !pool_key_le_exec(secs, sups, out[p - 1], x)
            invariant
                p <= out.len(),
                x < secs.len(),
                ov == out@,
                sups.len() == secs.len(),
                forall|j: int| 0 <= j < secs.len() ==> (#[trigger] sups@[j])@ == upper_of(secs@[j].seccion.codigo@),
                forall|k: int| 0 <= k < out.len() ==> #[trigger] out@[k] < secs.len(),
                forall|q: int| p <= q < out.len() ==> !pool_key_le(secs@, #[trigger] ov[q], x),
            decreases p,
        {
            p = p - 1;
        }
        proof {
            lemma_ins_pos_at(ov, secs@, x, p as int);
        }
        out.insert(p, x);
        assert(out@ =~= ov.insert(p as int, x));
        assert forall|k: int| 0 <= k < out.len() implies #[trigger] out@[k] < secs.len() by {
            if k < p {
                assert(out@[k] == ov[k]);
            } else if k > p {
                assert(out@[k] == ov[k - 1]);
            }
        }
        i = i + 1;
    }
    assert(idx@.subrange(0, idx.len() as int) =~= idx@);
    out
}

/// Whether some passed entry, upper-cased, is `code`.
pub open spec fn passed_upper(pasados: Seq<String>, code: Seq<char>) -> bool {
    exists|j: int| 0 <= j < pasados.len() && upper_of((#[trigger] pasados[j])@) == code
}

/// Whether every prerequisite of a course names a known course (the first with that
/// identifier) whose upper-cased code is a passed entry, upper-cased.
pub open spec fn prereqs_passed(r: RamoDisponible, ramos: Seq<RamoDisponible>, pasados: Seq<String>) -> bool {
    forall|q: int| 0 <= q < r.requisitos_ids@.len() ==> match #[trigger] first_with_id(ramos, r.requisitos_ids@[q], 0) {
        Some(k) => passed_upper(pasados, upper_of(ramos[k].codigo@)),
        None => false,
    }
}

/// Whether a section keeps its place once prerequisites are checked: only an elective
/// section of a course found (by upper-cased code, else by normalised name) whose
/// prerequisites are not all passed is dropped.
pub open spec fn prereq_ok(s: SeccionPlan, ramos: Seq<RamoDisponible>, pasados: Seq<String>) -> bool {
    match first_eq(uppers_of(ramos), upper_of(s.seccion.codigo@), 0) {
        Some(k) => !s.is_electivo || prereqs_passed(ramos[k], ramos, pasados),
        None => match first_eq(names_of(ramos), norm_name(s.seccion.nombre@), 0) {
            Some(k) => !s.is_electivo || prereqs_passed(ramos[k], ramos, pasados),
            None => true,
        },
    }
}

/// The predicate on positions of `prereq_ok`.
pub open spec fn prereq_ok_at(secs: Seq<SeccionPlan>, ramos: Seq<RamoDisponible>, pasados: Seq<String>) -> spec_fn(usize) -> bool {
    |i: usize| prereq_ok(secs[i as int], ramos, pasados)
}

/// The passed entries, upper-cased, as strings.
pub(crate) fn upper_strings(pasados: &Vec<String>) -> (r: Vec<String>)
    ensures
        r.len() == pasados.len(),
        forall|k: int| 0 <= k < pasados.len() ==> (#[trigger] r@[k])@ == upper_of(pasados@[k]@),
{
    let mut out: Vec<String> = Vec::new();
    let mut k: usize = 0;
    while k < pasados.len()
        invariant
            k <= pasados.len(),
            out.len() == k,
            forall|j: int| 0 <= j < k ==> (#[trigger] out@[j])@ == upper_of(pasados@[j]@),
        decreases pasados.len() - k,
    {
        out.push(crate::text::string_from_chars(&to_upper(&chars_of(pasados[k].as_str()))));
        k = k + 1;
    }
    out
}

pub(crate) proof fn lemma_prereqs_upper(r: RamoDisponible, ramos: Seq<RamoDisponible>, pasados: Seq<String>, ups: Seq<String>)
    requires
        ups.len() == pasados.len(),
        forall|k: int| 0 <= k < pasados.len() ==> (#[trigger] ups[k])@ == upper_of(pasados[k]@),
    ensures
        prereqs_met(r, ramos, ups) == prereqs_passed(r, ramos, pasados),
{
    assert forall|c: Seq<char>| code_passed(ups, c) == passed_upper(pasados, c) by {
        if code_passed(ups, c) {
            let k = choose|k: int| 0 <= k < ups.len() && (#[trigger] ups[k])@ == c;
            assert(upper_of(pasados[k]@) == c);
        }
        if passed_upper(pasados, c) {
            let j = choose|j: int| 0 <= j < pasados.len() && upper_of((#[trigger] pasados[j])@) == c;
            assert(ups[j]@ == c);
        }
    }
}

/// The positions whose sections keep their place once prerequisites are checked.
fn prereq_positions(
    secs: &[SeccionPlan],
    ramos: &[RamoDisponible],
    ups: &Vec<Vec<char>>,
    names: &Vec<Vec<char>>,
    sups: &Vec<Vec<char>>,
    pups: &Vec<String>,
    pasados: &Vec<String>,
    idx: &Vec<usize>,
) -> (r: Vec<usize>)
    requires
        ups.deep_view() == uppers_of(ramos@),
        names.deep_view() == names_of(ramos@),
        sups.len() == secs.len(),
        forall|i: int| 0 <= i < secs.len() ==> (#[trigger] sups@[i])@ == upper_of(secs@[i].seccion.codigo@),
        pups.len() == pasados.len(),
        forall|k: int| 0 <= k < pasados.len() ==> (#[trigger] pups@[k])@ == upper_of(pasados@[k]@),
        forall|k: int| 0 <= k < idx.len() ==> #[trigger] idx@[k] < secs.len(),
    ensures
        r@ == idx@.filter(prereq_ok_at(secs@, ramos@, pasados@)),
{
    let ghost p = prereq_ok_at(secs@, ramos@, pasados@);
    let mut out: Vec<usize> = Vec::new();
    let mut i: usize = 0;
    assert(idx@.subrange(0, 0) =~= Seq::<usize>::empty());
    while i < idx.len()
        invariant
            i <= idx.len(),
            ups.deep_view() == uppers_of(ramos@),
            names.deep_view() == names_of(ramos@),
            sups.len() == secs.len(),
            forall|j: int| 0 <= j < secs.len() ==> (#[trigger] sups@[j])@ == upper_of(secs@[j].seccion.codigo@),
            pups.len() == pasados.len(),
            forall|k: int| 0 <= k < pasados.len() ==> (#[trigger] pups@[k])@ == upper_of(pasados@[k]@),
            forall|k: int| 0 <= k < idx.len() ==> #[trigger] idx@[k] < secs.len(),
            p == prereq_ok_at(secs@, ramos@, pasados@),
            out@ == idx@.subrange(0, i as int).filter(p),
        decreases idx.len() - i,
    {
        assert(idx@.subrange(0, i + 1) =~= idx@.subrange(0, i as int).push(idx@[i as int]));
        let x = idx[i];
        let s = &secs[x];
        let found = match find_eq(ups, &sups[x]) {
            Some(k) => Some(k),
            None => find_eq(names, &normalize_name_chars(&chars_of(s.seccion.nombre.as_str()))),
        };
        let keep = match found {
            Some(k) => {
                proof {
                    lemma_prereqs_upper(ramos@[k as int], ramos@, pasados@, pups@);
                }
                !s.is_electivo || requisitos_cumplidos(&ramos[k], ramos, pups.as_slice())
            },
            None => true,
        };
        assert(keep == p(x));
        proof {
            idx@.subrange(0, i as int).lemma_filter_push(x, p);
        }
        if keep {
            out.push(x);
        }
        i = i + 1;
    }
    assert(idx@.subrange(0, idx.len() as int) =~= idx@);
    out
}

/// Whether a timetable has no entry, or an entry that reads "sin" in lower case.
pub open spec fn sin_horario(hs: Seq<String>) -> bool {
    hs.len() == 0 || exists|k: int| 0 <= k < hs.len() && contains_seq(lower_of((#[trigger] hs[k])@), "sin"@)
}

/// Whether no entry of the timetable overlaps one of the forbidden blocks.
pub open spec fn franjas_ok(sec: Seccion, franjas: Option<Vec<String>>) -> bool {
    match franjas {
        Some(fr) => !any_overlap(all_expanded(sec.horario@), all_expanded(fr@)),
        None => true,
    }
}

/// The free-days filter on one section: when enabled, no entry overlaps a forbidden
/// block, and a section without timetable is refused when that is asked.
pub open spec fn dias_ok(sec: Seccion, f: UserFilters) -> bool {
    match f.dias_horarios_libres {
        Some(d) => !d.habilitado || (franjas_ok(sec, d.franjas_prohibidas)
            && (d.no_sin_horario == Some(true) ==> !sin_horario(sec.horario@))),
        None => true,
    }
}

/// Whether one of the preferred teachers (in lower case) is part of the teacher
/// `prof` (in lower case).
pub open spec fn some_preferred(prof: Seq<char>, pr: Seq<String>) -> bool {
    exists|k: int| 0 <= k < pr.len() && contains_seq(lower_of(prof), lower_of((#[trigger] pr[k])@))
}

/// Whether no teacher to avoid (in lower case) is part of the teacher `prof` (in lower
/// case).
pub open spec fn none_avoided(prof: Seq<char>, ev: Seq<String>) -> bool {
    forall|k: int| 0 <= k < ev.len() ==> !contains_seq(lower_of(prof), lower_of((#[trigger] ev[k])@))
}

/// Whether, when preferred teachers are listed, one of them is named in `prof`.
pub open spec fn preferred_ok(prof: Seq<char>, preferidos: Option<Vec<String>>) -> bool {
    match preferidos {
        Some(pr) => pr@.len() > 0 ==> some_preferred(prof, pr@),
        None => true,
    }
}

/// Whether no teacher to avoid is named in `prof`.
pub open spec fn avoid_ok(prof: Seq<char>, evitar: Option<Vec<String>>) -> bool {
    match evitar {
        Some(ev) => none_avoided(prof, ev@),
        None => true,
    }
}

/// The teacher filter on one section: when enabled, a non-empty list of preferred
/// teachers must have one named in the section's teacher; no teacher to avoid may be.
pub open spec fn prof_ok(sec: Seccion, f: UserFilters) -> bool {
    match f.preferencias_profesores {
        Some(p) => !p.habilitado || (preferred_ok(sec.profesor@, p.profesores_preferidos)
            && avoid_ok(sec.profesor@, p.profesores_evitar)),
        None => true,
    }
}

/// Whether a section passes the user's filters; CFG sections always do.
pub open spec fn cumple_filtros(s: SeccionPlan, filtros: Option<UserFilters>) -> bool {
    match filtros {
        None => true,
        Some(f) => s.is_cfg || (dias_ok(s.seccion, f) && prof_ok(s.seccion, f)),
    }
}

/// Whether reading a section's timetable and the forbidden blocks stays within `i32`.
pub open spec fn filters_fit(sec: Seccion, filtros: Option<UserFilters>) -> bool {
    filtros matches Some(f) ==> (f.dias_horarios_libres matches Some(d) ==> (d.franjas_prohibidas matches Some(fr)
        ==> all_expand_fit(sec.horario@) && all_expand_fit(fr@)))
}

fn sin_horario_exec(hs: &Vec<String>) -> (r: bool)
    ensures
        r == sin_horario(hs@),
{
    if hs.len() == 0 {
        return true;
    }
    let sin = lit("sin");
    let mut k: usize = 0;
    while k < hs.len()
        invariant
            k <= hs.len(),
            sin@ == "sin"@,
            forall|j: int| 0 <= j < k ==> !contains_seq(lower_of((#[trigger] hs@[j])@), "sin"@),
        decreases hs.len() - k,
    {
        if contains_sub(&to_lower(&chars_of(hs[k].as_str())), &sin) {
            return true;
        }
        k = k + 1;
    }
    false
}

fn prof_ok_exec(sec: &Seccion, f: &UserFilters) -> (r: bool)
    ensures
        r == prof_ok(*sec, *f),
{
    match &f.preferencias_profesores {
        None => true,
        Some(p) => {
            if !p.habilitado {
                return true;
            }
            let prof = to_lower(&chars_of(sec.profesor.as_str()));
            match &p.profesores_preferidos {
                None => {},
                Some(pr) => {
                    if pr.len() > 0 {
                        let mut matched = false;
                        let mut k: usize = 0;
                        while k < pr.len()
                            invariant_except_break
                                !matched,
                            invariant
                                k <= pr.len(),
                                prof@ == lower_of(sec.profesor@),
                                forall|j: int| 0 <= j < k ==> !contains_seq(prof@, lower_of((#[trigger] pr@[j])@)),
                            ensures
                                matched == exists|j: int| 0 <= j < pr@.len() && contains_seq(prof@, lower_of((#[trigger] pr@[j])@)),
                            decreases pr.len() - k,
                        {
                            if contains_sub(&prof, &to_lower(&chars_of(pr[k].as_str()))) {
                                matched = true;
                                break;
                            }
                            k = k + 1;
                        }
                        if !matched {
                            return false;
                        }
                    }
                },
            }
            match &p.profesores_evitar {
                None => true,
                Some(ev) => {
                    let mut k: usize = 0;
                    while k < ev.len()
                        invariant
                            k <= ev.len(),
                            prof@ == lower_of(sec.profesor@),
                            f.preferencias_profesores == Some(*p),
                            p.habilitado,
                            p.profesores_evitar == Some(*ev),
                            forall|j: int| 0 <= j < k ==> !contains_seq(prof@, lower_of((#[trigger] ev@[j])@)),
                        decreases ev.len() - k,
                    {
                        if contains_sub(&prof, &to_lower(&chars_of(ev[k].as_str()))) {
                            assert(contains_seq(lower_of(sec.profesor@), lower_of(ev@[k as int]@)));
                            return false;
                        }
                        k = k + 1;
                    }
                    true
                },
            }
        },
    }
}

/// Whether a section passes the user's filters: CFG sections always do; otherwise,
/// with the free-days filter enabled, no entry may overlap a forbidden block and,
/// when asked, the section must have a timetable; with the teacher filter enabled, a
/// preferred teacher (if any are listed) must be named in the section's teacher and
/// no teacher to avoid may be (names compared in lower case).
pub fn seccion_cumple_filtros(s: &SeccionPlan, filtros: &Option<UserFilters>) -> (r: bool)
    requires
        filters_fit(s.seccion, *filtros),
    ensures
        r == cumple_filtros(*s, *filtros),
{
    match filtros {
        None => true,
        Some(f) => {
            if s.is_cfg {
                return true;
            }
            match &f.dias_horarios_libres {
                None => {},
                Some(d) => {
                    if d.habilitado {
                        match &d.franjas_prohibidas {
                            None => {},
                            Some(fr) => {
                                if solapan_horarios(s.seccion.horario.as_slice(), fr.as_slice()) {
                                    return false;
                                }
                            },
                        }
                        let no_sin = match d.no_sin_horario {
                            Some(b) => b,
                            None => false,
                        };
                        if no_sin && sin_horario_exec(&s.seccion.horario) {
                            return false;
                        }
                    }
                },
            }
            prof_ok_exec(&s.seccion, f)
        },
    }
}

/// How many more CFG courses a plan may hold: four minus those passed, at least 0.
pub open spec fn max_cfgs(pasados: Seq<String>) -> int {
    if count_cfg(pasados) >= 4 {
        0
    } else {
        4 - count_cfg(pasados)
    }
}

/// The predicate on positions of `cumple_filtros`.
pub open spec fn cumple_at(secs: Seq<SeccionPlan>, filtros: Option<UserFilters>) -> spec_fn(usize) -> bool {
    |i: usize| cumple_filtros(secs[i as int], filtros)
}

/// The positions of sections that are not CFG sections.
pub open spec fn not_cfg_at(secs: Seq<SeccionPlan>) -> spec_fn(usize) -> bool {
    |i: usize| !secs[i as int].is_cfg
}

/// The positions of the sections a plan draws from, in pool order: reachable
/// sections ordered by upper-cased code and box code, without elective sections whose
/// prerequisites are not passed, then (with filters) those passing the user's
/// filters, then (when no more CFG courses fit) without CFG sections.
pub open spec fn pool_positions(secs: Seq<SeccionPlan>, ramos: Seq<RamoDisponible>, params: PlanParams) -> Seq<usize> {
    let pv = params.ramos_pasados@;
    let s1 = positions(secs.len() as int).filter(reachable_at(secs, ramos, pv));
    let s3 = sort_pos(s1, secs).filter(prereq_ok_at(secs, ramos, pv));
    let s4 = if params.filtros is Some { s3.filter(cumple_at(secs, params.filtros)) } else { s3 };
    if max_cfgs(pv) == 0 { s4.filter(not_cfg_at(secs)) } else { s4 }
}

/// Whether the semester limit and every timetable the filters read fit in `i32`.
pub open spec fn pool_fits(secs: Seq<SeccionPlan>, ramos: Seq<RamoDisponible>, params: PlanParams) -> bool {
    &&& sem_limit(ramos, params.ramos_pasados@) <= i32::MAX
    &&& forall|i: int| 0 <= i < secs.len() ==> filters_fit((#[trigger] secs[i]).seccion, params.filtros)
}

proof fn lemma_filter_bounded(idx: Seq<usize>, p: spec_fn(usize) -> bool, n: int)
    requires
        forall|k: int| 0 <= k < idx.len() ==> #[trigger] idx[k] < n,
    ensures
        forall|k: int| 0 <= k < idx.filter(p).len() ==> #[trigger] idx.filter(p)[k] < n,
{
    broadcast use Seq::lemma_filter_contains_rev;
    assert forall|k: int| 0 <= k < idx.filter(p).len() implies #[trigger] idx.filter(p)[k] < n by {
        idx.lemma_filter_pred(p, k);
        assert(idx.filter(p).contains(idx.filter(p)[k]));
        idx.lemma_filter_contains_rev(p, idx.filter(p)[k]);
    }
}

/// The positions that pass the user's filters.
fn filter_cumple(secs: &[SeccionPlan], filtros: &Option<UserFilters>, idx: &Vec<usize>) -> (r: Vec<usize>)
    requires
        forall|i: int| 0 <= i < secs.len() ==> filters_fit((#[trigger] secs@[i]).seccion, *filtros),
        forall|k: int| 0 <= k < idx.len() ==> #[trigger] idx@[k] < secs.len(),
    ensures
        r@ == idx@.filter(cumple_at(secs@, *filtros)),
{
    let ghost p = cumple_at(secs@, *filtros);
    let mut out: Vec<usize> = Vec::new();
    let mut i: usize = 0;
    assert(idx@.subrange(0, 0) =~= Seq::<usize>::empty());
    while i < idx.len()
        invariant
            i <= idx.len(),
            forall|j: int| 0 <= j < secs.len() ==> filters_fit((#[trigger] secs@[j]).seccion, *filtros),
            forall|k: int| 0 <= k < idx.len() ==> #[trigger] idx@[k] < secs.len(),
            p == cumple_at(secs@, *filtros),
            out@ == idx@.subrange(0, i as int).filter(p),
        decreases idx.len() - i,
    {
        assert(idx@.subrange(0, i + 1) =~= idx@.subrange(0, i as int).push(idx@[i as int]));
        let x = idx[i];
        proof {
            idx@.subrange(0, i as int).lemma_filter_push(x, p);
        }
        if seccion_cumple_filtros(&secs[x], filtros) {
            out.push(x);
        }
        i = i + 1;
    }
    assert(idx@.subrange(0, idx.len() as int) =~= idx@);
    out
}

/// The positions of sections that are not CFG sections.
fn filter_not_cfg(secs: &[SeccionPlan], idx: &Vec<usize>) -> (r: Vec<usize>)
    requires
        forall|k: int| 0 <= k < idx.len() ==> #[trigger] idx@[k] < secs.len(),
    ensures
        r@ == idx@.filter(not_cfg_at(secs@)),
{
    let ghost p = not_cfg_at(secs@);
    let mut out: Vec<usize> = Vec::new();
    let mut i: usize = 0;
    assert(idx@.subrange(0, 0) =~= Seq::<usize>::empty());
    while i < idx.len()
        invariant
            i <= idx.len(),
            forall|k: int| 0 <= k < idx.len() ==> #[trigger] idx@[k] < secs.len(),
            p == not_cfg_at(secs@),
            out@ == idx@.subrange(0, i as int).filter(p),
        decreases idx.len() - i,
    {
        assert(idx@.subrange(0, i + 1) =~= idx@.subrange(0, i as int).push(idx@[i as int]));
        let x = idx[i];
        proof {
            idx@.subrange(0, i as int).lemma_filter_push(x, p);
        }
        if !secs[x].is_cfg {
            out.push(x);
        }
        i = i + 1;
    }
    assert(idx@.subrange(0, idx.len() as int) =~= idx@);
    out
}

/// The positions of the sections a plan draws from (see `pool_positions`).
pub fn plan_pool(secs: &[SeccionPlan], ramos: &[RamoDisponible], params: &PlanParams) -> (r: Vec<usize>)
    requires
        pool_fits(secs@, ramos@, *params),
    ensures
        r@ == pool_positions(secs@, ramos@, *params),
        forall|k: int| 0 <= k < r.len() ==> #[trigger] r@[k] < secs.len(),
{
    let ghost pv = params.ramos_pasados@;
    let (codes, ups, names) = course_forms(ramos);
    let limit = sem_limit_exec(ramos, &codes, &params.ramos_pasados);
    let s1 = reachable_positions(secs, ramos, &codes, &names, &params.ramos_pasados, limit);
    proof {
        assert forall|k: int| 0 <= k < positions(secs.len() as int).len() implies
            #[trigger] positions(secs.len() as int)[k] < secs.len() by {}
        lemma_filter_bounded(positions(secs.len() as int), reachable_at(secs@, ramos@, pv), secs.len() as int);
    }
    let sups = section_uppers(secs);
    let s2 = sort_positions(secs, &sups, &s1);
    let pups = upper_strings(&params.ramos_pasados);
    let s3 = prereq_positions(secs, ramos, &ups, &names, &sups, &pups, &params.ramos_pasados, &s2);
    proof {
        lemma_filter_bounded(s2@, prereq_ok_at(secs@, ramos@, pv), secs.len() as int);
    }
    let s4 = if params.filtros.is_some() {
        let v = filter_cumple(secs, &params.filtros, &s3);
        proof {
            lemma_filter_bounded(s3@, cumple_at(secs@, params.filtros), secs.len() as int);
        }
        v
    } else {
        s3
    };
    let (pu, _pn) = pasados_forms(params.ramos_pasados.as_slice());
    let ncfg = count_cfg_exec(&pu, Ghost(pv));
    if ncfg >= 4 {
        let v = filter_not_cfg(secs, &s4);
        proof {
            lemma_filter_bounded(s4@, not_cfg_at(secs@), secs.len() as int);
        }
        v
    } else {
        s4
    }
}

} // verus!
