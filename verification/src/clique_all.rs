//! The exhaustive companion of the greedy search: timetables seeded by each CFG
//! section, then enumerated cliques, grouped by size.
use vstd::prelude::*;
use crate::models::{RamoDisponible, Seccion};
use crate::clique::{adj_of, chain_ok, covers, joins, positions_key, subseq_from, box_key, box_key_of, keys_distinct, keys_of, pool_secs, strict_prereqs, codes_cut, entries_sum, entries_sum_exec, enum_fits, enumerate_clique_combinations, enumerate_clique_combinations_size_priority, enumerated, enum_drawn, enum_weight, lon_match, gap_filter, pool_adjacency, ranges_fit_all, same_keys, sort_by_score, timetable_fits};
use crate::plan_pool::{PlanParams, SeccionPlan, codes_of, cumple_filtros, in_strs, sem_ok, course_forms, filters_fit, find_eq, first_eq, in_strs_exec, names_of, sem_limit, sem_limit_exec, upper_strings, uppers_of};
use crate::plan_score::{apply_optimization_modifiers, modified_score, modifiers_fit, wishes_fit};
use crate::rutacritica::clique::{compatible, lemma_compatible_symmetric};
use crate::datafiles::{norm_name, normalize_name_chars};
use crate::scoring::{compute_priority, priority, range_fits, sol_ranges_fit};
use crate::selector::same_section;
use crate::text::{chars_eq, chars_of, to_upper, upper_of};

verus! {

/// The weight a CFG-seeded timetable gives a section: the priority of the course found
/// by upper-cased code; without one, 10 010 150 for a CFG section, else 0.
pub open spec fn upper_weight(ramos: Seq<RamoDisponible>, s: SeccionPlan) -> int {
    match first_eq(uppers_of(ramos), upper_of(s.seccion.codigo@), 0) {
        Some(k) => priority(ramos[k], s.seccion.seccion@),
        None => if s.is_cfg { 10_010_150 } else { 0 },
    }
}

/// Whether timetable `sol` lists sections at positions `idx` of `secs`, pairwise
/// compatible and of pairwise different upper-cased codes, each weighted as a CFG-seeded or an enumerated
/// timetable weighs it.
pub open spec fn gathered_from(secs: Seq<SeccionPlan>, ramos: Seq<RamoDisponible>, sol: Seq<(Seccion, i32)>, idx: Seq<usize>) -> bool {
    &&& idx.len() == sol.len()
    &&& forall|a: int| 0 <= a < idx.len() ==> (#[trigger] idx[a]) < secs.len() && same_section(sol[a].0, secs[idx[a] as int].seccion)
        && (sol[a].1 as int == upper_weight(ramos, secs[idx[a] as int]) || sol[a].1 as int == enum_weight(ramos, secs[idx[a] as int]))
    &&& forall|a: int, b: int| 0 <= a < idx.len() && 0 <= b < idx.len() && a != b
        ==> upper_of(secs[#[trigger] idx[a] as int].seccion.codigo@) != upper_of(secs[#[trigger] idx[b] as int].seccion.codigo@)
        && compatible(secs[idx[a] as int].seccion, secs[idx[b] as int].seccion)
}

/// Whether `sol` with `score` is a timetable of one to `max` pairwise compatible
/// sections of `secs` of different courses, scored by its weights adjusted to the
/// student's wishes.
pub open spec fn gathered(secs: Seq<SeccionPlan>, ramos: Seq<RamoDisponible>, params: PlanParams, max: int, sol: Seq<(Seccion, i32)>, score: i64) -> bool {
    &&& 1 <= sol.len() <= max
    &&& score == modified_score(entries_sum(sol), sol, params)
    &&& exists|idx: Seq<usize>| #[trigger] gathered_from(secs, ramos, sol, idx)
}

/// A timetable of the exhaustive search never holds two sections that share a
/// timetable entry, two sections of one box code, or two sections of one course (by
/// upper-cased code).
pub proof fn lemma_gathered_clash_free(
    secs: Seq<SeccionPlan>,
    ramos: Seq<RamoDisponible>,
    params: PlanParams,
    max: int,
    sol: Seq<(Seccion, i32)>,
    score: i64,
)
    requires
        gathered(secs, ramos, params, max, sol, score),
    ensures
        forall|a: int, b: int| 0 <= a < sol.len() && 0 <= b < sol.len() && a != b ==> {
            &&& !crate::scoring::share_entry((#[trigger] sol[a]).0.horario@, (#[trigger] sol[b]).0.horario@)
            &&& sol[a].0.codigo_box@ != sol[b].0.codigo_box@
            &&& upper_of(sol[a].0.codigo@) != upper_of(sol[b].0.codigo@)
        },
{
    let idx = choose|idx: Seq<usize>| #[trigger] gathered_from(secs, ramos, sol, idx);
    assert forall|a: int, b: int| 0 <= a < sol.len() && 0 <= b < sol.len() && a != b implies {
        &&& !crate::scoring::share_entry((#[trigger] sol[a]).0.horario@, (#[trigger] sol[b]).0.horario@)
        &&& sol[a].0.codigo_box@ != sol[b].0.codigo_box@
        &&& upper_of(sol[a].0.codigo@) != upper_of(sol[b].0.codigo@)
    } by {
        assert(idx[a] < secs.len() && same_section(sol[a].0, secs[idx[a] as int].seccion));
        assert(idx[b] < secs.len() && same_section(sol[b].0, secs[idx[b] as int].seccion));
        assert(compatible(secs[idx[a] as int].seccion, secs[idx[b] as int].seccion));
    }
}

/// The largest size a gathered timetable may have: `max_size`, or six for the
/// extended search of six-section timetables.
pub open spec fn gathered_max(max_size: int) -> int {
    if max_size > 6 { max_size } else { 6 }
}

/// A copy of a section with its kind.
pub(crate) fn copy_plan(s: &SeccionPlan) -> (r: SeccionPlan)
    ensures
        same_section(r.seccion, s.seccion),
        r.seccion.horario@ == s.seccion.horario@,
        r.is_cfg == s.is_cfg,
        r.is_electivo == s.is_electivo,
{
    SeccionPlan { seccion: s.seccion.duplicate(), is_cfg: s.is_cfg, is_electivo: s.is_electivo }
}

proof fn lemma_lon_match_fields(ramos: Seq<RamoDisponible>, a: Seccion, b: Seccion, i: int)
    requires
        a.codigo@ == b.codigo@,
        a.nombre@ == b.nombre@,
    ensures
        lon_match(ramos, a, i) == lon_match(ramos, b, i),
    decreases ramos.len() - i,
{
    if 0 <= i < ramos.len() {
        lemma_lon_match_fields(ramos, a, b, i + 1);
    }
}

/// Copies of a section with its kind weigh the same.
proof fn lemma_same_weights(ramos: Seq<RamoDisponible>, a: SeccionPlan, b: SeccionPlan)
    requires
        same_section(a.seccion, b.seccion),
        a.is_cfg == b.is_cfg,
    ensures
        upper_weight(ramos, a) == upper_weight(ramos, b),
        enum_weight(ramos, a) == enum_weight(ramos, b),
{
    lemma_lon_match_fields(ramos, a.seccion, b.seccion, 0);
}

/// Whether `fsecs` are copies (with their kinds) of the sections of `secs` at `pos`.
pub open spec fn copies_at(secs: Seq<SeccionPlan>, fsecs: Seq<SeccionPlan>, pos: Seq<usize>) -> bool {
    &&& pos.len() == fsecs.len()
    &&& forall|i: int| 0 <= i < pos.len() ==> #[trigger] pos[i] < secs.len()
        && same_section(fsecs[i].seccion, secs[pos[i] as int].seccion) && fsecs[i].is_cfg == secs[pos[i] as int].is_cfg
}

proof fn lemma_transfer(secs: Seq<SeccionPlan>, fsecs: Seq<SeccionPlan>, ramos: Seq<RamoDisponible>, pos: Seq<usize>,
    sol: Seq<(Seccion, i32)>, idx: Seq<usize>)
    requires
        gathered_from(fsecs, ramos, sol, idx),
        copies_at(secs, fsecs, pos),
    ensures
        gathered_from(secs, ramos, sol, idx.map_values(|x: usize| pos[x as int])),
{
    let m = idx.map_values(|x: usize| pos[x as int]);
    assert forall|a: int| 0 <= a < m.len() implies (#[trigger] m[a]) < secs.len() && same_section(sol[a].0, secs[m[a] as int].seccion)
        && (sol[a].1 as int == upper_weight(ramos, secs[m[a] as int]) || sol[a].1 as int == enum_weight(ramos, secs[m[a] as int])) by {
        assert(idx[a] < fsecs.len());
        assert(same_section(fsecs[idx[a] as int].seccion, secs[pos[idx[a] as int] as int].seccion));
        lemma_same_weights(ramos, fsecs[idx[a] as int], secs[pos[idx[a] as int] as int]);
    }
    assert forall|a: int, b: int| 0 <= a < m.len() && 0 <= b < m.len() && a != b
        implies upper_of(secs[#[trigger] m[a] as int].seccion.codigo@) != upper_of(secs[#[trigger] m[b] as int].seccion.codigo@)
        && compatible(secs[m[a] as int].seccion, secs[m[b] as int].seccion) by {
        assert(idx[a] < fsecs.len() && idx[b] < fsecs.len());
        assert(same_section(fsecs[idx[a] as int].seccion, secs[pos[idx[a] as int] as int].seccion));
        assert(same_section(fsecs[idx[b] as int].seccion, secs[pos[idx[b] as int] as int].seccion));
        assert(upper_of(fsecs[#[trigger] idx[a] as int].seccion.codigo@) != upper_of(fsecs[#[trigger] idx[b] as int].seccion.codigo@));
        assert(compatible(fsecs[idx[a] as int].seccion, fsecs[idx[b] as int].seccion));
    }
}

pub(crate) proof fn lemma_gathered_transfer(secs: Seq<SeccionPlan>, fsecs: Seq<SeccionPlan>, ramos: Seq<RamoDisponible>,
    pos: Seq<usize>, params: PlanParams, max: int, sol: Seq<(Seccion, i32)>, score: i64)
    requires
        gathered(fsecs, ramos, params, max, sol, score),
        copies_at(secs, fsecs, pos),
    ensures
        gathered(secs, ramos, params, max, sol, score),
{
    let idx = choose|idx: Seq<usize>| #[trigger] gathered_from(fsecs, ramos, sol, idx);
    lemma_transfer(secs, fsecs, ramos, pos, sol, idx);
}

/// The last of `ramos[..k]` with identifier `id`.
pub open spec fn last_with_id(ramos: Seq<RamoDisponible>, id: i32, k: int) -> Option<int>
    decreases k,
{
    if k <= 0 || k > ramos.len() {
        None
    } else if ramos[k - 1].id == id {
        Some(k - 1)
    } else {
        last_with_id(ramos, id, k - 1)
    }
}

/// The upper-cased forms of the passed entries.
pub open spec fn passed_uppers(pasados: Seq<String>) -> Seq<Seq<char>> {
    pasados.map_values(|s: String| upper_of(s@))
}

/// Whether every prerequisite of `r` is a known course (the last with its identifier)
/// whose form in `ups` is among `passed`.
pub open spec fn viable_course(r: RamoDisponible, ramos: Seq<RamoDisponible>, ups: Seq<Seq<char>>, passed: Seq<Seq<char>>) -> bool {
    forall|q: int| 0 <= q < r.requisitos_ids@.len() ==> match #[trigger] last_with_id(ramos, r.requisitos_ids@[q],
        ramos.len() as int) {
        Some(x) => passed.contains(ups[x]),
        None => false,
    }
}

/// Whether `id` is the identifier of one of the first `k` courses whose prerequisites
/// are all passed.
pub open spec fn viable_in(ramos: Seq<RamoDisponible>, pasados: Seq<String>, id: i32, k: int) -> bool {
    exists|j: int| 0 <= j < k && j < ramos.len() && (#[trigger] ramos[j]).id == id
        && viable_course(ramos[j], ramos, uppers_of(ramos), passed_uppers(pasados))
}

/// Whether `id` is the identifier of a course whose prerequisites are all passed.
pub open spec fn viable_id(ramos: Seq<RamoDisponible>, pasados: Seq<String>, id: i32) -> bool {
    viable_in(ramos, pasados, id, ramos.len() as int)
}

proof fn lemma_viable_in_grow(ramos: Seq<RamoDisponible>, pasados: Seq<String>, id: i32, k: int, k2: int)
    requires
        viable_in(ramos, pasados, id, k),
        k <= k2,
    ensures
        viable_in(ramos, pasados, id, k2),
{
    let j = choose|j: int| 0 <= j < k && j < ramos.len() && (#[trigger] ramos[j]).id == id
        && viable_course(ramos[j], ramos, uppers_of(ramos), passed_uppers(pasados));
    assert(ramos[j].id == id);
}

/// Whether the exhaustive search draws from section `s`: its box code is not passed;
/// its course, found by exact code, else by normalised name, is within the semester
/// limit (a section of no course only when it is a CFG section); and, unless it is a
/// CFG section, the course found by upper-cased code, else by normalised name, has the
/// identifier of a course with all prerequisites passed.
pub open spec fn sealed(s: SeccionPlan, ramos: Seq<RamoDisponible>, pasados: Seq<String>) -> bool {
    &&& !in_strs(pasados, s.seccion.codigo_box@)
    &&& match first_eq(codes_of(ramos), s.seccion.codigo@, 0) {
        Some(k) => sem_ok(ramos[k], sem_limit(ramos, pasados)),
        None => match first_eq(names_of(ramos), norm_name(s.seccion.nombre@), 0) {
            Some(k) => sem_ok(ramos[k], sem_limit(ramos, pasados)),
            None => s.is_cfg,
        },
    }
    &&& !s.is_cfg ==> match first_eq(uppers_of(ramos), upper_of(s.seccion.codigo@), 0) {
        Some(k) => viable_id(ramos, pasados, ramos[k].id),
        None => match first_eq(names_of(ramos), norm_name(s.seccion.nombre@), 0) {
            Some(k) => viable_id(ramos, pasados, ramos[k].id),
            None => false,
        },
    }
}

/// The sections the exhaustive search draws from (see `sealed_upto`), in order.
pub open spec fn sealed_secs(secs: Seq<SeccionPlan>, ramos: Seq<RamoDisponible>, pasados: Seq<String>) -> Seq<SeccionPlan> {
    pool_secs(secs, sealed_upto(secs, ramos, pasados, secs.len() as int))
}

/// Two different positions of `fs` whose sections are compatible.
pub open spec fn compat_of(fs: Seq<SeccionPlan>) -> spec_fn(int, int) -> bool {
    |x: int, y: int| x != y && compatible(fs[x].seccion, fs[y].seccion)
}

/// A chain of positions that joins in one list of sections joins in a copy of it whose
/// adjacency agrees.
proof fn lemma_chain_transfer(
    fs: Seq<SeccionPlan>,
    fv: Seq<SeccionPlan>,
    ramos: Seq<RamoDisponible>,
    a1: spec_fn(int, int) -> bool,
    a2: spec_fn(int, int) -> bool,
    params: PlanParams,
    ext: Seq<usize>,
)
    requires
        fs.len() == fv.len(),
        forall|k: int| 0 <= k < fs.len() ==> same_section((#[trigger] fv[k]).seccion, fs[k].seccion) && fv[k].is_cfg == fs[k].is_cfg,
        forall|x: int, y: int| 0 <= x < fs.len() && 0 <= y < fs.len() ==> #[trigger] a1(x, y) == a2(x, y),
        chain_ok(fs, ramos, a1, params, Seq::empty(), ext),
    ensures
        chain_ok(fv, ramos, a2, params, Seq::empty(), ext),
        positions_key(fv, ext) == positions_key(fs, ext),
{
    assert forall|j: int| 0 <= j < ext.len() implies joins(fv, ramos, a2, params, Seq::empty() + ext.take(j), #[trigger] ext[j]) by {
        let prev = Seq::<usize>::empty() + ext.take(j);
        let i = ext[j];
        assert(joins(fs, ramos, a1, params, prev, i));
        assert(same_section(fv[i as int].seccion, fs[i as int].seccion));
        assert(cumple_filtros(fv[i as int], params.filtros));
        assert(strict_prereqs(fv[i as int], ramos, params.ramos_pasados@));
        assert forall|x: int| 0 <= x < prev.len() implies a2(#[trigger] prev[x] as int, i as int)
            && upper_of(fv[prev[x] as int].seccion.codigo@) != upper_of(fv[i as int].seccion.codigo@)
            && (gap_filter(params.filtros) matches Some(m) ==> crate::clique::ranges_apart(
                crate::clique::timetable_ranges(fv[prev[x] as int].seccion.horario@),
                crate::clique::timetable_ranges(fv[i as int].seccion.horario@),
                m as int,
            )) by {
            assert(a1(prev[x] as int, i as int));
            assert(same_section(fv[prev[x] as int].seccion, fs[prev[x] as int].seccion));
        }
    }
    let s1 = ext.map_values(|i: usize| (fv[i as int].seccion, 0i32));
    let s2 = ext.map_values(|i: usize| (fs[i as int].seccion, 0i32));
    assert(forall|a: int| 0 <= a < ext.len() ==> #[trigger] ext[a] < fs.len()) by {
        assert forall|a: int| 0 <= a < ext.len() implies #[trigger] ext[a] < fs.len() by {
            assert(joins(fs, ramos, a1, params, Seq::empty() + ext.take(a), ext[a]));
        }
    }
    assert forall|a: int| 0 <= a < s1.len() implies (#[trigger] s1[a]).0.codigo_box@ == s2[a].0.codigo_box@ by {
        assert(same_section(fv[ext[a] as int].seccion, fs[ext[a] as int].seccion));
    }
    crate::clique::lemma_box_key_upto_boxes(s1, s2, s1.len() as int);
}

/// The positions, in order, of the sections among the first `n` of `secs` that the
/// exhaustive search draws from.
pub open spec fn sealed_upto(secs: Seq<SeccionPlan>, ramos: Seq<RamoDisponible>, pasados: Seq<String>, n: int) -> Seq<usize>
    decreases n,
{
    if n <= 0 {
        Seq::empty()
    } else if sealed(secs[n - 1], ramos, pasados) {
        sealed_upto(secs, ramos, pasados, n - 1).push((n - 1) as usize)
    } else {
        sealed_upto(secs, ramos, pasados, n - 1)
    }
}

/// Whether the prerequisites of course `r` are all known courses (the last with each
/// identifier) with a passed upper-cased code; a course without prerequisites is.
fn course_viable(r: &RamoDisponible, ramos: &[RamoDisponible], ups: &Vec<Vec<char>>, pups: &Vec<String>) -> (b: bool)
    requires
        ups.len() == ramos.len(),
    ensures
        b == viable_course(*r, ramos@, ups.deep_view(), pups@.map_values(|s: String| s@)),
{
    let mut q: usize = 0;
    while q < r.requisitos_ids.len()
        invariant
            q <= r.requisitos_ids.len(),
            ups.len() == ramos.len(),
            forall|y: int| 0 <= y < q ==> match #[trigger] last_with_id(ramos@, r.requisitos_ids@[y], ramos.len() as int) {
                Some(x) => pups@.map_values(|s: String| s@).contains(ups.deep_view()[x]),
                None => false,
            },
        decreases r.requisitos_ids.len() - q,
    {
        let id = r.requisitos_ids[q];
        let mut k: usize = ramos.len();
        let mut found: Option<usize> = None;
        while k > 0
            invariant_except_break
                found is None,
            invariant
                k <= ramos.len(),
                found is None ==> last_with_id(ramos@, id, ramos.len() as int) == last_with_id(ramos@, id, k as int),
            ensures
                match found {
                    Some(x) => x < ramos.len() && last_with_id(ramos@, id, ramos.len() as int) == Some(x as int),
                    None => last_with_id(ramos@, id, ramos.len() as int) is None,
                },
            decreases k,
        {
            k = k - 1;
            if ramos[k].id == id {
                found = Some(k);
                break;
            }
        }
        match found {
            None => {
                return false;
            },
            Some(x) => {
                proof {
                    assert forall|j: int| 0 <= j < pups.len() implies pups@.map_values(|s: String| s@)[j] == (#[trigger] pups@[j])@ by {}
                }
                let mut p: usize = 0;
                let mut ok = false;
                while p < pups.len()
                    invariant
                        p <= pups.len(),
                        x < ups.len(),
                        ok == exists|j: int| 0 <= j < p && (#[trigger] pups@[j])@ == ups.deep_view()[x as int],
                    decreases pups.len() - p,
                {
                    proof {
                        crate::text::lemma_chars_deep_view(ups@[x as int]);
                    }
                    if chars_eq(&chars_of(pups[p].as_str()), &ups[x]) {
                        ok = true;
                    }
                    p = p + 1;
                }
                if !ok {
                    return false;
                }
                proof {
                    let j = choose|j: int| 0 <= j < pups.len() && (#[trigger] pups@[j])@ == ups.deep_view()[x as int];
                    assert(pups@.map_values(|s: String| s@)[j] == ups.deep_view()[x as int]);
                }
            },
        }
        q = q + 1;
    }
    true
}

/// Whether a timetable with the same box codes is among `keys`.
pub(crate) fn key_seen(keys: &Vec<Vec<Vec<char>>>, key: &Vec<Vec<char>>) -> (r: bool)
    ensures
        r == exists|t: int| 0 <= t < keys.len() && (#[trigger] keys@[t]).deep_view() == key.deep_view(),
{
    let mut t: usize = 0;
    while t < keys.len()
        invariant
            t <= keys.len(),
            forall|j: int| 0 <= j < t ==> (#[trigger] keys@[j]).deep_view() != key.deep_view(),
        decreases keys.len() - t,
    {
        if same_keys(&keys[t], key) {
            return true;
        }
        t = t + 1;
    }
    false
}

proof fn lemma_sealed_upto_sealed(secs: Seq<SeccionPlan>, ramos: Seq<RamoDisponible>, pasados: Seq<String>, n: int, k: int)
    requires
        0 <= n <= secs.len() <= usize::MAX,
        0 <= k < sealed_upto(secs, ramos, pasados, n).len(),
    ensures
        sealed_upto(secs, ramos, pasados, n)[k] < n,
        sealed(secs[sealed_upto(secs, ramos, pasados, n)[k] as int], ramos, pasados),
    decreases n,
{
    if n > 0 {
        let s0 = sealed_upto(secs, ramos, pasados, n - 1);
        if sealed(secs[n - 1], ramos, pasados) {
            assert(sealed_upto(secs, ramos, pasados, n) == s0.push((n - 1) as usize));
            if k < s0.len() {
                lemma_sealed_upto_sealed(secs, ramos, pasados, n - 1, k);
            }
        } else {
            assert(sealed_upto(secs, ramos, pasados, n) == s0);
            lemma_sealed_upto_sealed(secs, ramos, pasados, n - 1, k);
        }
    }
}

proof fn lemma_sealed_upto_has(secs: Seq<SeccionPlan>, ramos: Seq<RamoDisponible>, pasados: Seq<String>, n: int, i: int)
    requires
        0 <= i < n <= secs.len(),
        sealed(secs[i], ramos, pasados),
    ensures
        sealed_upto(secs, ramos, pasados, n).contains(i as usize),
    decreases n,
{
    let s0 = sealed_upto(secs, ramos, pasados, n - 1);
    if i == n - 1 {
        assert(sealed_upto(secs, ramos, pasados, n).last() == i as usize);
    } else {
        lemma_sealed_upto_has(secs, ramos, pasados, n - 1, i);
        let k = choose|k: int| 0 <= k < s0.len() && s0[k] == i as usize;
        assert(sealed_upto(secs, ramos, pasados, n)[k] == i as usize);
    }
}

/// The positions, in order, of the sections the exhaustive search draws from (see
/// `sealed`).
fn sealed_positions(secs: &[SeccionPlan], ramos: &[RamoDisponible], params: &PlanParams) -> (r: Vec<usize>)
    requires
        sem_limit(ramos@, params.ramos_pasados@) <= i32::MAX,
    ensures
        r@ == sealed_upto(secs@, ramos@, params.ramos_pasados@, secs.len() as int),
        forall|k: int| 0 <= k < r.len() ==> #[trigger] r@[k] < secs.len(),
{
    let ghost pas = params.ramos_pasados@;
    let (codes, ups, names) = course_forms(ramos);
    let limit = sem_limit_exec(ramos, &codes, &params.ramos_pasados);
    let pups = upper_strings(&params.ramos_pasados);
    assert(pups@.map_values(|s: String| s@) =~= passed_uppers(pas));
    assert(ups.deep_view().len() == ups.len());
    let mut viable_ids: Vec<i32> = Vec::new();
    let mut k: usize = 0;
    while k < ramos.len()
        invariant
            k <= ramos.len(),
            ups.len() == ramos.len(),
            ups.deep_view() == uppers_of(ramos@),
            pups@.map_values(|s: String| s@) == passed_uppers(pas),
            forall|q: int| 0 <= q < viable_ids.len() ==> #[trigger] viable_in(ramos@, pas, viable_ids@[q], k as int),
            forall|j: int| 0 <= j < k && viable_course(#[trigger] ramos@[j], ramos@, uppers_of(ramos@), passed_uppers(pas))
                ==> viable_ids@.contains(ramos@[j].id),
        decreases ramos.len() - k,
    {
        let ghost before = viable_ids@;
        let b = course_viable(&ramos[k], ramos, &ups, &pups);
        if b {
            viable_ids.push(ramos[k].id);
            assert(viable_ids@[before.len() as int] == ramos@[k as int].id);
            assert forall|j: int| 0 <= j < k + 1 && viable_course(#[trigger] ramos@[j], ramos@, uppers_of(ramos@), passed_uppers(pas))
                implies viable_ids@.contains(ramos@[j].id) by {
                if j < k {
                    let q = choose|q: int| 0 <= q < before.len() && before[q] == ramos@[j].id;
                    assert(viable_ids@[q] == ramos@[j].id);
                }
            }
        }
        assert forall|q: int| 0 <= q < viable_ids.len() implies #[trigger] viable_in(ramos@, pas, viable_ids@[q], k + 1) by {
            if q < before.len() {
                assert(viable_ids@[q] == before[q]);
                lemma_viable_in_grow(ramos@, pas, before[q], k as int, k + 1);
            } else {
                assert(ramos@[k as int].id == viable_ids@[q]);
            }
        }
        k = k + 1;
    }
    let mut out: Vec<usize> = Vec::new();
    let mut i: usize = 0;
    while i < secs.len()
        invariant
            i <= secs.len(),
            pas == params.ramos_pasados@,
            limit == sem_limit(ramos@, pas),
            codes.deep_view() == codes_of(ramos@),
            ups.deep_view() == uppers_of(ramos@),
            names.deep_view() == names_of(ramos@),
            forall|q: int| 0 <= q < viable_ids.len() ==> #[trigger] viable_in(ramos@, pas, viable_ids@[q], ramos.len() as int),
            forall|j: int| 0 <= j < ramos.len() && viable_course(#[trigger] ramos@[j], ramos@, uppers_of(ramos@), passed_uppers(pas))
                ==> viable_ids@.contains(ramos@[j].id),
            out@ == sealed_upto(secs@, ramos@, pas, i as int),
            forall|q: int| 0 <= q < out.len() ==> #[trigger] out@[q] < secs.len(),
        decreases secs.len() - i,
    {
        let s = &secs[i];
        let code = chars_of(s.seccion.codigo.as_str());
        let nm = normalize_name_chars(&chars_of(s.seccion.nombre.as_str()));
        let mut keep = !in_strs_exec(&params.ramos_pasados, &chars_of(s.seccion.codigo_box.as_str()));
        if keep {
            keep = match find_eq(&codes, &code) {
                Some(k) => match ramos[k].semestre { Some(sv) => sv <= limit, None => true },
                None => match find_eq(&names, &nm) {
                    Some(k) => match ramos[k].semestre { Some(sv) => sv <= limit, None => true },
                    None => s.is_cfg,
                },
            };
        }
        if keep && !s.is_cfg {
            let found = match find_eq(&ups, &to_upper(&code)) {
                Some(k) => Some(k),
                None => find_eq(&names, &nm),
            };
            keep = match found {
                Some(k) => {
                    let id = ramos[k].id;
                    let mut v = false;
                    let mut q: usize = 0;
                    while q < viable_ids.len()
                        invariant
                            q <= viable_ids.len(),
                            v == exists|t: int| 0 <= t < q && viable_ids@[t] == id,
                        decreases viable_ids.len() - q,
                    {
                        if viable_ids[q] == id {
                            v = true;
                        }
                        q = q + 1;
                    }
                    proof {
                        if v {
                            let t = choose|t: int| 0 <= t < viable_ids.len() && viable_ids@[t] == id;
                            assert(viable_in(ramos@, pas, viable_ids@[t], ramos.len() as int));
                        } else if viable_id(ramos@, pas, id) {
                            let j = choose|j: int| 0 <= j < ramos.len() && j < ramos.len() && (#[trigger] ramos@[j]).id == id
                                && viable_course(ramos@[j], ramos@, uppers_of(ramos@), passed_uppers(pas));
                            assert(viable_ids@.contains(ramos@[j].id));
                        }
                    }
                    v
                },
                None => false,
            };
        }
        assert(keep == sealed(secs@[i as int], ramos@, pas));
        if keep {
            out.push(i);
        }
        i = i + 1;
    }
    out
}

/// The group of a timetable in the exhaustive search's answer: six sections, five,
/// or another number.
pub open spec fn size_group(len: int) -> int {
    if len == 6 { 0 } else if len == 5 { 1 } else { 2 }
}

proof fn lemma_enum_gathered(fsecs: Seq<SeccionPlan>, ramos: Seq<RamoDisponible>, adj: Seq<Vec<bool>>, params: PlanParams,
    min: int, max: int, gmax: int, sol: Seq<(Seccion, i32)>, score: i64)
    requires
        enumerated(fsecs, ramos, adj, params, min, max, sol, score),
        1 <= min,
        max <= gmax,
        forall|x: int, y: int| 0 <= x < fsecs.len() && 0 <= y < fsecs.len() && #[trigger] adj[x]@[y]
            ==> compatible(fsecs[x].seccion, fsecs[y].seccion),
    ensures
        gathered(fsecs, ramos, params, gmax, sol, score),
{
    let idx = choose|idx: Seq<usize>| #[trigger] enum_drawn(fsecs, ramos, adj, sol, idx);
    assert forall|a: int, b: int| 0 <= a < idx.len() && 0 <= b < idx.len() && a != b
        implies compatible(fsecs[#[trigger] idx[a] as int].seccion, fsecs[#[trigger] idx[b] as int].seccion) by {
        assert(idx[a] < fsecs.len() && idx[b] < fsecs.len());
        if a < b {
            assert(adj[idx[a] as int]@[idx[b] as int]);
        } else {
            assert(adj[idx[b] as int]@[idx[a] as int]);
            lemma_compatible_symmetric(fsecs[idx[b] as int].seccion, fsecs[idx[a] as int].seccion);
        }
    }
    assert(gathered_from(fsecs, ramos, sol, idx));
}

/// The timetables and keys after moving the timetables of `from`, in order, into
/// `into`: one whose box codes are among `keys` is skipped, a new one is added with its
/// key; the moving stops once `into` holds `cap` timetables.
pub open spec fn merged(
    into: Seq<(Vec<(Seccion, i32)>, i64)>,
    keys: Seq<Seq<Seq<char>>>,
    from: Seq<(Vec<(Seccion, i32)>, i64)>,
    cap: int,
) -> (Seq<(Vec<(Seccion, i32)>, i64)>, Seq<Seq<Seq<char>>>)
    decreases from.len(),
{
    if from.len() == 0 || into.len() >= cap {
        (into, keys)
    } else {
        let x = from[0];
        let k = box_key_of(x.0@);
        if keys.contains(k) {
            merged(into, keys, from.drop_first(), cap)
        } else {
            merged(into.push(x), keys.push(k), from.drop_first(), cap)
        }
    }
}

/// Moving timetables never drops one already there, and while there is room the first
/// one moved into an empty list with no keys is kept.
pub proof fn lemma_merged_grows(
    into: Seq<(Vec<(Seccion, i32)>, i64)>,
    keys: Seq<Seq<Seq<char>>>,
    from: Seq<(Vec<(Seccion, i32)>, i64)>,
    cap: int,
)
    ensures
        merged(into, keys, from, cap).0.len() >= into.len(),
        merged(into, keys, from, cap).0.subrange(0, into.len() as int) == into,
        into.len() == 0 && keys.len() == 0 && cap > 0 && from.len() > 0 ==> merged(into, keys, from, cap).0.len() > 0,
    decreases from.len(),
{
    if !(from.len() > 0 && into.len() < cap) {
        assert(into.subrange(0, into.len() as int) =~= into);
    }
    if from.len() > 0 && into.len() < cap {
        let x = from[0];
        let k = box_key_of(x.0@);
        if keys.contains(k) {
            lemma_merged_grows(into, keys, from.drop_first(), cap);
        } else {
            lemma_merged_grows(into.push(x), keys.push(k), from.drop_first(), cap);
            let m = merged(into.push(x), keys.push(k), from.drop_first(), cap).0;
            assert(m.subrange(0, into.len() as int) =~= m.subrange(0, (into.len() + 1) as int).subrange(0, into.len() as int));
            assert(into.push(x).subrange(0, into.len() as int) =~= into);
        }
    }
}

/// Timetables of pairwise different box codes, none among `keys`, all move when there
/// is room for them.
pub proof fn lemma_merged_all(
    into: Seq<(Vec<(Seccion, i32)>, i64)>,
    keys: Seq<Seq<Seq<char>>>,
    from: Seq<(Vec<(Seccion, i32)>, i64)>,
    cap: int,
)
    requires
        into.len() + from.len() <= cap,
        keys_distinct(from),
        forall|t: int| 0 <= t < from.len() ==> !keys.contains(box_key_of((#[trigger] from[t]).0@)),
    ensures
        merged(into, keys, from, cap).0 == into + from,
    decreases from.len(),
{
    if from.len() == 0 {
        assert(into + from =~= into);
    } else {
        let x = from[0];
        let k = box_key_of(x.0@);
        assert(!keys.contains(k));
        let rest = from.drop_first();
        assert forall|t: int, u: int| 0 <= t < u < rest.len() implies box_key_of((#[trigger] rest[t]).0@)
            != box_key_of((#[trigger] rest[u]).0@) by {
            assert(rest[t] == from[t + 1] && rest[u] == from[u + 1]);
        }
        assert forall|t: int| 0 <= t < rest.len() implies !keys.push(k).contains(box_key_of((#[trigger] rest[t]).0@)) by {
            assert(rest[t] == from[t + 1]);
            assert(box_key_of(from[0].0@) != box_key_of(from[t + 1].0@));
            if keys.push(k).contains(box_key_of(rest[t].0@)) {
                let q = choose|q: int| 0 <= q < keys.push(k).len() && keys.push(k)[q] == box_key_of(rest[t].0@);
                if q < keys.len() {
                    assert(keys[q] == box_key_of(from[t + 1].0@));
                    assert(!keys.contains(box_key_of(from[t + 1].0@)));
                }
            }
        }
        lemma_merged_all(into.push(x), keys.push(k), rest, cap);
        assert(into.push(x) + rest =~= into + from);
    }
}

/// Moving timetables into a list of pairwise different box codes, with `keys` holding
/// those codes, keeps the box codes pairwise different.
pub proof fn lemma_merged_distinct(
    into: Seq<(Vec<(Seccion, i32)>, i64)>,
    keys: Seq<Seq<Seq<char>>>,
    from: Seq<(Vec<(Seccion, i32)>, i64)>,
    cap: int,
)
    requires
        keys.len() == into.len(),
        forall|t: int| 0 <= t < keys.len() ==> #[trigger] keys[t] == box_key_of(into[t].0@),
        keys_distinct(into),
    ensures
        keys_distinct(merged(into, keys, from, cap).0),
    decreases from.len(),
{
    if from.len() > 0 && into.len() < cap {
        let x = from[0];
        let k = box_key_of(x.0@);
        if keys.contains(k) {
            lemma_merged_distinct(into, keys, from.drop_first(), cap);
        } else {
            let i2 = into.push(x);
            let k2 = keys.push(k);
            assert forall|t: int| 0 <= t < k2.len() implies #[trigger] k2[t] == box_key_of(i2[t].0@) by {
                if t < keys.len() {
                    assert(k2[t] == keys[t] && i2[t] == into[t]);
                }
            }
            assert forall|t: int, u: int| 0 <= t < u < i2.len() implies box_key_of((#[trigger] i2[t]).0@)
                != box_key_of((#[trigger] i2[u]).0@) by {
                if u < into.len() {
                    assert(i2[t] == into[t] && i2[u] == into[u]);
                } else {
                    assert(i2[t] == into[t]);
                    assert(keys[t] == box_key_of(into[t].0@));
                }
            }
            lemma_merged_distinct(i2, k2, from.drop_first(), cap);
        }
    }
}

/// Moves the timetables of `from` whose box codes are new into `into`, in order, while
/// `into` holds fewer than `cap`; the key of each one moved joins `keys`.
pub(crate) fn merge_new(
    into: &mut Vec<(Vec<(Seccion, i32)>, i64)>,
    keys: &mut Vec<Vec<Vec<char>>>,
    from: Vec<(Vec<(Seccion, i32)>, i64)>,
    cap: usize,
    pred: Ghost<spec_fn((Vec<(Seccion, i32)>, i64)) -> bool>,
)
    requires
        forall|t: int| 0 <= t < old(into).len() ==> pred@(#[trigger] old(into)@[t]),
        forall|t: int| 0 <= t < from.len() ==> pred@(#[trigger] from@[t]),
    ensures
        (final(into)@, final(keys).deep_view()) == merged(old(into)@, old(keys).deep_view(), from@, cap as int),
        forall|t: int| 0 <= t < final(into).len() ==> pred@(#[trigger] final(into)@[t]),
        final(into).len() >= old(into).len(),
{
    let ghost n0 = into.len();
    let ghost target = merged(into@, keys.deep_view(), from@, cap as int);
    let mut rest = from;
    while rest.len() > 0
        invariant
            into.len() >= n0,
            target == merged(into@, keys.deep_view(), rest@, cap as int),
            forall|t: int| 0 <= t < into.len() ==> pred@(#[trigger] into@[t]),
            forall|t: int| 0 <= t < rest.len() ==> pred@(#[trigger] rest@[t]),
        ensures
            into.len() >= n0,
            target == (into@, keys.deep_view()),
            forall|t: int| 0 <= t < into.len() ==> pred@(#[trigger] into@[t]),
        decreases rest.len(),
    {
        if into.len() >= cap {
            break;
        }
        let ghost before = rest@;
        assert(pred@(before[0]));
        let x = rest.remove(0);
        assert(rest@ =~= before.drop_first());
        assert forall|t: int| 0 <= t < rest.len() implies pred@(#[trigger] rest@[t]) by {
            assert(rest@[t] == before[t + 1]);
        }
        let key = box_key(&x.0);
        let ghost kd = keys.deep_view();
        if !key_seen(keys, &key) {
            proof {
                if kd.contains(key.deep_view()) {
                    let t = choose|t: int| 0 <= t < kd.len() && kd[t] == key.deep_view();
                    assert(keys@[t].deep_view() == key.deep_view());
                }
            }
            let ghost o = into@;
            let ghost kv = key.deep_view();
            into.push(x);
            keys.push(key);
            assert(keys.deep_view() =~= kd.push(kv));
            assert forall|t: int| 0 <= t < into.len() implies pred@(#[trigger] into@[t]) by {
                if t < o.len() {
                    assert(into@[t] == o[t]);
                }
            }
        } else {
            proof {
                let t = choose|t: int| 0 <= t < keys.len() && (#[trigger] keys@[t]).deep_view() == key.deep_view();
                assert(kd[t] == key.deep_view());
            }
        }
    }
    assert(target == (into@, keys.deep_view()));
}

/// All (up to `limit`) combinations of compatible sections, best first within size
/// groups. The sections drawn from are those of `sealed_positions`. First, each CFG
/// section seeds a timetable completed, in order, by the sections that are no CFG
/// sections, are compatible with every section taken so far and have a new
/// upper-cased code, up to
/// `max_size` sections (weights: the priority of the course found by upper-cased code;
/// 10 010 150 for a seed without one, 0 for another section without one). Then, while
/// fewer than half of `limit` exist, the enumerated cliques are added; when fewer than
/// fifty have six sections, the six-section cliques of an extended enumeration too.
/// Timetables with box codes seen before are skipped. The answer lists the
/// six-section timetables, then the five-section ones, then the rest, each group by
/// score.
pub fn get_all_clique_combinations_with_pert(
    secs: &[SeccionPlan],
    ramos: &[RamoDisponible],
    params: &PlanParams,
    max_size: usize,
    limit: usize,
) -> (r: Vec<(Vec<(Seccion, i32)>, i64)>)
    requires
        sem_limit(ramos@, params.ramos_pasados@) <= i32::MAX,
        codes_cut(secs@),
        enum_fits(secs@, *params),
        wishes_fit(*params, gathered_max(max_size as int)),
    ensures
        forall|t: int| 0 <= t < r.len() ==> gathered(secs@, ramos@, *params, gathered_max(max_size as int), (#[trigger] r@[t]).0@, r@[t].1),
        forall|t: int, u: int| 0 <= t < u < r.len() ==> size_group((#[trigger] r@[t]).0.len() as int)
            <= size_group((#[trigger] r@[u]).0.len() as int),
        forall|t: int, u: int| 0 <= t < u < r.len() && size_group((#[trigger] r@[t]).0.len() as int)
            == size_group((#[trigger] r@[u]).0.len() as int) ==> r@[t].1 >= r@[u].1,
        (exists|i: int| 0 <= i < secs.len() && (#[trigger] secs@[i]).is_cfg && sealed(secs@[i], ramos@, params.ramos_pasados@))
            ==> r.len() > 0,
        limit >= 2 && max_size > 0 && (exists|i: int| 0 <= i < secs.len() && sealed(#[trigger] secs@[i], ramos@,
            params.ramos_pasados@) && cumple_filtros(secs@[i], params.filtros)
            && strict_prereqs(secs@[i], ramos@, params.ramos_pasados@)) ==> r.len() > 0,
        limit >= 2 && max_size > 0 && r.len() < limit && !(exists|i: int| 0 <= i < secs.len() && (#[trigger] secs@[i]).is_cfg
            && sealed(secs@[i], ramos@, params.ramos_pasados@)) ==> forall|i: int| 0 <= i < secs.len()
            && sealed(#[trigger] secs@[i], ramos@, params.ramos_pasados@) && cumple_filtros(secs@[i], params.filtros)
            && strict_prereqs(secs@[i], ramos@, params.ramos_pasados@) ==> exists|t: int| 0 <= t < r.len()
            && box_key_of(r@[t].0@) == seq![secs@[i].seccion.codigo_box@],
        limit >= 2 && max_size > 0 && r.len() < limit && !(exists|i: int| 0 <= i < secs.len() && (#[trigger] secs@[i]).is_cfg
            && sealed(secs@[i], ramos@, params.ramos_pasados@)) ==> exists|order: Seq<usize>|
            covers(order, sealed_secs(secs@, ramos@, params.ramos_pasados@).len() as int) && forall|ext: Seq<usize>|
            #[trigger] subseq_from(order, 0, ext) && chain_ok(sealed_secs(secs@, ramos@, params.ramos_pasados@), ramos@,
            compat_of(sealed_secs(secs@, ramos@, params.ramos_pasados@)), *params, Seq::empty(), ext)
            && 1 <= ext.len() <= max_size ==> keys_of(r@).contains(
            positions_key(sealed_secs(secs@, ramos@, params.ramos_pasados@), ext)),
{
    let ghost gmax = gathered_max(max_size as int);
    let pos = sealed_positions(secs, ramos, params);
    let mut fsecs: Vec<SeccionPlan> = Vec::new();
    let mut k: usize = 0;
    while k < pos.len()
        invariant
            k <= pos.len(),
            forall|q: int| 0 <= q < pos.len() ==> #[trigger] pos@[q] < secs.len(),
            fsecs.len() == k,
            forall|i: int| 0 <= i < k ==> same_section((#[trigger] fsecs@[i]).seccion, secs@[pos@[i] as int].seccion)
                && fsecs@[i].seccion.horario@ == secs@[pos@[i] as int].seccion.horario@
                && fsecs@[i].is_cfg == secs@[pos@[i] as int].is_cfg,
        decreases pos.len() - k,
    {
        fsecs.push(copy_plan(&secs[pos[k]]));
        k = k + 1;
    }
    let ghost fv = fsecs@;
    let ghost has_cfg = exists|i: int| 0 <= i < secs.len() && (#[trigger] secs@[i]).is_cfg
        && sealed(secs@[i], ramos@, params.ramos_pasados@);
    let ghost has_plain = exists|i: int| 0 <= i < secs.len() && sealed(#[trigger] secs@[i], ramos@, params.ramos_pasados@)
        && cumple_filtros(secs@[i], params.filtros) && strict_prereqs(secs@[i], ramos@, params.ramos_pasados@);
    proof {
        if has_plain {
            let i = choose|i: int| 0 <= i < secs.len() && sealed(#[trigger] secs@[i], ramos@, params.ramos_pasados@)
                && cumple_filtros(secs@[i], params.filtros) && strict_prereqs(secs@[i], ramos@, params.ramos_pasados@);
            lemma_sealed_upto_has(secs@, ramos@, params.ramos_pasados@, secs.len() as int, i);
            let k = choose|k: int| 0 <= k < pos.len() && pos@[k] == i as usize;
            assert(same_section(fsecs@[k].seccion, secs@[i].seccion) && fsecs@[k].is_cfg == secs@[i].is_cfg);
            assert(cumple_filtros(fsecs@[k], params.filtros));
            assert(strict_prereqs(fsecs@[k], ramos@, params.ramos_pasados@));
        }
    }
    proof {
        if has_cfg {
            let i = choose|i: int| 0 <= i < secs.len() && (#[trigger] secs@[i]).is_cfg
                && sealed(secs@[i], ramos@, params.ramos_pasados@);
            lemma_sealed_upto_has(secs@, ramos@, params.ramos_pasados@, secs.len() as int, i);
            let k = choose|k: int| 0 <= k < pos.len() && pos@[k] == i as usize;
            assert(fsecs@[k].is_cfg);
        } else {
            assert forall|j: int| 0 <= j < fsecs.len() implies !(#[trigger] fsecs@[j]).is_cfg by {
                lemma_sealed_upto_sealed(secs@, ramos@, params.ramos_pasados@, secs.len() as int, j);
            }
        }
        assert(enum_fits(fv, *params)) by {
            assert forall|i: int| 0 <= i < fv.len() implies filters_fit((#[trigger] fv[i]).seccion, params.filtros) by {
                assert(filters_fit(secs@[pos@[i] as int].seccion, params.filtros));
            }
            assert forall|i: int, j: int| 0 <= i < fv.len() && 0 <= j < fv[i].seccion.horario@.len()
                implies range_fits((#[trigger] fv[i].seccion.horario@[j])@) by {
                assert(fv[i].seccion.horario@[j] == secs@[pos@[i] as int].seccion.horario@[j]);
            }
            if gap_filter(params.filtros) is Some {
                assert forall|i: int| 0 <= i < fv.len() implies timetable_fits(#[trigger] fv[i].seccion.horario@) by {
                    assert(timetable_fits(secs@[pos@[i] as int].seccion.horario@));
                }
            }
        }
    }
    let adj = pool_adjacency(secs, &pos);
    proof {
        assert forall|x: int, y: int| 0 <= x < fv.len() && 0 <= y < fv.len()
            implies #[trigger] adj@[x]@[y] == (x != y && compatible(fv[x].seccion, fv[y].seccion)) by {
            assert(pool_secs(secs@, pos@)[x] == secs@[pos@[x] as int]);
            assert(pool_secs(secs@, pos@)[y] == secs@[pos@[y] as int]);
            assert(same_section(fv[x].seccion, secs@[pos@[x] as int].seccion));
            assert(same_section(fv[y].seccion, secs@[pos@[y] as int].seccion));
        }
    }
    let (_codes, ups, _names) = course_forms(ramos);
    let n = fsecs.len();
    let mut fcodes: Vec<Vec<char>> = Vec::new();
    let mut z: usize = 0;
    while z < n
        invariant
            z <= n == fsecs.len(),
            fcodes.len() == z,
            forall|i: int| 0 <= i < z ==> (#[trigger] fcodes@[i])@ == upper_of(fsecs@[i].seccion.codigo@),
        decreases n - z,
    {
        fcodes.push(to_upper(&chars_of(fsecs[z].seccion.codigo.as_str())));
        z = z + 1;
    }
    let ghost pred_f = |x: (Vec<(Seccion, i32)>, i64)| gathered(fv, ramos@, *params, gmax, x.0@, x.1);
    let mut combos: Vec<(Vec<(Seccion, i32)>, i64)> = Vec::new();
    let mut keys: Vec<Vec<Vec<char>>> = Vec::new();
    let mut i: usize = 0;
    while i < n
        invariant
            i <= n == fsecs.len() == fcodes.len(),
            fv == fsecs@,
            adj.len() == n,
            forall|x: int| 0 <= x < n ==> (#[trigger] adj@[x]).len() == n,
            forall|x: int, y: int| 0 <= x < n && 0 <= y < n ==> #[trigger] adj@[x]@[y] == (x != y
                && compatible(fv[x].seccion, fv[y].seccion)),
            forall|x: int| 0 <= x < n ==> (#[trigger] fcodes@[x])@ == upper_of(fsecs@[x].seccion.codigo@),
            ups.deep_view() == uppers_of(ramos@),
            enum_fits(fv, *params),
            wishes_fit(*params, gathered_max(max_size as int)),
            gmax == gathered_max(max_size as int),
            pred_f == (|x: (Vec<(Seccion, i32)>, i64)| gathered(fv, ramos@, *params, gmax, x.0@, x.1)),
            forall|t: int| 0 <= t < combos.len() ==> pred_f(#[trigger] combos@[t]),
            keys.len() == combos.len(),
            (exists|j: int| 0 <= j < i && (#[trigger] fsecs@[j]).is_cfg) ==> combos.len() > 0,
            combos.len() > 0 ==> exists|j: int| 0 <= j < n && (#[trigger] fsecs@[j]).is_cfg,
        ensures
            n == fsecs.len(),
            fv == fsecs@,
            adj.len() == n,
            forall|x: int| 0 <= x < n ==> (#[trigger] adj@[x]).len() == n,
            forall|x: int, y: int| 0 <= x < n && 0 <= y < n ==> #[trigger] adj@[x]@[y] == (x != y
                && compatible(fv[x].seccion, fv[y].seccion)),
            enum_fits(fv, *params),
            wishes_fit(*params, gathered_max(max_size as int)),
            gmax == gathered_max(max_size as int),
            pred_f == (|x: (Vec<(Seccion, i32)>, i64)| gathered(fv, ramos@, *params, gmax, x.0@, x.1)),
            forall|t: int| 0 <= t < combos.len() ==> pred_f(#[trigger] combos@[t]),
            (exists|j: int| 0 <= j < n && (#[trigger] fsecs@[j]).is_cfg) ==> combos.len() > 0,
            keys.len() == combos.len(),
            combos.len() > 0 ==> exists|j: int| 0 <= j < n && (#[trigger] fsecs@[j]).is_cfg,
        decreases n - i,
    {
        if fsecs[i].is_cfg {
            let up = &fcodes[i];
            let seed_w: i32 = match find_eq(&ups, up) {
                Some(k) => {
                    proof {
                        crate::scoring::lemma_priority_bounds(ramos@[k as int], fsecs@[i as int].seccion.seccion@);
                    }
                    compute_priority(&ramos[k], &fsecs[i].seccion) as i32
                },
                None => 10_010_150,
            };
            let mut sol: Vec<(Seccion, i32)> = Vec::new();
            sol.push((fsecs[i].seccion.duplicate(), seed_w));
            let ghost mut gidx: Seq<usize> = seq![i];
            let mut members: Vec<usize> = Vec::new();
            members.push(i);
            let mut j: usize = 0;
            while j < n
                invariant
                    i < n == fsecs.len() == fcodes.len(),
                    j <= n,
                    fv == fsecs@,
                    adj.len() == n,
                    forall|x: int| 0 <= x < n ==> (#[trigger] adj@[x]).len() == n,
                    forall|x: int, y: int| 0 <= x < n && 0 <= y < n ==> #[trigger] adj@[x]@[y] == (x != y
                        && compatible(fv[x].seccion, fv[y].seccion)),
                    members@ == gidx,
                    forall|x: int| 0 <= x < n ==> (#[trigger] fcodes@[x])@ == upper_of(fsecs@[x].seccion.codigo@),
                    ups.deep_view() == uppers_of(ramos@),
                    1 <= sol.len(),
                    sol.len() <= (if max_size > 1 { max_size } else { 1 }),
                    gathered_from(fv, ramos@, sol@, gidx),
                    forall|a: int| 0 <= a < sol.len() ==> 0 <= (#[trigger] sol@[a]).1 <= 20_000_000,
                decreases n - j,
            {
                if j != i && !fsecs[j].is_cfg {
                    if sol.len() >= max_size {
                        break;
                    }
                    {
                        let mut dup_code = false;
                        let mut a: usize = 0;
                        while a < sol.len()
                            invariant
                                a <= sol.len() == gidx.len(),
                                j < n == fcodes.len() == fsecs.len(),
                                gathered_from(fv, ramos@, sol@, gidx),
                                fv == fsecs@,
                                members@ == gidx,
                                adj.len() == n,
                                forall|x: int| 0 <= x < n ==> (#[trigger] adj@[x]).len() == n,
                                forall|x: int, y: int| 0 <= x < n && 0 <= y < n ==> #[trigger] adj@[x]@[y] == (x != y
                                    && compatible(fv[x].seccion, fv[y].seccion)),
                                forall|x: int| 0 <= x < n ==> (#[trigger] fcodes@[x])@ == upper_of(fsecs@[x].seccion.codigo@),
                                !dup_code ==> forall|b: int| 0 <= b < a ==> upper_of(fv[gidx[b] as int].seccion.codigo@) != fcodes@[j as int]@
                                    && compatible(fv[gidx[b] as int].seccion, fv[j as int].seccion)
                                    && gidx[b] != j,
                            decreases sol.len() - a,
                        {
                            let c = to_upper(&chars_of(sol[a].0.codigo.as_str()));
                            assert(same_section(sol@[a as int].0, fv[gidx[a as int] as int].seccion));
                            let mb = members[a];
                            assert(mb < n);
                            if chars_eq(&c, &fcodes[j]) || !adj[mb][j] {
                                dup_code = true;
                            }
                            a = a + 1;
                        }
                        if !dup_code {
                            let w: i32 = match find_eq(&ups, &fcodes[j]) {
                                Some(k) => {
                                    proof {
                                        crate::scoring::lemma_priority_bounds(ramos@[k as int], fsecs@[j as int].seccion.seccion@);
                                    }
                                    compute_priority(&ramos[k], &fsecs[j].seccion) as i32
                                },
                                None => 0,
                            };
                            let ghost o = sol@;
                            let ghost og = gidx;
                            sol.push((fsecs[j].seccion.duplicate(), w));
                            members.push(j);
                            proof {
                                gidx = gidx.push(j);
                                assert forall|a: int, b: int| 0 <= a < gidx.len() && 0 <= b < gidx.len() && a != b
                                    implies upper_of(fv[#[trigger] gidx[a] as int].seccion.codigo@)
                                        != upper_of(fv[#[trigger] gidx[b] as int].seccion.codigo@)
                                        && compatible(fv[gidx[a] as int].seccion, fv[gidx[b] as int].seccion) by {
                                    if a < og.len() && b < og.len() {
                                        assert(gidx[a] == og[a] && gidx[b] == og[b]);
                                    } else if a < og.len() {
                                        assert(gidx[a] == og[a]);
                                    } else {
                                        assert(gidx[b] == og[b]);
                                        lemma_compatible_symmetric(fv[og[b] as int].seccion, fv[j as int].seccion);
                                    }
                                }
                                assert forall|a: int| 0 <= a < gidx.len() implies (#[trigger] gidx[a]) < fv.len()
                                    && same_section(sol@[a].0, fv[gidx[a] as int].seccion) by {
                                    if a < og.len() {
                                        assert(sol@[a] == o[a] && gidx[a] == og[a]);
                                    }
                                }
                            }
                        }
                    }
                }
                j = j + 1;
            }
            proof {
                assert(sol_ranges_fit(sol@)) by {
                    assert forall|kk: int, jj: int| 0 <= kk < sol.len() && 0 <= jj < sol@[kk].0.horario@.len()
                        implies range_fits((#[trigger] sol@[kk].0.horario@[jj])@) by {
                        assert(same_section(sol@[kk].0, fv[gidx[kk] as int].seccion));
                        assert(sol@[kk].0.horario@[jj] == fv[gidx[kk] as int].seccion.horario@[jj]);
                    }
                }
            }
            proof {
                assert(sol.len() <= gathered_max(max_size as int));
                assert(modifiers_fit(entries_sum(sol@), sol@, *params));
            }
            let total = entries_sum_exec(&sol);
            let score = apply_optimization_modifiers(total, &sol, params);
            let key = box_key(&sol);
            if !key_seen(&keys, &key) {
                let ghost o = combos@;
                assert(gathered_from(fv, ramos@, sol@, gidx));
                let ghost sv = sol@;
                combos.push((sol, score));
                keys.push(key);
                assert forall|t: int| 0 <= t < combos.len() implies pred_f(#[trigger] combos@[t]) by {
                    if t < o.len() {
                        assert(combos@[t] == o[t]);
                    } else {
                        assert(combos@[t].0@ == sv);
                    }
                }
            }
            assert(combos.len() > 0);
            assert(fsecs@[i as int].is_cfg);
            if combos.len() >= limit {
                break;
            }
        }
        i = i + 1;
    }
    proof {
        if !has_cfg {
            assert(combos.len() == 0);
        }
    }
    let ghost mut ext_all: Seq<(Vec<(Seccion, i32)>, i64)> = Seq::empty();
    if combos.len() < limit / 2 {
        let extras = enumerate_clique_combinations(&fsecs, &adj, ramos, params, max_size, limit);
        proof {
            assert forall|t: int| 0 <= t < extras.len() implies pred_f(#[trigger] extras@[t]) by {
                lemma_enum_gathered(fv, ramos@, adj@, *params, 1, max_size as int, gmax, extras@[t].0@, extras@[t].1);
            }
        }
        let ghost (c0, k0, e0) = (combos@, keys.deep_view(), extras@);
        merge_new(&mut combos, &mut keys, extras, limit, Ghost(pred_f));
        proof {
            lemma_merged_grows(c0, k0, e0, limit as int);
            ext_all = e0;
            if !has_cfg {
                assert(c0.len() == 0 && k0.len() == 0);
                lemma_merged_all(c0, k0, e0, limit as int);
                assert(c0 + e0 =~= e0);
            }
        }
    }
    assert(!has_cfg && limit >= 2 ==> combos@ == ext_all);
    assert(!has_cfg && limit >= 2 && ext_all.len() < limit ==> exists|order: Seq<usize>| covers(order, fv.len() as int)
        && forall|ext: Seq<usize>| #[trigger] subseq_from(order, 0, ext)
        && chain_ok(fv, ramos@, adj_of(adj@), *params, Seq::empty(), ext) && 1 <= ext.len() <= max_size
        ==> keys_of(ext_all).contains(positions_key(fv, ext)));
    assert(!has_cfg && limit >= 2 && max_size > 0 && ext_all.len() < limit ==> forall|k: int| 0 <= k < n
        && cumple_filtros(#[trigger] fsecs@[k], params.filtros) && strict_prereqs(fsecs@[k], ramos@, params.ramos_pasados@)
        ==> exists|t: int| 0 <= t < ext_all.len() && box_key_of(ext_all[t].0@) == seq![fsecs@[k].seccion.codigo_box@]);
    assert(has_cfg ==> combos.len() > 0);
    assert(has_plain && limit >= 2 && max_size > 0 ==> combos.len() > 0);
    let ghost total = combos.len();
    let ghost total_seq = combos@;
    let mut size6: Vec<(Vec<(Seccion, i32)>, i64)> = Vec::new();
    let mut size5: Vec<(Vec<(Seccion, i32)>, i64)> = Vec::new();
    let mut other: Vec<(Vec<(Seccion, i32)>, i64)> = Vec::new();
    let mut six_keys: Vec<Vec<Vec<char>>> = Vec::new();
    while combos.len() > 0
        invariant
            forall|t: int| 0 <= t < combos.len() ==> pred_f(#[trigger] combos@[t]),
            forall|t: int| 0 <= t < size6.len() ==> pred_f(#[trigger] size6@[t]) && size6@[t].0.len() == 6,
            forall|t: int| 0 <= t < size5.len() ==> pred_f(#[trigger] size5@[t]) && size5@[t].0.len() == 5,
            forall|t: int| 0 <= t < other.len() ==> pred_f(#[trigger] other@[t]) && other@[t].0.len() != 5
                && other@[t].0.len() != 6,
            combos.len() + size6.len() + size5.len() + other.len() == total,
            forall|y: (Vec<(Seccion, i32)>, i64)| #[trigger] total_seq.contains(y) ==> combos@.contains(y)
                || size6@.contains(y) || size5@.contains(y) || other@.contains(y),
        decreases combos.len(),
    {
        let ghost before = combos@;
        assert(pred_f(before[0]));
        let x = combos.remove(0);
        assert forall|t: int| 0 <= t < combos.len() implies pred_f(#[trigger] combos@[t]) by {
            assert(combos@[t] == before[t + 1]);
        }
        let ghost (o6, o5, oo) = (size6@, size5@, other@);
        let ghost xv = x;
        if x.0.len() == 6 {
            six_keys.push(box_key(&x.0));
            size6.push(x);
        } else if x.0.len() == 5 {
            size5.push(x);
        } else {
            other.push(x);
        }
        proof {
            assert(size6@.contains(xv) || size5@.contains(xv) || other@.contains(xv)) by {
                if xv.0.len() == 6 {
                    assert(size6@[size6.len() - 1] == xv);
                } else if xv.0.len() == 5 {
                    assert(size5@[size5.len() - 1] == xv);
                } else {
                    assert(other@[other.len() - 1] == xv);
                }
            }
            assert forall|y: (Vec<(Seccion, i32)>, i64)| #[trigger] total_seq.contains(y) implies combos@.contains(y)
                || size6@.contains(y) || size5@.contains(y) || other@.contains(y) by {
                if before.contains(y) {
                    let q = choose|q: int| 0 <= q < before.len() && before[q] == y;
                    if q > 0 {
                        assert(combos@[q - 1] == y);
                    }
                } else if o6.contains(y) {
                    let q = choose|q: int| 0 <= q < o6.len() && o6[q] == y;
                    assert(size6@[q] == y);
                } else if o5.contains(y) {
                    let q = choose|q: int| 0 <= q < o5.len() && o5[q] == y;
                    assert(size5@[q] == y);
                } else if oo.contains(y) {
                    let q = choose|q: int| 0 <= q < oo.len() && oo[q] == y;
                    assert(other@[q] == y);
                }
            }
        }
    }
    let ghost pre6 = size6@;
    if size6.len() < 50 {
        let ext = enumerate_clique_combinations_size_priority(&fsecs, &adj, ramos, params, 6, 6, 200_000);
        let ghost pred6 = |x: (Vec<(Seccion, i32)>, i64)| pred_f(x) && x.0.len() == 6;
        proof {
            assert forall|t: int| 0 <= t < ext.len() implies pred6(#[trigger] ext@[t]) by {
                lemma_enum_gathered(fv, ramos@, adj@, *params, 6, 6, gmax, ext@[t].0@, ext@[t].1);
            }
        }
        let ghost (s60, k60, x60) = (size6@, six_keys.deep_view(), ext@);
        merge_new(&mut size6, &mut six_keys, ext, usize::MAX, Ghost(pred6));
        proof {
            lemma_merged_grows(s60, k60, x60, usize::MAX as int);
        }
    }
    assert(size6.len() >= pre6.len());
    assert(size6@.subrange(0, pre6.len() as int) == pre6);
    let ghost pred_s = |x: (Vec<(Seccion, i32)>, i64)| gathered(secs@, ramos@, *params, gmax, x.0@, x.1);
    let ghost pred6s = |x: (Vec<(Seccion, i32)>, i64)| pred_s(x) && x.0.len() == 6;
    let ghost pred5s = |x: (Vec<(Seccion, i32)>, i64)| pred_s(x) && x.0.len() == 5;
    let ghost predos = |x: (Vec<(Seccion, i32)>, i64)| pred_s(x) && x.0.len() != 5 && x.0.len() != 6;
    proof {
        assert forall|t: int| 0 <= t < size6.len() implies pred6s(#[trigger] size6@[t]) by {
            lemma_gathered_transfer(secs@, fv, ramos@, pos@, *params, gmax, size6@[t].0@, size6@[t].1);
        }
        assert forall|t: int| 0 <= t < size5.len() implies pred5s(#[trigger] size5@[t]) by {
            lemma_gathered_transfer(secs@, fv, ramos@, pos@, *params, gmax, size5@[t].0@, size5@[t].1);
        }
        assert forall|t: int| 0 <= t < other.len() implies predos(#[trigger] other@[t]) by {
            lemma_gathered_transfer(secs@, fv, ramos@, pos@, *params, gmax, other@[t].0@, other@[t].1);
        }
    }
    let mut out = sort_by_score(size6, Ghost(pred6s));
    let mut s5 = sort_by_score(size5, Ghost(pred5s));
    let mut so = sort_by_score(other, Ghost(predos));
    let ghost (a6, a5, ao) = (out@, s5@, so@);
    out.append(&mut s5);
    out.append(&mut so);
    assert(out@ =~= a6 + a5 + ao);
    assert(out.len() >= total);
    assert forall|y: (Vec<(Seccion, i32)>, i64)| #[trigger] total_seq.contains(y) implies out@.contains(y) by {
        broadcast use vstd::seq_lib::group_to_multiset_ensures;
        if pre6.contains(y) {
            let q = choose|q: int| 0 <= q < pre6.len() && pre6[q] == y;
            assert(size6@.subrange(0, pre6.len() as int)[q] == y);
            assert(size6@[q] == y);
            assert(size6@.contains(y));
            assert(a6.to_multiset().count(y) > 0);
            let u = choose|u: int| 0 <= u < a6.len() && a6[u] == y;
            assert(out@[u] == y);
        } else if size5@.contains(y) {
            assert(a5.to_multiset().count(y) > 0);
            let u = choose|u: int| 0 <= u < a5.len() && a5[u] == y;
            assert(out@[a6.len() + u] == y);
        } else {
            assert(other@.contains(y));
            assert(ao.to_multiset().count(y) > 0);
            let u = choose|u: int| 0 <= u < ao.len() && ao[u] == y;
            assert(out@[a6.len() + a5.len() + u] == y);
        }
    }
    assert(has_cfg ==> out.len() > 0);
    assert(has_plain && limit >= 2 && max_size > 0 ==> out.len() > 0);
    assert forall|t: int| 0 <= t < out.len() implies gathered(secs@, ramos@, *params, gmax, (#[trigger] out@[t]).0@, out@[t].1) by {
        if t < a6.len() {
            assert(pred6s(a6[t]));
        } else if t < a6.len() + a5.len() {
            assert(pred5s(a5[t - a6.len()]));
        } else {
            assert(predos(ao[t - a6.len() - a5.len()]));
        }
    }
    assert forall|t: int, u: int| 0 <= t < u < out.len() implies size_group((#[trigger] out@[t]).0.len() as int)
        <= size_group((#[trigger] out@[u]).0.len() as int) && (size_group(out@[t].0.len() as int)
        == size_group(out@[u].0.len() as int) ==> out@[t].1 >= out@[u].1) by {
        let l6 = a6.len() as int;
        let l5 = a5.len() as int;
        if t < l6 {
            assert(pred6s(a6[t]));
            if u < l6 {
                assert(pred6s(a6[u]));
            } else if u < l6 + l5 {
                assert(pred5s(a5[u - l6]));
            } else {
                assert(predos(ao[u - l6 - l5]));
            }
        } else if t < l6 + l5 {
            assert(pred5s(a5[t - l6]));
            if u < l6 + l5 {
                assert(pred5s(a5[u - l6]));
            } else {
                assert(predos(ao[u - l6 - l5]));
            }
        } else {
            assert(predos(ao[t - l6 - l5]));
            assert(predos(ao[u - l6 - l5]));
        }
    }
    proof {
        if limit >= 2 && max_size > 0 && out.len() < limit && !has_cfg {
            assert(ext_all.len() < limit);
            assert forall|i: int| 0 <= i < secs.len() && sealed(#[trigger] secs@[i], ramos@, params.ramos_pasados@)
                && cumple_filtros(secs@[i], params.filtros) && strict_prereqs(secs@[i], ramos@, params.ramos_pasados@)
                implies exists|t: int| 0 <= t < out.len() && box_key_of(out@[t].0@) == seq![secs@[i].seccion.codigo_box@] by {
                lemma_sealed_upto_has(secs@, ramos@, params.ramos_pasados@, secs.len() as int, i);
                let k = choose|k: int| 0 <= k < pos.len() && pos@[k] == i as usize;
                assert(same_section(fsecs@[k].seccion, secs@[i].seccion) && fsecs@[k].is_cfg == secs@[i].is_cfg);
                assert(cumple_filtros(fsecs@[k], params.filtros));
                assert(strict_prereqs(fsecs@[k], ramos@, params.ramos_pasados@));
                let t = choose|t: int| 0 <= t < ext_all.len() && box_key_of(ext_all[t].0@) == seq![fsecs@[k].seccion.codigo_box@];
                assert(total_seq[t] == ext_all[t]);
                assert(total_seq.contains(ext_all[t]));
                assert(out@.contains(ext_all[t]));
                let u = choose|u: int| 0 <= u < out.len() && out@[u] == ext_all[t];
                assert(box_key_of(out@[u].0@) == seq![secs@[i].seccion.codigo_box@]);
            }
            let fs = sealed_secs(secs@, ramos@, params.ramos_pasados@);
            assert(fs == pool_secs(secs@, pos@));
            assert(fs.len() == fv.len());
            assert forall|k: int| 0 <= k < fs.len() implies same_section((#[trigger] fv[k]).seccion, fs[k].seccion)
                && fv[k].is_cfg == fs[k].is_cfg by {
                assert(fs[k] == secs@[pos@[k] as int]);
            }
            assert forall|x: int, y: int| 0 <= x < fs.len() && 0 <= y < fs.len()
                implies #[trigger] compat_of(fs)(x, y) == adj_of(adj@)(x, y) by {
                assert(adj@[x]@[y] == (x != y && compatible(pool_secs(secs@, pos@)[x].seccion, pool_secs(secs@, pos@)[y].seccion)));
            }
            let order = choose|order: Seq<usize>| covers(order, fv.len() as int)
                && forall|ext: Seq<usize>| #[trigger] subseq_from(order, 0, ext)
                && chain_ok(fv, ramos@, adj_of(adj@), *params, Seq::empty(), ext) && 1 <= ext.len() <= max_size
                ==> keys_of(ext_all).contains(positions_key(fv, ext));
            assert forall|ext: Seq<usize>| #[trigger] subseq_from(order, 0, ext)
                && chain_ok(fs, ramos@, compat_of(fs), *params, Seq::empty(), ext) && 1 <= ext.len() <= max_size
                implies keys_of(out@).contains(positions_key(fs, ext)) by {
                lemma_chain_transfer(fs, fv, ramos@, compat_of(fs), adj_of(adj@), *params, ext);
                let kk = positions_key(fs, ext);
                assert(keys_of(ext_all).contains(kk));
                let t = choose|t: int| 0 <= t < keys_of(ext_all).len() && keys_of(ext_all)[t] == kk;
                assert(total_seq[t] == ext_all[t]);
                assert(total_seq.contains(ext_all[t]));
                assert(out@.contains(ext_all[t]));
                let u = choose|u: int| 0 <= u < out.len() && out@[u] == ext_all[t];
                assert(keys_of(out@)[u] == kk);
            }
            assert(covers(order, fs.len() as int));
        }
    }
    out
}

/// A box-code key among some timetables is among any reordering of them.
proof fn lemma_key_in_reordered(s1: Seq<(Vec<(Seccion, i32)>, i64)>, s2: Seq<(Vec<(Seccion, i32)>, i64)>, k: Seq<Seq<char>>)
    requires
        s1.to_multiset() == s2.to_multiset(),
        keys_of(s1).contains(k),
    ensures
        keys_of(s2).contains(k),
{
    broadcast use vstd::seq_lib::group_to_multiset_ensures;
    let t = choose|t: int| 0 <= t < keys_of(s1).len() && keys_of(s1)[t] == k;
    assert(s1.contains(s1[t]));
    assert(s2.to_multiset().count(s1[t]) > 0);
    assert(s2.contains(s1[t]));
    let u = choose|u: int| 0 <= u < s2.len() && s2[u] == s1[t];
    assert(keys_of(s2)[u] == k);
}

/// The planner over all compatible combinations: up to fifty thousand timetables of
/// at most six sections from the exhaustive search, best score first; complete (see
/// `get_all_clique_combinations_with_pert`) when fewer than fifty thousand exist and
/// no CFG section is drawn from.
pub fn get_clique_with_user_prefs(secs: &[SeccionPlan], ramos: &[RamoDisponible], params: &PlanParams)
    -> (r: Vec<(Vec<(Seccion, i32)>, i64)>)
    requires
        sem_limit(ramos@, params.ramos_pasados@) <= i32::MAX,
        codes_cut(secs@),
        enum_fits(secs@, *params),
        wishes_fit(*params, 6),
    ensures
        forall|t: int| 0 <= t < r.len() ==> gathered(secs@, ramos@, *params, 6, (#[trigger] r@[t]).0@, r@[t].1),
        forall|t: int, u: int| 0 <= t < u < r.len() ==> (#[trigger] r@[t]).1 >= (#[trigger] r@[u]).1,
        (exists|i: int| 0 <= i < secs.len() && (#[trigger] secs@[i]).is_cfg && sealed(secs@[i], ramos@, params.ramos_pasados@))
            ==> r.len() > 0,
        (exists|i: int| 0 <= i < secs.len() && sealed(#[trigger] secs@[i], ramos@, params.ramos_pasados@)
            && cumple_filtros(secs@[i], params.filtros) && strict_prereqs(secs@[i], ramos@, params.ramos_pasados@)) ==> r.len() > 0,
        r.len() < 50_000 && !(exists|i: int| 0 <= i < secs.len() && (#[trigger] secs@[i]).is_cfg
            && sealed(secs@[i], ramos@, params.ramos_pasados@)) ==> exists|order: Seq<usize>|
            covers(order, sealed_secs(secs@, ramos@, params.ramos_pasados@).len() as int) && forall|ext: Seq<usize>|
            #[trigger] subseq_from(order, 0, ext) && chain_ok(sealed_secs(secs@, ramos@, params.ramos_pasados@), ramos@,
            compat_of(sealed_secs(secs@, ramos@, params.ramos_pasados@)), *params, Seq::empty(), ext)
            && 1 <= ext.len() <= 6 ==> keys_of(r@).contains(
            positions_key(sealed_secs(secs@, ramos@, params.ramos_pasados@), ext)),
{
    let all = get_all_clique_combinations_with_pert(secs, ramos, params, 6, 50_000);
    let ghost pred = |x: (Vec<(Seccion, i32)>, i64)| gathered(secs@, ramos@, *params, 6, x.0@, x.1);
    proof {
        assert forall|t: int| 0 <= t < all.len() implies #[trigger] pred(all@[t]) by {
            assert(gathered(secs@, ramos@, *params, gathered_max(6), all@[t].0@, all@[t].1));
        }
    }
    let ghost av = all@;
    let r = sort_by_score(all, Ghost(pred));
    proof {
        assert forall|t: int| 0 <= t < r.len() implies gathered(secs@, ramos@, *params, 6, (#[trigger] r@[t]).0@, r@[t].1) by {
            assert(pred(r@[t]));
        }
        let fs = sealed_secs(secs@, ramos@, params.ramos_pasados@);
        if r.len() < 50_000 && !(exists|i: int| 0 <= i < secs.len() && (#[trigger] secs@[i]).is_cfg
            && sealed(secs@[i], ramos@, params.ramos_pasados@)) {
            let order = choose|order: Seq<usize>| covers(order, fs.len() as int) && forall|ext: Seq<usize>|
                #[trigger] subseq_from(order, 0, ext) && chain_ok(fs, ramos@, compat_of(fs), *params, Seq::empty(), ext)
                && 1 <= ext.len() <= 6 ==> keys_of(av).contains(positions_key(fs, ext));
            assert forall|ext: Seq<usize>| #[trigger] subseq_from(order, 0, ext)
                && chain_ok(fs, ramos@, compat_of(fs), *params, Seq::empty(), ext) && 1 <= ext.len() <= 6
                implies keys_of(r@).contains(positions_key(fs, ext)) by {
                lemma_key_in_reordered(av, r@, positions_key(fs, ext));
            }
        }
    }
    r
}

/// Whether timetable `sol` lists the sections at positions `idx` of `secs`, led by a
/// CFG section, each adjacent in `adj` to every later one, of pairwise different
/// upper-cased codes, each weighted as a CFG-seeded timetable weighs it.
pub open spec fn seeded_from(
    secs: Seq<SeccionPlan>,
    ramos: Seq<RamoDisponible>,
    adj: Seq<Vec<bool>>,
    sol: Seq<(Seccion, i32)>,
    idx: Seq<usize>,
) -> bool {
    &&& idx.len() == sol.len() && idx.len() >= 1
    &&& idx[0] < secs.len() && secs[idx[0] as int].is_cfg
    &&& forall|a: int| 0 <= a < idx.len() ==> (#[trigger] idx[a]) < secs.len() && same_section(sol[a].0, secs[idx[a] as int].seccion)
        && sol[a].1 as int == upper_weight(ramos, secs[idx[a] as int])
    &&& forall|a: int, b: int| 0 <= a < b < idx.len() ==> adj[#[trigger] idx[a] as int]@[#[trigger] idx[b] as int]
    &&& forall|a: int, b: int| 0 <= a < idx.len() && 0 <= b < idx.len() && a != b
        ==> upper_of(secs[#[trigger] idx[a] as int].seccion.codigo@) != upper_of(secs[#[trigger] idx[b] as int].seccion.codigo@)
}

/// Whether `sol` with `score` is a CFG-seeded timetable of at most `max` sections (one
/// when `max` is 0), scored by its weights adjusted to the student's wishes.
pub open spec fn cfg_seeded(
    secs: Seq<SeccionPlan>,
    ramos: Seq<RamoDisponible>,
    adj: Seq<Vec<bool>>,
    params: PlanParams,
    max: int,
    sol: Seq<(Seccion, i32)>,
    score: i64,
) -> bool {
    &&& 1 <= sol.len() <= (if max > 1 { max } else { 1 })
    &&& score == modified_score(entries_sum(sol), sol, params)
    &&& exists|idx: Seq<usize>| #[trigger] seeded_from(secs, ramos, adj, sol, idx)
}

/// Timetables built around each CFG section in turn (while fewer than `limit` exist):
/// the seed, then its neighbours in `adj` by decreasing search priority (ties in
/// order), each taken when adjacent to every section taken and of a new upper-cased
/// code, up to `max_size` sections. Sections are weighted by the priority of the
/// course of the same upper-cased code (10 010 150 for a CFG section without one, else
/// 0) and the timetable scored by the student's wishes; timetables with box codes seen
/// before are skipped.
pub fn enumerate_cliques_with_cfg_priority(
    secs: &Vec<SeccionPlan>,
    adj: &Vec<Vec<bool>>,
    ramos: &[RamoDisponible],
    params: &PlanParams,
    max_size: usize,
    limit: usize,
) -> (r: Vec<(Vec<(Seccion, i32)>, i64)>)
    requires
        adj.len() == secs.len(),
        forall|x: int| 0 <= x < secs.len() ==> (#[trigger] adj@[x]).len() == secs.len(),
        ranges_fit_all(secs@),
        wishes_fit(*params, if max_size > 1 { max_size as int } else { 1 }),
    ensures
        r.len() <= limit,
        forall|t: int| 0 <= t < r.len() ==> cfg_seeded(secs@, ramos@, adj@, *params, max_size as int, (#[trigger] r@[t]).0@, r@[t].1),
        keys_distinct(r@),
        limit > 0 && (exists|i: int| 0 <= i < secs.len() && (#[trigger] secs@[i]).is_cfg) ==> r.len() > 0,
{
    let n = secs.len();
    let (lows, lnames) = crate::clique::lon_forms(ramos);
    let mut all_pos: Vec<usize> = Vec::new();
    let mut z: usize = 0;
    while z < n
        invariant
            z <= n == secs.len(),
            all_pos.len() == z,
            forall|q: int| 0 <= q < z ==> #[trigger] all_pos@[q] == q,
        decreases n - z,
    {
        all_pos.push(z);
        z = z + 1;
    }
    let pri = crate::clique::pool_priorities(secs.as_slice(), ramos, &all_pos, &lows, &lnames);
    let (_codes, ups, _names) = course_forms(ramos);
    let mut fcodes: Vec<Vec<char>> = Vec::new();
    let mut z: usize = 0;
    while z < n
        invariant
            z <= n == secs.len(),
            fcodes.len() == z,
            forall|q: int| 0 <= q < z ==> (#[trigger] fcodes@[q])@ == upper_of(secs@[q].seccion.codigo@),
        decreases n - z,
    {
        fcodes.push(to_upper(&chars_of(secs[z].seccion.codigo.as_str())));
        z = z + 1;
    }
    let mut results: Vec<(Vec<(Seccion, i32)>, i64)> = Vec::new();
    let mut keys: Vec<Vec<Vec<char>>> = Vec::new();
    let mut i: usize = 0;
    while i < n
        invariant
            i <= n == secs.len() == adj.len() == fcodes.len() == pri.len(),
            forall|x: int| 0 <= x < n ==> (#[trigger] adj@[x]).len() == n,
            forall|x: int| 0 <= x < n ==> (#[trigger] fcodes@[x])@ == upper_of(secs@[x].seccion.codigo@),
            ups.deep_view() == uppers_of(ramos@),
            ranges_fit_all(secs@),
            wishes_fit(*params, if max_size > 1 { max_size as int } else { 1 }),
            results.len() <= limit,
            forall|t: int| 0 <= t < results.len() ==> cfg_seeded(secs@, ramos@, adj@, *params, max_size as int,
                (#[trigger] results@[t]).0@, results@[t].1),
            keys.deep_view() == keys_of(results@),
            keys_distinct(results@),
            limit > 0 && (exists|j: int| 0 <= j < i && (#[trigger] secs@[j]).is_cfg) ==> results.len() > 0,
        ensures
            results.len() <= limit,
            forall|t: int| 0 <= t < results.len() ==> cfg_seeded(secs@, ramos@, adj@, *params, max_size as int,
                (#[trigger] results@[t]).0@, results@[t].1),
            keys_distinct(results@),
            limit > 0 && (exists|j: int| 0 <= j < n && (#[trigger] secs@[j]).is_cfg) ==> results.len() > 0,
        decreases n - i,
    {
        if secs[i].is_cfg {
            if results.len() >= limit {
                break;
            }
            // The neighbours of the seed, by decreasing priority, ties in order.
            let mut nbrs: Vec<usize> = Vec::new();
            let mut j: usize = 0;
            while j < n
                invariant
                    i < n == adj.len() == pri.len(),
                    forall|x: int| 0 <= x < n ==> (#[trigger] adj@[x]).len() == n,
                    j <= n,
                    forall|q: int| 0 <= q < nbrs.len() ==> #[trigger] nbrs@[q] < n && nbrs@[q] != i && adj@[i as int]@[nbrs@[q] as int],
                decreases n - j,
            {
                if j != i && adj[i][j] {
                    let mut p: usize = nbrs.len();
                    while p > 0 && pri[nbrs[p - 1]] < pri[j]
                        invariant
                            p <= nbrs.len(),
                            j < n,
                            pri.len() == n,
                            forall|q: int| 0 <= q < nbrs.len() ==> #[trigger] nbrs@[q] < n,
                        decreases p,
                    {
                        p = p - 1;
                    }
                    let ghost o = nbrs@;
                    nbrs.insert(p, j);
                    assert forall|q: int| 0 <= q < nbrs.len() implies #[trigger] nbrs@[q] < n && nbrs@[q] != i
                        && adj@[i as int]@[nbrs@[q] as int] by {
                        if q < p {
                            assert(nbrs@[q] == o[q]);
                        } else if q > p {
                            assert(nbrs@[q] == o[q - 1]);
                        }
                    }
                }
                j = j + 1;
            }
            // The seed and the neighbours taken.
            let mut cur: Vec<usize> = Vec::new();
            cur.push(i);
            let mut q: usize = 0;
            while q < nbrs.len()
                invariant
                    i < n == secs.len() == adj.len() == fcodes.len(),
                    forall|x: int| 0 <= x < n ==> (#[trigger] adj@[x]).len() == n,
                    forall|x: int| 0 <= x < n ==> (#[trigger] fcodes@[x])@ == upper_of(secs@[x].seccion.codigo@),
                    forall|x: int| 0 <= x < nbrs.len() ==> #[trigger] nbrs@[x] < n && nbrs@[x] != i && adj@[i as int]@[nbrs@[x] as int],
                    secs@[i as int].is_cfg,
                    1 <= cur.len() <= (if max_size > 1 { max_size as int } else { 1 }),
                    cur@[0] == i,
                    forall|x: int| 0 <= x < cur.len() ==> #[trigger] cur@[x] < n,
                    forall|a: int, b: int| 0 <= a < b < cur.len() ==> adj@[#[trigger] cur@[a] as int]@[#[trigger] cur@[b] as int],
                    forall|a: int, b: int| 0 <= a < cur.len() && 0 <= b < cur.len() && a != b
                        ==> upper_of(secs@[#[trigger] cur@[a] as int].seccion.codigo@)
                            != upper_of(secs@[#[trigger] cur@[b] as int].seccion.codigo@),
                decreases nbrs.len() - q,
            {
                if cur.len() >= max_size {
                    break;
                }
                let cand = nbrs[q];
                let mut ok = true;
                let mut a: usize = 0;
                while a < cur.len()
                    invariant
                        a <= cur.len(),
                        cand < n == adj.len() == fcodes.len() == secs.len(),
                        forall|x: int| 0 <= x < n ==> (#[trigger] adj@[x]).len() == n,
                        forall|x: int| 0 <= x < n ==> (#[trigger] fcodes@[x])@ == upper_of(secs@[x].seccion.codigo@),
                        forall|x: int| 0 <= x < cur.len() ==> #[trigger] cur@[x] < n,
                        ok ==> forall|b: int| 0 <= b < a ==> adj@[#[trigger] cur@[b] as int]@[cand as int]
                            && upper_of(secs@[cur@[b] as int].seccion.codigo@) != upper_of(secs@[cand as int].seccion.codigo@),
                    decreases cur.len() - a,
                {
                    if !adj[cur[a]][cand] || chars_eq(&fcodes[cur[a]], &fcodes[cand]) {
                        ok = false;
                    }
                    a = a + 1;
                }
                if ok {
                    let ghost o = cur@;
                    cur.push(cand);
                    assert forall|a: int, b: int| 0 <= a < b < cur.len() implies adj@[#[trigger] cur@[a] as int]@[#[trigger] cur@[b] as int] by {
                        if b < o.len() {
                            assert(cur@[a] == o[a] && cur@[b] == o[b]);
                        } else {
                            assert(cur@[a] == o[a]);
                        }
                    }
                    assert forall|a: int, b: int| 0 <= a < cur.len() && 0 <= b < cur.len() && a != b
                        implies upper_of(secs@[#[trigger] cur@[a] as int].seccion.codigo@)
                            != upper_of(secs@[#[trigger] cur@[b] as int].seccion.codigo@) by {
                        if a < o.len() && b < o.len() {
                            assert(cur@[a] == o[a] && cur@[b] == o[b]);
                        } else if a < o.len() {
                            assert(cur@[a] == o[a]);
                        } else {
                            assert(cur@[b] == o[b]);
                        }
                    }
                }
                q = q + 1;
            }
            // The timetable and its score.
            let mut sol: Vec<(Seccion, i32)> = Vec::new();
            let mut k: usize = 0;
            while k < cur.len()
                invariant
                    k <= cur.len(),
                    n == secs.len(),
                    forall|x: int| 0 <= x < cur.len() ==> #[trigger] cur@[x] < n,
                    forall|x: int| 0 <= x < n ==> (#[trigger] fcodes@[x])@ == upper_of(secs@[x].seccion.codigo@),
                    fcodes.len() == n,
                    ups.deep_view() == uppers_of(ramos@),
                    sol.len() == k,
                    forall|a: int| 0 <= a < k ==> same_section((#[trigger] sol@[a]).0, secs@[cur@[a] as int].seccion)
                        && sol@[a].1 as int == upper_weight(ramos@, secs@[cur@[a] as int])
                        && 0 <= sol@[a].1 <= 20_000_000,
                decreases cur.len() - k,
            {
                let ix = cur[k];
                let w: i32 = match find_eq(&ups, &fcodes[ix]) {
                    Some(kk) => {
                        proof {
                            crate::scoring::lemma_priority_bounds(ramos@[kk as int], secs@[ix as int].seccion.seccion@);
                        }
                        compute_priority(&ramos[kk], &secs[ix].seccion) as i32
                    },
                    None => if secs[ix].is_cfg { 10_010_150 } else { 0 },
                };
                sol.push((secs[ix].seccion.duplicate(), w));
                k = k + 1;
            }
            proof {
                assert(sol_ranges_fit(sol@)) by {
                    assert forall|kk: int, jj: int| 0 <= kk < sol.len() && 0 <= jj < sol@[kk].0.horario@.len()
                        implies range_fits((#[trigger] sol@[kk].0.horario@[jj])@) by {
                        assert(same_section(sol@[kk].0, secs@[cur@[kk] as int].seccion));
                        assert(sol@[kk].0.horario@[jj] == secs@[cur@[kk] as int].seccion.horario@[jj]);
                    }
                }
                assert(seeded_from(secs@, ramos@, adj@, sol@, cur@));
                assert(modifiers_fit(entries_sum(sol@), sol@, *params));
            }
            let total = entries_sum_exec(&sol);
            let score = apply_optimization_modifiers(total, &sol, params);
            let key = box_key(&sol);
            let seen_before = key_seen(&keys, &key);
            proof {
                if seen_before {
                    let t = choose|t: int| 0 <= t < keys.len() && (#[trigger] keys@[t]).deep_view() == key.deep_view();
                    assert(keys.deep_view()[t] == keys@[t].deep_view());
                }
            }
            if !seen_before {
                let ghost o = results@;
                let ghost sv = sol@;
                let ghost kd = keys.deep_view();
                let ghost ko = keys@;
                let ghost kv = key.deep_view();
                proof {
                    assert(kd.len() == keys.len());
                    assert(keys_of(o).len() == o.len());
                    assert(kv == box_key_of(sv));
                    assert forall|x: int| 0 <= x < o.len() implies box_key_of((#[trigger] o[x]).0@) != box_key_of(sv) by {
                        assert(keys_of(o)[x] == kd[x]);
                        assert(kd[x] == keys@[x].deep_view());
                    }
                }
                results.push((sol, score));
                keys.push(key);
                proof {
                    assert(keys.deep_view() =~= keys_of(results@)) by {
                        assert forall|x: int| 0 <= x < keys.len() implies keys.deep_view()[x] == keys_of(results@)[x] by {
                            if x < o.len() {
                                assert(results@[x] == o[x]);
                                assert(keys@[x] == ko[x]);
                                assert(keys.deep_view()[x] == kd[x]);
                            } else {
                                assert(results@[x].0@ == sv);
                                assert(keys.deep_view()[x] == kv);
                            }
                        }
                    }
                    assert forall|t: int, u: int| 0 <= t < u < results.len() implies box_key_of((#[trigger] results@[t]).0@)
                        != box_key_of((#[trigger] results@[u]).0@) by {
                        if u < o.len() {
                            assert(results@[t] == o[t] && results@[u] == o[u]);
                        } else {
                            assert(results@[t] == o[t]);
                            assert(results@[u].0@ == sv);
                        }
                    }
                }
                assert forall|t: int| 0 <= t < results.len() implies cfg_seeded(secs@, ramos@, adj@, *params, max_size as int,
                    (#[trigger] results@[t]).0@, results@[t].1) by {
                    if t < o.len() {
                        assert(results@[t] == o[t]);
                    } else {
                        assert(results@[t].0@ == sv);
                        assert(seeded_from(secs@, ramos@, adj@, sv, cur@));
                    }
                }
            }
            assert(keys.deep_view().len() == keys.len());
            assert(results.len() > 0);
        }
        proof {
            if limit > 0 && exists|j: int| 0 <= j < i + 1 && (#[trigger] secs@[j]).is_cfg {
                let j = choose|j: int| 0 <= j < i + 1 && (#[trigger] secs@[j]).is_cfg;
                if j < i {
                    assert(secs@[j].is_cfg);
                }
            }
        }
        i = i + 1;
    }
    results
}

} // verus!
