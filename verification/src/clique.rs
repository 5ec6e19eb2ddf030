//! The section planner with user preferences: time ranges of sections, the minimum
//! gap between two sections, and the greedy multi-seed clique search.
use vstd::prelude::*;
use crate::models::{RamoDisponible, Seccion, UserFilters};
use crate::horario::{hm_fits, hm_minutes, hora_hm, parse_hora};
use crate::datafiles::{norm_name, normalize_name_chars};
use crate::disponibles::starts_cfg;
use crate::plan_pool::{PlanParams, SeccionPlan, codes_of, course_forms, cumple_filtros, filters_fit, find_eq, first_eq, max_cfgs, not_cfg_at, plan_pool, pool_fits, pool_positions, prereqs_passed, seccion_cumple_filtros, upper_strings, in_strs_exec, sem_limit_exec, positions, reachable_at, sort_pos, prereq_ok_at, cumple_at, uppers_of, names_of, in_strs, sem_ok, sem_limit, reachable, lemma_pool_reachable};
use crate::plan_score::{apply_optimization_modifiers, modified_score, modifiers_fit, wishes_fit};
use crate::clique_all::{copy_plan, gathered, gathered_from, sealed, get_all_clique_combinations_with_pert, key_seen, lemma_gathered_transfer, lemma_merged_distinct, merge_new};
use crate::datafiles::base_course_key;
use crate::disponibles::{count_cfg_exec, pasados_forms};
use crate::scoring::share_entry;
use crate::scoring::{range_fits, requisitos_cumplidos, sol_ranges_fit};
use crate::rutacritica::clique::{compatible, cut7_ok, lemma_compatible_symmetric, prefix7, prefix7_opt};
use crate::scoring::{compute_priority, priority, sections_conflict};
use crate::selector::same_section;
use crate::text::{occurs, occurs_at, to_upper, upper_of};
use crate::text::{has_char, join_sep, join_tokens, lemma_chars_deep_view, lit, lower_of, replace_all, replace_chars, split_chars, split_on, split_words, string_from_chars, chars_of, chars_eq, to_lower, trim, trim_chars, words};

verus! {

/// Whether a token of a timetable entry belongs to its time part (holds `:` or `-`).
pub open spec fn is_time_tok(t: Seq<char>) -> bool {
    t.contains(':') || t.contains('-')
}

/// Day tokens (those before the first time token) and time tokens of an entry, read
/// left to right.
pub open spec fn day_time_toks(toks: Seq<Seq<char>>) -> (Seq<Seq<char>>, Seq<Seq<char>>)
    decreases toks.len(),
{
    if toks.len() == 0 {
        (Seq::empty(), Seq::empty())
    } else {
        let st = day_time_toks(toks.drop_last());
        let t = toks.last();
        if is_time_tok(t) {
            (st.0, st.1.push(t))
        } else if st.1.len() == 0 {
            (st.0.push(t), st.1)
        } else {
            st
        }
    }
}

/// The two sides of the time part of an entry, when it holds a `-`.
pub open spec fn time_sides(h: Seq<char>) -> Seq<Seq<char>> {
    let tj = join_sep(day_time_toks(words(replace_all(h, seq!['-', ' '], seq!['-']))).1, ' ');
    if tj.contains('-') {
        split_on(tj, '-')
    } else {
        Seq::empty()
    }
}

/// Whether reading the times of an entry stays within `i32` arithmetic.
pub open spec fn entry_fits(h: Seq<char>) -> bool {
    let p = time_sides(h);
    p.len() == 2 ==> hm_fits(hora_hm(trim(p[0]))) && hm_fits(hora_hm(trim(p[1])))
}

/// The (day in lower case, start, end) ranges of one timetable entry such as
/// `"LU MA JU 08:30 - 09:50"`: `"- "` is read as `"-"`, the words before the first word
/// holding `:` or `-` are days, the words holding `:` or `-` joined by spaces must split
/// at `-` into exactly two times.
pub open spec fn entry_ranges(h: Seq<char>) -> Seq<(Seq<char>, i32, i32)> {
    let dt = day_time_toks(words(replace_all(h, seq!['-', ' '], seq!['-'])));
    let p = time_sides(h);
    if dt.1.len() == 0 || dt.0.len() == 0 || p.len() != 2 {
        Seq::empty()
    } else {
        match (hm_minutes(hora_hm(trim(p[0]))), hm_minutes(hora_hm(trim(p[1])))) {
            (Some(a), Some(b)) => dt.0.map_values(|d: Seq<char>| (lower_of(d), a, b)),
            _ => Seq::empty(),
        }
    }
}

/// The ranges of all the entries of a timetable, entry by entry.
pub open spec fn timetable_ranges(hs: Seq<String>) -> Seq<(Seq<char>, i32, i32)>
    decreases hs.len(),
{
    if hs.len() == 0 {
        Seq::empty()
    } else {
        timetable_ranges(hs.drop_last()) + entry_ranges(hs.last()@)
    }
}

/// Whether every entry of a timetable can be read within `i32` arithmetic.
pub open spec fn timetable_fits(hs: Seq<String>) -> bool {
    forall|k: int| 0 <= k < hs.len() ==> entry_fits(#[trigger] hs[k]@)
}

/// Splits the tokens of an entry into day tokens and time tokens.
fn day_time_exec(toks: &Vec<Vec<char>>) -> (r: (Vec<Vec<char>>, Vec<Vec<char>>))
    ensures
        (r.0.deep_view(), r.1.deep_view()) == day_time_toks(toks.deep_view()),
{
    let mut days: Vec<Vec<char>> = Vec::new();
    let mut times: Vec<Vec<char>> = Vec::new();
    let mut i: usize = 0;
    while i < toks.len()
        invariant
            i <= toks.len(),
            (days.deep_view(), times.deep_view()) == day_time_toks(toks.deep_view().subrange(0, i as int)),
        decreases toks.len() - i,
    {
        let ghost pre = toks.deep_view().subrange(0, i as int);
        assert(toks.deep_view().subrange(0, i + 1).drop_last() =~= pre);
        proof {
            lemma_chars_deep_view(toks@[i as int]);
        }
        let t = &toks[i];
        let ghost tv = t@;
        assert(toks.deep_view().subrange(0, i + 1).last() == tv);
        if has_char(t, ':') || has_char(t, '-') {
            let ghost o = times.deep_view();
            times.push(t.clone());
            assert(times.deep_view() =~= o.push(tv));
        } else if times.len() == 0 {
            let ghost o = days.deep_view();
            days.push(t.clone());
            assert(days.deep_view() =~= o.push(tv));
        }
        i = i + 1;
    }
    assert(toks.deep_view().subrange(0, toks.len() as int) =~= toks.deep_view());
    (days, times)
}

/// The ranges of one entry.
fn entry_ranges_exec(h: &String, out: &mut Vec<(String, i32, i32)>)
    requires
        entry_fits(h@),
    ensures
        final(out).deep_view() == old(out).deep_view() + entry_ranges(h@),
{
    let dash_sp = lit("- ");
    let dash = lit("-");
    proof {
        reveal_strlit("- ");
        reveal_strlit("-");
    }
    assert(dash_sp@ =~= seq!['-', ' ']);
    assert(dash@ =~= seq!['-']);
    let norm = replace_chars(&chars_of(h.as_str()), &dash_sp, &dash);
    let toks = split_words(&norm);
    let (days, times) = day_time_exec(&toks);
    let ghost o = out.deep_view();
    if times.len() == 0 || days.len() == 0 {
        assert(entry_ranges(h@) =~= Seq::<(Seq<char>, i32, i32)>::empty());
        assert(out.deep_view() =~= o + entry_ranges(h@));
        return;
    }
    let tj = join_tokens(&times, 0, times.len(), ' ');
    assert(times.deep_view().subrange(0, times.len() as int) =~= times.deep_view());
    if !has_char(&tj, '-') {
        assert(entry_ranges(h@) =~= Seq::<(Seq<char>, i32, i32)>::empty());
        assert(out.deep_view() =~= o + entry_ranges(h@));
        return;
    }
    let parts = split_chars(&tj, '-');
    if parts.len() != 2 {
        assert(entry_ranges(h@) =~= Seq::<(Seq<char>, i32, i32)>::empty());
        assert(out.deep_view() =~= o + entry_ranges(h@));
        return;
    }
    proof {
        lemma_chars_deep_view(parts@[0]);
        lemma_chars_deep_view(parts@[1]);
    }
    let a0 = trim_chars(&parts[0]);
    let b0 = trim_chars(&parts[1]);
    let a = parse_hora(&a0);
    let b = parse_hora(&b0);
    match (a, b) {
        (Some(av), Some(bv)) => {
            let ghost dv = days.deep_view();
            let mut k: usize = 0;
            while k < days.len()
                invariant
                    k <= days.len(),
                    dv == days.deep_view(),
                    out.deep_view() == o + dv.subrange(0, k as int).map_values(|d: Seq<char>| (lower_of(d), av, bv)),
                decreases days.len() - k,
            {
                proof {
                    lemma_chars_deep_view(days@[k as int]);
                }
                let low = to_lower(&days[k]);
                let d = string_from_chars(&low);
                let ghost before = out.deep_view();
                out.push((d, av, bv));
                assert(out.deep_view() =~= before.push((lower_of(dv[k as int]), av, bv)));
                assert(dv.subrange(0, k + 1) =~= dv.subrange(0, k as int).push(dv[k as int]));
                k = k + 1;
                assert(out.deep_view() =~= o + dv.subrange(0, k as int).map_values(
                    |d: Seq<char>| (lower_of(d), av, bv),
                ));
            }
            assert(dv.subrange(0, days.len() as int) =~= dv);
        },
        _ => {
            assert(entry_ranges(h@) =~= Seq::<(Seq<char>, i32, i32)>::empty());
            assert(out.deep_view() =~= o + entry_ranges(h@));
        },
    }
}

/// The (day in lower case, start, end) ranges of a section's timetable entries such as
/// `"LU MA JU 08:30 - 09:50"`; entries without days or without a readable range give
/// none.
pub fn seccion_time_ranges(horarios: &Vec<String>) -> (r: Vec<(String, i32, i32)>)
    requires
        timetable_fits(horarios@),
    ensures
        r.deep_view() == timetable_ranges(horarios@),
{
    let mut out: Vec<(String, i32, i32)> = Vec::new();
    let mut i: usize = 0;
    assert(out.deep_view() =~= timetable_ranges(horarios@.subrange(0, 0)));
    while i < horarios.len()
        invariant
            i <= horarios.len(),
            timetable_fits(horarios@),
            out.deep_view() == timetable_ranges(horarios@.subrange(0, i as int)),
        decreases horarios.len() - i,
    {
        assert(horarios@.subrange(0, i + 1).drop_last() =~= horarios@.subrange(0, i as int));
        assert(entry_fits(horarios@[i as int]@));
        entry_ranges_exec(&horarios[i], &mut out);
        i = i + 1;
    }
    assert(horarios@.subrange(0, horarios.len() as int) =~= horarios@);
    out
}

/// The distance in minutes between two ranges of a day (0 when they overlap).
pub open spec fn range_gap(s1: int, e1: int, s2: int, e2: int) -> int {
    if e1 <= s2 {
        s2 - e1
    } else if e2 <= s1 {
        s1 - e2
    } else {
        0
    }
}

/// Whether every two ranges of the same day, one of each list, lie at least `min`
/// minutes apart.
pub open spec fn ranges_apart(r1: Seq<(Seq<char>, i32, i32)>, r2: Seq<(Seq<char>, i32, i32)>, min: int) -> bool {
    forall|i: int, j: int|
        0 <= i < r1.len() && 0 <= j < r2.len() && (#[trigger] r1[i]).0 == (#[trigger] r2[j]).0
            ==> range_gap(r1[i].1 as int, r1[i].2 as int, r2[j].1 as int, r2[j].2 as int) >= min
}

/// Whether two sections leave at least `minutos_min` minutes between their classes of
/// the same day (overlapping classes are 0 minutes apart).
pub fn cumple_ventana_entre(se1: &Seccion, se2: &Seccion, minutos_min: i32) -> (r: bool)
    requires
        timetable_fits(se1.horario@),
        timetable_fits(se2.horario@),
    ensures
        r == ranges_apart(timetable_ranges(se1.horario@), timetable_ranges(se2.horario@), minutos_min as int),
{
    let r1 = seccion_time_ranges(&se1.horario);
    let r2 = seccion_time_ranges(&se2.horario);
    let ghost v1 = r1.deep_view();
    let ghost v2 = r2.deep_view();
    let mut i: usize = 0;
    while i < r1.len()
        invariant
            i <= r1.len(),
            v1 == r1.deep_view(),
            v2 == r2.deep_view(),
            v1 == timetable_ranges(se1.horario@),
            v2 == timetable_ranges(se2.horario@),
            forall|a: int, b: int|
                0 <= a < i && 0 <= b < v2.len() && (#[trigger] v1[a]).0 == (#[trigger] v2[b]).0
                    ==> range_gap(v1[a].1 as int, v1[a].2 as int, v2[b].1 as int, v2[b].2 as int) >= minutos_min,
        decreases r1.len() - i,
    {
        let mut j: usize = 0;
        while j < r2.len()
            invariant
                i < r1.len(),
                j <= r2.len(),
                v1 == r1.deep_view(),
                v2 == r2.deep_view(),
                v1 == timetable_ranges(se1.horario@),
                v2 == timetable_ranges(se2.horario@),
                forall|a: int, b: int|
                    0 <= a < i && 0 <= b < v2.len() && (#[trigger] v1[a]).0 == (#[trigger] v2[b]).0
                        ==> range_gap(v1[a].1 as int, v1[a].2 as int, v2[b].1 as int, v2[b].2 as int) >= minutos_min,
                forall|b: int|
                    0 <= b < j && v1[i as int].0 == (#[trigger] v2[b]).0
                        ==> range_gap(v1[i as int].1 as int, v1[i as int].2 as int, v2[b].1 as int, v2[b].2 as int) >= minutos_min,
            decreases r2.len() - j,
        {
            let (d1, s1, e1) = &r1[i];
            let (d2, s2, e2) = &r2[j];
            assert(v1[i as int] == (d1@, *s1, *e1));
            assert(v2[j as int] == (d2@, *s2, *e2));
            if chars_eq(&chars_of(d1.as_str()), &chars_of(d2.as_str())) {
                let s1v = *s1 as i64;
                let e1v = *e1 as i64;
                let s2v = *s2 as i64;
                let e2v = *e2 as i64;
                let gap: i64 = if e1v <= s2v { s2v - e1v } else if e2v <= s1v { s1v - e2v } else { 0 };
                if gap < minutos_min as i64 {
                    assert(v1[i as int].0 == v2[j as int].0);
                    assert(range_gap(v1[i as int].1 as int, v1[i as int].2 as int, v2[j as int].1 as int, v2[j as int].2 as int) == gap);
                    return false;
                }
            }
            j = j + 1;
        }
        i = i + 1;
    }
    true
}

/// Whether a course is the course of a section: same code in lower case (both codes
/// non-empty), or same normalised name.
pub open spec fn lon_hit(r: RamoDisponible, s: Seccion) -> bool {
    (r.codigo@.len() > 0 && s.codigo@.len() > 0 && lower_of(r.codigo@) == lower_of(s.codigo@))
        || norm_name(r.nombre@) == norm_name(s.nombre@)
}

/// Index of the first of `ramos[i..]` that is the course of section `s`.
pub open spec fn lon_match(ramos: Seq<RamoDisponible>, s: Seccion, i: int) -> Option<int>
    decreases ramos.len() - i,
{
    if i < 0 || i >= ramos.len() {
        None
    } else if lon_hit(ramos[i], s) {
        Some(i)
    } else {
        lon_match(ramos, s, i + 1)
    }
}

/// The priority of a section in the search: that of its course (found by lower-cased
/// code or name); without a course, 10 010 150 for a CFG section, 53 000 for an
/// elective one, else 0.
pub open spec fn plan_priority(ramos: Seq<RamoDisponible>, s: SeccionPlan) -> int {
    match lon_match(ramos, s.seccion, 0) {
        Some(k) => priority(ramos[k], s.seccion.seccion@),
        None => if s.is_cfg { 10_010_150 } else if s.is_electivo { 53_000 } else { 0 },
    }
}

/// The weight a section carries in a timetable: 10 010 150 for a CFG section, else the
/// priority of its course; a section of no course has none (and is left out).
pub open spec fn entry_weight(ramos: Seq<RamoDisponible>, s: SeccionPlan) -> Option<int> {
    if s.is_cfg {
        Some(10_010_150)
    } else {
        match lon_match(ramos, s.seccion, 0) {
            Some(k) => Some(priority(ramos[k], s.seccion.seccion@)),
            None => None,
        }
    }
}

proof fn lemma_lon_match(ramos: Seq<RamoDisponible>, s: Seccion, i: int)
    requires
        0 <= i,
    ensures
        match lon_match(ramos, s, i) {
            Some(k) => i <= k < ramos.len() && lon_hit(ramos[k], s),
            None => true,
        },
    decreases ramos.len() - i,
{
    if i < ramos.len() && !lon_hit(ramos[i], s) {
        lemma_lon_match(ramos, s, i + 1);
    }
}

/// The lower-cased codes and normalised names of the courses.
pub(crate) fn lon_forms(ramos: &[RamoDisponible]) -> (r: (Vec<Vec<char>>, Vec<Vec<char>>))
    ensures
        r.0.len() == ramos.len() && r.1.len() == ramos.len(),
        forall|k: int| 0 <= k < ramos.len() ==> (#[trigger] r.0@[k])@ == lower_of(ramos@[k].codigo@),
        forall|k: int| 0 <= k < ramos.len() ==> (#[trigger] r.1@[k])@ == norm_name(ramos@[k].nombre@),
{
    let mut lows: Vec<Vec<char>> = Vec::new();
    let mut names: Vec<Vec<char>> = Vec::new();
    let mut k: usize = 0;
    while k < ramos.len()
        invariant
            k <= ramos.len(),
            lows.len() == k && names.len() == k,
            forall|j: int| 0 <= j < k ==> (#[trigger] lows@[j])@ == lower_of(ramos@[j].codigo@),
            forall|j: int| 0 <= j < k ==> (#[trigger] names@[j])@ == norm_name(ramos@[j].nombre@),
        decreases ramos.len() - k,
    {
        lows.push(to_lower(&chars_of(ramos[k].codigo.as_str())));
        names.push(normalize_name_chars(&chars_of(ramos[k].nombre.as_str())));
        k = k + 1;
    }
    (lows, names)
}

/// The course of a section, by lower-cased code or normalised name.
fn lon_find(ramos: &[RamoDisponible], lows: &Vec<Vec<char>>, names: &Vec<Vec<char>>, s: &Seccion) -> (r: Option<usize>)
    requires
        lows.len() == ramos.len() && names.len() == ramos.len(),
        forall|k: int| 0 <= k < ramos.len() ==> (#[trigger] lows@[k])@ == lower_of(ramos@[k].codigo@),
        forall|k: int| 0 <= k < ramos.len() ==> (#[trigger] names@[k])@ == norm_name(ramos@[k].nombre@),
    ensures
        match r {
            Some(k) => k < ramos.len() && lon_match(ramos@, *s, 0) == Some(k as int),
            None => lon_match(ramos@, *s, 0) is None,
        },
{
    let sl = to_lower(&chars_of(s.codigo.as_str()));
    let sn = normalize_name_chars(&chars_of(s.nombre.as_str()));
    let s_ne = s.codigo.as_str().unicode_len() > 0;
    let mut k: usize = 0;
    while k < ramos.len()
        invariant
            k <= ramos.len(),
            lows.len() == ramos.len() && names.len() == ramos.len(),
            forall|j: int| 0 <= j < ramos.len() ==> (#[trigger] lows@[j])@ == lower_of(ramos@[j].codigo@),
            forall|j: int| 0 <= j < ramos.len() ==> (#[trigger] names@[j])@ == norm_name(ramos@[j].nombre@),
            sl@ == lower_of(s.codigo@),
            sn@ == norm_name(s.nombre@),
            s_ne == (s.codigo@.len() > 0),
            lon_match(ramos@, *s, 0) == lon_match(ramos@, *s, k as int),
        decreases ramos.len() - k,
    {
        let r_ne = ramos[k].codigo.as_str().unicode_len() > 0;
        if (r_ne && s_ne && chars_eq(&lows[k], &sl)) || chars_eq(&names[k], &sn) {
            return Some(k);
        }
        k = k + 1;
    }
    None
}

/// The positions `pool` refer to, as sections.
pub open spec fn pool_secs(secs: Seq<SeccionPlan>, pool: Seq<usize>) -> Seq<SeccionPlan> {
    pool.map_values(|i: usize| secs[i as int])
}

/// The priority of every pool section.
pub(crate) fn pool_priorities(
    secs: &[SeccionPlan],
    ramos: &[RamoDisponible],
    pool: &Vec<usize>,
    lows: &Vec<Vec<char>>,
    names: &Vec<Vec<char>>,
) -> (r: Vec<i64>)
    requires
        forall|k: int| 0 <= k < pool.len() ==> #[trigger] pool@[k] < secs.len(),
        lows.len() == ramos.len() && names.len() == ramos.len(),
        forall|k: int| 0 <= k < ramos.len() ==> (#[trigger] lows@[k])@ == lower_of(ramos@[k].codigo@),
        forall|k: int| 0 <= k < ramos.len() ==> (#[trigger] names@[k])@ == norm_name(ramos@[k].nombre@),
    ensures
        r.len() == pool.len(),
        forall|i: int| 0 <= i < pool.len() ==> #[trigger] r@[i] == plan_priority(ramos@, pool_secs(secs@, pool@)[i]),
        forall|i: int| 0 <= i < pool.len() ==> 0 <= #[trigger] r@[i] <= 10_106_099,
{
    let mut out: Vec<i64> = Vec::new();
    let mut i: usize = 0;
    while i < pool.len()
        invariant
            i <= pool.len(),
            forall|k: int| 0 <= k < pool.len() ==> #[trigger] pool@[k] < secs.len(),
            lows.len() == ramos.len() && names.len() == ramos.len(),
            forall|k: int| 0 <= k < ramos.len() ==> (#[trigger] lows@[k])@ == lower_of(ramos@[k].codigo@),
            forall|k: int| 0 <= k < ramos.len() ==> (#[trigger] names@[k])@ == norm_name(ramos@[k].nombre@),
            out.len() == i,
            forall|j: int| 0 <= j < i ==> #[trigger] out@[j] == plan_priority(ramos@, pool_secs(secs@, pool@)[j]),
            forall|j: int| 0 <= j < i ==> 0 <= #[trigger] out@[j] <= 10_106_099,
        decreases pool.len() - i,
    {
        let s = &secs[pool[i]];
        let p: i64 = match lon_find(ramos, lows, names, &s.seccion) {
            Some(k) => {
                proof {
                    crate::scoring::lemma_priority_bounds(ramos@[k as int], s.seccion.seccion@);
                }
                compute_priority(&ramos[k], &s.seccion)
            },
            None => if s.is_cfg { 10_010_150 } else if s.is_electivo { 53_000 } else { 0 },
        };
        out.push(p);
        i = i + 1;
    }
    out
}

/// Whether two sections may be taken together (see `compatible`).
fn compatible_exec(a: &Seccion, b: &Seccion, pa: &Vec<char>, pb: &Vec<char>) -> (r: bool)
    requires
        pa@ == prefix7(a.codigo@),
        pb@ == prefix7(b.codigo@),
    ensures
        r == compatible(*a, *b),
{
    !chars_eq(&chars_of(a.codigo_box.as_str()), &chars_of(b.codigo_box.as_str())) && !chars_eq(pa, pb)
        && !sections_conflict(a, b)
}

/// Whether every code of the sections can be cut at its seventh byte.
pub open spec fn codes_cut(secs: Seq<SeccionPlan>) -> bool {
    forall|i: int| 0 <= i < secs.len() ==> cut7_ok((#[trigger] secs[i]).seccion.codigo@)
}

/// The compatibility matrix of the pool sections: `r[i][j]` when `i != j` and the two
/// sections may be taken together.
pub(crate) fn pool_adjacency(secs: &[SeccionPlan], pool: &Vec<usize>) -> (r: Vec<Vec<bool>>)
    requires
        forall|k: int| 0 <= k < pool.len() ==> #[trigger] pool@[k] < secs.len(),
        codes_cut(secs@),
    ensures
        r.len() == pool.len(),
        forall|i: int| 0 <= i < pool.len() ==> (#[trigger] r@[i]).len() == pool.len(),
        forall|i: int, j: int| 0 <= i < pool.len() && 0 <= j < pool.len() ==> (#[trigger] r@[i]@[j] == (i != j
            && compatible(pool_secs(secs@, pool@)[i].seccion, pool_secs(secs@, pool@)[j].seccion))),
{
    let ghost ps = pool_secs(secs@, pool@);
    let mut prefixes: Vec<Vec<char>> = Vec::new();
    let mut k: usize = 0;
    while k < pool.len()
        invariant
            k <= pool.len(),
            ps == pool_secs(secs@, pool@),
            forall|q: int| 0 <= q < pool.len() ==> #[trigger] pool@[q] < secs.len(),
            codes_cut(secs@),
            prefixes.len() == k,
            forall|q: int| 0 <= q < k ==> (#[trigger] prefixes@[q])@ == prefix7(ps[q].seccion.codigo@),
        decreases pool.len() - k,
    {
        assert(cut7_ok(secs@[pool@[k as int] as int].seccion.codigo@));
        let p = match prefix7_opt(secs[pool[k]].seccion.codigo.as_str()) {
            Some(p) => p,
            None => {
                assert(false);
                Vec::new()
            },
        };
        prefixes.push(p);
        k = k + 1;
    }
    let mut adj: Vec<Vec<bool>> = Vec::new();
    let mut i: usize = 0;
    while i < pool.len()
        invariant
            i <= pool.len(),
            ps == pool_secs(secs@, pool@),
            forall|q: int| 0 <= q < pool.len() ==> #[trigger] pool@[q] < secs.len(),
            prefixes.len() == pool.len(),
            forall|q: int| 0 <= q < pool.len() ==> (#[trigger] prefixes@[q])@ == prefix7(ps[q].seccion.codigo@),
            adj.len() == i,
            forall|a: int| 0 <= a < i ==> (#[trigger] adj@[a]).len() == pool.len(),
            forall|a: int, b: int| 0 <= a < i && 0 <= b < pool.len() ==> (#[trigger] adj@[a]@[b] == (a != b
                && compatible(ps[a].seccion, ps[b].seccion))),
        decreases pool.len() - i,
    {
        let mut row: Vec<bool> = Vec::new();
        let mut j: usize = 0;
        while j < pool.len()
            invariant
                i < pool.len(),
                j <= pool.len(),
                ps == pool_secs(secs@, pool@),
                forall|q: int| 0 <= q < pool.len() ==> #[trigger] pool@[q] < secs.len(),
                prefixes.len() == pool.len(),
                forall|q: int| 0 <= q < pool.len() ==> (#[trigger] prefixes@[q])@ == prefix7(ps[q].seccion.codigo@),
                row.len() == j,
                forall|b: int| 0 <= b < j ==> (#[trigger] row@[b]) == (i != b && compatible(ps[i as int].seccion, ps[b].seccion)),
            decreases pool.len() - j,
        {
            let c = if i == j {
                false
            } else {
                compatible_exec(&secs[pool[i]].seccion, &secs[pool[j]].seccion, &prefixes[i], &prefixes[j])
            };
            row.push(c);
            j = j + 1;
        }
        adj.push(row);
        i = i + 1;
    }
    adj
}

/// How many of the positions `c` hold a flag.
pub open spec fn flag_count(flags: Seq<bool>, c: Seq<usize>) -> int
    decreases c.len(),
{
    if c.len() == 0 {
        0
    } else {
        flag_count(flags, c.drop_last()) + if flags[c.last() as int] { 1int } else { 0int }
    }
}

/// Whether the positions `c` are pairwise adjacent in `adj` and hold pairwise
/// different codes.
pub open spec fn pairwise_ok(adj: Seq<Vec<bool>>, codes: Seq<Vec<char>>, c: Seq<usize>) -> bool {
    forall|a: int, b: int| 0 <= a < c.len() && 0 <= b < c.len() && a != b
        ==> adj[#[trigger] c[a] as int]@[#[trigger] c[b] as int] && codes[c[a] as int]@ != codes[c[b] as int]@
}

/// Grows a clique from `seed` greedily, trying the positions in `order` (the seed's own
/// entry skipped): a position is added while the clique has fewer than six members
/// when it is still available, keeps the CFG count within `maxc`, passes the filters,
/// is adjacent to every member, has a code no member has, passes the elective check,
/// and does not pair with a member of the same base course but another section.
fn grow_clique(
    seed: usize,
    order: &Vec<usize>,
    remaining: &Vec<bool>,
    adj: &Vec<Vec<bool>>,
    codes: &Vec<Vec<char>>,
    cfgc: &Vec<bool>,
    fil: &Vec<bool>,
    el_ok: &Vec<bool>,
    bkeys: &Vec<Vec<char>>,
    secc: &Vec<Vec<char>>,
    maxc: usize,
) -> (r: Vec<usize>)
    requires
        seed < adj.len(),
        remaining.len() == adj.len() && codes.len() == adj.len() && cfgc.len() == adj.len() && fil.len() == adj.len()
            && el_ok.len() == adj.len() && bkeys.len() == adj.len() && secc.len() == adj.len(),
        forall|i: int| 0 <= i < adj.len() ==> (#[trigger] adj@[i]).len() == adj.len(),
        forall|i: int| 0 <= i < adj.len() ==> !(#[trigger] adj@[i])@[i],
        forall|i: int, j: int| 0 <= i < adj.len() && 0 <= j < adj.len() ==> (#[trigger] adj@[i]@[j]) == adj@[j]@[i],
        forall|k: int| 0 <= k < order.len() ==> #[trigger] order@[k] < adj.len(),
        cfgc@[seed as int] ==> maxc >= 1,
    ensures
        1 <= r.len() <= 6,
        r@[0] == seed,
        forall|k: int| 0 <= k < r.len() ==> #[trigger] r@[k] < adj.len(),
        pairwise_ok(adj@, codes@, r@),
        flag_count(cfgc@, r@) <= maxc,
{
    let mut clique: Vec<usize> = Vec::new();
    clique.push(seed);
    let mut ncfg: usize = if cfgc[seed] { 1 } else { 0 };
    assert(flag_count(cfgc@, clique@) == ncfg) by {
        assert(clique@.drop_last() =~= Seq::<usize>::empty());
        assert(clique@.last() == seed);
        assert(flag_count(cfgc@, Seq::<usize>::empty()) == 0);
    }
    let mut q: usize = 0;
    while q < order.len()
        invariant
            seed < adj.len(),
            remaining.len() == adj.len() && codes.len() == adj.len() && cfgc.len() == adj.len() && fil.len() == adj.len()
                && el_ok.len() == adj.len() && bkeys.len() == adj.len() && secc.len() == adj.len(),
            forall|i: int| 0 <= i < adj.len() ==> (#[trigger] adj@[i]).len() == adj.len(),
            forall|i: int| 0 <= i < adj.len() ==> !(#[trigger] adj@[i])@[i],
            forall|i: int, j: int| 0 <= i < adj.len() && 0 <= j < adj.len() ==> (#[trigger] adj@[i]@[j]) == adj@[j]@[i],
            forall|k: int| 0 <= k < order.len() ==> #[trigger] order@[k] < adj.len(),
            q <= order.len(),
            1 <= clique.len() <= 6,
            clique@[0] == seed,
            forall|k: int| 0 <= k < clique.len() ==> #[trigger] clique@[k] < adj.len(),
            pairwise_ok(adj@, codes@, clique@),
            ncfg == flag_count(cfgc@, clique@),
            ncfg <= maxc,
        decreases order.len() - q,
    {
        if clique.len() >= 6 {
            break;
        }
        let cand = order[q];
        q = q + 1;
        if cand == seed || !remaining[cand] {
            continue;
        }
        if cfgc[cand] && ncfg >= maxc {
            continue;
        }
        if !fil[cand] {
            continue;
        }
        let mut all_adj = true;
        let mut same_code = false;
        let mut k: usize = 0;
        while k < clique.len()
            invariant
                k <= clique.len(),
                cand < adj.len(),
                codes.len() == adj.len(),
                forall|i: int| 0 <= i < adj.len() ==> (#[trigger] adj@[i]).len() == adj.len(),
                forall|x: int| 0 <= x < clique.len() ==> #[trigger] clique@[x] < adj.len(),
                all_adj ==> forall|x: int| 0 <= x < k ==> adj@[#[trigger] clique@[x] as int]@[cand as int],
                !same_code ==> forall|x: int| 0 <= x < k ==> codes@[#[trigger] clique@[x] as int]@ != codes@[cand as int]@,
            decreases clique.len() - k,
        {
            let u = clique[k];
            if !adj[u][cand] {
                all_adj = false;
            }
            if chars_eq(&codes[u], &codes[cand]) {
                same_code = true;
            }
            k = k + 1;
        }
        if !all_adj || same_code {
            continue;
        }
        if !el_ok[cand] {
            continue;
        }
        let mut conflict = false;
        if bkeys[cand].len() > 0 {
            let mut k: usize = 0;
            while k < clique.len()
                invariant
                    k <= clique.len(),
                    cand < adj.len(),
                    bkeys.len() == adj.len() && secc.len() == adj.len(),
                    forall|x: int| 0 <= x < clique.len() ==> #[trigger] clique@[x] < adj.len(),
                decreases clique.len() - k,
            {
                let u = clique[k];
                if chars_eq(&bkeys[cand], &bkeys[u]) && !chars_eq(&secc[u], &secc[cand]) {
                    conflict = true;
                }
                k = k + 1;
            }
        }
        if !conflict {
            let ghost old_c = clique@;
            clique.push(cand);
            assert(clique@.drop_last() =~= old_c);
            if cfgc[cand] {
                ncfg = ncfg + 1;
            }
            assert(pairwise_ok(adj@, codes@, clique@)) by {
                assert forall|a: int, b: int| 0 <= a < clique@.len() && 0 <= b < clique@.len() && a != b implies
                    adj@[#[trigger] clique@[a] as int]@[#[trigger] clique@[b] as int]
                        && codes@[clique@[a] as int]@ != codes@[clique@[b] as int]@ by {
                    if a < old_c.len() && b < old_c.len() {
                        assert(clique@[a] == old_c[a] && clique@[b] == old_c[b]);
                    }
                }
            }
        }
    }
    clique
}

/// Whether a section counts against the CFG limit: a CFG section whose upper-cased
/// code starts with `CFG`.
pub open spec fn cfg_coded(s: SeccionPlan) -> bool {
    s.is_cfg && starts_cfg(upper_of(s.seccion.codigo@))
}

/// How many of the sections at positions `idx` count against the CFG limit.
pub open spec fn cfg_count(secs: Seq<SeccionPlan>, idx: Seq<usize>) -> int
    decreases idx.len(),
{
    if idx.len() == 0 {
        0
    } else {
        cfg_count(secs, idx.drop_last()) + if cfg_coded(secs[idx.last() as int]) { 1int } else { 0int }
    }
}

/// Whether the sections at positions `idx` are pairwise compatible and of pairwise
/// different upper-cased codes.
pub open spec fn mutually_ok(secs: Seq<SeccionPlan>, idx: Seq<usize>) -> bool {
    forall|a: int, b: int| 0 <= a < idx.len() && 0 <= b < idx.len() && a != b
        ==> compatible(secs[#[trigger] idx[a] as int].seccion, secs[#[trigger] idx[b] as int].seccion)
        && upper_of(secs[idx[a] as int].seccion.codigo@) != upper_of(secs[idx[b] as int].seccion.codigo@)
}

/// Whether timetable `sol` lists, with their weights, the sections at positions `idx`
/// of `secs`, which are pairwise compatible and of different courses.
pub open spec fn drawn(secs: Seq<SeccionPlan>, ramos: Seq<RamoDisponible>, sol: Seq<(Seccion, i32)>, idx: Seq<usize>) -> bool {
    &&& idx.len() == sol.len()
    &&& forall|a: int| 0 <= a < idx.len() ==> (#[trigger] idx[a]) < secs.len()
        && same_section(sol[a].0, secs[idx[a] as int].seccion)
        && entry_weight(ramos, secs[idx[a] as int]) == Some(sol[a].1 as int)
    &&& mutually_ok(secs, idx)
}

/// The timetable of a clique: each member with its weight, members without weight left
/// out.
fn clique_solution(
    secs: &[SeccionPlan],
    ramos: &[RamoDisponible],
    pool: &Vec<usize>,
    clique: &Vec<usize>,
    lows: &Vec<Vec<char>>,
    names: &Vec<Vec<char>>,
    adj: &Vec<Vec<bool>>,
    codes: &Vec<Vec<char>>,
    cfgc: &Vec<bool>,
) -> (r: (Vec<(Seccion, i32)>, Ghost<Seq<usize>>))
    requires
        forall|k: int| 0 <= k < pool.len() ==> #[trigger] pool@[k] < secs.len(),
        lows.len() == ramos.len() && names.len() == ramos.len(),
        forall|k: int| 0 <= k < ramos.len() ==> (#[trigger] lows@[k])@ == lower_of(ramos@[k].codigo@),
        forall|k: int| 0 <= k < ramos.len() ==> (#[trigger] names@[k])@ == norm_name(ramos@[k].nombre@),
        adj.len() == pool.len() && codes.len() == pool.len() && cfgc.len() == pool.len(),
        forall|i: int| 0 <= i < pool.len() ==> (#[trigger] adj@[i]).len() == pool.len(),
        forall|i: int, j: int| 0 <= i < pool.len() && 0 <= j < pool.len() ==> (#[trigger] adj@[i]@[j] == (i != j
            && compatible(pool_secs(secs@, pool@)[i].seccion, pool_secs(secs@, pool@)[j].seccion))),
        forall|i: int| 0 <= i < pool.len() ==> (#[trigger] codes@[i])@ == upper_of(pool_secs(secs@, pool@)[i].seccion.codigo@),
        forall|i: int| 0 <= i < pool.len() ==> #[trigger] cfgc@[i] == cfg_coded(pool_secs(secs@, pool@)[i]),
        clique.len() <= 6,
        forall|k: int| 0 <= k < clique.len() ==> #[trigger] clique@[k] < pool.len(),
        pairwise_ok(adj@, codes@, clique@),
    ensures
        drawn(secs@, ramos@, r.0@, r.1@),
        forall|a: int| 0 <= a < r.1@.len() ==> pool@.contains(#[trigger] r.1@[a]),
        cfg_count(secs@, r.1@) <= flag_count(cfgc@, clique@),
        r.0.len() <= clique.len(),
        clique.len() > 0 && entry_weight(ramos@, pool_secs(secs@, pool@)[clique@[0] as int]) is Some ==> r.0.len() > 0,
{
    let ghost ps = pool_secs(secs@, pool@);
    let mut sol: Vec<(Seccion, i32)> = Vec::new();
    let ghost mut gidx: Seq<usize> = Seq::empty();
    let ghost mut gsub: Seq<int> = Seq::empty();
    let mut j: usize = 0;
    while j < clique.len()
        invariant
            j <= clique.len() <= 6,
            ps == pool_secs(secs@, pool@),
            forall|k: int| 0 <= k < pool.len() ==> #[trigger] pool@[k] < secs.len(),
            lows.len() == ramos.len() && names.len() == ramos.len(),
            forall|k: int| 0 <= k < ramos.len() ==> (#[trigger] lows@[k])@ == lower_of(ramos@[k].codigo@),
            forall|k: int| 0 <= k < ramos.len() ==> (#[trigger] names@[k])@ == norm_name(ramos@[k].nombre@),
            cfgc.len() == pool.len(),
            forall|i: int| 0 <= i < pool.len() ==> #[trigger] cfgc@[i] == cfg_coded(ps[i]),
            forall|k: int| 0 <= k < clique.len() ==> #[trigger] clique@[k] < pool.len(),
            sol.len() == gidx.len() && gidx.len() == gsub.len(),
            sol.len() <= j,
            forall|a: int, b: int| 0 <= a < b < gsub.len() ==> gsub[a] < gsub[b],
            forall|a: int| 0 <= a < gsub.len() ==> 0 <= #[trigger] gsub[a] < j && gidx[a] == pool@[clique@[gsub[a]] as int],
            forall|a: int| 0 <= a < gidx.len() ==> (#[trigger] gidx[a]) < secs.len()
                && same_section(sol@[a].0, secs@[gidx[a] as int].seccion)
                && entry_weight(ramos@, secs@[gidx[a] as int]) == Some(sol@[a].1 as int),
            cfg_count(secs@, gidx) <= flag_count(cfgc@, clique@.take(j as int)),
            j > 0 && entry_weight(ramos@, ps[clique@[0] as int]) is Some ==> sol.len() > 0,
        decreases clique.len() - j,
    {
        let x = clique[j];
        let s = &secs[pool[x]];
        assert(ps[x as int] == secs@[pool@[x as int] as int]);
        let w: Option<i32> = if s.is_cfg {
            Some(10_010_150)
        } else {
            match lon_find(ramos, lows, names, &s.seccion) {
                Some(k) => {
                    proof {
                        crate::scoring::lemma_priority_bounds(ramos@[k as int], s.seccion.seccion@);
                    }
                    Some(compute_priority(&ramos[k], &s.seccion) as i32)
                },
                None => None,
            }
        };
        assert(clique@.take(j + 1).drop_last() =~= clique@.take(j as int));
        assert(clique@.take(j + 1).last() == x);
        match w {
            Some(wv) => {
                let ghost old_idx = gidx;
                sol.push((s.seccion.duplicate(), wv));
                proof {
                    gidx = gidx.push(pool@[x as int]);
                    gsub = gsub.push(j as int);
                    assert(gidx.drop_last() =~= old_idx);
                }
            },
            None => {},
        }
        j = j + 1;
    }
    assert(clique@.take(clique.len() as int) =~= clique@);
    assert(mutually_ok(secs@, gidx)) by {
        assert forall|a: int, b: int| 0 <= a < gidx.len() && 0 <= b < gidx.len() && a != b implies
            compatible(secs@[#[trigger] gidx[a] as int].seccion, secs@[#[trigger] gidx[b] as int].seccion)
            && upper_of(secs@[gidx[a] as int].seccion.codigo@) != upper_of(secs@[gidx[b] as int].seccion.codigo@) by {
            let ca = clique@[gsub[a]];
            let cb = clique@[gsub[b]];
            assert(gsub[a] != gsub[b]);
            assert(adj@[ca as int]@[cb as int] && codes@[ca as int]@ != codes@[cb as int]@);
            assert(ps[ca as int] == secs@[gidx[a] as int]);
            assert(ps[cb as int] == secs@[gidx[b] as int]);
        }
    }
    proof {
        assert forall|a: int| 0 <= a < gidx.len() implies pool@.contains(#[trigger] gidx[a]) by {
            let c = clique@[gsub[a]] as int;
            assert(0 <= c < pool.len());
            assert(pool@[c] == gidx[a]);
        }
    }
    (sol, Ghost(gidx))
}

/// Whether an elective section that is no CFG section has its prerequisites passed,
/// its course found by exact code (a section of no such course passes).
pub open spec fn elective_ok(s: SeccionPlan, ramos: Seq<RamoDisponible>, pasados: Seq<String>) -> bool {
    !s.is_cfg && s.is_electivo ==> match first_eq(codes_of(ramos), s.seccion.codigo@, 0) {
        Some(k) => prereqs_passed(ramos[k], ramos, pasados),
        None => true,
    }
}

/// Facts of each pool section that the search consults: upper-cased code, whether it
/// counts against the CFG limit, whether it passes the filters, whether it passes the
/// elective check, its base-course key and its section name.
fn pool_facts(secs: &[SeccionPlan], ramos: &[RamoDisponible], pool: &Vec<usize>, params: &PlanParams)
    -> (r: (Vec<Vec<char>>, Vec<bool>, Vec<bool>, Vec<bool>, Vec<Vec<char>>, Vec<Vec<char>>))
    requires
        forall|k: int| 0 <= k < pool.len() ==> #[trigger] pool@[k] < secs.len(),
        pool_fits(secs@, ramos@, *params),
    ensures
        r.0.len() == pool.len() && r.1.len() == pool.len() && r.2.len() == pool.len() && r.3.len() == pool.len()
            && r.4.len() == pool.len() && r.5.len() == pool.len(),
        forall|i: int| 0 <= i < pool.len() ==> (#[trigger] r.0@[i])@ == upper_of(pool_secs(secs@, pool@)[i].seccion.codigo@),
        forall|i: int| 0 <= i < pool.len() ==> #[trigger] r.1@[i] == cfg_coded(pool_secs(secs@, pool@)[i]),
        forall|i: int| 0 <= i < pool.len() ==> #[trigger] r.2@[i] == cumple_filtros(pool_secs(secs@, pool@)[i], params.filtros),
        forall|i: int| 0 <= i < pool.len() ==> #[trigger] r.3@[i] == elective_ok(pool_secs(secs@, pool@)[i], ramos@, params.ramos_pasados@),
{
    let ghost ps = pool_secs(secs@, pool@);
    let (rcodes, _ups, _names) = course_forms(ramos);
    let pups = upper_strings(&params.ramos_pasados);
    let cfg = lit("CFG");
    proof {
        reveal_strlit("CFG");
    }
    let mut codes: Vec<Vec<char>> = Vec::new();
    let mut cfgc: Vec<bool> = Vec::new();
    let mut fil: Vec<bool> = Vec::new();
    let mut el: Vec<bool> = Vec::new();
    let mut bkeys: Vec<Vec<char>> = Vec::new();
    let mut secc: Vec<Vec<char>> = Vec::new();
    let mut i: usize = 0;
    while i < pool.len()
        invariant
            i <= pool.len(),
            ps == pool_secs(secs@, pool@),
            forall|k: int| 0 <= k < pool.len() ==> #[trigger] pool@[k] < secs.len(),
            pool_fits(secs@, ramos@, *params),
            rcodes.deep_view() == codes_of(ramos@),
            pups.len() == params.ramos_pasados.len(),
            forall|k: int| 0 <= k < params.ramos_pasados.len() ==> (#[trigger] pups@[k])@ == upper_of(params.ramos_pasados@[k]@),
            cfg@ == "CFG"@,
            codes.len() == i && cfgc.len() == i && fil.len() == i && el.len() == i && bkeys.len() == i && secc.len() == i,
            forall|j: int| 0 <= j < i ==> (#[trigger] codes@[j])@ == upper_of(ps[j].seccion.codigo@),
            forall|j: int| 0 <= j < i ==> #[trigger] cfgc@[j] == cfg_coded(ps[j]),
            forall|j: int| 0 <= j < i ==> #[trigger] fil@[j] == cumple_filtros(ps[j], params.filtros),
            forall|j: int| 0 <= j < i ==> #[trigger] el@[j] == elective_ok(ps[j], ramos@, params.ramos_pasados@),
        decreases pool.len() - i,
    {
        let s = &secs[pool[i]];
        assert(ps[i as int] == secs@[pool@[i as int] as int]);
        let up = to_upper(&chars_of(s.seccion.codigo.as_str()));
        let starts = occurs_at(&up, &cfg, 0);
        assert(starts == starts_cfg(up@)) by {
            assert(starts_cfg(up@) == occurs(up@, "CFG"@, 0));
        }
        cfgc.push(s.is_cfg && starts);
        assert(filters_fit(secs@[pool@[i as int] as int].seccion, params.filtros));
        fil.push(seccion_cumple_filtros(s, &params.filtros));
        let e = if !s.is_cfg && s.is_electivo {
            match find_eq(&rcodes, &chars_of(s.seccion.codigo.as_str())) {
                Some(k) => {
                    proof {
                        crate::plan_pool::lemma_prereqs_upper(ramos@[k as int], ramos@, params.ramos_pasados@, pups@);
                    }
                    requisitos_cumplidos(&ramos[k], ramos, pups.as_slice())
                },
                None => true,
            }
        } else {
            true
        };
        el.push(e);
        bkeys.push(chars_of(base_course_key(s.seccion.nombre.as_str()).as_str()));
        secc.push(chars_of(s.seccion.seccion.as_str()));
        codes.push(up);
        i = i + 1;
    }
    (codes, cfgc, fil, el, bkeys, secc)
}

/// The pool positions ordered by priority, highest first, equal priorities by position.
fn priority_order(pri: &Vec<i64>) -> (r: Vec<usize>)
    ensures
        r.len() == pri.len(),
        forall|k: int| 0 <= k < r.len() ==> #[trigger] r@[k] < pri.len(),
        forall|j: usize| j < pri.len() ==> #[trigger] r@.contains(j),
{
    let mut out: Vec<usize> = Vec::new();
    let mut i: usize = 0;
    while i < pri.len()
        invariant
            i <= pri.len(),
            out.len() == i,
            forall|k: int| 0 <= k < out.len() ==> #[trigger] out@[k] < i,
            forall|j: usize| j < i ==> #[trigger] out@.contains(j),
        decreases pri.len() - i,
    {
        let mut p: usize = out.len();
        while p > 0 && pri[out[p - 1]] < pri[i]
            invariant
                p <= out.len(),
                out.len() == i,
                i < pri.len(),
                forall|k: int| 0 <= k < out.len() ==> #[trigger] out@[k] < i,
            decreases p,
        {
            p = p - 1;
        }
        let ghost o = out@;
        out.insert(p, i);
        assert forall|k: int| 0 <= k < out.len() implies #[trigger] out@[k] < i + 1 by {
            if k < p {
                assert(out@[k] == o[k]);
            } else if k > p {
                assert(out@[k] == o[k - 1]);
            }
        }
        assert forall|j: usize| j < i + 1 implies #[trigger] out@.contains(j) by {
            if j < i {
                assert(o.contains(j));
                let k = choose|k: int| 0 <= k < o.len() && o[k] == j;
                if k < p {
                    assert(out@[k] == o[k]);
                } else {
                    assert(out@[k + 1] == o[k]);
                }
            } else {
                assert(out@[p as int] == i);
            }
        }
        i = i + 1;
    }
    out
}

/// `b` inserted into `s` after every element that comes before it or equals it.
pub open spec fn insert_key(s: Seq<Seq<char>>, b: Seq<char>) -> Seq<Seq<char>>
    decreases s.len(),
{
    if s.len() == 0 {
        seq![b]
    } else if crate::selector::seq_le(s.last(), b) {
        s.push(b)
    } else {
        insert_key(s.drop_last(), b).push(s.last())
    }
}

/// The box codes of the first `k` sections of a timetable in ascending order (equal
/// codes in timetable order).
pub open spec fn box_key_upto(sol: Seq<(Seccion, i32)>, k: int) -> Seq<Seq<char>>
    decreases k,
{
    if k <= 0 || k > sol.len() {
        Seq::empty()
    } else {
        insert_key(box_key_upto(sol, k - 1), sol[k - 1].0.codigo_box@)
    }
}

/// The box codes of a timetable in ascending order: what tells timetables apart.
pub open spec fn box_key_of(sol: Seq<(Seccion, i32)>) -> Seq<Seq<char>> {
    box_key_upto(sol, sol.len() as int)
}

proof fn lemma_insert_key_at(s: Seq<Seq<char>>, b: Seq<char>, p: int)
    requires
        0 <= p <= s.len(),
        forall|q: int| p <= q < s.len() ==> !crate::selector::seq_le(#[trigger] s[q], b),
        p > 0 ==> crate::selector::seq_le(s[p - 1], b),
    ensures
        insert_key(s, b) == s.insert(p, b),
    decreases s.len(),
{
    if s.len() == 0 {
        assert(s.insert(p, b) =~= seq![b]);
    } else if crate::selector::seq_le(s.last(), b) {
        assert(p == s.len());
        assert(s.insert(p, b) =~= s.push(b));
    } else {
        lemma_insert_key_at(s.drop_last(), b, p);
        assert(s.drop_last().insert(p, b).push(s.last()) =~= s.insert(p, b));
    }
}

/// The box codes of a timetable in ascending order, to tell timetables apart.
pub(crate) fn box_key(sol: &Vec<(Seccion, i32)>) -> (r: Vec<Vec<char>>)
    ensures
        r.deep_view() == box_key_of(sol@),
{
    let mut out: Vec<Vec<char>> = Vec::new();
    let mut i: usize = 0;
    while i < sol.len()
        invariant
            i <= sol.len(),
            out.deep_view() == box_key_upto(sol@, i as int),
        decreases sol.len() - i,
    {
        let b = chars_of(sol[i].0.codigo_box.as_str());
        let ghost ov = out.deep_view();
        proof {
            assert forall|q: int| 0 <= q < out.len() implies #[trigger] ov[q] == out@[q]@ by {
                crate::text::lemma_chars_deep_view(out@[q]);
            }
        }
        let mut p: usize = out.len();
        while p > 0 && !crate::selector::chars_le(&out[p - 1], &b)
            invariant
                p <= out.len(),
                ov == out.deep_view(),
                forall|q: int| 0 <= q < out.len() ==> #[trigger] ov[q] == out@[q]@,
                forall|q: int| p <= q < out.len() ==> !crate::selector::seq_le(#[trigger] ov[q], b@),
            decreases p,
        {
            p = p - 1;
        }
        proof {
            lemma_insert_key_at(ov, b@, p as int);
        }
        let ghost bv = b@;
        out.insert(p, b);
        proof {
            crate::text::lemma_chars_deep_view(out@[p as int]);
            assert(out.deep_view() =~= ov.insert(p as int, bv));
        }
        i = i + 1;
    }
    out
}

/// Whether two keys are the same.
pub(crate) fn same_keys(a: &Vec<Vec<char>>, b: &Vec<Vec<char>>) -> (r: bool)
    ensures
        r == (a.deep_view() == b.deep_view()),
{
    if a.len() != b.len() {
        assert(a.deep_view().len() != b.deep_view().len());
        return false;
    }
    let mut i: usize = 0;
    while i < a.len()
        invariant
            i <= a.len() == b.len(),
            forall|j: int| 0 <= j < i ==> a.deep_view()[j] == b.deep_view()[j],
        decreases a.len() - i,
    {
        proof {
            crate::text::lemma_chars_deep_view(a@[i as int]);
            crate::text::lemma_chars_deep_view(b@[i as int]);
        }
        if !chars_eq(&a[i], &b[i]) {
            assert(a.deep_view()[i as int] != b.deep_view()[i as int]);
            return false;
        }
        i = i + 1;
    }
    assert(a.deep_view() =~= b.deep_view());
    true
}

fn any_true(v: &Vec<bool>) -> (r: bool)
    ensures
        r == exists|i: int| 0 <= i < v.len() && v@[i],
{
    let mut i: usize = 0;
    while i < v.len()
        invariant
            i <= v.len(),
            forall|j: int| 0 <= j < i ==> !v@[j],
        decreases v.len() - i,
    {
        if v[i] {
            return true;
        }
        i = i + 1;
    }
    false
}

/// The sum of the weights of a timetable.
pub open spec fn entries_sum(sol: Seq<(Seccion, i32)>) -> int
    decreases sol.len(),
{
    if sol.len() == 0 {
        0
    } else {
        entries_sum(sol.drop_last()) + sol.last().1
    }
}

/// A sum of weights in `0..=20 000 000` grows with each entry and stays within the
/// bound of its length.
proof fn lemma_entries_sum_prefix(sol: Seq<(Seccion, i32)>, i: int)
    requires
        0 <= i <= sol.len(),
        forall|a: int| 0 <= a < sol.len() ==> 0 <= (#[trigger] sol[a]).1 <= 20_000_000,
    ensures
        0 <= entries_sum(sol.subrange(0, i)) <= entries_sum(sol),
        entries_sum(sol) <= sol.len() * 20_000_000,
    decreases sol.len() - i,
{
    if i < sol.len() {
        lemma_entries_sum_prefix(sol, i + 1);
        assert(sol.subrange(0, i + 1).drop_last() =~= sol.subrange(0, i));
        assert(sol.subrange(0, i + 1).last() == sol[i]);
        let sub = sol.subrange(0, i);
        assert forall|a: int| 0 <= a < sub.len() implies 0 <= (#[trigger] sub[a]).1 <= 20_000_000 by {
            assert(sub[a] == sol[a]);
        }
        lemma_entries_sum_bound(sub);
    } else {
        assert(sol.subrange(0, i) =~= sol);
        lemma_entries_sum_bound(sol);
    }
}

pub(crate) proof fn lemma_entries_sum_bound(sol: Seq<(Seccion, i32)>)
    requires
        forall|a: int| 0 <= a < sol.len() ==> 0 <= (#[trigger] sol[a]).1 <= 20_000_000,
    ensures
        0 <= entries_sum(sol) <= sol.len() * 20_000_000,
    decreases sol.len(),
{
    if sol.len() > 0 {
        let d = sol.drop_last();
        assert forall|a: int| 0 <= a < d.len() implies 0 <= (#[trigger] d[a]).1 <= 20_000_000 by {
            assert(d[a] == sol[a]);
        }
        lemma_entries_sum_bound(d);
        assert(sol.last() == sol[sol.len() - 1]);
    }
}

pub(crate) fn entries_sum_exec(sol: &Vec<(Seccion, i32)>) -> (r: i64)
    requires
        entries_sum(sol@) <= i64::MAX,
        forall|a: int| 0 <= a < sol.len() ==> 0 <= (#[trigger] sol@[a]).1 <= 20_000_000,
    ensures
        r == entries_sum(sol@),
        0 <= r <= sol.len() * 20_000_000,
{
    let mut t: i64 = 0;
    let mut i: usize = 0;
    proof {
        lemma_entries_sum_prefix(sol@, 0);
    }
    while i < sol.len()
        invariant
            i <= sol.len(),
            forall|a: int| 0 <= a < sol.len() ==> 0 <= (#[trigger] sol@[a]).1 <= 20_000_000,
            entries_sum(sol@) <= i64::MAX,
            t == entries_sum(sol@.subrange(0, i as int)),
            0 <= t,
        decreases sol.len() - i,
    {
        proof {
            lemma_entries_sum_prefix(sol@, i + 1);
        }
        assert(sol@.subrange(0, i + 1).drop_last() =~= sol@.subrange(0, i as int));
        t = t + sol[i].1 as i64;
        i = i + 1;
    }
    assert(sol@.subrange(0, sol.len() as int) =~= sol@);
    t
}

/// Whether `sol` with `score` is a timetable of the search: one to six sections with
/// their weights, pairwise compatible and of different courses, at most `maxc` of
/// them counting against the CFG limit, scored by their weights adjusted to the
/// student's wishes.
pub open spec fn planned(
    secs: Seq<SeccionPlan>,
    ramos: Seq<RamoDisponible>,
    params: PlanParams,
    maxc: int,
    sol: Seq<(Seccion, i32)>,
    score: i64,
) -> bool {
    &&& 1 <= sol.len() <= 6
    &&& score == modified_score(entries_sum(sol), sol, params)
    &&& exists|idx: Seq<usize>| #[trigger] drawn(secs, ramos, sol, idx) && cfg_count(secs, idx) <= maxc
        && forall|a: int| 0 <= a < idx.len() ==> pool_positions(secs, ramos, params).contains(#[trigger] idx[a])
}

/// A timetable of the greedy search never holds two sections that share a timetable
/// entry, two sections of one box code, or two sections of one course (by upper-cased
/// code).
pub proof fn lemma_planned_clash_free(
    secs: Seq<SeccionPlan>,
    ramos: Seq<RamoDisponible>,
    params: PlanParams,
    maxc: int,
    sol: Seq<(Seccion, i32)>,
    score: i64,
)
    requires
        planned(secs, ramos, params, maxc, sol, score),
    ensures
        forall|a: int, b: int| 0 <= a < sol.len() && 0 <= b < sol.len() && a != b ==> {
            &&& !share_entry((#[trigger] sol[a]).0.horario@, (#[trigger] sol[b]).0.horario@)
            &&& sol[a].0.codigo_box@ != sol[b].0.codigo_box@
            &&& upper_of(sol[a].0.codigo@) != upper_of(sol[b].0.codigo@)
        },
{
    let idx = choose|idx: Seq<usize>| #[trigger] drawn(secs, ramos, sol, idx) && cfg_count(secs, idx) <= maxc;
    assert forall|a: int, b: int| 0 <= a < sol.len() && 0 <= b < sol.len() && a != b implies {
        &&& !share_entry((#[trigger] sol[a]).0.horario@, (#[trigger] sol[b]).0.horario@)
        &&& sol[a].0.codigo_box@ != sol[b].0.codigo_box@
        &&& upper_of(sol[a].0.codigo@) != upper_of(sol[b].0.codigo@)
    } by {
        assert(idx[a] < secs.len() && same_section(sol[a].0, secs[idx[a] as int].seccion));
        assert(idx[b] < secs.len() && same_section(sol[b].0, secs[idx[b] as int].seccion));
        assert(compatible(secs[idx[a] as int].seccion, secs[idx[b] as int].seccion));
    }
}

/// Whether every timetable entry of every section reads within `i32`.
pub open spec fn ranges_fit_all(secs: Seq<SeccionPlan>) -> bool {
    forall|i: int, j: int| 0 <= i < secs.len() && 0 <= j < secs[i].seccion.horario@.len()
        ==> range_fits((#[trigger] secs[i].seccion.horario@[j])@)
}

/// Whether every weight lies in `0..=20 000 000`.
proof fn lemma_weights_bounded(secs: Seq<SeccionPlan>, ramos: Seq<RamoDisponible>, sol: Seq<(Seccion, i32)>, idx: Seq<usize>)
    requires
        drawn(secs, ramos, sol, idx),
    ensures
        forall|a: int| 0 <= a < sol.len() ==> 0 <= (#[trigger] sol[a]).1 <= 20_000_000,
{
    assert forall|a: int| 0 <= a < sol.len() implies 0 <= (#[trigger] sol[a]).1 <= 20_000_000 by {
        let s = secs[idx[a] as int];
        assert(entry_weight(ramos, s) == Some(sol[a].1 as int));
        if !s.is_cfg {
            match lon_match(ramos, s.seccion, 0) {
                Some(k) => {
                    crate::scoring::lemma_priority_bounds(ramos[k], s.seccion.seccion@);
                },
                None => {},
            }
        }
    }
}

proof fn lemma_ranges_of_drawn(secs: Seq<SeccionPlan>, ramos: Seq<RamoDisponible>, sol: Seq<(Seccion, i32)>, idx: Seq<usize>)
    requires
        drawn(secs, ramos, sol, idx),
        ranges_fit_all(secs),
    ensures
        sol_ranges_fit(sol),
{
    assert forall|k: int, j: int| 0 <= k < sol.len() && 0 <= j < sol[k].0.horario@.len() implies range_fits(
        (#[trigger] sol[k].0.horario@[j])@,
    ) by {
        assert(idx[k] < secs.len());
        assert(same_section(sol[k].0, secs[idx[k] as int].seccion));
        assert(sol[k].0.horario@[j] == secs[idx[k] as int].seccion.horario@[j]);
    }
}

/// Whether `sol` with `score` is a single section of `secs` whose course is found by
/// lower-cased code or name, weighted and scored by that course's priority.
pub open spec fn single_pick(secs: Seq<SeccionPlan>, ramos: Seq<RamoDisponible>, sol: Seq<(Seccion, i32)>, score: i64) -> bool {
    &&& sol.len() == 1
    &&& score == sol[0].1
    &&& exists|i: int| 0 <= i < secs.len() && #[trigger] same_section(sol[0].0, secs[i].seccion)
        && match lon_match(ramos, secs[i].seccion, 0) {
            Some(k) => sol[0].1 == priority(ramos[k], secs[i].seccion.seccion@),
            None => false,
        }
}

/// Whether `sol` with `score` is section `i` of `secs` alone, its course found by
/// lower-cased code or name, weighted and scored by that course's priority.
pub open spec fn picked_at(secs: Seq<SeccionPlan>, ramos: Seq<RamoDisponible>, i: int, sol: Seq<(Seccion, i32)>, score: i64) -> bool {
    &&& 0 <= i < secs.len()
    &&& sol.len() == 1
    &&& score == sol[0].1
    &&& same_section(sol[0].0, secs[i].seccion)
    &&& match lon_match(ramos, secs[i].seccion, 0) {
        Some(k) => sol[0].1 == priority(ramos[k], secs[i].seccion.seccion@),
        None => false,
    }
}

/// The section offered when filters are set and no section is left to plan: the first
/// that may be offered (see `ley_first`), when its course is found by lower-cased code
/// or name.
pub open spec fn fallback_at(secs: Seq<SeccionPlan>, ramos: Seq<RamoDisponible>, params: PlanParams) -> Option<int> {
    if params.filtros is Some {
        match ley_first(secs, ramos, params.ramos_pasados@, 0) {
            Some(i) => if lon_match(ramos, secs[i].seccion, 0) is Some {
                Some(i)
            } else {
                None
            },
            None => None,
        }
    } else {
        None
    }
}

/// What the planner answers, by the size of the pool it draws from (see
/// `pool_positions`): with no pool section, the fallback section alone or nothing; with
/// one pool section of a known course, that section alone; otherwise timetables the
/// search may propose (see `proposed`).
pub open spec fn planner_cases(
    secs: Seq<SeccionPlan>,
    ramos: Seq<RamoDisponible>,
    params: PlanParams,
    r: Seq<(Vec<(Seccion, i32)>, i64)>,
) -> bool {
    let pool = pool_positions(secs, ramos, params);
    if pool.len() == 0 {
        match fallback_at(secs, ramos, params) {
            Some(i) => r.len() == 1 && picked_at(secs, ramos, i, r[0].0@, r[0].1),
            None => r.len() == 0,
        }
    } else if pool.len() == 1 && lon_match(ramos, secs[pool[0] as int].seccion, 0) is Some {
        r.len() == 1 && picked_at(secs, ramos, pool[0] as int, r[0].0@, r[0].1)
    } else {
        forall|t: int| 0 <= t < r.len() ==> proposed(secs, ramos, params, max_cfgs(params.ramos_pasados@),
            (#[trigger] r[t]).0@, r[t].1)
    }
}

/// Whether section `s` is, field for field, a section of the pool (see
/// `pool_positions`), whose course is not passed and within the semester limit.
pub open spec fn from_pool(secs: Seq<SeccionPlan>, ramos: Seq<RamoDisponible>, params: PlanParams, s: Seccion) -> bool {
    exists|i: int| 0 <= i < secs.len() && pool_positions(secs, ramos, params).contains(i as usize)
        && reachable(secs[i], ramos, params.ramos_pasados@) && #[trigger] same_section(s, secs[i].seccion)
}

/// Without filters, every section of every timetable the planner answers is a section
/// of its pool (see `from_pool`), and no timetable holds two sections whose codes agree
/// ignoring case.
pub proof fn lemma_planner_from_pool(
    secs: Seq<SeccionPlan>,
    ramos: Seq<RamoDisponible>,
    params: PlanParams,
    r: Seq<(Vec<(Seccion, i32)>, i64)>,
)
    requires
        secs.len() <= usize::MAX,
        params.filtros is None,
        planner_cases(secs, ramos, params, r),
    ensures
        forall|t: int, a: int| 0 <= t < r.len() && 0 <= a < r[t].0@.len()
            ==> from_pool(secs, ramos, params, (#[trigger] r[t].0@[a]).0),
        forall|t: int, a: int, b: int| 0 <= t < r.len() && 0 <= a < r[t].0@.len() && 0 <= b < r[t].0@.len() && a != b
            ==> upper_of((#[trigger] r[t].0@[a]).0.codigo@) != upper_of((#[trigger] r[t].0@[b]).0.codigo@),
{
    let pool = pool_positions(secs, ramos, params);
    lemma_pool_reachable(secs, ramos, params);
    let mc = max_cfgs(params.ramos_pasados@);
    if pool.len() == 0 {
        assert(fallback_at(secs, ramos, params) is None);
        assert(r.len() == 0);
    } else if pool.len() == 1 && lon_match(ramos, secs[pool[0] as int].seccion, 0) is Some {
        assert(pool.contains(pool[0]));
        assert forall|t: int, a: int| 0 <= t < r.len() && 0 <= a < r[t].0@.len()
            implies from_pool(secs, ramos, params, (#[trigger] r[t].0@[a]).0) by {
            let i = pool[0] as int;
            assert(same_section(r[t].0@[a].0, secs[i].seccion));
        }
    } else {
        assert forall|t: int, a: int| 0 <= t < r.len() && 0 <= a < r[t].0@.len()
            implies from_pool(secs, ramos, params, (#[trigger] r[t].0@[a]).0) by {
            assert(proposed(secs, ramos, params, mc, r[t].0@, r[t].1));
            if planned(secs, ramos, params, mc, r[t].0@, r[t].1) {
                let idx = choose|idx: Seq<usize>| #[trigger] drawn(secs, ramos, r[t].0@, idx) && cfg_count(secs, idx) <= mc
                    && forall|b: int| 0 <= b < idx.len() ==> pool.contains(#[trigger] idx[b]);
                let i = idx[a] as int;
                assert(pool.contains(idx[a]));
                let q = choose|q: int| 0 <= q < pool.len() && pool[q] == idx[a];
                assert(same_section(r[t].0@[a].0, secs[i].seccion));
            } else {
                let ps = pool_secs(secs, pool);
                let idx = choose|idx: Seq<usize>| #[trigger] gathered_from(ps, ramos, r[t].0@, idx);
                let j = idx[a] as int;
                let i = pool[j] as int;
                assert(ps[j] == secs[i]);
                assert(pool.contains(pool[j]));
                assert(same_section(r[t].0@[a].0, secs[i].seccion));
            }
        }
        assert forall|t: int, a: int, b: int| 0 <= t < r.len() && 0 <= a < r[t].0@.len() && 0 <= b < r[t].0@.len() && a != b
            implies upper_of((#[trigger] r[t].0@[a]).0.codigo@) != upper_of((#[trigger] r[t].0@[b]).0.codigo@) by {
            assert(proposed(secs, ramos, params, mc, r[t].0@, r[t].1));
            if planned(secs, ramos, params, mc, r[t].0@, r[t].1) {
                let idx = choose|idx: Seq<usize>| #[trigger] drawn(secs, ramos, r[t].0@, idx) && cfg_count(secs, idx) <= mc
                    && forall|c: int| 0 <= c < idx.len() ==> pool.contains(#[trigger] idx[c]);
                assert(same_section(r[t].0@[a].0, secs[idx[a] as int].seccion));
                assert(same_section(r[t].0@[b].0, secs[idx[b] as int].seccion));
            } else {
                let ps = pool_secs(secs, pool);
                let idx = choose|idx: Seq<usize>| #[trigger] gathered_from(ps, ramos, r[t].0@, idx);
                assert(same_section(r[t].0@[a].0, ps[idx[a] as int].seccion));
                assert(same_section(r[t].0@[b].0, ps[idx[b] as int].seccion));
            }
        }
    }
}

/// Whether course `r` is the one a fallback section `s` names: by exact code when both
/// codes are non-empty, else by normalised name.
pub open spec fn ley_hit(r: RamoDisponible, s: Seccion) -> bool {
    if r.codigo@.len() > 0 && s.codigo@.len() > 0 {
        r.codigo@ == s.codigo@
    } else {
        norm_name(r.nombre@) == norm_name(s.nombre@)
    }
}

/// The first of `ramos[i..]` that a fallback section `s` names.
pub open spec fn ley_course(ramos: Seq<RamoDisponible>, s: Seccion, i: int) -> Option<int>
    decreases ramos.len() - i,
{
    if i < 0 || i >= ramos.len() {
        None
    } else if ley_hit(ramos[i], s) {
        Some(i)
    } else {
        ley_course(ramos, s, i + 1)
    }
}

/// Whether section `s` may be offered when the user's filters leave nothing: its box
/// code is not a passed entry, its course (by exact code, else by normalised name) is
/// within the semester limit, and the course it names (see `ley_course`) has its
/// prerequisites passed.
pub open spec fn ley_ok(s: Seccion, ramos: Seq<RamoDisponible>, pasados: Seq<String>) -> bool {
    &&& !in_strs(pasados, s.codigo_box@)
    &&& match first_eq(codes_of(ramos), s.codigo@, 0) {
        Some(k) => sem_ok(ramos[k], sem_limit(ramos, pasados)),
        None => match first_eq(crate::plan_pool::names_of(ramos), norm_name(s.nombre@), 0) {
            Some(k) => sem_ok(ramos[k], sem_limit(ramos, pasados)),
            None => false,
        },
    }
    &&& match ley_course(ramos, s, 0) {
        Some(k) => prereqs_passed(ramos[k], ramos, pasados),
        None => false,
    }
}

/// The first of `secs[i..]` that may be offered when the user's filters leave nothing.
pub open spec fn ley_first(secs: Seq<SeccionPlan>, ramos: Seq<RamoDisponible>, pasados: Seq<String>, i: int) -> Option<int>
    decreases secs.len() - i,
{
    if i < 0 || i >= secs.len() {
        None
    } else if ley_ok(secs[i].seccion, ramos, pasados) {
        Some(i)
    } else {
        ley_first(secs, ramos, pasados, i + 1)
    }
}

proof fn lemma_ley_first_range(secs: Seq<SeccionPlan>, ramos: Seq<RamoDisponible>, pasados: Seq<String>, i: int)
    ensures
        ley_first(secs, ramos, pasados, i) matches Some(k) ==> i <= k < secs.len(),
    decreases secs.len() - i,
{
    if 0 <= i < secs.len() && !ley_ok(secs[i].seccion, ramos, pasados) {
        lemma_ley_first_range(secs, ramos, pasados, i + 1);
    }
}

/// The section offered when the user's filters leave nothing: the first that may be
/// offered (see `ley_ok`), with the priority of its course found by lower-cased code
/// or name; none when no section may be offered, or when that first one has no such
/// course.
fn ley_fallback(
    secs: &[SeccionPlan],
    ramos: &[RamoDisponible],
    params: &PlanParams,
    lows: &Vec<Vec<char>>,
    lnames: &Vec<Vec<char>>,
) -> (r: Option<(Seccion, i32)>)
    requires
        pool_fits(secs@, ramos@, *params),
        lows.len() == ramos.len() && lnames.len() == ramos.len(),
        forall|k: int| 0 <= k < ramos.len() ==> (#[trigger] lows@[k])@ == lower_of(ramos@[k].codigo@),
        forall|k: int| 0 <= k < ramos.len() ==> (#[trigger] lnames@[k])@ == norm_name(ramos@[k].nombre@),
    ensures
        r matches Some(x) ==> single_pick(secs@, ramos@, seq![x], x.1 as i64),
        match ley_first(secs@, ramos@, params.ramos_pasados@, 0) {
            Some(i) => match lon_match(ramos@, secs@[i].seccion, 0) {
                Some(j) => r matches Some(x) && same_section(x.0, secs@[i].seccion)
                    && x.1 == priority(ramos@[j], secs@[i].seccion.seccion@),
                None => r is None,
            },
            None => r is None,
        },
{
    let ghost pas = params.ramos_pasados@;
    let (codes, _ups, names) = course_forms(ramos);
    let limit = sem_limit_exec(ramos, &codes, &params.ramos_pasados);
    let pups = upper_strings(&params.ramos_pasados);
    let mut i: usize = 0;
    while i < secs.len()
        invariant
            i <= secs.len(),
            pas == params.ramos_pasados@,
            limit == sem_limit(ramos@, pas),
            lows.len() == ramos.len() && lnames.len() == ramos.len(),
            forall|k: int| 0 <= k < ramos.len() ==> (#[trigger] lows@[k])@ == lower_of(ramos@[k].codigo@),
            forall|k: int| 0 <= k < ramos.len() ==> (#[trigger] lnames@[k])@ == norm_name(ramos@[k].nombre@),
            codes.deep_view() == codes_of(ramos@),
            names.deep_view() == crate::plan_pool::names_of(ramos@),
            pups.len() == params.ramos_pasados.len(),
            forall|k: int| 0 <= k < pas.len() ==> (#[trigger] pups@[k])@ == upper_of(pas[k]@),
            ley_first(secs@, ramos@, pas, 0) == ley_first(secs@, ramos@, pas, i as int),
        decreases secs.len() - i,
    {
        let s = &secs[i].seccion;
        let code = chars_of(s.codigo.as_str());
        if !in_strs_exec(&params.ramos_pasados, &chars_of(s.codigo_box.as_str())) {
            let nm = normalize_name_chars(&chars_of(s.nombre.as_str()));
            let keep = match find_eq(&codes, &code) {
                Some(k) => match ramos[k].semestre {
                    Some(sv) => sv <= limit,
                    None => true,
                },
                None => match find_eq(&names, &nm) {
                    Some(k) => match ramos[k].semestre {
                        Some(sv) => sv <= limit,
                        None => true,
                    },
                    None => false,
                },
            };
            if keep {
                assert(names.deep_view().len() == names.len());
                let s_ne = code.len() > 0;
                let mut k: usize = 0;
                let mut found = false;
                while k < ramos.len()
                    invariant_except_break
                        !found,
                    invariant
                        k <= ramos.len(),
                        names.len() == ramos.len(),
                        names.deep_view() == crate::plan_pool::names_of(ramos@),
                        code@ == s.codigo@,
                        s_ne == (code@.len() > 0),
                        nm@ == norm_name(s.nombre@),
                        !found ==> ley_course(ramos@, *s, 0) == ley_course(ramos@, *s, k as int),
                    ensures
                        found ==> k < ramos.len() && ley_course(ramos@, *s, 0) == Some(k as int),
                        !found ==> ley_course(ramos@, *s, 0) is None,
                    decreases ramos.len() - k,
                {
                    let r_code = chars_of(ramos[k].codigo.as_str());
                    proof {
                        crate::text::lemma_chars_deep_view(names@[k as int]);
                        assert(names.deep_view()[k as int] == names@[k as int].deep_view());
                        assert(names@[k as int]@ == norm_name(ramos@[k as int].nombre@));
                    }
                    let hit = if r_code.len() > 0 && s_ne { chars_eq(&r_code, &code) } else { chars_eq(&names[k], &nm) };
                    assert(hit == ley_hit(ramos@[k as int], *s));
                    if hit {
                        found = true;
                        break;
                    }
                    k = k + 1;
                }
                let ok = found && requisitos_cumplidos(&ramos[k], ramos, pups.as_slice());
                proof {
                    if found {
                        crate::plan_pool::lemma_prereqs_upper(ramos@[k as int], ramos@, pas, pups@);
                    }
                }
                assert(ok == ley_ok(secs@[i as int].seccion, ramos@, pas));
                if ok {
                    return match lon_find(ramos, lows, lnames, s) {
                        Some(j) => {
                            proof {
                                crate::scoring::lemma_priority_bounds(ramos@[j as int], s.seccion@);
                            }
                            let w = compute_priority(&ramos[j], s) as i32;
                            let d = s.duplicate();
                            proof {
                                let x = (d, w);
                                assert(same_section(seq![x][0].0, secs@[i as int].seccion));
                            }
                            Some((d, w))
                        },
                        None => None,
                    };
                }
            }
        }
        i = i + 1;
    }
    None
}

/// Whether every timetable of `r` has a score no lower than the timetables after it
/// within the same group (`six` tells the group of a timetable).
pub open spec fn sorted_within(r: Seq<(Vec<(Seccion, i32)>, i64)>, by_six: bool) -> bool {
    forall|t: int, u: int| 0 <= t < u < r.len() && (!by_six || ((#[trigger] r[t]).0.len() == 6) == ((#[trigger] r[u]).0.len() == 6))
        ==> r[t].1 >= r[u].1
}

/// Whether the plain sections a search result covers are enough to promise a
/// timetable: every pool section is a CFG section, or a section that is no elective
/// of a course found by lower-cased code or name.
pub open spec fn plain_pool(secs: Seq<SeccionPlan>, ramos: Seq<RamoDisponible>, pool: Seq<usize>) -> bool {
    forall|k: int| 0 <= k < pool.len() ==> {
        let s = secs[#[trigger] pool[k] as int];
        s.is_cfg || (!s.is_electivo && lon_match(ramos, s.seccion, 0) is Some)
    }
}

/// Sorts timetables by score, highest first (equal scores keep their order).
pub(crate) fn sort_by_score(sols: Vec<(Vec<(Seccion, i32)>, i64)>, pred: Ghost<spec_fn((Vec<(Seccion, i32)>, i64)) -> bool>)
    -> (r: Vec<(Vec<(Seccion, i32)>, i64)>)
    requires
        forall|t: int| 0 <= t < sols.len() ==> pred@(#[trigger] sols@[t]),
    ensures
        r.len() == sols.len(),
        forall|t: int| 0 <= t < r.len() ==> pred@(#[trigger] r@[t]),
        forall|t: int, u: int| 0 <= t < u < r.len() ==> (#[trigger] r@[t]).1 >= (#[trigger] r@[u]).1,
        r@.to_multiset() == sols@.to_multiset(),
        keys_distinct(sols@) ==> keys_distinct(r@),
{
    let ghost ms0 = sols@.to_multiset();
    let ghost dist = keys_distinct(sols@);
    let mut rest = sols;
    let ghost n0 = rest.len();
    let mut out: Vec<(Vec<(Seccion, i32)>, i64)> = Vec::new();
    proof {
        broadcast use vstd::seq_lib::group_to_multiset_ensures, vstd::multiset::group_multiset_axioms;
        assert(out@.to_multiset() =~= vstd::multiset::Multiset::empty());
        assert(out@.to_multiset().add(rest@.to_multiset()) =~= ms0);
        assert(out@ + rest@ =~= sols@);
    }
    while rest.len() > 0
        invariant
            out.len() + rest.len() == n0,
            out@.to_multiset().add(rest@.to_multiset()) == ms0,
            forall|t: int| 0 <= t < rest.len() ==> pred@(#[trigger] rest@[t]),
            forall|t: int| 0 <= t < out.len() ==> pred@(#[trigger] out@[t]),
            forall|t: int, u: int| 0 <= t < u < out.len() ==> (#[trigger] out@[t]).1 >= (#[trigger] out@[u]).1,
            dist == keys_distinct(sols@),
            dist ==> keys_distinct(out@ + rest@),
        decreases rest.len(),
    {
        assert(pred@(rest@[0]));
        let ghost before = rest@;
        let x = rest.remove(0);
        assert forall|t: int| 0 <= t < rest.len() implies pred@(#[trigger] rest@[t]) by {
            assert(rest@[t] == before[t + 1]);
        }
        let mut p: usize = out.len();
        while p > 0 && out[p - 1].1 < x.1
            invariant
                p <= out.len(),
                forall|q: int| p <= q < out.len() ==> (#[trigger] out@[q]).1 < x.1,
            decreases p,
        {
            p = p - 1;
        }
        let ghost o = out@;
        let ghost xv = x;
        out.insert(p, x);
        assert(out@ =~= o.insert(p as int, xv));
        proof {
            if dist {
                lemma_distinct_move(o, before, p as int);
                assert(rest@ =~= before.drop_first());
            }
        }
        proof {
            broadcast use vstd::seq_lib::group_to_multiset_ensures, vstd::multiset::group_multiset_axioms;
            assert(rest@ =~= before.remove(0));
            assert(before[0] == xv);
            assert(before.to_multiset().count(xv) > 0);
            assert(out@.to_multiset() == o.to_multiset().insert(xv));
            assert(rest@.to_multiset() == before.to_multiset().remove(xv));
            assert(out@.to_multiset().add(rest@.to_multiset()) =~= o.to_multiset().add(before.to_multiset()));
        }
        assert forall|t: int| 0 <= t < out.len() implies pred@(#[trigger] out@[t]) by {
            if t < p {
                assert(out@[t] == o[t]);
            } else if t > p {
                assert(out@[t] == o[t - 1]);
            }
        }
        assert forall|t: int, u: int| 0 <= t < u < out.len() implies (#[trigger] out@[t]).1 >= (#[trigger] out@[u]).1 by {
            if u < p {
                assert(out@[t] == o[t] && out@[u] == o[u]);
            } else if u == p {
                assert(out@[t] == o[t]);
                assert(o[p - 1].1 >= xv.1);
                assert(o[t].1 >= o[p - 1].1 || t == p - 1);
            } else if t > p {
                assert(out@[t] == o[t - 1] && out@[u] == o[u - 1]);
            } else if t == p {
                assert(out@[u] == o[u - 1]);
            } else {
                assert(out@[t] == o[t] && out@[u] == o[u - 1]);
            }
        }
    }
    proof {
        broadcast use vstd::seq_lib::group_to_multiset_ensures, vstd::multiset::group_multiset_axioms;
        assert(rest@.to_multiset() =~= vstd::multiset::Multiset::empty());
        assert(out@.to_multiset() =~= out@.to_multiset().add(rest@.to_multiset()));
        assert(out@ + rest@ =~= out@);
    }
    out
}

/// The timetables kept in the end, from timetables sorted by score. Without filters,
/// those with the largest number of sections; with filters, those with six sections
/// first and then the others, each group by score; all of them when none has six.
fn select_timetables(
    sorted: Vec<(Vec<(Seccion, i32)>, i64)>,
    has_filters: bool,
    pred: Ghost<spec_fn((Vec<(Seccion, i32)>, i64)) -> bool>,
) -> (r: Vec<(Vec<(Seccion, i32)>, i64)>)
    requires
        forall|t: int| 0 <= t < sorted.len() ==> pred@(#[trigger] sorted@[t]),
        forall|t: int, u: int| 0 <= t < u < sorted.len() ==> (#[trigger] sorted@[t]).1 >= (#[trigger] sorted@[u]).1,
    ensures
        forall|t: int| 0 <= t < r.len() ==> pred@(#[trigger] r@[t]),
        !has_filters ==> forall|t: int| 0 <= t < r.len() ==> (#[trigger] r@[t]).0.len() == r@[0].0.len(),
        sorted_within(r@, has_filters),
        has_filters ==> forall|t: int, u: int| 0 <= t < u < r.len() && (#[trigger] r@[u]).0.len() == 6 ==> (#[trigger] r@[t]).0.len() == 6,
        sorted.len() > 0 ==> r.len() > 0,
        keys_distinct(sorted@) ==> keys_distinct(r@),
{
    let mut max_size: usize = 0;
    let mut any6 = false;
    let mut i: usize = 0;
    while i < sorted.len()
        invariant
            i <= sorted.len(),
            i == 0 ==> max_size == 0,
            forall|t: int| 0 <= t < i ==> (#[trigger] sorted@[t]).0.len() <= max_size,
            i > 0 ==> exists|t: int| 0 <= t < i && (#[trigger] sorted@[t]).0.len() == max_size,
            any6 == exists|t: int| 0 <= t < i && (#[trigger] sorted@[t]).0.len() == 6,
        decreases sorted.len() - i,
    {
        if sorted[i].0.len() >= max_size {
            max_size = sorted[i].0.len();
            assert(sorted@[i as int].0.len() == max_size);
        } else {
            assert(i > 0);
        }
        if sorted[i].0.len() == 6 {
            any6 = true;
        }
        i = i + 1;
    }
    if has_filters && !any6 {
        return sorted;
    }
    let mut first: Vec<(Vec<(Seccion, i32)>, i64)> = Vec::new();
    let mut second: Vec<(Vec<(Seccion, i32)>, i64)> = Vec::new();
    let target: usize = if has_filters { 6 } else { max_size };
    let mut rest = sorted;
    let ghost all = rest@;
    let ghost mut taken: int = 0;
    let ghost dist = keys_distinct(all);
    proof {
        assert(first@ + second@ + rest@ =~= all);
    }
    while rest.len() > 0
        invariant
            dist == keys_distinct(all),
            dist ==> keys_distinct(first@ + second@ + rest@),
            first.len() + second.len() == taken,
            0 <= taken <= all.len(),
            taken + rest.len() == all.len(),
            rest@ == all.subrange(taken, all.len() as int),
            forall|t: int| 0 <= t < all.len() ==> pred@(#[trigger] all[t]),
            forall|t: int, u: int| 0 <= t < u < all.len() ==> (#[trigger] all[t]).1 >= (#[trigger] all[u]).1,
            forall|t: int| 0 <= t < first.len() ==> pred@(#[trigger] first@[t]) && first@[t].0.len() == target,
            forall|t: int| 0 <= t < second.len() ==> pred@(#[trigger] second@[t]) && second@[t].0.len() != target,
            forall|t: int, u: int| 0 <= t < u < first.len() ==> (#[trigger] first@[t]).1 >= (#[trigger] first@[u]).1,
            forall|t: int, u: int| 0 <= t < u < second.len() ==> (#[trigger] second@[t]).1 >= (#[trigger] second@[u]).1,
            forall|t: int, a: int| 0 <= t < first.len() && taken <= a < all.len() ==> (#[trigger] first@[t]).1 >= (#[trigger] all[a]).1,
            forall|t: int, a: int| 0 <= t < second.len() && taken <= a < all.len() ==> (#[trigger] second@[t]).1 >= (#[trigger] all[a]).1,
            !has_filters ==> forall|t: int| 0 <= t < all.len() ==> (#[trigger] all[t]).0.len() <= target,
            !has_filters && all.len() > 0 ==> exists|t: int| 0 <= t < all.len() && (#[trigger] all[t]).0.len() == target,
            !has_filters && all.len() > 0 && first.len() == 0 ==> exists|t: int| taken <= t < all.len() && (#[trigger] all[t]).0.len() == target,
        decreases rest.len(),
    {
        let ghost before = rest@;
        assert(before[0] == all[taken]);
        let x = rest.remove(0);
        assert(x == before[0]);
        assert(rest@ =~= all.subrange(taken + 1, all.len() as int));
        let ghost (f0, s0) = (first@, second@);
        if x.0.len() == target {
            first.push(x);
        } else {
            second.push(x);
        }
        proof {
            if dist {
                lemma_distinct_move(f0 + s0, before, f0.len() as int);
                assert(rest@ =~= before.drop_first());
                if x.0.len() == target {
                    assert((f0 + s0).insert(f0.len() as int, before[0]) =~= first@ + second@);
                } else {
                    assert(first@ + second@ + rest@ =~= f0 + s0 + before);
                }
            }
        }
        proof {
            taken = taken + 1;
        }
    }
    assert(first@ + second@ + rest@ =~= first@ + second@);
    if has_filters {
        let ghost f = first@;
        let ghost sc = second@;
        first.append(&mut second);
        assert(first@ =~= f + sc);
        assert forall|t: int, u: int| 0 <= t < u < first.len() && ((#[trigger] first@[t]).0.len() == 6) == ((#[trigger] first@[u]).0.len() == 6)
            implies first@[t].1 >= first@[u].1 by {
            if u < f.len() {
            } else if t >= f.len() {
                assert(first@[t] == sc[t - f.len()] && first@[u] == sc[u - f.len()]);
            } else {
                assert(first@[t] == f[t]);
                assert(first@[u] == sc[u - f.len()]);
            }
        }
        assert forall|t: int, u: int| 0 <= t < u < first.len() && (#[trigger] first@[u]).0.len() == 6 implies (#[trigger] first@[t]).0.len() == 6 by {
            if u >= f.len() {
                assert(first@[u] == sc[u - f.len()]);
            }
        }
    } else {
        assert forall|t: int| 0 <= t < first.len() implies (#[trigger] first@[t]).0.len() == first@[0].0.len() by {}
        proof {
            if dist {
                let fs = first@ + second@;
                assert forall|t: int, u: int| 0 <= t < u < first.len() implies box_key_of((#[trigger] first@[t]).0@)
                    != box_key_of((#[trigger] first@[u]).0@) by {
                    assert(first@[t] == fs[t] && first@[u] == fs[u]);
                }
            }
        }
    }
    first
}

/// Whether `sol` with `score` is a timetable the search may propose: one the greedy
/// search builds, or one of at most six sections of the pool found by the exhaustive
/// search.
pub open spec fn proposed(
    secs: Seq<SeccionPlan>,
    ramos: Seq<RamoDisponible>,
    params: PlanParams,
    maxc: int,
    sol: Seq<(Seccion, i32)>,
    score: i64,
) -> bool {
    planned(secs, ramos, params, maxc, sol, score)
        || gathered(pool_secs(secs, pool_positions(secs, ramos, params)), ramos, params, 6, sol, score)
}

/// `proposed`, as a predicate on timetables.
pub open spec fn proposed_pred(secs: Seq<SeccionPlan>, ramos: Seq<RamoDisponible>, params: PlanParams, maxc: int)
    -> spec_fn((Vec<(Seccion, i32)>, i64)) -> bool
{
    |x: (Vec<(Seccion, i32)>, i64)| proposed(secs, ramos, params, maxc, x.0@, x.1)
}

proof fn lemma_pool_cumple(secs: Seq<SeccionPlan>, ramos: Seq<RamoDisponible>, params: PlanParams)
    ensures
        forall|k: int| 0 <= k < pool_positions(secs, ramos, params).len()
            ==> cumple_filtros(secs[#[trigger] pool_positions(secs, ramos, params)[k] as int], params.filtros),
{
    let pv = params.ramos_pasados@;
    let s1 = positions(secs.len() as int).filter(reachable_at(secs, ramos, pv));
    let s3 = sort_pos(s1, secs).filter(prereq_ok_at(secs, ramos, pv));
    let s4 = if params.filtros is Some { s3.filter(cumple_at(secs, params.filtros)) } else { s3 };
    assert forall|k: int| 0 <= k < s4.len() implies cumple_filtros(secs[#[trigger] s4[k] as int], params.filtros) by {
        if params.filtros is Some {
            s3.lemma_filter_pred(cumple_at(secs, params.filtros), k);
        }
    }
    if max_cfgs(pv) == 0 {
        let p = not_cfg_at(secs);
        assert(pool_positions(secs, ramos, params) == s4.filter(p));
        assert forall|k: int| 0 <= k < s4.filter(p).len() implies cumple_filtros(secs[#[trigger] s4.filter(p)[k] as int],
            params.filtros) by {
            let e = s4.filter(p)[k];
            assert(s4.filter(p).contains(e));
            s4.lemma_filter_contains_rev(p, e);
            let j = choose|j: int| 0 <= j < s4.len() && s4[j] == e;
            assert(cumple_filtros(secs[s4[j] as int], params.filtros));
        }
    } else {
        assert(pool_positions(secs, ramos, params) == s4);
    }
}

proof fn lemma_pool_cfg(secs: Seq<SeccionPlan>, ramos: Seq<RamoDisponible>, params: PlanParams)
    requires
        max_cfgs(params.ramos_pasados@) == 0,
    ensures
        forall|k: int| 0 <= k < pool_positions(secs, ramos, params).len()
            ==> !secs[#[trigger] pool_positions(secs, ramos, params)[k] as int].is_cfg,
{
    let pv = params.ramos_pasados@;
    let s1 = positions(secs.len() as int).filter(reachable_at(secs, ramos, pv));
    let s3 = sort_pos(s1, secs).filter(prereq_ok_at(secs, ramos, pv));
    let s4 = if params.filtros is Some { s3.filter(cumple_at(secs, params.filtros)) } else { s3 };
    let p = not_cfg_at(secs);
    assert(pool_positions(secs, ramos, params) == s4.filter(p));
    assert forall|k: int| 0 <= k < s4.filter(p).len() implies !secs[#[trigger] s4.filter(p)[k] as int].is_cfg by {
        s4.lemma_filter_pred(p, k);
    }
}

/// The timetables of the greedy multi-seed clique search over the pool of sections
/// (see `pool_positions`). Sections are joined when they may be taken together (box
/// codes and seven-byte code prefixes differ, no shared timetable entry), at most six
/// at a time, with different codes, within the CFG limit, passing the filters and the
/// elective check, and, for sections of one base course, of one section. Seeds are
/// taken by priority; after each new timetable its lowest-priority member leaves the
/// pool of seeds, and with fewer than six sections the pool is refilled (up to twenty
/// times while fewer than fifteen timetables exist). Each timetable is scored by its
/// sections' weights adjusted to the student's wishes. With a single pool section of
/// a known course, or, under filters, an empty pool and a fallback section, that one
/// section is the answer. Timetables are sorted by score; without filters only those
/// with the most sections are kept; with filters the six-section ones come first.
/// No two timetables of the answer have the same box codes.
pub fn get_clique_max_pond_with_prefs(secs: &[SeccionPlan], ramos: &[RamoDisponible], params: &PlanParams)
    -> (r: Vec<(Vec<(Seccion, i32)>, i64)>)
    requires
        pool_fits(secs@, ramos@, *params),
        codes_cut(secs@),
        ranges_fit_all(secs@),
        wishes_fit(*params, 6),
        gap_filter(params.filtros) is Some ==> timetables_fit(secs@),
    ensures
        planner_cases(secs@, ramos@, *params, r@),
        params.filtros is None ==> forall|t: int| 0 <= t < r.len() ==> (#[trigger] r@[t]).0.len() == r@[0].0.len(),
        sorted_within(r@, params.filtros is Some),
        params.filtros is Some ==> forall|t: int, u: int| 0 <= t < u < r.len() && (#[trigger] r@[u]).0.len() == 6
            ==> (#[trigger] r@[t]).0.len() == 6,
        pool_positions(secs@, ramos@, *params).len() > 0
            && plain_pool(secs@, ramos@, pool_positions(secs@, ramos@, *params)) ==> r.len() > 0,
        keys_distinct(r@),
{
    let pool = plan_pool(secs, ramos, params);
    let ghost ps = pool_secs(secs@, pool@);
    let (pu, _pn) = pasados_forms(params.ramos_pasados.as_slice());
    let ncfg = count_cfg_exec(&pu, Ghost(params.ramos_pasados@));
    let maxc: usize = if ncfg >= 4 { 0 } else { 4 - ncfg };
    let ghost mc = maxc as int;
    assert(mc == max_cfgs(params.ramos_pasados@));
    let (lows, lnames) = lon_forms(ramos);
    let n = pool.len();
    if n == 0 {
        if params.filtros.is_some() {
            match ley_fallback(secs, ramos, params, &lows, &lnames) {
                Some(x) => {
                    let w = x.1 as i64;
                    let ghost xv = x;
                    let mut sol: Vec<(Seccion, i32)> = Vec::new();
                    sol.push(x);
                    assert(sol@ =~= seq![xv]);
                    let mut out: Vec<(Vec<(Seccion, i32)>, i64)> = Vec::new();
                    out.push((sol, w));
                    proof {
                        let lf = ley_first(secs@, ramos@, params.ramos_pasados@, 0);
                        assert(lf is Some);
                        let i = lf.unwrap();
                        lemma_ley_first_range(secs@, ramos@, params.ramos_pasados@, 0);
                        assert(lon_match(ramos@, secs@[i].seccion, 0) is Some);
                        assert(fallback_at(secs@, ramos@, *params) == Some(i));
                        assert(out@[0].0@ == seq![xv]);
                        assert(picked_at(secs@, ramos@, i, out@[0].0@, out@[0].1));
                    }
                    return out;
                },
                None => {},
            }
        }
        return Vec::new();
    }
    let adj = pool_adjacency(secs, &pool);
    let pri = pool_priorities(secs, ramos, &pool, &lows, &lnames);
    let (codes, cfgc, fil, el_ok, bkeys, secc) = pool_facts(secs, ramos, &pool, params);
    if n == 1 {
        let s0 = &secs[pool[0]].seccion;
        match lon_find(ramos, &lows, &lnames, s0) {
            Some(k) => {
                proof {
                    crate::scoring::lemma_priority_bounds(ramos@[k as int], s0.seccion@);
                }
                let w = compute_priority(&ramos[k], s0);
                let d = s0.duplicate();
                let mut sol: Vec<(Seccion, i32)> = Vec::new();
                sol.push((d, w as i32));
                assert(same_section(sol@[0].0, secs@[pool@[0] as int].seccion));
                let mut out: Vec<(Vec<(Seccion, i32)>, i64)> = Vec::new();
                out.push((sol, w));
                return out;
            },
            None => {},
        }
    }
    proof {
        assert forall|i: int, j: int| 0 <= i < n && 0 <= j < n implies (#[trigger] adj@[i]@[j]) == adj@[j]@[i] by {
            lemma_compatible_symmetric(ps[i].seccion, ps[j].seccion);
        }
        if mc == 0 {
            lemma_pool_cfg(secs@, ramos@, *params);
            assert forall|i: int| 0 <= i < n implies !(#[trigger] cfgc@[i]) by {
                assert(ps[i] == secs@[pool@[i] as int]);
            }
        }
    }
    let order = priority_order(&pri);
    let reuse = n < 6;
    let max_it: usize = if reuse {
        1000
    } else {
        let c: usize = if n > 3333 { 10000 } else if n * 3 > 500 { n * 3 } else { 500 };
        if c < 10000 { c } else { 10000 }
    };
    let mut remaining: Vec<bool> = Vec::new();
    let mut z: usize = 0;
    while z < n
        invariant
            z <= n,
            remaining.len() == z,
            forall|i: int| 0 <= i < z ==> remaining@[i],
        decreases n - z,
    {
        remaining.push(true);
        z = z + 1;
    }
    let ghost ley = plain_pool(secs@, ramos@, pool@);
    proof {
        lemma_pool_cumple(secs@, ramos@, *params);
    }
    let mut sols: Vec<(Vec<(Seccion, i32)>, i64)> = Vec::new();
    let mut keys: Vec<Vec<Vec<char>>> = Vec::new();
    let ghost mut gidx: Seq<Seq<usize>> = Seq::empty();
    let mut resets: usize = 0;
    let mut it: usize = 0;
    while it < max_it
        invariant
            n == pool.len() && n > 0,
            ps == pool_secs(secs@, pool@),
            pool@ == pool_positions(secs@, ramos@, *params),
            forall|k: int| 0 <= k < pool.len() ==> #[trigger] pool@[k] < secs.len(),
            ranges_fit_all(secs@),
            wishes_fit(*params, 6),
            mc == maxc as int,
            lows.len() == ramos.len() && lnames.len() == ramos.len(),
            forall|k: int| 0 <= k < ramos.len() ==> (#[trigger] lows@[k])@ == lower_of(ramos@[k].codigo@),
            forall|k: int| 0 <= k < ramos.len() ==> (#[trigger] lnames@[k])@ == norm_name(ramos@[k].nombre@),
            adj.len() == n && codes.len() == n && cfgc.len() == n && fil.len() == n && el_ok.len() == n
                && bkeys.len() == n && secc.len() == n && pri.len() == n && remaining.len() == n,
            forall|i: int| 0 <= i < n ==> (#[trigger] adj@[i]).len() == n,
            forall|i: int, j: int| 0 <= i < n && 0 <= j < n ==> (#[trigger] adj@[i]@[j] == (i != j
                && compatible(ps[i].seccion, ps[j].seccion))),
            forall|i: int, j: int| 0 <= i < n && 0 <= j < n ==> (#[trigger] adj@[i]@[j]) == adj@[j]@[i],
            forall|i: int| 0 <= i < n ==> (#[trigger] codes@[i])@ == upper_of(ps[i].seccion.codigo@),
            forall|i: int| 0 <= i < n ==> #[trigger] cfgc@[i] == cfg_coded(ps[i]),
            forall|i: int| 0 <= i < n ==> #[trigger] fil@[i] == cumple_filtros(ps[i], params.filtros),
            forall|i: int| 0 <= i < n ==> #[trigger] el_ok@[i] == elective_ok(ps[i], ramos@, params.ramos_pasados@),
            mc == 0 ==> forall|i: int| 0 <= i < n ==> !(#[trigger] cfgc@[i]),
            order.len() == n,
            forall|k: int| 0 <= k < order.len() ==> #[trigger] order@[k] < n,
            it <= max_it,
            max_it >= 500,
            resets <= it,
            it == 0 ==> forall|i: int| 0 <= i < n ==> remaining@[i],
            it == 0 ==> sols.len() == 0,
            sols.len() == keys.len() && sols.len() == gidx.len(),
            forall|t: int| 0 <= t < keys.len() ==> (#[trigger] keys@[t]).deep_view() == box_key_of(sols@[t].0@),
            keys_distinct(sols@),
            forall|t: int| 0 <= t < sols.len() ==> 1 <= (#[trigger] sols@[t]).0.len() <= 6
                && drawn(secs@, ramos@, sols@[t].0@, gidx[t]) && cfg_count(secs@, gidx[t]) <= mc
                && (forall|a: int| 0 <= a < gidx[t].len() ==> pool@.contains(#[trigger] gidx[t][a]))
                && sols@[t].1 == modified_score(entries_sum(sols@[t].0@), sols@[t].0@, *params),
            ley == plain_pool(secs@, ramos@, pool@),
            forall|k: int| 0 <= k < pool.len() ==> cumple_filtros(secs@[#[trigger] pool@[k] as int], params.filtros),
            ley && it > 0 ==> sols.len() > 0,
        ensures
            sols.len() == gidx.len(),
            sols.len() == keys.len(),
            forall|t: int| 0 <= t < keys.len() ==> (#[trigger] keys@[t]).deep_view() == box_key_of(sols@[t].0@),
            keys_distinct(sols@),
            forall|t: int| 0 <= t < sols.len() ==> 1 <= (#[trigger] sols@[t]).0.len() <= 6
                && drawn(secs@, ramos@, sols@[t].0@, gidx[t]) && cfg_count(secs@, gidx[t]) <= mc
                && (forall|a: int| 0 <= a < gidx[t].len() ==> pool@.contains(#[trigger] gidx[t][a]))
                && sols@[t].1 == modified_score(entries_sum(sols@[t].0@), sols@[t].0@, *params),
            ley ==> sols.len() > 0,
        decreases max_it - it,
    {
        it = it + 1;
        proof {
            if it == 1 {
                assert(remaining@[0]);
            }
        }
        if !any_true(&remaining) {
            if reuse && sols.len() < 15 {
                let mut z: usize = 0;
                while z < n
                    invariant
                        z <= n,
                        remaining.len() == n,
                        forall|i: int| 0 <= i < z ==> remaining@[i],
                    decreases n - z,
                {
                    remaining.set(z, true);
                    z = z + 1;
                }
                resets = resets + 1;
                if resets > 20 {
                    break;
                }
            } else {
                break;
            }
        }
        let mut q: usize = 0;
        let mut seed_opt: Option<usize> = None;
        let ghost first_round = it == 1 && (forall|i: int| 0 <= i < n ==> remaining@[i]);
        while q < order.len()
            invariant_except_break
                seed_opt is None,
            invariant
                q <= order.len() == n,
                n > 0,
                remaining.len() == n,
                forall|k: int| 0 <= k < order.len() ==> #[trigger] order@[k] < n,
                first_round ==> q == 0 && forall|i: int| 0 <= i < n ==> remaining@[i],
            ensures
                seed_opt matches Some(x) ==> x < n,
                first_round ==> seed_opt == Some(order@[0]),
            decreases order.len() - q,
        {
            if remaining[order[q]] {
                seed_opt = Some(order[q]);
                break;
            }
            q = q + 1;
        }
        let seed = match seed_opt {
            Some(x) => x,
            None => {
                break;
            },
        };
        proof {
            if ley && it == 1 {
                assert(ps[seed as int] == secs@[pool@[seed as int] as int]);
                assert(cumple_filtros(secs@[pool@[seed as int] as int], params.filtros));
            }
        }
        if !fil[seed] || !el_ok[seed] {
            remaining.set(seed, false);
            continue;
        }
        let clique = grow_clique(seed, &order, &remaining, &adj, &codes, &cfgc, &fil, &el_ok, &bkeys, &secc, maxc);
        let (sol, gi) = clique_solution(secs, ramos, &pool, &clique, &lows, &lnames, &adj, &codes, &cfgc);
        if sol.len() > 0 {
            let key = box_key(&sol);
            let dup = key_seen(&keys, &key);
            if !dup {
                proof {
                    lemma_weights_bounded(secs@, ramos@, sol@, gi@);
                    lemma_ranges_of_drawn(secs@, ramos@, sol@, gi@);
                    assert(modifiers_fit(entries_sum(sol@), sol@, *params));
                }
                let total = entries_sum_exec(&sol);
                let score = apply_optimization_modifiers(total, &sol, params);
                let ghost sv = sol@;
                let ghost old_sols = sols@;
                let ghost old_keys = keys@;
                sols.push((sol, score));
                keys.push(key);
                proof {
                    assert forall|t: int| 0 <= t < keys.len() implies (#[trigger] keys@[t]).deep_view()
                        == box_key_of(sols@[t].0@) by {
                        if t < old_keys.len() {
                            assert(keys@[t] == old_keys[t] && sols@[t] == old_sols[t]);
                        }
                    }
                    assert forall|t: int, u: int| 0 <= t < u < sols.len() implies box_key_of((#[trigger] sols@[t]).0@)
                        != box_key_of((#[trigger] sols@[u]).0@) by {
                        assert(sols@[t] == old_sols[t]);
                        if u < old_sols.len() {
                            assert(sols@[u] == old_sols[u]);
                        } else {
                            assert(old_keys[t].deep_view() == box_key_of(old_sols[t].0@));
                        }
                    }
                    gidx = gidx.push(gi@);
                    assert forall|t: int| 0 <= t < sols.len() implies 1 <= (#[trigger] sols@[t]).0.len() <= 6
                        && drawn(secs@, ramos@, sols@[t].0@, gidx[t]) && cfg_count(secs@, gidx[t]) <= mc
                        && (forall|a: int| 0 <= a < gidx[t].len() ==> pool@.contains(#[trigger] gidx[t][a]))
                        && sols@[t].1 == modified_score(entries_sum(sols@[t].0@), sols@[t].0@, *params) by {
                        if t < old_sols.len() {
                            assert(sols@[t] == old_sols[t]);
                        }
                    }
                }
                resets = 0;
                let mut m = clique[0];
                let mut k: usize = 1;
                while k < clique.len()
                    invariant
                        1 <= k <= clique.len(),
                        m < n,
                        pri.len() == n,
                        forall|x: int| 0 <= x < clique.len() ==> #[trigger] clique@[x] < n,
                    decreases clique.len() - k,
                {
                    if pri[clique[k]] < pri[m] {
                        m = clique[k];
                    }
                    k = k + 1;
                }
                remaining.set(m, false);
            } else {
                remaining.set(seed, false);
            }
        } else {
            remaining.set(seed, false);
        }
    }
    let ghost pred = proposed_pred(secs@, ramos@, *params, mc);
    proof {
        assert forall|t: int| 0 <= t < sols.len() implies #[trigger] pred(sols@[t]) by {
            assert(drawn(secs@, ramos@, sols@[t].0@, gidx[t]));
        }
    }
    if sols.len() < 5 {
        let extras = exhaustive_extras(secs, ramos, params, &pool);
        proof {
            assert forall|t: int| 0 <= t < extras.len() implies #[trigger] pred(extras@[t]) by {
                assert(gathered(pool_secs(secs@, pool@), ramos@, *params, 6, extras@[t].0@, extras@[t].1));
            }
        }
        let ghost (s0, k0, e0) = (sols@, keys.deep_view(), extras@);
        proof {
            assert forall|t: int| 0 <= t < k0.len() implies #[trigger] k0[t] == box_key_of(s0[t].0@) by {
                assert(k0[t] == keys@[t].deep_view());
            }
        }
        merge_new(&mut sols, &mut keys, extras, usize::MAX, Ghost(pred));
        proof {
            lemma_merged_distinct(s0, k0, e0, usize::MAX as int);
        }
    }
    let sorted = sort_by_score(sols, Ghost(pred));
    let out = select_timetables(sorted, params.filtros.is_some(), Ghost(pred));
    proof {
        assert forall|t: int| 0 <= t < out.len() implies proposed(secs@, ramos@, *params, max_cfgs(params.ramos_pasados@),
            (#[trigger] out@[t]).0@, out@[t].1) by {
            assert(pred(out@[t]));
        }
    }
    out
}

/// The greedy planner run with a custom iteration budget: the budget is not used, and
/// the answer is that of `get_clique_max_pond_with_prefs`.
pub fn get_clique_max_pond_with_prefs_extended(
    secs: &[SeccionPlan],
    ramos: &[RamoDisponible],
    params: &PlanParams,
    max_iterations_override: usize,
) -> (r: Vec<(Vec<(Seccion, i32)>, i64)>)
    requires
        pool_fits(secs@, ramos@, *params),
        codes_cut(secs@),
        ranges_fit_all(secs@),
        wishes_fit(*params, 6),
        gap_filter(params.filtros) is Some ==> timetables_fit(secs@),
    ensures
        planner_cases(secs@, ramos@, *params, r@),
        params.filtros is None ==> forall|t: int| 0 <= t < r.len() ==> (#[trigger] r@[t]).0.len() == r@[0].0.len(),
        sorted_within(r@, params.filtros is Some),
        params.filtros is Some ==> forall|t: int, u: int| 0 <= t < u < r.len() && (#[trigger] r@[u]).0.len() == 6
            ==> (#[trigger] r@[t]).0.len() == 6,
        pool_positions(secs@, ramos@, *params).len() > 0
            && plain_pool(secs@, ramos@, pool_positions(secs@, ramos@, *params)) ==> r.len() > 0,
        keys_distinct(r@),
{
    get_clique_max_pond_with_prefs(secs, ramos, params)
}

/// The plan that ignores timetables: the first six sections (fewer when fewer are
/// given), each weighted 50, scored 300; no plan when no section is given.
pub fn get_clique_dependencies_only(secs: &[Seccion], ramos: &[RamoDisponible]) -> (r: Vec<(Vec<(Seccion, i32)>, i64)>)
    ensures
        secs.len() == 0 ==> r.len() == 0,
        secs.len() > 0 ==> r.len() == 1 && r@[0].1 == 300
            && r@[0].0.len() == (if secs.len() < 6 { secs.len() as int } else { 6 })
            && forall|i: int| 0 <= i < r@[0].0.len() ==> same_section((#[trigger] r@[0].0@[i]).0, secs@[i])
                && r@[0].0@[i].1 == 50,
{
    let mut sol: Vec<(Seccion, i32)> = Vec::new();
    let mut i: usize = 0;
    while i < secs.len() && i < 6
        invariant
            i <= secs.len(),
            i <= 6,
            sol.len() == i,
            forall|k: int| 0 <= k < i ==> same_section((#[trigger] sol@[k]).0, secs@[k]) && sol@[k].1 == 50,
        decreases secs.len() - i,
    {
        sol.push((secs[i].duplicate(), 50));
        i = i + 1;
    }
    let mut out: Vec<(Vec<(Seccion, i32)>, i64)> = Vec::new();
    if sol.len() > 0 {
        out.push((sol, 300));
    }
    out
}

/// The timetables of the exhaustive search over the pool sections, of at most six
/// sections and at most five thousand, taken when the greedy search finds few.
fn exhaustive_extras(secs: &[SeccionPlan], ramos: &[RamoDisponible], params: &PlanParams, pool: &Vec<usize>)
    -> (r: Vec<(Vec<(Seccion, i32)>, i64)>)
    requires
        pool_fits(secs@, ramos@, *params),
        codes_cut(secs@),
        ranges_fit_all(secs@),
        gap_filter(params.filtros) is Some ==> timetables_fit(secs@),
        wishes_fit(*params, 6),
        forall|k: int| 0 <= k < pool.len() ==> #[trigger] pool@[k] < secs.len(),
    ensures
        forall|t: int| 0 <= t < r.len() ==> gathered(pool_secs(secs@, pool@), ramos@, *params, 6, (#[trigger] r@[t]).0@, r@[t].1),
        (exists|k: int| 0 <= k < pool.len() && secs@[#[trigger] pool@[k] as int].is_cfg
            && sealed(secs@[pool@[k] as int], ramos@, params.ramos_pasados@)) ==> r.len() > 0,
        (exists|k: int| 0 <= k < pool.len() && sealed(secs@[#[trigger] pool@[k] as int], ramos@, params.ramos_pasados@)
            && cumple_filtros(secs@[pool@[k] as int], params.filtros)
            && strict_prereqs(secs@[pool@[k] as int], ramos@, params.ramos_pasados@)) ==> r.len() > 0,
{
    let mut psecs: Vec<SeccionPlan> = Vec::new();
    let mut k: usize = 0;
    while k < pool.len()
        invariant
            k <= pool.len(),
            forall|q: int| 0 <= q < pool.len() ==> #[trigger] pool@[q] < secs.len(),
            psecs.len() == k,
            forall|i: int| 0 <= i < k ==> same_section((#[trigger] psecs@[i]).seccion, secs@[pool@[i] as int].seccion)
                && psecs@[i].seccion.horario@ == secs@[pool@[i] as int].seccion.horario@
                && psecs@[i].is_cfg == secs@[pool@[i] as int].is_cfg,
        decreases pool.len() - k,
    {
        psecs.push(copy_plan(&secs[pool[k]]));
        k = k + 1;
    }
    let ghost pv = psecs@;
    proof {
        assert forall|i: int| 0 <= i < pv.len() implies cut7_ok((#[trigger] pv[i]).seccion.codigo@) by {
            assert(cut7_ok(secs@[pool@[i] as int].seccion.codigo@));
        }
        assert forall|i: int| 0 <= i < pv.len() implies filters_fit((#[trigger] pv[i]).seccion, params.filtros) by {
            assert(filters_fit(secs@[pool@[i] as int].seccion, params.filtros));
        }
        assert forall|i: int, j: int| 0 <= i < pv.len() && 0 <= j < pv[i].seccion.horario@.len()
            implies range_fits((#[trigger] pv[i].seccion.horario@[j])@) by {
            assert(pv[i].seccion.horario@[j] == secs@[pool@[i] as int].seccion.horario@[j]);
        }
        if gap_filter(params.filtros) is Some {
            assert forall|i: int| 0 <= i < pv.len() implies timetable_fits(#[trigger] pv[i].seccion.horario@) by {
                assert(timetable_fits(secs@[pool@[i] as int].seccion.horario@));
            }
        }
    }
    proof {
        if exists|k: int| 0 <= k < pool.len() && secs@[#[trigger] pool@[k] as int].is_cfg
            && sealed(secs@[pool@[k] as int], ramos@, params.ramos_pasados@) {
            let k = choose|k: int| 0 <= k < pool.len() && secs@[#[trigger] pool@[k] as int].is_cfg
                && sealed(secs@[pool@[k] as int], ramos@, params.ramos_pasados@);
            assert(same_section(pv[k].seccion, secs@[pool@[k] as int].seccion));
            assert(pv[k].is_cfg && sealed(pv[k], ramos@, params.ramos_pasados@));
        }
        if exists|k: int| 0 <= k < pool.len() && sealed(secs@[#[trigger] pool@[k] as int], ramos@, params.ramos_pasados@)
            && cumple_filtros(secs@[pool@[k] as int], params.filtros)
            && strict_prereqs(secs@[pool@[k] as int], ramos@, params.ramos_pasados@) {
            let k = choose|k: int| 0 <= k < pool.len() && sealed(secs@[#[trigger] pool@[k] as int], ramos@, params.ramos_pasados@)
                && cumple_filtros(secs@[pool@[k] as int], params.filtros)
                && strict_prereqs(secs@[pool@[k] as int], ramos@, params.ramos_pasados@);
            assert(same_section(pv[k].seccion, secs@[pool@[k] as int].seccion));
            assert(sealed(pv[k], ramos@, params.ramos_pasados@) && cumple_filtros(pv[k], params.filtros)
                && strict_prereqs(pv[k], ramos@, params.ramos_pasados@));
        }
    }
    let extras = get_all_clique_combinations_with_pert(&psecs, ramos, params, 6, 5000);
    proof {
        let ps = pool_secs(secs@, pool@);
        let id = Seq::new(pv.len(), |i: int| i as usize);
        assert forall|i: int| 0 <= i < id.len() implies #[trigger] id[i] < ps.len()
            && same_section(pv[i].seccion, ps[id[i] as int].seccion) && pv[i].is_cfg == ps[id[i] as int].is_cfg by {
            assert(ps[i] == secs@[pool@[i] as int]);
        }
        assert(crate::clique_all::copies_at(ps, pv, id));
        assert forall|t: int| 0 <= t < extras.len() implies gathered(ps, ramos@, *params, 6, (#[trigger] extras@[t]).0@, extras@[t].1) by {
            lemma_gathered_transfer(ps, pv, ramos@, id, *params, 6, extras@[t].0@, extras@[t].1);
        }
    }
    extras
}

/// The weight of a section in an enumerated timetable: the priority of its course
/// (by lower-cased code or name), 0 without one.
pub open spec fn enum_weight(ramos: Seq<RamoDisponible>, s: SeccionPlan) -> int {
    match lon_match(ramos, s.seccion, 0) {
        Some(k) => priority(ramos[k], s.seccion.seccion@),
        None => 0,
    }
}

/// Whether `sol` lists, with their enumeration weights, the sections at positions
/// `idx`, each adjacent in `adj` to every later one, with pairwise different
/// upper-cased codes.
pub open spec fn enum_drawn(
    secs: Seq<SeccionPlan>,
    ramos: Seq<RamoDisponible>,
    adj: Seq<Vec<bool>>,
    sol: Seq<(Seccion, i32)>,
    idx: Seq<usize>,
) -> bool {
    &&& idx.len() == sol.len()
    &&& forall|a: int| 0 <= a < idx.len() ==> (#[trigger] idx[a]) < secs.len()
        && same_section(sol[a].0, secs[idx[a] as int].seccion) && enum_weight(ramos, secs[idx[a] as int]) == sol[a].1 as int
    &&& forall|a: int, b: int| 0 <= a < b < idx.len() ==> adj[#[trigger] idx[a] as int]@[#[trigger] idx[b] as int]
    &&& forall|a: int, b: int| 0 <= a < idx.len() && 0 <= b < idx.len() && a != b
        ==> upper_of(secs[#[trigger] idx[a] as int].seccion.codigo@) != upper_of(secs[#[trigger] idx[b] as int].seccion.codigo@)
}

/// Whether `sol` with `score` is an enumerated timetable of `min..=max` sections,
/// scored by its weights adjusted to the student's wishes.
pub open spec fn enumerated(
    secs: Seq<SeccionPlan>,
    ramos: Seq<RamoDisponible>,
    adj: Seq<Vec<bool>>,
    params: PlanParams,
    min: int,
    max: int,
    sol: Seq<(Seccion, i32)>,
    score: i64,
) -> bool {
    &&& min <= sol.len() <= max
    &&& score == modified_score(entries_sum(sol), sol, params)
    &&& exists|idx: Seq<usize>| #[trigger] enum_drawn(secs, ramos, adj, sol, idx)
}

/// What the enumeration consults about each section: upper-cased code, whether it
/// passes the filters, whether its prerequisites are passed (sections of no course
/// are left out), and its weight.
struct EnumCtx {
    codes: Vec<Vec<char>>,
    fil: Vec<bool>,
    pre: Vec<bool>,
    weights: Vec<i32>,
    gap_min: Option<i32>,
}

/// Whether a context describes the sections.
spec fn ctx_ok(ctx: EnumCtx, secs: Seq<SeccionPlan>, ramos: Seq<RamoDisponible>) -> bool {
    &&& ctx.codes.len() == secs.len() && ctx.fil.len() == secs.len() && ctx.pre.len() == secs.len()
        && ctx.weights.len() == secs.len()
    &&& forall|i: int| 0 <= i < secs.len() ==> (#[trigger] ctx.codes@[i])@ == upper_of(secs[i].seccion.codigo@)
    &&& forall|i: int| 0 <= i < secs.len() ==> #[trigger] ctx.weights@[i] as int == enum_weight(ramos, secs[i])
    &&& forall|i: int| 0 <= i < secs.len() ==> 0 <= #[trigger] ctx.weights@[i] <= 20_000_000
}

/// Whether every timetable of the sections can be read within `i32`.
pub open spec fn timetables_fit(secs: Seq<SeccionPlan>) -> bool {
    forall|i: int| 0 <= i < secs.len() ==> timetable_fits(#[trigger] secs[i].seccion.horario@)
}

/// Whether the positions `cur` are each adjacent to every later one and of pairwise
/// different codes.
spec fn cur_ok(adj: Seq<Vec<bool>>, codes: Seq<Vec<char>>, n: int, cur: Seq<usize>) -> bool {
    &&& forall|k: int| 0 <= k < cur.len() ==> #[trigger] cur[k] < n
    &&& forall|a: int, b: int| 0 <= a < b < cur.len() ==> adj[#[trigger] cur[a] as int]@[#[trigger] cur[b] as int]
    &&& forall|a: int, b: int| 0 <= a < cur.len() && 0 <= b < cur.len() && a != b
        ==> codes[#[trigger] cur[a] as int]@ != codes[#[trigger] cur[b] as int]@
}

/// The sections at positions `cur` with their weights and the box-code key.
fn enum_solution(secs: &[SeccionPlan], ctx: &EnumCtx, cur: &Vec<usize>, ramos: Ghost<Seq<RamoDisponible>>)
    -> (r: Vec<(Seccion, i32)>)
    requires
        ctx_ok(*ctx, secs@, ramos@),
        forall|k: int| 0 <= k < cur.len() ==> #[trigger] cur@[k] < secs.len(),
    ensures
        r.len() == cur.len(),
        forall|a: int| 0 <= a < cur.len() ==> same_section((#[trigger] r@[a]).0, secs@[cur@[a] as int].seccion)
            && enum_weight(ramos@, secs@[cur@[a] as int]) == r@[a].1 as int,
{
    let mut sol: Vec<(Seccion, i32)> = Vec::new();
    let mut k: usize = 0;
    while k < cur.len()
        invariant
            k <= cur.len(),
            ctx_ok(*ctx, secs@, ramos@),
            forall|q: int| 0 <= q < cur.len() ==> #[trigger] cur@[q] < secs.len(),
            sol.len() == k,
            forall|a: int| 0 <= a < k ==> same_section((#[trigger] sol@[a]).0, secs@[cur@[a] as int].seccion)
                && enum_weight(ramos@, secs@[cur@[a] as int]) == sol@[a].1 as int,
        decreases cur.len() - k,
    {
        let i = cur[k];
        sol.push((secs[i].seccion.duplicate(), ctx.weights[i]));
        k = k + 1;
    }
    sol
}

/// The box-code keys of timetables, in order.
pub open spec fn keys_of(rs: Seq<(Vec<(Seccion, i32)>, i64)>) -> Seq<Seq<Seq<char>>> {
    rs.map_values(|x: (Vec<(Seccion, i32)>, i64)| box_key_of(x.0@))
}

/// Whether no two timetables list the same box codes.
pub open spec fn keys_distinct(rs: Seq<(Vec<(Seccion, i32)>, i64)>) -> bool {
    forall|t: int, u: int| 0 <= t < u < rs.len() ==> box_key_of((#[trigger] rs[t]).0@) != box_key_of((#[trigger] rs[u]).0@)
}

/// Moving the first timetable of `b` to position `p` of `a` keeps the box codes of
/// `a` followed by `b` pairwise different.
pub proof fn lemma_distinct_move(a: Seq<(Vec<(Seccion, i32)>, i64)>, b: Seq<(Vec<(Seccion, i32)>, i64)>, p: int)
    requires
        keys_distinct(a + b),
        b.len() > 0,
        0 <= p <= a.len(),
    ensures
        keys_distinct(a.insert(p, b[0]) + b.drop_first()),
{
    let old = a + b;
    let new = a.insert(p, b[0]) + b.drop_first();
    let al = a.len() as int;
    assert(new.len() == old.len());
    let f = |t: int| if t < p { t } else if t == p { al } else if t <= al { t - 1 } else { t };
    assert forall|t: int| 0 <= t < new.len() implies 0 <= #[trigger] f(t) < old.len() && new[t] == old[f(t)] by {
        if t < p {
            assert(new[t] == a[t]);
        } else if t == p {
            assert(new[t] == b[0]);
        } else if t <= al {
            assert(new[t] == a[t - 1]);
        } else {
            assert(new[t] == b.drop_first()[t - al - 1]);
        }
    }
    assert forall|t: int, u: int| 0 <= t < u < new.len() implies box_key_of((#[trigger] new[t]).0@)
        != box_key_of((#[trigger] new[u]).0@) by {
        assert(new[t] == old[f(t)] && new[u] == old[f(u)]);
        if f(t) < f(u) {
            assert(box_key_of(old[f(t)].0@) != box_key_of(old[f(u)].0@));
        } else {
            assert(f(t) != f(u));
            assert(box_key_of(old[f(u)].0@) != box_key_of(old[f(t)].0@));
        }
    }
}

/// The box-code key of the sections at positions `cur`.
pub open spec fn positions_key(secs: Seq<SeccionPlan>, cur: Seq<usize>) -> Seq<Seq<char>> {
    box_key_of(cur.map_values(|i: usize| (secs[i as int].seccion, 0i32)))
}

pub(crate) proof fn lemma_box_key_upto_boxes(s1: Seq<(Seccion, i32)>, s2: Seq<(Seccion, i32)>, k: int)
    requires
        s1.len() == s2.len(),
        forall|a: int| 0 <= a < s1.len() ==> (#[trigger] s1[a]).0.codigo_box@ == s2[a].0.codigo_box@,
    ensures
        box_key_upto(s1, k) == box_key_upto(s2, k),
    decreases k,
{
    if 0 < k <= s1.len() {
        lemma_box_key_upto_boxes(s1, s2, k - 1);
        assert(s1[k - 1].0.codigo_box@ == s2[k - 1].0.codigo_box@);
    }
}

/// The key of a timetable of the sections at `cur` is the key of those positions.
proof fn lemma_positions_key(secs: Seq<SeccionPlan>, cur: Seq<usize>, sol: Seq<(Seccion, i32)>)
    requires
        sol.len() == cur.len(),
        forall|a: int| 0 <= a < cur.len() ==> same_section((#[trigger] sol[a]).0, secs[cur[a] as int].seccion),
    ensures
        box_key_of(sol) == positions_key(secs, cur),
{
    let s2 = cur.map_values(|i: usize| (secs[i as int].seccion, 0i32));
    assert forall|a: int| 0 <= a < sol.len() implies (#[trigger] sol[a]).0.codigo_box@ == s2[a].0.codigo_box@ by {
        assert(same_section(sol[a].0, secs[cur[a] as int].seccion));
    }
    lemma_box_key_upto_boxes(sol, s2, sol.len() as int);
}

/// A key among the timetables stays among them when more are added after them.
proof fn lemma_keys_kept(old_r: Seq<(Vec<(Seccion, i32)>, i64)>, new_r: Seq<(Vec<(Seccion, i32)>, i64)>, k: Seq<Seq<char>>)
    requires
        new_r.len() >= old_r.len(),
        new_r.subrange(0, old_r.len() as int) == old_r,
        keys_of(old_r).contains(k),
    ensures
        keys_of(new_r).contains(k),
{
    let x = choose|x: int| 0 <= x < keys_of(old_r).len() && keys_of(old_r)[x] == k;
    assert(new_r.subrange(0, old_r.len() as int)[x] == new_r[x]);
    assert(keys_of(new_r)[x] == k);
}

/// The adjacency of a matrix, as a relation on positions.
pub open spec fn adj_of(adj: Seq<Vec<bool>>) -> spec_fn(int, int) -> bool {
    |x: int, y: int| adj[x]@[y]
}

/// Whether section `i` may join the sections at positions `prev` in an enumerated
/// timetable: it passes the filters, its prerequisites are passed, and each of `prev`
/// is adjacent to it (`adj`), of another upper-cased code and, under the gap filter,
/// far enough from it.
pub open spec fn joins(
    secs: Seq<SeccionPlan>,
    ramos: Seq<RamoDisponible>,
    adj: spec_fn(int, int) -> bool,
    params: PlanParams,
    prev: Seq<usize>,
    i: usize,
) -> bool {
    &&& (i as int) < secs.len()
    &&& cumple_filtros(secs[i as int], params.filtros)
    &&& strict_prereqs(secs[i as int], ramos, params.ramos_pasados@)
    &&& forall|x: int| 0 <= x < prev.len() ==> adj(#[trigger] prev[x] as int, i as int)
        && upper_of(secs[prev[x] as int].seccion.codigo@) != upper_of(secs[i as int].seccion.codigo@)
        && (gap_filter(params.filtros) matches Some(m) ==> ranges_apart(
            timetable_ranges(secs[prev[x] as int].seccion.horario@),
            timetable_ranges(secs[i as int].seccion.horario@),
            m as int,
        ))
}

/// Whether the positions `ext` may be added one after another to `cur`, each joining
/// those before it (see `joins`).
pub open spec fn chain_ok(
    secs: Seq<SeccionPlan>,
    ramos: Seq<RamoDisponible>,
    adj: spec_fn(int, int) -> bool,
    params: PlanParams,
    cur: Seq<usize>,
    ext: Seq<usize>,
) -> bool {
    forall|j: int| 0 <= j < ext.len() ==> joins(secs, ramos, adj, params, cur + ext.take(j), #[trigger] ext[j])
}

/// Whether `ext` lists positions found in `order` at increasing places, from `start` on.
pub open spec fn subseq_from(order: Seq<usize>, start: int, ext: Seq<usize>) -> bool
    decreases ext.len(),
{
    if ext.len() == 0 {
        true
    } else {
        exists|p: int| #![trigger order[p]] start <= p < order.len() && order[p] == ext[0]
            && subseq_from(order, p + 1, ext.drop_first())
    }
}

/// Whether `order` lists each of the positions `0..n`.
pub open spec fn covers(order: Seq<usize>, n: int) -> bool {
    &&& order.len() == n
    &&& forall|j: int| 0 <= j < n ==> #[trigger] order.contains(j as usize)
}

proof fn lemma_chain_step(
    secs: Seq<SeccionPlan>,
    ramos: Seq<RamoDisponible>,
    adj: spec_fn(int, int) -> bool,
    params: PlanParams,
    cur: Seq<usize>,
    ext: Seq<usize>,
)
    requires
        ext.len() > 0,
        chain_ok(secs, ramos, adj, params, cur, ext),
    ensures
        joins(secs, ramos, adj, params, cur, ext[0]),
        chain_ok(secs, ramos, adj, params, cur.push(ext[0]), ext.drop_first()),
        cur.push(ext[0]) + ext.drop_first() == cur + ext,
{
    assert(cur + ext.take(0) =~= cur);
    assert(joins(secs, ramos, adj, params, cur + ext.take(0), ext[0]));
    let e2 = ext.drop_first();
    assert forall|j: int| 0 <= j < e2.len() implies joins(secs, ramos, adj, params, cur.push(ext[0]) + e2.take(j), #[trigger] e2[j]) by {
        assert(cur.push(ext[0]) + e2.take(j) =~= cur + ext.take(j + 1));
        assert(e2[j] == ext[j + 1]);
        assert(joins(secs, ramos, adj, params, cur + ext.take(j + 1), ext[j + 1]));
    }
    assert(cur.push(ext[0]) + ext.drop_first() =~= cur + ext);
}

/// Depth-first enumeration of the cliques that extend `cur` with positions of
/// `order[start..]`, recording those of at least `min_size` sections not recorded yet
/// (by box codes), until `limit` timetables exist.
fn enum_dfs(
    start: usize,
    secs: &[SeccionPlan],
    adj: &Vec<Vec<bool>>,
    order: &Vec<usize>,
    ctx: &EnumCtx,
    params: &PlanParams,
    min_size: usize,
    max_size: usize,
    limit: usize,
    cur: &mut Vec<usize>,
    results: &mut Vec<(Vec<(Seccion, i32)>, i64)>,
    seen: &mut Vec<Vec<Vec<char>>>,
    ramos: Ghost<Seq<RamoDisponible>>,
)
    requires
        ctx_ok(*ctx, secs@, ramos@),
        adj.len() == secs.len(),
        forall|i: int| 0 <= i < adj.len() ==> (#[trigger] adj@[i]).len() == secs.len(),
        forall|k: int| 0 <= k < order.len() ==> #[trigger] order@[k] < secs.len(),
        ranges_fit_all(secs@),
        ctx.gap_min is Some ==> timetables_fit(secs@),
        wishes_fit(*params, max_size as int),
        ctx.gap_min == gap_filter(params.filtros),
        forall|i: int| 0 <= i < secs.len() ==> #[trigger] ctx.fil@[i] == cumple_filtros(secs@[i], params.filtros),
        forall|i: int| 0 <= i < secs.len() ==> #[trigger] ctx.pre@[i] == strict_prereqs(secs@[i], ramos@, params.ramos_pasados@),
        old(cur).len() <= max_size,
        cur_ok(adj@, ctx.codes@, secs.len() as int, old(cur)@),
        old(results).len() <= limit,
        forall|t: int| 0 <= t < old(results).len() ==> enumerated(secs@, ramos@, adj@, *params, min_size as int,
            max_size as int, (#[trigger] old(results)@[t]).0@, old(results)@[t].1),
    ensures
        final(cur)@ == old(cur)@,
        final(results).len() <= limit,
        forall|t: int| 0 <= t < final(results).len() ==> enumerated(secs@, ramos@, adj@, *params, min_size as int,
            max_size as int, (#[trigger] final(results)@[t]).0@, final(results)@[t].1),
        final(results).len() >= old(results).len(),
        final(results)@.subrange(0, old(results).len() as int) == old(results)@,
        old(seen).deep_view() == keys_of(old(results)@) ==> final(seen).deep_view() == keys_of(final(results)@),
        old(seen).deep_view() == keys_of(old(results)@) && keys_distinct(old(results)@) ==> keys_distinct(final(results)@),
        old(seen).deep_view() == keys_of(old(results)@) && old(results).len() == 0 && 0 < limit
            && old(cur).len() >= min_size ==> final(results).len() > 0,
        old(seen).deep_view() == keys_of(old(results)@) && old(results).len() < limit && old(cur).len() == 0
            && 0 < max_size && min_size <= 1 && (exists|p: int| start <= p < order.len()
            && #[trigger] ctx.fil@[order@[p] as int] && ctx.pre@[order@[p] as int]) ==> final(results).len() > 0,
        old(seen).deep_view() == keys_of(old(results)@) && old(cur).len() >= min_size && final(results).len() < limit
            ==> keys_of(final(results)@).contains(positions_key(secs@, old(cur)@)),
        old(seen).deep_view() == keys_of(old(results)@) && old(cur).len() == 0 && min_size <= 1 && 1 <= max_size
            && final(results).len() < limit ==> forall|p: int| start <= p < order.len() && #[trigger] ctx.fil@[order@[p] as int]
            && ctx.pre@[order@[p] as int] ==> keys_of(final(results)@).contains(positions_key(secs@, seq![order@[p]])),
        old(seen).deep_view() == keys_of(old(results)@) && final(results).len() < limit ==> forall|ext: Seq<usize>|
            #[trigger] subseq_from(order@, start as int, ext)
            && chain_ok(secs@, ramos@, adj_of(adj@), *params, old(cur)@, ext)
            && min_size <= old(cur).len() + ext.len() <= max_size
            ==> keys_of(final(results)@).contains(positions_key(secs@, old(cur)@ + ext)),
    decreases max_size - old(cur).len(),
{
    let ghost r0 = results@;
    let ghost rel = seen.deep_view() == keys_of(results@) && keys_distinct(results@);
    let ghost rel0 = seen.deep_view() == keys_of(results@);
    let ghost pk = positions_key(secs@, cur@);
    if results.len() >= limit {
        assert(results@.subrange(0, r0.len() as int) =~= r0);
        return;
    }
    if cur.len() >= min_size {
        let sol = enum_solution(secs, ctx, cur, ramos);
        let key = box_key(&sol);
        let mut dup = false;
        let mut t: usize = 0;
        while t < seen.len()
            invariant
                t <= seen.len(),
                dup == exists|x: int| 0 <= x < t && (#[trigger] seen@[x]).deep_view() == key.deep_view(),
            decreases seen.len() - t,
        {
            if same_keys(&seen[t], &key) {
                dup = true;
            }
            t = t + 1;
        }
        proof {
            lemma_positions_key(secs@, cur@, sol@);
            if dup && rel0 {
                let x = choose|x: int| 0 <= x < seen.len() && (#[trigger] seen@[x]).deep_view() == key.deep_view();
                assert(seen.deep_view()[x] == seen@[x].deep_view());
                assert(keys_of(results@)[x] == pk);
            }
        }
        if !dup {
            proof {
                assert(enum_drawn(secs@, ramos@, adj@, sol@, cur@));
                assert forall|a: int| 0 <= a < sol.len() implies 0 <= (#[trigger] sol@[a]).1 <= 20_000_000 by {
                    assert(ctx.weights@[cur@[a] as int] as int == enum_weight(ramos@, secs@[cur@[a] as int]));
                }
                assert(sol_ranges_fit(sol@)) by {
                    assert forall|k: int, j: int| 0 <= k < sol.len() && 0 <= j < sol@[k].0.horario@.len() implies range_fits(
                        (#[trigger] sol@[k].0.horario@[j])@,
                    ) by {
                        assert(same_section(sol@[k].0, secs@[cur@[k] as int].seccion));
                        assert(sol@[k].0.horario@[j] == secs@[cur@[k] as int].seccion.horario@[j]);
                    }
                }
            }
            proof {
                assert(modifiers_fit(entries_sum(sol@), sol@, *params));
            }
            let total = entries_sum_exec(&sol);
            let score = apply_optimization_modifiers(total, &sol, params);
            let ghost old_r = results@;
            let ghost old_s = seen.deep_view();
            let ghost kv = key.deep_view();
            let ghost sv = sol@;
            results.push((sol, score));
            seen.push(key);
            assert forall|t: int| 0 <= t < results.len() implies enumerated(secs@, ramos@, adj@, *params, min_size as int,
                max_size as int, (#[trigger] results@[t]).0@, results@[t].1) by {
                if t < old_r.len() {
                    assert(results@[t] == old_r[t]);
                } else {
                    assert(enum_drawn(secs@, ramos@, adj@, results@[t].0@, cur@));
                }
            }
            proof {
                assert(seen.deep_view() =~= old_s.push(kv)) by {
                    assert forall|x: int| 0 <= x < seen.len() implies seen.deep_view()[x] == old_s.push(kv)[x] by {
                        if x < old_s.len() {
                            assert(seen@[x] == old(seen)@[x]);
                        }
                    }
                }
                assert(keys_of(results@) =~= keys_of(old_r).push(box_key_of(sv))) by {
                    assert forall|x: int| 0 <= x < results.len() implies keys_of(results@)[x] == keys_of(old_r).push(box_key_of(sv))[x] by {
                        if x < old_r.len() {
                            assert(results@[x] == old_r[x]);
                        }
                    }
                }
                if rel0 {
                    assert forall|x: int| 0 <= x < old_r.len() implies box_key_of((#[trigger] old_r[x]).0@) != box_key_of(sv) by {
                        assert(keys_of(old_r)[x] == old_s[x]);
                        assert(old_s[x] == old(seen)@[x].deep_view());
                    }
                }
                if rel {
                    assert forall|t: int, u: int| 0 <= t < u < results.len() implies box_key_of((#[trigger] results@[t]).0@)
                        != box_key_of((#[trigger] results@[u]).0@) by {
                        if u < old_r.len() {
                            assert(results@[t] == old_r[t] && results@[u] == old_r[u]);
                        } else {
                            assert(results@[t] == old_r[t]);
                            assert(results@[u].0@ == sv);
                        }
                    }
                }
                assert(keys_of(results@)[old_r.len() as int] == pk);
            }
        }
    }
    assert(rel0 && cur@.len() >= min_size ==> keys_of(results@).contains(pk));
    if cur.len() >= max_size {
        assert(results@.subrange(0, r0.len() as int) =~= r0);
        proof {
            assert forall|ext: Seq<usize>| #[trigger] subseq_from(order@, start as int, ext)
                && chain_ok(secs@, ramos@, adj_of(adj@), *params, cur@, ext)
                && min_size <= cur.len() + ext.len() <= max_size && rel0
                implies keys_of(results@).contains(positions_key(secs@, cur@ + ext)) by {
                assert(cur@ + ext =~= cur@);
            }
        }
        return;
    }
    let ghost r_mid = results@;
    let ghost cur0 = cur@;
    let mut pos = start;
    while pos < order.len()
        invariant
            ctx_ok(*ctx, secs@, ramos@),
            adj.len() == secs.len(),
            forall|i: int| 0 <= i < adj.len() ==> (#[trigger] adj@[i]).len() == secs.len(),
            forall|k: int| 0 <= k < order.len() ==> #[trigger] order@[k] < secs.len(),
            ranges_fit_all(secs@),
            ctx.gap_min is Some ==> timetables_fit(secs@),
            wishes_fit(*params, max_size as int),
            cur@ == cur0,
            cur0 == old(cur)@,
            cur0.len() < max_size,
            cur_ok(adj@, ctx.codes@, secs.len() as int, cur0),
            results.len() <= limit,
            forall|t: int| 0 <= t < results.len() ==> enumerated(secs@, ramos@, adj@, *params, min_size as int,
                max_size as int, (#[trigger] results@[t]).0@, results@[t].1),
            r0 == old(results)@,
            results.len() >= r0.len(),
            results@.subrange(0, r0.len() as int) == r0,
            rel == (old(seen).deep_view() == keys_of(r0) && keys_distinct(r0)),
            rel0 == (old(seen).deep_view() == keys_of(r0)),
            rel0 ==> seen.deep_view() == keys_of(results@),
            rel ==> keys_distinct(results@),
            rel0 && r0.len() == 0 && 0 < limit && cur0.len() >= min_size ==> results.len() > 0,
            rel0 && r0.len() < limit && cur0.len() == 0 && 0 < max_size && min_size <= 1
                && (exists|p: int| start <= p < order.len() && #[trigger] ctx.fil@[order@[p] as int] && ctx.pre@[order@[p] as int])
                ==> results.len() > 0 || (exists|p: int| pos <= p < order.len() && #[trigger] ctx.fil@[order@[p] as int]
                    && ctx.pre@[order@[p] as int]),
            pk == positions_key(secs@, cur0),
            rel0 && cur0.len() >= min_size ==> keys_of(results@).contains(pk),
            rel0 && cur0.len() == 0 && min_size <= 1 && 1 <= max_size ==> forall|p: int| start <= p < pos
                && #[trigger] ctx.fil@[order@[p] as int] && ctx.pre@[order@[p] as int] ==> results.len() >= limit
                || keys_of(results@).contains(positions_key(secs@, seq![order@[p]])),
            ctx.gap_min == gap_filter(params.filtros),
            forall|i: int| 0 <= i < secs.len() ==> #[trigger] ctx.fil@[i] == cumple_filtros(secs@[i], params.filtros),
            forall|i: int| 0 <= i < secs.len() ==> #[trigger] ctx.pre@[i] == strict_prereqs(secs@[i], ramos@, params.ramos_pasados@),
            rel0 ==> forall|ext: Seq<usize>| #[trigger] subseq_from(order@, start as int, ext)
                && !subseq_from(order@, pos as int, ext)
                && chain_ok(secs@, ramos@, adj_of(adj@), *params, cur0, ext)
                && min_size <= cur0.len() + ext.len() <= max_size
                ==> results.len() >= limit || keys_of(results@).contains(positions_key(secs@, cur0 + ext)),
            start <= pos,
        ensures
            cur@ == cur0,
            results.len() <= limit,
            forall|t: int| 0 <= t < results.len() ==> enumerated(secs@, ramos@, adj@, *params, min_size as int,
                max_size as int, (#[trigger] results@[t]).0@, results@[t].1),
            results.len() >= r0.len(),
            results@.subrange(0, r0.len() as int) == r0,
            rel0 ==> seen.deep_view() == keys_of(results@),
            rel ==> keys_distinct(results@),
            rel0 && r0.len() == 0 && 0 < limit && cur0.len() >= min_size ==> results.len() > 0,
            rel0 && r0.len() < limit && cur0.len() == 0 && 0 < max_size && min_size <= 1
                && (exists|p: int| start <= p < order.len() && #[trigger] ctx.fil@[order@[p] as int] && ctx.pre@[order@[p] as int])
                ==> results.len() > 0,
            rel0 && cur0.len() >= min_size ==> keys_of(results@).contains(pk),
            rel0 && cur0.len() == 0 && min_size <= 1 && 1 <= max_size ==> forall|p: int| start <= p < order.len()
                && #[trigger] ctx.fil@[order@[p] as int] && ctx.pre@[order@[p] as int] ==> results.len() >= limit
                || keys_of(results@).contains(positions_key(secs@, seq![order@[p]])),
            rel0 ==> forall|ext: Seq<usize>| #[trigger] subseq_from(order@, start as int, ext) && ext.len() > 0
                && chain_ok(secs@, ramos@, adj_of(adj@), *params, cur0, ext)
                && min_size <= cur0.len() + ext.len() <= max_size
                ==> results.len() >= limit || keys_of(results@).contains(positions_key(secs@, cur0 + ext)),
        decreases order.len() - pos,
    {
        if results.len() >= limit {
            break;
        }
        let ghost rh = results@;
        let i = order[pos];
        let mut ok = true;
        let mut k: usize = 0;
        while k < cur.len()
            invariant
                k <= cur.len(),
                cur@ == cur0,
                i < secs.len(),
                adj.len() == secs.len(),
                forall|x: int| 0 <= x < adj.len() ==> (#[trigger] adj@[x]).len() == secs.len(),
                ctx_ok(*ctx, secs@, ramos@),
                cur_ok(adj@, ctx.codes@, secs.len() as int, cur0),
                cur0.len() == 0 ==> ok,
                ok ==> forall|x: int| 0 <= x < k ==> adj@[#[trigger] cur0[x] as int]@[i as int]
                    && ctx.codes@[cur0[x] as int]@ != ctx.codes@[i as int]@,
                ok ==> (ctx.gap_min is Some ==> forall|x: int| 0 <= x < k ==> ranges_apart(
                    timetable_ranges(secs@[#[trigger] cur0[x] as int].seccion.horario@),
                    timetable_ranges(secs@[i as int].seccion.horario@), ctx.gap_min->0 as int)),
                ctx.gap_min is Some ==> timetables_fit(secs@),
                (forall|x: int| 0 <= x < k ==> adj@[#[trigger] cur0[x] as int]@[i as int]
                    && ctx.codes@[cur0[x] as int]@ != ctx.codes@[i as int]@
                    && (ctx.gap_min is Some ==> ranges_apart(
                    timetable_ranges(secs@[cur0[x] as int].seccion.horario@),
                    timetable_ranges(secs@[i as int].seccion.horario@), ctx.gap_min->0 as int))) ==> ok,
            decreases cur.len() - k,
        {
            let u = cur[k];
            if !adj[u][i] || chars_eq(&ctx.codes[u], &ctx.codes[i]) {
                ok = false;
            } else {
                match ctx.gap_min {
                    Some(m) => {
                        if !cumple_ventana_entre(&secs[u].seccion, &secs[i].seccion, m) {
                            ok = false;
                        }
                    },
                    None => {},
                }
            }
            k = k + 1;
        }
        if ok && ctx.fil[i] && ctx.pre[i] {
            let ghost c0 = cur@;
            cur.push(i);
            proof {
                assert forall|a: int, b: int| 0 <= a < b < cur.len() implies adj@[#[trigger] cur@[a] as int]@[#[trigger] cur@[b] as int] by {
                    if b < c0.len() {
                        assert(cur@[a] == c0[a] && cur@[b] == c0[b]);
                    } else {
                        assert(cur@[a] == c0[a]);
                    }
                }
                assert forall|a: int, b: int| 0 <= a < cur.len() && 0 <= b < cur.len() && a != b
                    implies ctx.codes@[#[trigger] cur@[a] as int]@ != ctx.codes@[#[trigger] cur@[b] as int]@ by {
                    if a < c0.len() && b < c0.len() {
                        assert(cur@[a] == c0[a] && cur@[b] == c0[b]);
                    } else if a < c0.len() {
                        assert(cur@[a] == c0[a]);
                    } else {
                        assert(cur@[b] == c0[b]);
                    }
                }
            }
            let ghost r1 = results@;
            let ghost c1 = cur@;
            enum_dfs(pos + 1, secs, adj, order, ctx, params, min_size, max_size, limit, cur, results, seen, ramos);
            cur.pop();
            assert(cur@ =~= cur0);
            assert(results@.subrange(0, r0.len() as int) =~= r0) by {
                assert forall|x: int| 0 <= x < r0.len() implies results@[x] == r0[x] by {
                    assert(results@.subrange(0, r1.len() as int)[x] == r1[x]);
                    assert(r1.subrange(0, r0.len() as int)[x] == r0[x]);
                }
            }
            proof {
                if rel0 && cur0.len() >= min_size {
                    lemma_keys_kept(r1, results@, pk);
                }
                if rel0 && cur0.len() == 0 && min_size <= 1 && 1 <= max_size {
                    assert(c1 =~= seq![order@[pos as int]]);
                    assert forall|p: int| start <= p < pos + 1 && #[trigger] ctx.fil@[order@[p] as int] && ctx.pre@[order@[p] as int]
                        implies results.len() >= limit || keys_of(results@).contains(positions_key(secs@, seq![order@[p]])) by {
                        if p < pos && r1.len() < limit && keys_of(r1).contains(positions_key(secs@, seq![order@[p]])) {
                            lemma_keys_kept(r1, results@, positions_key(secs@, seq![order@[p]]));
                        }
                    }
                }
            }
            proof {
                if rel0 {
                    assert forall|ext: Seq<usize>| #[trigger] subseq_from(order@, start as int, ext)
                        && !subseq_from(order@, pos + 1, ext)
                        && chain_ok(secs@, ramos@, adj_of(adj@), *params, cur0, ext)
                        && min_size <= cur0.len() + ext.len() <= max_size
                        implies results.len() >= limit || keys_of(results@).contains(positions_key(secs@, cur0 + ext)) by {
                        if subseq_from(order@, pos as int, ext) {
                            assert(ext.len() > 0);
                            let p = choose|p: int| #![trigger order@[p]] pos <= p < order.len() && order@[p] == ext[0]
                                && subseq_from(order@, p + 1, ext.drop_first());
                            if p > pos {
                                assert(subseq_from(order@, pos + 1, ext));
                            }
                            lemma_chain_step(secs@, ramos@, adj_of(adj@), *params, cur0, ext);
                            assert(c1 == cur0.push(ext[0]));
                            if results.len() < limit {
                                assert(subseq_from(order@, pos + 1, ext.drop_first()));
                                assert(keys_of(results@).contains(positions_key(secs@, c1 + ext.drop_first())));
                            }
                        } else {
                            if rh.len() < limit && keys_of(rh).contains(positions_key(secs@, cur0 + ext)) {
                                lemma_keys_kept(rh, results@, positions_key(secs@, cur0 + ext));
                            }
                        }
                    }
                }
            }
        } else {
            proof {
                if rel0 {
                    assert forall|ext: Seq<usize>| #[trigger] subseq_from(order@, start as int, ext)
                        && !subseq_from(order@, pos + 1, ext)
                        && chain_ok(secs@, ramos@, adj_of(adj@), *params, cur0, ext)
                        && min_size <= cur0.len() + ext.len() <= max_size
                        implies results.len() >= limit || keys_of(results@).contains(positions_key(secs@, cur0 + ext)) by {
                        if subseq_from(order@, pos as int, ext) {
                            assert(ext.len() > 0);
                            let p = choose|p: int| #![trigger order@[p]] pos <= p < order.len() && order@[p] == ext[0]
                                && subseq_from(order@, p + 1, ext.drop_first());
                            if p > pos {
                                assert(subseq_from(order@, pos + 1, ext));
                            }
                            lemma_chain_step(secs@, ramos@, adj_of(adj@), *params, cur0, ext);
                            assert(ext[0] == i);
                            assert(joins(secs@, ramos@, adj_of(adj@), *params, cur0, i));
                            assert forall|x: int| 0 <= x < cur0.len() implies adj@[#[trigger] cur0[x] as int]@[i as int]
                                && ctx.codes@[cur0[x] as int]@ != ctx.codes@[i as int]@
                                && (ctx.gap_min is Some ==> ranges_apart(
                                timetable_ranges(secs@[cur0[x] as int].seccion.horario@),
                                timetable_ranges(secs@[i as int].seccion.horario@), ctx.gap_min->0 as int)) by {
                                assert(adj_of(adj@)(cur0[x] as int, i as int));
                            }
                            assert(false);
                        }
                    }
                }
            }
        }
        pos = pos + 1;
    }
    assert(results@.subrange(0, r0.len() as int) =~= r0);
}

/// The minimum gap between classes that the user's filters ask for, when that
/// filter is enabled (15 minutes unless given).
pub open spec fn gap_filter(filtros: Option<UserFilters>) -> Option<i32> {
    match filtros {
        Some(f) => match f.ventana_entre_actividades {
            Some(v) => if v.habilitado {
                Some(match v.minutos_entre_clases { Some(m) => m, None => 15i32 })
            } else {
                None
            },
            None => None,
        },
        None => None,
    }
}

/// Whether a section's prerequisites are passed, its course found by upper-cased
/// code, else by normalised name; a section of no course fails.
pub open spec fn strict_prereqs(s: SeccionPlan, ramos: Seq<RamoDisponible>, pasados: Seq<String>) -> bool {
    match first_eq(uppers_of(ramos), upper_of(s.seccion.codigo@), 0) {
        Some(k) => prereqs_passed(ramos[k], ramos, pasados),
        None => match first_eq(names_of(ramos), norm_name(s.seccion.nombre@), 0) {
            Some(k) => prereqs_passed(ramos[k], ramos, pasados),
            None => false,
        },
    }
}

fn enum_context(secs: &[SeccionPlan], ramos: &[RamoDisponible], params: &PlanParams) -> (r: EnumCtx)
    requires
        forall|i: int| 0 <= i < secs.len() ==> filters_fit((#[trigger] secs@[i]).seccion, params.filtros),
    ensures
        ctx_ok(r, secs@, ramos@),
        r.gap_min == gap_filter(params.filtros),
        forall|i: int| 0 <= i < secs.len() ==> #[trigger] r.fil@[i] == cumple_filtros(secs@[i], params.filtros),
        forall|i: int| 0 <= i < secs.len() ==> #[trigger] r.pre@[i] == strict_prereqs(secs@[i], ramos@, params.ramos_pasados@),
{
    let (_codes, ups, names) = course_forms(ramos);
    let (lows, lnames) = lon_forms(ramos);
    let pups = upper_strings(&params.ramos_pasados);
    let mut codes: Vec<Vec<char>> = Vec::new();
    let mut fil: Vec<bool> = Vec::new();
    let mut pre: Vec<bool> = Vec::new();
    let mut weights: Vec<i32> = Vec::new();
    let mut i: usize = 0;
    while i < secs.len()
        invariant
            i <= secs.len(),
            forall|q: int| 0 <= q < secs.len() ==> filters_fit((#[trigger] secs@[q]).seccion, params.filtros),
            ups.deep_view() == uppers_of(ramos@),
            names.deep_view() == names_of(ramos@),
            lows.len() == ramos.len() && lnames.len() == ramos.len(),
            forall|k: int| 0 <= k < ramos.len() ==> (#[trigger] lows@[k])@ == lower_of(ramos@[k].codigo@),
            forall|k: int| 0 <= k < ramos.len() ==> (#[trigger] lnames@[k])@ == norm_name(ramos@[k].nombre@),
            pups.len() == params.ramos_pasados.len(),
            forall|k: int| 0 <= k < params.ramos_pasados.len() ==> (#[trigger] pups@[k])@ == upper_of(params.ramos_pasados@[k]@),
            codes.len() == i && fil.len() == i && pre.len() == i && weights.len() == i,
            forall|j: int| 0 <= j < i ==> (#[trigger] codes@[j])@ == upper_of(secs@[j].seccion.codigo@),
            forall|j: int| 0 <= j < i ==> #[trigger] fil@[j] == cumple_filtros(secs@[j], params.filtros),
            forall|j: int| 0 <= j < i ==> #[trigger] pre@[j] == strict_prereqs(secs@[j], ramos@, params.ramos_pasados@),
            forall|j: int| 0 <= j < i ==> #[trigger] weights@[j] as int == enum_weight(ramos@, secs@[j]),
            forall|j: int| 0 <= j < i ==> 0 <= #[trigger] weights@[j] <= 20_000_000,
        decreases secs.len() - i,
    {
        let s = &secs[i];
        let up = to_upper(&chars_of(s.seccion.codigo.as_str()));
        fil.push(seccion_cumple_filtros(s, &params.filtros));
        let found = match find_eq(&ups, &up) {
            Some(k) => Some(k),
            None => find_eq(&names, &normalize_name_chars(&chars_of(s.seccion.nombre.as_str()))),
        };
        let p = match found {
            Some(k) => {
                proof {
                    crate::plan_pool::lemma_prereqs_upper(ramos@[k as int], ramos@, params.ramos_pasados@, pups@);
                }
                requisitos_cumplidos(&ramos[k], ramos, pups.as_slice())
            },
            None => false,
        };
        pre.push(p);
        let w: i32 = match lon_find(ramos, &lows, &lnames, &s.seccion) {
            Some(k) => {
                proof {
                    crate::scoring::lemma_priority_bounds(ramos@[k as int], s.seccion.seccion@);
                }
                compute_priority(&ramos[k], &s.seccion) as i32
            },
            None => 0,
        };
        weights.push(w);
        codes.push(up);
        i = i + 1;
    }
    let gap_min: Option<i32> = match &params.filtros {
        Some(f) => match &f.ventana_entre_actividades {
            Some(v) => if v.habilitado {
                Some(match v.minutos_entre_clases { Some(m) => m, None => 15 })
            } else {
                None
            },
            None => None,
        },
        None => None,
    };
    EnumCtx { codes, fil, pre, weights, gap_min }
}

/// Whether an enumeration may read every section's timetable and filters.
pub open spec fn enum_fits(secs: Seq<SeccionPlan>, params: PlanParams) -> bool {
    &&& forall|i: int| 0 <= i < secs.len() ==> filters_fit((#[trigger] secs[i]).seccion, params.filtros)
    &&& ranges_fit_all(secs)
    &&& (gap_filter(params.filtros) is Some ==> timetables_fit(secs))
}

/// Enumerates, depth first and in priority order, the sets of sections of `min_size`
/// to `max_size` members that are adjacent in `adj` (each to every later one), of
/// different upper-cased codes, passing the user's filters and the gap between
/// activities, with their prerequisites passed; each new set of box codes gives a
/// timetable weighted by its courses' priorities and scored by the student's wishes,
/// until `limit` timetables exist. With fewer than `limit` timetables the enumeration is
/// complete: the sections are searched in some order, and every set of `min_size` to
/// `max_size` of them, listed in that order with each joining those before it (see
/// `chain_ok`), has its box codes among the answers.
pub fn enumerate_clique_combinations_size_priority(
    secs: &[SeccionPlan],
    adj: &Vec<Vec<bool>>,
    ramos: &[RamoDisponible],
    params: &PlanParams,
    min_size: usize,
    max_size: usize,
    limit: usize,
) -> (r: Vec<(Vec<(Seccion, i32)>, i64)>)
    requires
        adj.len() == secs.len(),
        forall|i: int| 0 <= i < adj.len() ==> (#[trigger] adj@[i]).len() == secs.len(),
        enum_fits(secs@, *params),
        wishes_fit(*params, max_size as int),
    ensures
        r.len() <= limit,
        forall|t: int| 0 <= t < r.len() ==> enumerated(secs@, ramos@, adj@, *params, min_size as int, max_size as int,
            (#[trigger] r@[t]).0@, r@[t].1),
        keys_distinct(r@),
        limit > 0 && min_size == 0 ==> r.len() > 0,
        limit > 0 && min_size <= 1 && max_size > 0 && (exists|i: int| 0 <= i < secs.len()
            && cumple_filtros(#[trigger] secs@[i], params.filtros) && strict_prereqs(secs@[i], ramos@, params.ramos_pasados@))
            ==> r.len() > 0,
        r.len() < limit && min_size <= 1 && max_size > 0 ==> forall|i: int| 0 <= i < secs.len()
            && cumple_filtros(#[trigger] secs@[i], params.filtros) && strict_prereqs(secs@[i], ramos@, params.ramos_pasados@)
            ==> exists|t: int| 0 <= t < r.len() && box_key_of(r@[t].0@) == seq![secs@[i].seccion.codigo_box@],
        r.len() < limit ==> exists|order: Seq<usize>| covers(order, secs.len() as int) && forall|ext: Seq<usize>|
            #[trigger] subseq_from(order, 0, ext) && chain_ok(secs@, ramos@, adj_of(adj@), *params, Seq::empty(), ext)
            && min_size <= ext.len() <= max_size ==> keys_of(r@).contains(positions_key(secs@, ext)),
{
    let ctx = enum_context(secs, ramos, params);
    let (lows, lnames) = lon_forms(ramos);
    let mut all: Vec<usize> = Vec::new();
    let mut k: usize = 0;
    while k < secs.len()
        invariant
            k <= secs.len(),
            all.len() == k,
            forall|q: int| 0 <= q < k ==> #[trigger] all@[q] < secs.len(),
        decreases secs.len() - k,
    {
        all.push(k);
        k = k + 1;
    }
    let pri = pool_priorities(secs, ramos, &all, &lows, &lnames);
    let order = priority_order(&pri);
    let mut cur: Vec<usize> = Vec::new();
    let mut results: Vec<(Vec<(Seccion, i32)>, i64)> = Vec::new();
    let mut seen: Vec<Vec<Vec<char>>> = Vec::new();
    proof {
        assert(seen.deep_view() =~= keys_of(results@));
        if exists|i: int| 0 <= i < secs.len() && cumple_filtros(#[trigger] secs@[i], params.filtros)
            && strict_prereqs(secs@[i], ramos@, params.ramos_pasados@) {
            let i = choose|i: int| 0 <= i < secs.len() && cumple_filtros(#[trigger] secs@[i], params.filtros)
                && strict_prereqs(secs@[i], ramos@, params.ramos_pasados@);
            assert(order@.contains(i as usize));
            let p = choose|p: int| 0 <= p < order.len() && order@[p] == i as usize;
            assert(ctx.fil@[order@[p] as int] && ctx.pre@[order@[p] as int]);
        }
    }
    let ghost c0 = cur@;
    enum_dfs(0, secs, adj, &order, &ctx, params, min_size, max_size, limit, &mut cur, &mut results, &mut seen, Ghost(ramos@));
    proof {
        assert(c0 =~= Seq::<usize>::empty());
        if results.len() < limit {
            assert(covers(order@, secs.len() as int)) by {
                assert forall|j: int| 0 <= j < secs.len() implies #[trigger] order@.contains(j as usize) by {
                    assert(order@.contains((j as usize)));
                }
            }
            assert forall|ext: Seq<usize>| #[trigger] subseq_from(order@, 0, ext)
                && chain_ok(secs@, ramos@, adj_of(adj@), *params, Seq::empty(), ext)
                && min_size <= ext.len() <= max_size implies keys_of(results@).contains(positions_key(secs@, ext)) by {
                assert(c0 + ext =~= ext);
            }
        }
    }
    proof {
        if results.len() < limit && min_size <= 1 && max_size > 0 {
            assert forall|i: int| 0 <= i < secs.len() && cumple_filtros(#[trigger] secs@[i], params.filtros)
                && strict_prereqs(secs@[i], ramos@, params.ramos_pasados@)
                implies exists|t: int| 0 <= t < results.len() && box_key_of(results@[t].0@) == seq![secs@[i].seccion.codigo_box@] by {
                assert(order@.contains(i as usize));
                let p = choose|p: int| 0 <= p < order.len() && order@[p] == i as usize;
                assert(ctx.fil@[order@[p] as int] && ctx.pre@[order@[p] as int]);
                let k = positions_key(secs@, seq![order@[p]]);
                assert(keys_of(results@).contains(k));
                let s1 = seq![order@[p]].map_values(|x: usize| (secs@[x as int].seccion, 0i32));
                assert(s1.len() == 1);
                assert(box_key_upto(s1, 0) == Seq::<Seq<char>>::empty());
                assert(box_key_upto(s1, 1) == insert_key(Seq::empty(), s1[0].0.codigo_box@));
                assert(k =~= seq![secs@[i].seccion.codigo_box@]);
                let t = choose|t: int| 0 <= t < keys_of(results@).len() && keys_of(results@)[t] == k;
                assert(box_key_of(results@[t].0@) == k);
            }
        }
    }
    results
}

/// Enumerates the cliques of up to `max_size` sections (see
/// `enumerate_clique_combinations_size_priority`, from one section on).
pub fn enumerate_clique_combinations(
    secs: &[SeccionPlan],
    adj: &Vec<Vec<bool>>,
    ramos: &[RamoDisponible],
    params: &PlanParams,
    max_size: usize,
    limit: usize,
) -> (r: Vec<(Vec<(Seccion, i32)>, i64)>)
    requires
        adj.len() == secs.len(),
        forall|i: int| 0 <= i < adj.len() ==> (#[trigger] adj@[i]).len() == secs.len(),
        enum_fits(secs@, *params),
        wishes_fit(*params, max_size as int),
    ensures
        r.len() <= limit,
        forall|t: int| 0 <= t < r.len() ==> enumerated(secs@, ramos@, adj@, *params, 1, max_size as int,
            (#[trigger] r@[t]).0@, r@[t].1),
        keys_distinct(r@),
        limit > 0 && max_size > 0 && (exists|i: int| 0 <= i < secs.len()
            && cumple_filtros(#[trigger] secs@[i], params.filtros) && strict_prereqs(secs@[i], ramos@, params.ramos_pasados@))
            ==> r.len() > 0,
        r.len() < limit && max_size > 0 ==> forall|i: int| 0 <= i < secs.len()
            && cumple_filtros(#[trigger] secs@[i], params.filtros) && strict_prereqs(secs@[i], ramos@, params.ramos_pasados@)
            ==> exists|t: int| 0 <= t < r.len() && box_key_of(r@[t].0@) == seq![secs@[i].seccion.codigo_box@],
        r.len() < limit ==> exists|order: Seq<usize>| covers(order, secs.len() as int) && forall|ext: Seq<usize>|
            #[trigger] subseq_from(order, 0, ext) && chain_ok(secs@, ramos@, adj_of(adj@), *params, Seq::empty(), ext)
            && 1 <= ext.len() <= max_size ==> keys_of(r@).contains(positions_key(secs@, ext)),
{
    enumerate_clique_combinations_size_priority(secs, adj, ramos, params, 1, max_size, limit)
}

} // verus!
