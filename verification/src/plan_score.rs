//! How a timetable's score is adjusted to the student's wishes: courses to favour,
//! compact or spread days, and idle time between classes.
use vstd::prelude::*;
use crate::models::Seccion;
use crate::plan_pool::PlanParams;
use crate::datafiles::{norm_name, normalize_name_chars};
use crate::scoring::{
    day_name, day_sorted, diffs_fit, gap_sum, gaps_fit, lemma_gap_sum_nonneg, lemma_gap_sum_prefix, sol_ranges_fit,
    sol_slots, sol_slots_exec, sort_slots, total_gaps,
};
use crate::text::{chars_of, chars_eq, lit};

verus! {

/// The idle time of the first `k` weekdays of a timetable.
pub open spec fn gaps_upto(sol: Seq<(Seccion, i32)>, k: int) -> int
    decreases k,
{
    if k <= 0 {
        0
    } else {
        gaps_upto(sol, k - 1) + gap_sum(day_sorted(sol, k - 1))
    }
}

proof fn lemma_gaps_upto(sol: Seq<(Seccion, i32)>)
    ensures
        gaps_upto(sol, 5) == total_gaps(sol),
        forall|k: int| 0 <= k <= 5 ==> 0 <= #[trigger] gaps_upto(sol, k) <= gaps_upto(sol, 5),
{
    lemma_gap_sum_nonneg(day_sorted(sol, 0));
    lemma_gap_sum_nonneg(day_sorted(sol, 1));
    lemma_gap_sum_nonneg(day_sorted(sol, 2));
    lemma_gap_sum_nonneg(day_sorted(sol, 3));
    lemma_gap_sum_nonneg(day_sorted(sol, 4));
    reveal_with_fuel(gaps_upto, 6);
}

/// The positive gaps of ordered slots summed, when every difference fits in `i32` and
/// the sum is at most `room`.
fn day_gaps_checked(s: &Vec<(i32, i32)>, room: i64) -> (r: Option<i64>)
    requires
        0 <= room <= i32::MAX,
    ensures
        match r {
            Some(g) => diffs_fit(s@) && g == gap_sum(s@) && g <= room,
            None => !diffs_fit(s@) || gap_sum(s@) > room,
        },
{
    if s.len() <= 1 {
        assert(gap_sum(s@) == 0);
        return Some(0);
    }
    let mut total: i64 = 0;
    let mut i: usize = 1;
    assert(s@.subrange(0, 1).len() == 1);
    while i < s.len()
        invariant
            1 <= i <= s.len(),
            0 <= room <= i32::MAX,
            total == gap_sum(s@.subrange(0, i as int)),
            0 <= total <= room,
            forall|q: int| 0 < q < i ==> i32::MIN <= (#[trigger] s@[q]).0 - s@[q - 1].1 <= i32::MAX,
        decreases s.len() - i,
    {
        let ghost t = s@.subrange(0, i + 1);
        assert(t.drop_last() =~= s@.subrange(0, i as int));
        assert(t.last() == s@[i as int] && t[t.len() - 2] == s@[i - 1]);
        proof {
            lemma_gap_sum_prefix(s@, i + 1);
        }
        let d: i64 = s[i].0 as i64 - s[i - 1].1 as i64;
        if d < i32::MIN as i64 || d > i32::MAX as i64 {
            return None;
        }
        if d > 0 {
            total = total + d;
        }
        if total > room {
            return None;
        }
        i = i + 1;
    }
    assert(s@.subrange(0, s.len() as int) =~= s@);
    Some(total)
}

/// The idle time of a timetable when its arithmetic fits in `i32` (as
/// `calculate_total_gaps` computes it); `None` when it does not.
pub fn gaps_checked(sol: &[(Seccion, i32)]) -> (r: Option<i64>)
    requires
        sol_ranges_fit(sol@),
    ensures
        match r {
            Some(g) => gaps_fit(sol@) && g == total_gaps(sol@),
            None => !gaps_fit(sol@),
        },
{
    let ghost sv = sol@;
    proof {
        lemma_gaps_upto(sv);
    }
    let mut total: i64 = 0;
    let mut k: usize = 0;
    while k < 5
        invariant
            k <= 5,
            sv == sol@,
            sol_ranges_fit(sv),
            total == gaps_upto(sv, k as int),
            0 <= total <= i32::MAX,
            forall|d: int| 0 <= d < k ==> diffs_fit(#[trigger] day_sorted(sv, d)),
            gaps_upto(sv, 5) == total_gaps(sv),
            forall|a: int| 0 <= a <= 5 ==> 0 <= #[trigger] gaps_upto(sv, a) <= gaps_upto(sv, 5),
        decreases 5 - k,
    {
        let s = sort_slots(&sol_slots_exec(sol, k));
        assert(s@ == day_sorted(sv, k as int));
        assert(gaps_upto(sv, k + 1) == total + gap_sum(s@));
        match day_gaps_checked(&s, i32::MAX as i64 - total) {
            Some(g) => {
                total = total + g;
            },
            None => {
                assert(!diffs_fit(day_sorted(sv, k as int)) || gaps_upto(sv, k + 1) > i32::MAX);
                return None;
            },
        }
        k = k + 1;
    }
    Some(total)
}

/// The earliest start among slots (`i32::MAX` for none).
pub open spec fn min_start(s: Seq<(i32, i32)>) -> int
    decreases s.len(),
{
    if s.len() == 0 {
        i32::MAX as int
    } else {
        let m = min_start(s.drop_last());
        if (s.last().0 as int) < m { s.last().0 as int } else { m }
    }
}

/// The latest end among slots, and 0 (0 for none).
pub open spec fn max_end(s: Seq<(i32, i32)>) -> int
    decreases s.len(),
{
    if s.len() == 0 {
        0
    } else {
        let m = max_end(s.drop_last());
        if (s.last().1 as int) > m { s.last().1 as int } else { m }
    }
}

/// Whether the timetable has a class on day `k` (0 = `LU` ... 4 = `VI`).
pub open spec fn has_day(sol: Seq<(Seccion, i32)>, k: int) -> bool {
    sol_slots(sol, day_name(k)).len() > 0
}

/// Whether the classes of day `k` span at most five hours.
pub open spec fn compact_day(sol: Seq<(Seccion, i32)>, k: int) -> bool {
    has_day(sol, k) && max_end(sol_slots(sol, day_name(k))) - min_start(sol_slots(sol, day_name(k))) <= 300
}

/// How many of the five weekdays satisfy `p`.
pub open spec fn count_days(p: spec_fn(int) -> bool) -> int {
    (if p(0) { 1int } else { 0int }) + (if p(1) { 1int } else { 0int }) + (if p(2) { 1int } else { 0int })
        + (if p(3) { 1int } else { 0int }) + (if p(4) { 1int } else { 0int })
}

/// The share of the days with classes whose classes span at most five hours, as a
/// whole percentage rounded down (0 for a timetable without classes).
pub open spec fn compactness(sol: Seq<(Seccion, i32)>) -> int {
    let t = count_days(|k: int| has_day(sol, k));
    let c = count_days(|k: int| compact_day(sol, k));
    if t == 0 {
        0
    } else {
        (100 * c) / t
    }
}

fn span_exec(s: &Vec<(i32, i32)>) -> (r: (i64, i64))
    ensures
        r.0 == min_start(s@),
        r.1 == max_end(s@),
        i32::MIN <= r.0 <= i32::MAX,
        0 <= r.1 <= i32::MAX,
{
    let mut lo: i64 = i32::MAX as i64;
    let mut hi: i64 = 0;
    let mut i: usize = 0;
    while i < s.len()
        invariant
            i <= s.len(),
            lo == min_start(s@.subrange(0, i as int)),
            hi == max_end(s@.subrange(0, i as int)),
            i32::MIN <= lo <= i32::MAX,
            0 <= hi <= i32::MAX,
        decreases s.len() - i,
    {
        assert(s@.subrange(0, i + 1).drop_last() =~= s@.subrange(0, i as int));
        if (s[i].0 as i64) < lo {
            lo = s[i].0 as i64;
        }
        if (s[i].1 as i64) > hi {
            hi = s[i].1 as i64;
        }
        i = i + 1;
    }
    assert(s@.subrange(0, s.len() as int) =~= s@);
    (lo, hi)
}

/// The compactness score of a timetable: the percentage, rounded down, of its days
/// with classes whose classes span at most five hours (from the first start to the
/// last end); 0 when it has no class. With at most five weekdays this is the whole
/// part of the ratio computed in floating point.
pub fn calculate_compactness_score(sol: &[(Seccion, i32)]) -> (r: i64)
    requires
        sol_ranges_fit(sol@),
    ensures
        r == compactness(sol@),
        0 <= r <= 100,
{
    let ghost sv = sol@;
    let mut t: i64 = 0;
    let mut c: i64 = 0;
    let mut k: usize = 0;
    while k < 5
        invariant
            k <= 5,
            sv == sol@,
            sol_ranges_fit(sv),
            t == count_days(|d: int| d < k && has_day(sv, d)),
            c == count_days(|d: int| d < k && compact_day(sv, d)),
            0 <= c <= t <= k,
        decreases 5 - k,
    {
        let s = sol_slots_exec(sol, k);
        if s.len() > 0 {
            let (lo, hi) = span_exec(&s);
            t = t + 1;
            if hi - lo <= 300 {
                c = c + 1;
            }
        }
        k = k + 1;
    }
    assert(count_days(|d: int| d < 5 && has_day(sv, d)) == count_days(|d: int| has_day(sv, d)));
    assert(count_days(|d: int| d < 5 && compact_day(sv, d)) == count_days(|d: int| compact_day(sv, d)));
    if t == 0 {
        0
    } else {
        let ghost ci = c as int;
        let ghost ti = t as int;
        assert(0 <= (100 * ci) / ti <= 100) by (nonlinear_arith)
            requires
                0 <= ci <= ti,
                ti > 0,
        ;
        (100 * c) / t
    }
}

/// Whether a section names one of the courses to favour (codes or names compared
/// normalised).
pub open spec fn favoured(sec: Seccion, prios: Seq<String>) -> bool {
    exists|k: int| 0 <= k < prios.len() && (norm_name((#[trigger] prios[k])@) == norm_name(sec.codigo@)
        || norm_name(prios[k]@) == norm_name(sec.nombre@))
}

/// How many sections of the timetable name a course to favour.
pub open spec fn favoured_count(sol: Seq<(Seccion, i32)>, prios: Seq<String>) -> int
    decreases sol.len(),
{
    if sol.len() == 0 {
        0
    } else {
        favoured_count(sol.drop_last(), prios) + if favoured(sol.last().0, prios) { 1int } else { 0int }
    }
}

/// The score change one optimisation asks for: `"compact-days"` adds 10 000 per point
/// of compactness, `"spread-days"` subtracts as much, `"minimize-gaps"` subtracts 100
/// per minute of idle time (none when that time does not fit in `i32`); others change
/// nothing.
pub open spec fn opt_delta(opt: Seq<char>, sol: Seq<(Seccion, i32)>) -> int {
    if opt == "compact-days"@ {
        compactness(sol) * 10_000
    } else if opt == "spread-days"@ {
        -(compactness(sol) * 10_000)
    } else if opt == "minimize-gaps"@ {
        -((if gaps_fit(sol) { total_gaps(sol) } else { 0 }) * 100)
    } else {
        0
    }
}

/// The score changes of the first `n` optimisations, each applied in turn.
pub open spec fn opts_delta(opts: Seq<String>, sol: Seq<(Seccion, i32)>, n: int) -> int
    decreases n,
{
    if n <= 0 {
        0
    } else {
        opts_delta(opts, sol, n - 1) + opt_delta(opts[n - 1]@, sol)
    }
}

/// The score of a timetable after the student's wishes: 100 000 more per section of
/// a course to favour, then each optimisation's change.
pub open spec fn modified_score(base: int, sol: Seq<(Seccion, i32)>, params: PlanParams) -> int {
    base + favoured_count(sol, params.ramos_prioritarios@) * 100_000
        + opts_delta(params.optimizations@, sol, params.optimizations@.len() as int)
}

proof fn lemma_favoured_count_bounds(sol: Seq<(Seccion, i32)>, prios: Seq<String>)
    ensures
        0 <= favoured_count(sol, prios) <= sol.len(),
    decreases sol.len(),
{
    if sol.len() > 0 {
        lemma_favoured_count_bounds(sol.drop_last(), prios);
    }
}

fn favoured_exec(sec: &Seccion, prio_norms: &Vec<Vec<char>>, prios: Ghost<Seq<String>>) -> (r: bool)
    requires
        prio_norms.len() == prios@.len(),
        forall|k: int| 0 <= k < prios@.len() ==> (#[trigger] prio_norms@[k])@ == norm_name(prios@[k]@),
    ensures
        r == favoured(*sec, prios@),
{
    let code = normalize_name_chars(&chars_of(sec.codigo.as_str()));
    let name = normalize_name_chars(&chars_of(sec.nombre.as_str()));
    let mut k: usize = 0;
    while k < prio_norms.len()
        invariant
            k <= prio_norms.len() == prios@.len(),
            forall|j: int| 0 <= j < prios@.len() ==> (#[trigger] prio_norms@[j])@ == norm_name(prios@[j]@),
            code@ == norm_name(sec.codigo@),
            name@ == norm_name(sec.nombre@),
            forall|j: int| 0 <= j < k ==> !(norm_name((#[trigger] prios@[j])@) == norm_name(sec.codigo@)
                || norm_name(prios@[j]@) == norm_name(sec.nombre@)),
        decreases prio_norms.len() - k,
    {
        if chars_eq(&prio_norms[k], &code) || chars_eq(&prio_norms[k], &name) {
            assert(norm_name(prios@[k as int]@) == norm_name(sec.codigo@) || norm_name(prios@[k as int]@) == norm_name(sec.nombre@));
            return true;
        }
        k = k + 1;
    }
    false
}

/// Whether adjusting the score `base` of timetable `sol` to the student's wishes stays
/// within `i64` at every step: the score itself, the bonus for courses to favour, the
/// score with that bonus, and the score after each optimisation in turn.
pub open spec fn modifiers_fit(base: int, sol: Seq<(Seccion, i32)>, params: PlanParams) -> bool {
    let b = base + favoured_count(sol, params.ramos_prioritarios@) * 100_000;
    &&& i64::MIN <= base <= i64::MAX
    &&& favoured_count(sol, params.ramos_prioritarios@) * 100_000 <= i64::MAX
    &&& forall|o: int| 0 <= o <= params.optimizations@.len() ==> i64::MIN <= b + #[trigger] opts_delta(
        params.optimizations@,
        sol,
        o,
    ) <= i64::MAX
}

/// Whether every timetable of at most `max` sections with weights in
/// `0..=20 000 000`, whose timetable entries read within `i32`, can be scored: its sum
/// of weights and its adjustment to the student's wishes stay within `i64`.
pub open spec fn wishes_fit(params: PlanParams, max: int) -> bool {
    forall|sol: Seq<(Seccion, i32)>| sol.len() <= max && sol_ranges_fit(sol) && (forall|a: int| 0 <= a < sol.len()
        ==> 0 <= (#[trigger] sol[a]).1 <= 20_000_000) ==> #[trigger] modifiers_fit(
        crate::clique::entries_sum(sol),
        sol,
        params,
    )
}

proof fn lemma_favoured_prefix(sol: Seq<(Seccion, i32)>, prios: Seq<String>, i: int)
    requires
        0 <= i <= sol.len(),
    ensures
        favoured_count(sol.subrange(0, i), prios) <= favoured_count(sol, prios),
    decreases sol.len() - i,
{
    if i < sol.len() {
        lemma_favoured_prefix(sol, prios, i + 1);
        assert(sol.subrange(0, i + 1).drop_last() =~= sol.subrange(0, i));
    } else {
        assert(sol.subrange(0, i) =~= sol);
    }
}

/// Adjusts a timetable's score to the student's wishes: 100 000 more per section of a
/// course to favour (by normalised code or name); then, for each optimisation asked in
/// turn, `"compact-days"` adds 10 000 per point of compactness, `"spread-days"`
/// subtracts as much, `"minimize-gaps"` subtracts 100 per minute of idle time between
/// classes; other names change nothing.
pub fn apply_optimization_modifiers(base_score: i64, solution: &[(Seccion, i32)], params: &PlanParams) -> (r: i64)
    requires
        sol_ranges_fit(solution@),
        modifiers_fit(base_score as int, solution@, *params),
    ensures
        r == modified_score(base_score as int, solution@, *params),
{
    let ghost sv = solution@;
    let ghost prios = params.ramos_prioritarios@;
    let mut prio_norms: Vec<Vec<char>> = Vec::new();
    let mut k: usize = 0;
    while k < params.ramos_prioritarios.len()
        invariant
            k <= params.ramos_prioritarios.len(),
            prios == params.ramos_prioritarios@,
            prio_norms.len() == k,
            forall|j: int| 0 <= j < k ==> (#[trigger] prio_norms@[j])@ == norm_name(prios[j]@),
        decreases params.ramos_prioritarios.len() - k,
    {
        prio_norms.push(normalize_name_chars(&chars_of(params.ramos_prioritarios[k].as_str())));
        k = k + 1;
    }
    let mut count: i64 = 0;
    let mut i: usize = 0;
    while i < solution.len()
        invariant
            i <= solution.len(),
            sv == solution@,
            prio_norms.len() == prios.len(),
            forall|j: int| 0 <= j < prios.len() ==> (#[trigger] prio_norms@[j])@ == norm_name(prios[j]@),
            count == favoured_count(sv.subrange(0, i as int), prios),
            0 <= count <= i,
            prios == params.ramos_prioritarios@,
            modifiers_fit(base_score as int, sv, *params),
        decreases solution.len() - i,
    {
        assert(sv.subrange(0, i + 1).drop_last() =~= sv.subrange(0, i as int));
        proof {
            lemma_favoured_prefix(sv, prios, i + 1);
        }
        if favoured_exec(&solution[i].0, &prio_norms, Ghost(prios)) {
            count = count + 1;
        }
        i = i + 1;
    }
    assert(sv.subrange(0, solution.len() as int) =~= sv);
    assert(opts_delta(params.optimizations@, sv, 0) == 0);
    let mut score: i64 = base_score + count * 100_000;
    let compact = lit("compact-days");
    let spread = lit("spread-days");
    let gaps = lit("minimize-gaps");
    let mut o: usize = 0;
    let ghost opts = params.optimizations@;
    while o < params.optimizations.len()
        invariant
            o <= params.optimizations.len(),
            opts == params.optimizations@,
            modifiers_fit(base_score as int, sv, *params),
            count == favoured_count(sv, params.ramos_prioritarios@),
            sv == solution@,
            sol_ranges_fit(sv),
            compact@ == "compact-days"@,
            spread@ == "spread-days"@,
            gaps@ == "minimize-gaps"@,
            score == base_score + count * 100_000 + opts_delta(opts, sv, o as int),
        decreases params.optimizations.len() - o,
    {
        let name = chars_of(params.optimizations[o].as_str());
        let ghost before = score;
        assert(i64::MIN <= base_score + count * 100_000 + opts_delta(opts, sv, o + 1) <= i64::MAX);
        assert(opts_delta(opts, sv, o + 1) == opts_delta(opts, sv, o as int) + opt_delta(opts[o as int]@, sv));
        if chars_eq(&name, &compact) {
            let c = calculate_compactness_score(solution);
            score = score + c * 10_000;
        } else if chars_eq(&name, &spread) {
            let c = calculate_compactness_score(solution);
            score = score - c * 10_000;
        } else if chars_eq(&name, &gaps) {
            match gaps_checked(solution) {
                Some(g) => {
                    proof {
                        lemma_total_gaps_nonneg(sv);
                    }
                    score = score - g * 100;
                },
                None => {},
            }
        }
        assert(score == before + opt_delta(opts[o as int]@, sv));
        o = o + 1;
    }
    score
}

proof fn lemma_total_gaps_nonneg(sol: Seq<(Seccion, i32)>)
    ensures
        total_gaps(sol) >= 0,
{
    lemma_gap_sum_nonneg(day_sorted(sol, 0));
    lemma_gap_sum_nonneg(day_sorted(sol, 1));
    lemma_gap_sum_nonneg(day_sorted(sol, 2));
    lemma_gap_sum_nonneg(day_sorted(sol, 3));
    lemma_gap_sum_nonneg(day_sorted(sol, 4));
}

} // verus!
