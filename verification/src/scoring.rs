//! Scoring of candidate timetables: the time range and days of a timetable entry,
//! the total idle time between classes, the priority of a section, and the checks
//! that two sections may be taken together.
use vstd::prelude::*;
use crate::models::{Seccion, RamoDisponible};
use crate::horario::{hm_fits, hm_minutes, time_hm, parse_time_to_minutes};
use crate::text::{
    chars_of, chars_eq, has_char, parse_i32, parse_i32_spec, lemma_chars_deep_view, replace_all, replace_chars,
    split_chars, split_on, split_words, string_from_chars, to_upper, upper_of, words,
};

verus! {

/// Every kind of dash of a timetable entry read as `-` (en dash, em dash, minus sign,
/// hyphen).
pub open spec fn dash_norm(h: Seq<char>) -> Seq<char> {
    replace_all(
        replace_all(
            replace_all(replace_all(h, seq!['\u{2013}'], seq!['-']), seq!['\u{2014}'], seq!['-']),
            seq!['\u{2212}'],
            seq!['-'],
        ),
        seq!['\u{2010}'],
        seq!['-'],
    )
}

/// Start and end time tokens found so far while reading the words of an entry.
pub type RangeTokens = (Option<Seq<char>>, Option<Seq<char>>);

/// One step of the search for the time tokens: a word with `:` and `-` gives both
/// times at once; a word with `:` alone fills the start, then the end.
pub open spec fn range_step(st: RangeTokens, t: Seq<char>) -> RangeTokens {
    if t.contains(':') {
        if t.contains('-') {
            let p = split_on(t, '-');
            if p.len() >= 2 {
                (Some(p[0]), Some(p[1]))
            } else {
                st
            }
        } else if st.0 is None {
            (Some(t), st.1)
        } else if st.1 is None {
            (st.0, Some(t))
        } else {
            st
        }
    } else {
        st
    }
}

/// The time tokens after reading the words `toks`.
pub open spec fn range_state(toks: Seq<Seq<char>>) -> RangeTokens
    decreases toks.len(),
{
    if toks.len() == 0 {
        (None, None)
    } else {
        range_step(range_state(toks.drop_last()), toks.last())
    }
}

/// The time tokens of an entry such as `"LU MI 08:30 - 10:00"` or `"08:30-10:00"`.
pub open spec fn range_tokens(h: Seq<char>) -> RangeTokens {
    range_state(words(dash_norm(h)))
}

/// Whether reading the time range of an entry stays within `i32` arithmetic.
pub open spec fn range_fits(h: Seq<char>) -> bool {
    range_tokens(h).0 matches Some(a) ==> {
        &&& hm_fits(time_hm(a))
        &&& (time_hm(a) is Some && range_tokens(h).1 is Some ==> hm_fits(time_hm(range_tokens(h).1->0)))
    }
}

/// Start and end, in minutes, of the time range of an entry.
pub open spec fn horario_range(h: Seq<char>) -> Option<(i32, i32)> {
    match range_tokens(h) {
        (Some(a), Some(b)) => match (hm_minutes(time_hm(a)), hm_minutes(time_hm(b))) {
            (Some(x), Some(y)) => Some((x, y)),
            _ => None,
        },
        _ => None,
    }
}

fn dash_norm_exec(h: &Vec<char>) -> (r: Vec<char>)
    ensures
        r@ == dash_norm(h@),
{
    let dash: Vec<char> = vec!['-'];
    let p1: Vec<char> = vec!['\u{2013}'];
    let p2: Vec<char> = vec!['\u{2014}'];
    let p3: Vec<char> = vec!['\u{2212}'];
    let p4: Vec<char> = vec!['\u{2010}'];
    assert(dash@ =~= seq!['-']);
    assert(p1@ =~= seq!['\u{2013}']);
    assert(p2@ =~= seq!['\u{2014}']);
    assert(p3@ =~= seq!['\u{2212}']);
    assert(p4@ =~= seq!['\u{2010}']);
    let a = replace_chars(h, &p1, &dash);
    let b = replace_chars(&a, &p2, &dash);
    let c = replace_chars(&b, &p3, &dash);
    replace_chars(&c, &p4, &dash)
}

/// Extracts the time range of an entry such as `"LU MI 08:30 - 10:00"` or
/// `"08:30-10:00"`, in minutes since midnight; `None` when the entry has no two
/// readable times.
pub fn parse_horario_range(horario: &str) -> (r: Option<(i32, i32)>)
    requires
        range_fits(horario@),
    ensures
        r == horario_range(horario@),
{
    let norm = dash_norm_exec(&chars_of(horario));
    let toks = split_words(&norm);
    let ghost tv = toks.deep_view();
    let mut start: Option<Vec<char>> = None;
    let mut end: Option<Vec<char>> = None;
    let mut i: usize = 0;
    while i < toks.len()
        invariant
            i <= toks.len(),
            tv == toks.deep_view(),
            tv == words(dash_norm(horario@)),
            (match start { Some(v) => Some(v@), None => None::<Seq<char>> }, match end {
                Some(v) => Some(v@),
                None => None::<Seq<char>>,
            }) == range_state(tv.subrange(0, i as int)),
        decreases toks.len() - i,
    {
        assert(tv.subrange(0, i + 1).drop_last() =~= tv.subrange(0, i as int));
        proof {
            lemma_chars_deep_view(toks@[i as int]);
        }
        let t = &toks[i];
        if has_char(t, ':') {
            if has_char(t, '-') {
                let p = split_chars(t, '-');
                if p.len() >= 2 {
                    proof {
                        lemma_chars_deep_view(p@[0]);
                        lemma_chars_deep_view(p@[1]);
                    }
                    start = Some(p[0].clone());
                    end = Some(p[1].clone());
                }
            } else if start.is_none() {
                start = Some(t.clone());
            } else if end.is_none() {
                end = Some(t.clone());
            }
        }
        i = i + 1;
    }
    assert(tv.subrange(0, toks.len() as int) =~= tv);
    match start {
        None => None,
        Some(a) => {
            let x = parse_time_to_minutes(&a);
            match x {
                None => None,
                Some(xv) => match end {
                    None => None,
                    Some(b) => {
                        let y = parse_time_to_minutes(&b);
                        match y {
                            None => None,
                            Some(yv) => Some((xv, yv)),
                        }
                    },
                },
            }
        },
    }
}

/// Whether `d` is one of the weekday codes `LU`, `MA`, `MI`, `JU`, `VI`.
pub open spec fn is_day_code(d: Seq<char>) -> bool {
    d == seq!['L', 'U'] || d == seq!['M', 'A'] || d == seq!['M', 'I'] || d == seq!['J', 'U'] || d
        == seq!['V', 'I']
}

/// The weekday codes among upper-cased words, in order.
pub open spec fn day_words(toks: Seq<Seq<char>>) -> Seq<Seq<char>>
    decreases toks.len(),
{
    if toks.len() == 0 {
        Seq::empty()
    } else if is_day_code(upper_of(toks.last())) {
        day_words(toks.drop_last()).push(upper_of(toks.last()))
    } else {
        day_words(toks.drop_last())
    }
}

/// The weekday codes of an entry such as `"LU MA MI 08:30 - 10:00"`.
pub open spec fn days_of(h: Seq<char>) -> Seq<Seq<char>> {
    day_words(words(h))
}

/// Index of a weekday code (0 for `LU` to 4 for `VI`), `None` for other words.
fn day_index(d: &Vec<char>) -> (r: Option<usize>)
    ensures
        match r {
            Some(k) => k < 5 && d@ == day_name(k as int),
            None => !is_day_code(d@),
        },
{
    if d.len() != 2 {
        return None;
    }
    let (a, b) = (d[0], d[1]);
    assert(d@ =~= seq![a, b]);
    if a == 'L' && b == 'U' {
        Some(0)
    } else if a == 'M' && b == 'A' {
        Some(1)
    } else if a == 'M' && b == 'I' {
        Some(2)
    } else if a == 'J' && b == 'U' {
        Some(3)
    } else if a == 'V' && b == 'I' {
        Some(4)
    } else {
        None
    }
}

/// The weekday code of index `k`.
pub open spec fn day_name(k: int) -> Seq<char> {
    if k == 0 {
        seq!['L', 'U']
    } else if k == 1 {
        seq!['M', 'A']
    } else if k == 2 {
        seq!['M', 'I']
    } else if k == 3 {
        seq!['J', 'U']
    } else {
        seq!['V', 'I']
    }
}

/// Extracts the weekday codes (`LU`, `MA`, `MI`, `JU`, `VI`) of an entry such as
/// `"LU MA MI 08:30 - 10:00"`, upper-cased, in order.
pub fn extract_days_from_horario(horario: &str) -> (r: Vec<String>)
    ensures
        r.deep_view() == days_of(horario@),
{
    let toks = split_words(&chars_of(horario));
    let ghost tv = toks.deep_view();
    let mut days: Vec<String> = Vec::new();
    let mut i: usize = 0;
    while i < toks.len()
        invariant
            i <= toks.len(),
            tv == toks.deep_view(),
            tv == words(horario@),
            days.deep_view() == day_words(tv.subrange(0, i as int)),
        decreases toks.len() - i,
    {
        assert(tv.subrange(0, i + 1).drop_last() =~= tv.subrange(0, i as int));
        proof {
            lemma_chars_deep_view(toks@[i as int]);
        }
        let up = to_upper(&toks[i]);
        let ghost d0 = days.deep_view();
        match day_index(&up) {
            Some(_) => {
                days.push(string_from_chars(&up));
                assert(days.deep_view() =~= d0.push(up@));
            },
            None => {},
        }
        i = i + 1;
    }
    assert(tv.subrange(0, toks.len() as int) =~= tv);
    days
}


/// The slot `r` once per occurrence of day `d` among `days`.
pub open spec fn day_hits(days: Seq<Seq<char>>, d: Seq<char>, r: (i32, i32)) -> Seq<(i32, i32)>
    decreases days.len(),
{
    if days.len() == 0 {
        Seq::empty()
    } else if days.last() == d {
        day_hits(days.drop_last(), d, r).push(r)
    } else {
        day_hits(days.drop_last(), d, r)
    }
}

/// The slots that an entry contributes to day `d`.
pub open spec fn entry_slots(e: Seq<char>, d: Seq<char>) -> Seq<(i32, i32)> {
    match horario_range(e) {
        Some(r) => day_hits(days_of(e), d, r),
        None => Seq::empty(),
    }
}

/// The slots of the entries `hs` on day `d`, in order.
pub open spec fn hs_slots(hs: Seq<String>, d: Seq<char>) -> Seq<(i32, i32)>
    decreases hs.len(),
{
    if hs.len() == 0 {
        Seq::empty()
    } else {
        hs_slots(hs.drop_last(), d) + entry_slots(hs.last()@, d)
    }
}

/// The slots of the sections of a timetable on day `d`, in order.
pub open spec fn sol_slots(sol: Seq<(Seccion, i32)>, d: Seq<char>) -> Seq<(i32, i32)>
    decreases sol.len(),
{
    if sol.len() == 0 {
        Seq::empty()
    } else {
        sol_slots(sol.drop_last(), d) + hs_slots(sol.last().0.horario@, d)
    }
}

/// `x` inserted into `s` after every slot that starts no later than it.
pub open spec fn ins_by_start(s: Seq<(i32, i32)>, x: (i32, i32)) -> Seq<(i32, i32)>
    decreases s.len(),
{
    if s.len() == 0 {
        seq![x]
    } else if s.last().0 <= x.0 {
        s.push(x)
    } else {
        ins_by_start(s.drop_last(), x).push(s.last())
    }
}

/// The slots ordered by start time, slots with the same start kept in their order.
pub open spec fn sort_by_start(s: Seq<(i32, i32)>) -> Seq<(i32, i32)>
    decreases s.len(),
{
    if s.len() == 0 {
        Seq::empty()
    } else {
        ins_by_start(sort_by_start(s.drop_last()), s.last())
    }
}

/// Sum of the positive gaps between consecutive slots.
pub open spec fn gap_sum(s: Seq<(i32, i32)>) -> int
    decreases s.len(),
{
    if s.len() <= 1 {
        0
    } else {
        let g = s.last().0 - s[s.len() - 2].1;
        gap_sum(s.drop_last()) + if g > 0 { g } else { 0 }
    }
}

/// Every difference between the start of a slot and the end of the one before it
/// fits in `i32`.
pub open spec fn diffs_fit(s: Seq<(i32, i32)>) -> bool {
    forall|i: int| 0 < i < s.len() ==> i32::MIN <= (#[trigger] s[i]).0 - s[i - 1].1 <= i32::MAX
}

/// The ordered slots of day `k` (0 = `LU` ... 4 = `VI`) of a timetable.
pub open spec fn day_sorted(sol: Seq<(Seccion, i32)>, k: int) -> Seq<(i32, i32)> {
    sort_by_start(sol_slots(sol, day_name(k)))
}

/// Total idle time, in minutes, between consecutive classes of each weekday.
pub open spec fn total_gaps(sol: Seq<(Seccion, i32)>) -> int {
    gap_sum(day_sorted(sol, 0)) + gap_sum(day_sorted(sol, 1)) + gap_sum(day_sorted(sol, 2))
        + gap_sum(day_sorted(sol, 3)) + gap_sum(day_sorted(sol, 4))
}

/// Every timetable entry of every section reads within `i32`.
pub open spec fn sol_ranges_fit(sol: Seq<(Seccion, i32)>) -> bool {
    forall|k: int, j: int| 0 <= k < sol.len() && 0 <= j < sol[k].0.horario@.len() ==> range_fits(
        (#[trigger] sol[k].0.horario@[j])@,
    )
}

/// The arithmetic of the gap total stays within `i32`.
pub open spec fn gaps_fit(sol: Seq<(Seccion, i32)>) -> bool {
    &&& total_gaps(sol) <= i32::MAX
    &&& forall|k: int| 0 <= k < 5 ==> diffs_fit(#[trigger] day_sorted(sol, k))
}

proof fn lemma_day_hits_len(days: Seq<Seq<char>>, d: Seq<char>, r: (i32, i32))
    ensures
        day_hits(days, d, r).len() <= days.len(),
    decreases days.len(),
{
    if days.len() > 0 {
        lemma_day_hits_len(days.drop_last(), d, r);
    }
}

fn entry_slots_exec(e: &String, k: usize) -> (r: Vec<(i32, i32)>)
    requires
        k < 5,
        range_fits(e@),
    ensures
        r@ == entry_slots(e@, day_name(k as int)),
{
    let days = extract_days_from_horario(e.as_str());
    let mut out: Vec<(i32, i32)> = Vec::new();
    match parse_horario_range(e.as_str()) {
        None => {},
        Some(rg) => {
            let ghost dv = days.deep_view();
            let mut i: usize = 0;
            while i < days.len()
                invariant
                    i <= days.len(),
                    dv == days.deep_view(),
                    dv == days_of(e@),
                    k < 5,
                    out@ == day_hits(dv.subrange(0, i as int), day_name(k as int), rg),
                decreases days.len() - i,
            {
                assert(dv.subrange(0, i + 1).drop_last() =~= dv.subrange(0, i as int));
                let dc = chars_of(days[i].as_str());
                match day_index(&dc) {
                    Some(x) => {
                        if x == k {
                            out.push(rg);
                        } else {
                            assert(day_name(x as int) != day_name(k as int));
                        }
                    },
                    None => {},
                }
                i = i + 1;
            }
            assert(dv.subrange(0, days.len() as int) =~= dv);
        },
    }
    out
}

fn hs_slots_exec(hs: &Vec<String>, k: usize) -> (r: Vec<(i32, i32)>)
    requires
        k < 5,
        forall|j: int| 0 <= j < hs.len() ==> range_fits((#[trigger] hs@[j])@),
    ensures
        r@ == hs_slots(hs@, day_name(k as int)),
{
    let mut out: Vec<(i32, i32)> = Vec::new();
    let mut j: usize = 0;
    while j < hs.len()
        invariant
            j <= hs.len(),
            k < 5,
            forall|q: int| 0 <= q < hs.len() ==> range_fits((#[trigger] hs@[q])@),
            out@ == hs_slots(hs@.subrange(0, j as int), day_name(k as int)),
        decreases hs.len() - j,
    {
        assert(hs@.subrange(0, j + 1).drop_last() =~= hs@.subrange(0, j as int));
        let add = entry_slots_exec(&hs[j], k);
        let mut a: usize = 0;
        let ghost o0 = out@;
        while a < add.len()
            invariant
                a <= add.len(),
                out@ == o0 + add@.subrange(0, a as int),
            decreases add.len() - a,
        {
            out.push(add[a]);
            a = a + 1;
            assert(out@ =~= o0 + add@.subrange(0, a as int));
        }
        assert(add@.subrange(0, add.len() as int) =~= add@);
        j = j + 1;
    }
    assert(hs@.subrange(0, hs.len() as int) =~= hs@);
    out
}

pub(crate) fn sol_slots_exec(sol: &[(Seccion, i32)], k: usize) -> (r: Vec<(i32, i32)>)
    requires
        k < 5,
        sol_ranges_fit(sol@),
    ensures
        r@ == sol_slots(sol@, day_name(k as int)),
{
    let mut out: Vec<(i32, i32)> = Vec::new();
    let mut i: usize = 0;
    while i < sol.len()
        invariant
            i <= sol.len(),
            k < 5,
            sol_ranges_fit(sol@),
            out@ == sol_slots(sol@.subrange(0, i as int), day_name(k as int)),
        decreases sol.len() - i,
    {
        assert(sol@.subrange(0, i + 1).drop_last() =~= sol@.subrange(0, i as int));
        assert(forall|j: int| 0 <= j < sol@[i as int].0.horario@.len() ==> range_fits((#[trigger] sol@[i as int].0.horario@[j])@));
        let add = hs_slots_exec(&sol[i].0.horario, k);
        let mut a: usize = 0;
        let ghost o0 = out@;
        while a < add.len()
            invariant
                a <= add.len(),
                out@ == o0 + add@.subrange(0, a as int),
            decreases add.len() - a,
        {
            out.push(add[a]);
            a = a + 1;
            assert(out@ =~= o0 + add@.subrange(0, a as int));
        }
        assert(add@.subrange(0, add.len() as int) =~= add@);
        i = i + 1;
    }
    assert(sol@.subrange(0, sol.len() as int) =~= sol@);
    out
}

proof fn lemma_ins_at(s: Seq<(i32, i32)>, x: (i32, i32), p: int)
    requires
        0 <= p <= s.len(),
        forall|q: int| p <= q < s.len() ==> (#[trigger] s[q]).0 > x.0,
        p > 0 ==> s[p - 1].0 <= x.0,
    ensures
        ins_by_start(s, x) == s.insert(p, x),
    decreases s.len(),
{
    if s.len() == 0 {
        assert(s.insert(p, x) =~= seq![x]);
    } else if s.last().0 <= x.0 {
        assert(p == s.len());
        assert(s.insert(p, x) =~= s.push(x));
    } else {
        assert(p < s.len());
        lemma_ins_at(s.drop_last(), x, p);
        assert(s.drop_last().insert(p, x).push(s.last()) =~= s.insert(p, x));
    }
}

pub(crate) fn sort_slots(v: &Vec<(i32, i32)>) -> (r: Vec<(i32, i32)>)
    ensures
        r@ == sort_by_start(v@),
{
    let mut out: Vec<(i32, i32)> = Vec::new();
    let mut i: usize = 0;
    while i < v.len()
        invariant
            i <= v.len(),
            out@ == sort_by_start(v@.subrange(0, i as int)),
        decreases v.len() - i,
    {
        assert(v@.subrange(0, i + 1).drop_last() =~= v@.subrange(0, i as int));
        let x = v[i];
        let mut p: usize = out.len();
        while p > 0 && out[p - 1].0 > x.0
            invariant
                p <= out.len(),
                forall|q: int| p <= q < out.len() ==> (#[trigger] out@[q]).0 > x.0,
            decreases p,
        {
            p = p - 1;
        }
        proof {
            lemma_ins_at(out@, x, p as int);
        }
        out.insert(p, x);
        i = i + 1;
    }
    assert(v@.subrange(0, v.len() as int) =~= v@);
    out
}

pub(crate) proof fn lemma_gap_sum_prefix(s: Seq<(i32, i32)>, i: int)
    requires
        0 <= i <= s.len(),
    ensures
        0 <= gap_sum(s.subrange(0, i)) <= gap_sum(s),
    decreases s.len() - i,
{
    lemma_gap_sum_nonneg(s.subrange(0, i));
    if i < s.len() {
        lemma_gap_sum_prefix(s, i + 1);
        let t = s.subrange(0, i + 1);
        assert(t.drop_last() =~= s.subrange(0, i));
        lemma_gap_sum_nonneg(t.drop_last());
    } else {
        assert(s.subrange(0, i) =~= s);
        lemma_gap_sum_nonneg(s);
    }
}

pub(crate) proof fn lemma_gap_sum_nonneg(s: Seq<(i32, i32)>)
    ensures
        gap_sum(s) >= 0,
    decreases s.len(),
{
    if s.len() > 1 {
        lemma_gap_sum_nonneg(s.drop_last());
    }
}

/// Sum of the positive gaps of ordered slots.
fn gap_sum_exec(s: &Vec<(i32, i32)>) -> (r: i32)
    requires
        gap_sum(s@) <= i32::MAX,
        diffs_fit(s@),
    ensures
        r == gap_sum(s@),
{
    let mut total: i32 = 0;
    if s.len() <= 1 {
        return 0;
    }
    let mut i: usize = 1;
    assert(s@.subrange(0, 1).len() == 1);
    while i < s.len()
        invariant
            1 <= i <= s.len(),
            gap_sum(s@) <= i32::MAX,
            diffs_fit(s@),
            total == gap_sum(s@.subrange(0, i as int)),
        decreases s.len() - i,
    {
        let ghost t = s@.subrange(0, i + 1);
        assert(t.drop_last() =~= s@.subrange(0, i as int));
        assert(t.last() == s@[i as int] && t[t.len() - 2] == s@[i - 1]);
        proof {
            lemma_gap_sum_prefix(s@, i + 1);
        }
        let g = s[i].0 - s[i - 1].1;
        if g > 0 {
            total = total + g;
        }
        i = i + 1;
    }
    assert(s@.subrange(0, s.len() as int) =~= s@);
    total
}

/// Total idle time between classes, in minutes: for each weekday, the slots of the
/// timetable on that day ordered by start time, and the positive gaps between each
/// slot and the next summed.
pub fn calculate_total_gaps(solution: &[(Seccion, i32)]) -> (r: i32)
    requires
        sol_ranges_fit(solution@),
        gaps_fit(solution@),
    ensures
        r == total_gaps(solution@),
{
    let ghost sv = solution@;
    let ghost g0 = gap_sum(day_sorted(sv, 0));
    let ghost g1 = gap_sum(day_sorted(sv, 1));
    let ghost g2 = gap_sum(day_sorted(sv, 2));
    let ghost g3 = gap_sum(day_sorted(sv, 3));
    let ghost g4 = gap_sum(day_sorted(sv, 4));
    proof {
        lemma_gap_sum_nonneg(day_sorted(sv, 0));
        lemma_gap_sum_nonneg(day_sorted(sv, 1));
        lemma_gap_sum_nonneg(day_sorted(sv, 2));
        lemma_gap_sum_nonneg(day_sorted(sv, 3));
        lemma_gap_sum_nonneg(day_sorted(sv, 4));
    }
    let mut total: i32 = 0;
    let mut k: usize = 0;
    while k < 5
        invariant
            k <= 5,
            sv == solution@,
            sol_ranges_fit(sv),
            gaps_fit(sv),
            g0 == gap_sum(day_sorted(sv, 0)) && g1 == gap_sum(day_sorted(sv, 1)) && g2 == gap_sum(day_sorted(sv, 2))
                && g3 == gap_sum(day_sorted(sv, 3)) && g4 == gap_sum(day_sorted(sv, 4)),
            g0 >= 0 && g1 >= 0 && g2 >= 0 && g3 >= 0 && g4 >= 0,
            total == (if k > 0 { g0 } else { 0 }) + (if k > 1 { g1 } else { 0 }) + (if k > 2 { g2 } else { 0 })
                + (if k > 3 { g3 } else { 0 }) + (if k > 4 { g4 } else { 0 }),
        decreases 5 - k,
    {
        let slots = sort_slots(&sol_slots_exec(solution, k));
        assert(slots@ == day_sorted(sv, k as int));
        assert(diffs_fit(day_sorted(sv, k as int)));
        let g = gap_sum_exec(&slots);
        assert(g == if k == 0 { g0 } else if k == 1 { g1 } else if k == 2 { g2 } else if k == 3 { g3 } else { g4 });
        assert(total + g <= total_gaps(sv));
        total = total + g;
        k = k + 1;
    }
    total
}

/// `v` limited to the range `lo..=hi`.
pub open spec fn clamp(v: int, lo: int, hi: int) -> int {
    if v < lo {
        lo
    } else if v > hi {
        hi
    } else {
        v
    }
}

/// The section number used in a priority: the section parsed as an integer and
/// limited to `0..=99`, or 0 when it does not parse.
pub open spec fn section_number(seccion: Seq<char>) -> int {
    match parse_i32_spec(seccion) {
        Some(v) => clamp(v as int, 0, 99),
        None => 0,
    }
}

/// The priority of a section of a course: the eight decimal digits `CCUUKKSS` where
/// `CC` is 10 for a critical course and 0 otherwise, `UU` is 10 minus the slack
/// (limited to `0..=10`), `KK` is 60 minus the sequence number (at least 0, limited to
/// `0..=60`), and `SS` is the section number.
pub open spec fn priority(ramo: RamoDisponible, seccion: Seq<char>) -> int {
    (if ramo.critico { 10int } else { 0int }) * 1_000_000
        + (10 - clamp(ramo.holgura as int, 0, 10)) * 10_000
        + clamp(60 - (if ramo.numb_correlativo < 0 { 0 } else { ramo.numb_correlativo as int }), 0, 60) * 100
        + section_number(seccion)
}

/// The priority of section `sec` of course `ramo` (`CC` `UU` `KK` `SS` read as one
/// eight-digit number; see `priority`).
pub fn compute_priority(ramo: &RamoDisponible, sec: &Seccion) -> (r: i64)
    ensures
        r == priority(*ramo, sec.seccion@),
{
    let cc: i64 = if ramo.critico { 10 } else { 0 };
    let h: i64 = if ramo.holgura < 0 { 0 } else if ramo.holgura > 10 { 10 } else { ramo.holgura as i64 };
    let uu: i64 = 10 - h;
    let n: i64 = if ramo.numb_correlativo < 0 { 0 } else { ramo.numb_correlativo as i64 };
    let kv: i64 = 60 - n;
    let kk: i64 = if kv < 0 { 0 } else if kv > 60 { 60 } else { kv };
    let ss: i64 = match parse_i32(&chars_of(sec.seccion.as_str())) {
        Some(v) => if v < 0 { 0 } else if v > 99 { 99 } else { v as i64 },
        None => 0,
    };
    cc * 1_000_000 + uu * 10_000 + kk * 100 + ss
}

/// Whether two sections share a timetable entry, compared as whole strings.
pub open spec fn share_entry(a: Seq<String>, b: Seq<String>) -> bool {
    exists|i: int, j: int| 0 <= i < a.len() && 0 <= j < b.len() && (#[trigger] a[i])@ == (#[trigger] b[j])@
}

/// Whether two sections share an identical timetable entry.
pub fn sections_conflict(s1: &Seccion, s2: &Seccion) -> (r: bool)
    ensures
        r == share_entry(s1.horario@, s2.horario@),
{
    let mut i: usize = 0;
    while i < s1.horario.len()
        invariant
            i <= s1.horario.len(),
            forall|a: int, b: int| 0 <= a < i && 0 <= b < s2.horario.len() ==> (#[trigger] s1.horario@[a])@ != (#[trigger] s2.horario@[b])@,
        decreases s1.horario.len() - i,
    {
        let a = chars_of(s1.horario[i].as_str());
        let mut j: usize = 0;
        while j < s2.horario.len()
            invariant
                i < s1.horario.len(),
                j <= s2.horario.len(),
                a@ == s1.horario@[i as int]@,
                forall|b: int| 0 <= b < j ==> s1.horario@[i as int]@ != (#[trigger] s2.horario@[b])@,
            decreases s2.horario.len() - j,
        {
            if chars_eq(&a, &chars_of(s2.horario[j].as_str())) {
                assert(share_entry(s1.horario@, s2.horario@)) by {
                    assert(s1.horario@[i as int]@ == s2.horario@[j as int]@);
                }
                return true;
            }
            j = j + 1;
        }
        i = i + 1;
    }
    false
}

/// Index of the first course with identifier `id`.
pub open spec fn first_with_id(ramos: Seq<RamoDisponible>, id: i32, i: int) -> Option<int>
    decreases ramos.len() - i,
{
    if i < 0 || i >= ramos.len() {
        None
    } else if ramos[i].id == id {
        Some(i)
    } else {
        first_with_id(ramos, id, i + 1)
    }
}

/// Whether `code` is one of `passed`.
pub open spec fn code_passed(passed: Seq<String>, code: Seq<char>) -> bool {
    exists|k: int| 0 <= k < passed.len() && (#[trigger] passed[k])@ == code
}

/// Whether every prerequisite of `ramo` is a known course whose upper-cased code is
/// among the passed codes; the first course with the prerequisite's identifier is
/// the one consulted.
pub open spec fn prereqs_met(ramo: RamoDisponible, ramos: Seq<RamoDisponible>, passed: Seq<String>) -> bool {
    forall|q: int| 0 <= q < ramo.requisitos_ids@.len() ==> match #[trigger] first_with_id(ramos, ramo.requisitos_ids@[q], 0) {
        Some(k) => code_passed(passed, upper_of(ramos[k].codigo@)),
        None => false,
    }
}

proof fn lemma_first_with_id(ramos: Seq<RamoDisponible>, id: i32, i: int, j: int)
    requires
        0 <= i <= j <= ramos.len(),
        forall|k: int| i <= k < j ==> (#[trigger] ramos[k]).id != id,
    ensures
        first_with_id(ramos, id, i) == first_with_id(ramos, id, j),
    decreases j - i,
{
    if i < j {
        lemma_first_with_id(ramos, id, i + 1, j);
    }
}

/// Whether the prerequisites of a course are passed: a course without prerequisites
/// always is; otherwise every prerequisite must name a known course (by identifier)
/// whose upper-cased code is among `passed_codes`.
pub fn requisitos_cumplidos(ramo: &RamoDisponible, ramos_disp: &[RamoDisponible], passed_codes: &[String]) -> (r: bool)
    ensures
        r == prereqs_met(*ramo, ramos_disp@, passed_codes@),
{
    let mut q: usize = 0;
    while q < ramo.requisitos_ids.len()
        invariant
            q <= ramo.requisitos_ids.len(),
            forall|x: int| 0 <= x < q ==> match #[trigger] first_with_id(ramos_disp@, ramo.requisitos_ids@[x], 0) {
                Some(k) => code_passed(passed_codes@, upper_of(ramos_disp@[k].codigo@)),
                None => false,
            },
        decreases ramo.requisitos_ids.len() - q,
    {
        let id = ramo.requisitos_ids[q];
        let mut k: usize = 0;
        while k < ramos_disp.len() && ramos_disp[k].id != id
            invariant
                k <= ramos_disp.len(),
                forall|j: int| 0 <= j < k ==> (#[trigger] ramos_disp@[j]).id != id,
            decreases ramos_disp.len() - k,
        {
            k = k + 1;
        }
        proof {
            lemma_first_with_id(ramos_disp@, id, 0, k as int);
        }
        if k == ramos_disp.len() {
            assert(first_with_id(ramos_disp@, id, 0) is None);
            return false;
        }
        assert(first_with_id(ramos_disp@, id, 0) == Some(k as int));
        let code = to_upper(&chars_of(ramos_disp[k].codigo.as_str()));
        let mut p: usize = 0;
        let mut found = false;
        while p < passed_codes.len()
            invariant_except_break
                !found,
            invariant
                p <= passed_codes.len(),
                forall|j: int| 0 <= j < p ==> (#[trigger] passed_codes@[j])@ != code@,
            ensures
                found <==> code_passed(passed_codes@, code@),
            decreases passed_codes.len() - p,
        {
            if chars_eq(&chars_of(passed_codes[p].as_str()), &code) {
                found = true;
                break;
            }
            p = p + 1;
        }
        if !found {
            return false;
        }
        q = q + 1;
    }
    true
}

/// A section of a critical course always outranks a section of a course that is not
/// critical, whatever their slack, sequence number and section number.
pub proof fn lemma_critical_outranks(a: RamoDisponible, sa: Seq<char>, b: RamoDisponible, sb: Seq<char>)
    requires
        a.critico,
        !b.critico,
    ensures
        priority(a, sa) > priority(b, sb),
{
}

/// Every priority is an eight-digit number at most 10 106 099.
pub proof fn lemma_priority_bounds(a: RamoDisponible, s: Seq<char>)
    ensures
        0 <= priority(a, s) <= 10_106_099,
{
}

/// Sharing a timetable entry is symmetric.
pub proof fn lemma_share_entry_symmetric(a: Seq<String>, b: Seq<String>)
    ensures
        share_entry(a, b) == share_entry(b, a),
{
    if share_entry(a, b) {
        let (i, j) = choose|i: int, j: int| 0 <= i < a.len() && 0 <= j < b.len() && (#[trigger] a[i])@ == (#[trigger] b[j])@;
        assert(b[j]@ == a[i]@);
    }
    if share_entry(b, a) {
        let (i, j) = choose|i: int, j: int| 0 <= i < b.len() && 0 <= j < a.len() && (#[trigger] b[i])@ == (#[trigger] a[j])@;
        assert(a[j]@ == b[i]@);
    }
}

/// The idle time of a timetable is never negative.
pub proof fn lemma_total_gaps_nonneg(sol: Seq<(Seccion, i32)>)
    ensures
        total_gaps(sol) >= 0,
{
    lemma_gap_sum_nonneg(day_sorted(sol, 0));
    lemma_gap_sum_nonneg(day_sorted(sol, 1));
    lemma_gap_sum_nonneg(day_sorted(sol, 2));
    lemma_gap_sum_nonneg(day_sorted(sol, 3));
    lemma_gap_sum_nonneg(day_sorted(sol, 4));
}
} // verus!
