//! The steps of the critical-route pipeline around the clique search: the sections
//! that may be offered to a student, and the final choice of at most ten timetables.
use vstd::prelude::*;
use crate::models::Seccion;
use crate::selector::same_section;
use crate::filters::{Solution, kept, filters_fit, apply_all_filters};
use crate::conflict::{all_expand_fit, all_expanded, any_overlap, solapan_horarios};
use crate::horario::{expand_entry, expand_horario_entry};
use crate::models::UserFilters;
use crate::text::{chars_of, chars_eq, to_upper, upper_of};

verus! {

/// Whether the course code `code` is among the passed codes, both upper-cased.
pub open spec fn is_passed(pasados: Seq<String>, code: Seq<char>) -> bool {
    exists|p: int| 0 <= p < pasados.len() && upper_of(#[trigger] pasados[p]@) == upper_of(code)
}

/// Whether some entry of `hs` has a slot on day `dia`.
pub open spec fn has_day(hs: Seq<String>, dia: Seq<char>) -> bool {
    exists|j: int, s: int| 0 <= j < hs.len() && 0 <= s < expand_entry(hs[j]@).len() && (#[trigger] expand_entry(hs[j]@)[s]).0 == dia
}

/// Whether a section may be offered: its course is not passed, it overlaps no
/// forbidden block, and it has no class on a day the student wants free.
pub open spec fn viable(sec: Seccion, pasados: Seq<String>, prohibidos: Seq<String>, dias: Option<Vec<String>>) -> bool {
    &&& !is_passed(pasados, sec.codigo@)
    &&& (prohibidos.len() > 0 ==> !any_overlap(all_expanded(sec.horario@), all_expanded(prohibidos)))
    &&& (dias matches Some(ds) ==> forall|d: int| 0 <= d < ds@.len() ==> !has_day(sec.horario@, upper_of(#[trigger] ds@[d]@)))
}

/// The viable sections, in order.
pub open spec fn viable_list(secs: Seq<Seccion>, pasados: Seq<String>, prohibidos: Seq<String>, dias: Option<Vec<String>>) -> Seq<Seccion>
    decreases secs.len(),
{
    if secs.len() == 0 {
        Seq::empty()
    } else if viable(secs.last(), pasados, prohibidos, dias) {
        viable_list(secs.drop_last(), pasados, prohibidos, dias).push(secs.last())
    } else {
        viable_list(secs.drop_last(), pasados, prohibidos, dias)
    }
}

/// The timetable entries that the checks read parse within `i32`.
pub open spec fn viable_fit(secs: Seq<Seccion>, pasados: Seq<String>, prohibidos: Seq<String>, dias: Option<Vec<String>>) -> bool {
    &&& prohibidos.len() > 0 ==> all_expand_fit(prohibidos)
    &&& forall|k: int| 0 <= k < secs.len() && !is_passed(pasados, (#[trigger] secs[k]).codigo@) ==> all_expand_fit(secs[k].horario@)
}

fn has_day_exec(hs: &Vec<String>, dia: &Vec<char>) -> (r: bool)
    requires
        all_expand_fit(hs@),
    ensures
        r == has_day(hs@, dia@),
{
    let mut j: usize = 0;
    while j < hs.len()
        invariant
            j <= hs.len(),
            all_expand_fit(hs@),
            forall|x: int, s: int| 0 <= x < j && 0 <= s < expand_entry(hs@[x]@).len() ==> (#[trigger] expand_entry(hs@[x]@)[s]).0 != dia@,
        decreases hs.len() - j,
    {
        let segs = expand_horario_entry(&chars_of(hs[j].as_str()));
        let ghost ev = expand_entry(hs@[j as int]@);
        let mut s: usize = 0;
        while s < segs.len()
            invariant
                s <= segs.len(),
                j < hs.len(),
                ev == expand_entry(hs@[j as int]@),
                segs.deep_view() == ev,
                forall|t: int| 0 <= t < s ==> (#[trigger] ev[t]).0 != dia@,
            decreases segs.len() - s,
        {
            if chars_eq(&chars_of(segs[s].0.as_str()), dia) {
                assert(ev[s as int].0 == dia@);
                assert(has_day(hs@, dia@));
                return true;
            }
            s = s + 1;
        }
        j = j + 1;
    }
    false
}

/// A field-by-field copy of a section.
fn copy_section(s: &Seccion) -> (r: Seccion)
    ensures
        same_section(r, *s),
{
    s.duplicate()
}

/// The sections that may be offered to a student: not of a passed course (codes
/// compared upper-cased), overlapping no forbidden block, and with no class on any of
/// the days the student wants free.
pub fn viable_sections(
    lista: &[Seccion],
    ramos_pasados: &[String],
    horarios_prohibidos: &[String],
    dias_libres: &Option<Vec<String>>,
) -> (r: Vec<Seccion>)
    requires
        viable_fit(lista@, ramos_pasados@, horarios_prohibidos@, *dias_libres),
    ensures
        r.len() == viable_list(lista@, ramos_pasados@, horarios_prohibidos@, *dias_libres).len(),
        forall|k: int| 0 <= k < r.len() ==> same_section(#[trigger] r@[k], viable_list(lista@, ramos_pasados@, horarios_prohibidos@, *dias_libres)[k]),
{
    let ghost pv = ramos_pasados@;
    let ghost hv = horarios_prohibidos@;
    let mut passed: Vec<Vec<char>> = Vec::new();
    let mut p: usize = 0;
    while p < ramos_pasados.len()
        invariant
            p <= ramos_pasados.len(),
            passed.len() == p,
            forall|x: int| 0 <= x < p ==> (#[trigger] passed@[x])@ == upper_of(ramos_pasados@[x]@),
        decreases ramos_pasados.len() - p,
    {
        passed.push(to_upper(&chars_of(ramos_pasados[p].as_str())));
        p = p + 1;
    }
    let mut dias_up: Vec<Vec<char>> = Vec::new();
    if let Some(ds) = dias_libres {
        let mut d: usize = 0;
        while d < ds.len()
            invariant
                d <= ds.len(),
                dias_up.len() == d,
                forall|x: int| 0 <= x < d ==> (#[trigger] dias_up@[x])@ == upper_of(ds@[x]@),
            decreases ds.len() - d,
        {
            dias_up.push(to_upper(&chars_of(ds[d].as_str())));
            d = d + 1;
        }
    }
    let mut out: Vec<Seccion> = Vec::new();
    let mut i: usize = 0;
    while i < lista.len()
        invariant
            i <= lista.len(),
            viable_fit(lista@, pv, hv, *dias_libres),
            pv == ramos_pasados@ && hv == horarios_prohibidos@,
            passed.len() == pv.len(),
            forall|x: int| 0 <= x < pv.len() ==> (#[trigger] passed@[x])@ == upper_of(pv[x]@),
            dias_libres matches Some(ds) ==> dias_up.len() == ds@.len() && forall|x: int| 0 <= x < ds@.len() ==> (#[trigger] dias_up@[x])@ == upper_of(ds@[x]@),
            out.len() == viable_list(lista@.subrange(0, i as int), pv, hv, *dias_libres).len(),
            forall|k: int| 0 <= k < out.len() ==> same_section(#[trigger] out@[k], viable_list(lista@.subrange(0, i as int), pv, hv, *dias_libres)[k]),
        decreases lista.len() - i,
    {
        let ghost pre = lista@.subrange(0, i as int);
        assert(lista@.subrange(0, i + 1).drop_last() =~= pre);
        let sec = &lista[i];
        let code = to_upper(&chars_of(sec.codigo.as_str()));
        let mut is_p = false;
        let mut q: usize = 0;
        while q < passed.len()
            invariant_except_break
                !is_p,
            invariant
                q <= passed.len() == pv.len(),
                forall|x: int| 0 <= x < pv.len() ==> (#[trigger] passed@[x])@ == upper_of(pv[x]@),
                code@ == upper_of(sec.codigo@),
                forall|x: int| 0 <= x < q ==> upper_of(#[trigger] pv[x]@) != upper_of(sec.codigo@),
            ensures
                is_p <==> is_passed(pv, sec.codigo@),
            decreases passed.len() - q,
        {
            if chars_eq(&passed[q], &code) {
                is_p = true;
                break;
            }
            q = q + 1;
        }
        let mut ok = !is_p;
        if ok && horarios_prohibidos.len() > 0 {
            assert(all_expand_fit(sec.horario@));
            if solapan_horarios(sec.horario.as_slice(), horarios_prohibidos) {
                ok = false;
            }
        }
        if ok {
            if let Some(ds) = dias_libres {
                let mut d: usize = 0;
                while d < dias_up.len()
                    invariant_except_break
                        ok,
                    invariant
                        d <= dias_up.len() == ds@.len(),
                        forall|x: int| 0 <= x < ds@.len() ==> (#[trigger] dias_up@[x])@ == upper_of(ds@[x]@),
                        all_expand_fit(sec.horario@),
                        forall|x: int| 0 <= x < d ==> !has_day(sec.horario@, upper_of(#[trigger] ds@[x]@)),
                    ensures
                        ok <==> forall|x: int| 0 <= x < ds@.len() ==> !has_day(sec.horario@, upper_of(#[trigger] ds@[x]@)),
                    decreases dias_up.len() - d,
                {
                    if has_day_exec(&sec.horario, &dias_up[d]) {
                        ok = false;
                        break;
                    }
                    d = d + 1;
                }
            }
        }
        assert(ok == viable(lista@[i as int], pv, hv, *dias_libres));
        let ghost o0 = out@;
        if ok {
            out.push(copy_section(sec));
            assert forall|k: int| 0 <= k < out.len() implies same_section(#[trigger] out@[k], viable_list(lista@.subrange(0, i + 1), pv, hv, *dias_libres)[k]) by {
                if k < o0.len() {
                    assert(out@[k] == o0[k]);
                }
            }
        }
        i = i + 1;
    }
    assert(lista@.subrange(0, lista.len() as int) =~= lista@);
    out
}


/// Two timetables agree: same score, and the same sections with the same priorities.
pub open spec fn same_solution(a: Solution, b: Solution) -> bool {
    &&& a.1 == b.1
    &&& a.0@.len() == b.0@.len()
    &&& forall|i: int| 0 <= i < a.0@.len() ==> same_section((#[trigger] a.0@[i]).0, b.0@[i].0) && a.0@[i].1 == b.0@[i].1
}

/// A copy of a timetable.
fn copy_solution(s: &Solution) -> (r: Solution)
    ensures
        same_solution(r, *s),
{
    let mut v: Vec<(Seccion, i32)> = Vec::new();
    let mut i: usize = 0;
    while i < s.0.len()
        invariant
            i <= s.0.len(),
            v.len() == i,
            forall|x: int| 0 <= x < i ==> same_section((#[trigger] v@[x]).0, s.0@[x].0) && v@[x].1 == s.0@[x].1,
        decreases s.0.len() - i,
    {
        v.push((copy_section(&s.0[i].0), s.0[i].1));
        i = i + 1;
    }
    (v, s.1)
}

/// Positions of the timetables with `k` sections, in order.
pub open spec fn of_size(sols: Seq<Solution>, k: int) -> Seq<int>
    decreases sols.len(),
{
    if sols.len() == 0 {
        Seq::empty()
    } else if sols.last().0@.len() == k {
        of_size(sols.drop_last(), k).push(sols.len() - 1)
    } else {
        of_size(sols.drop_last(), k)
    }
}

/// `x` inserted after every position whose score is at least its own.
pub open spec fn ins_by_score(idx: Seq<int>, sols: Seq<Solution>, x: int) -> Seq<int>
    decreases idx.len(),
{
    if idx.len() == 0 {
        seq![x]
    } else if sols[idx.last()].1 >= sols[x].1 {
        idx.push(x)
    } else {
        ins_by_score(idx.drop_last(), sols, x).push(idx.last())
    }
}

/// Positions ordered by descending score, equal scores kept in their order.
pub open spec fn sort_by_score(idx: Seq<int>, sols: Seq<Solution>) -> Seq<int>
    decreases idx.len(),
{
    if idx.len() == 0 {
        Seq::empty()
    } else {
        ins_by_score(sort_by_score(idx.drop_last(), sols), sols, idx.last())
    }
}

/// Positions of the timetables by size from six sections down to one, each size by
/// descending score.
pub open spec fn ranked_from(sols: Seq<Solution>, k: int) -> Seq<int>
    decreases k,
{
    if k <= 0 {
        Seq::empty()
    } else {
        sort_by_score(of_size(sols, k), sols) + ranked_from(sols, k - 1)
    }
}

/// The positions chosen: the first ten of the ranking, or, when no timetable has one
/// to six sections, the first ten timetables.
pub open spec fn chosen(sols: Seq<Solution>) -> Seq<int> {
    let r = ranked_from(sols, 6);
    if r.len() > 0 {
        r.take(if r.len() < 10 { r.len() as int } else { 10 })
    } else {
        Seq::new(if sols.len() < 10 { sols.len() } else { 10 }, |i: int| i)
    }
}

proof fn lemma_of_size_range(sols: Seq<Solution>, k: int)
    ensures
        forall|a: int| 0 <= a < of_size(sols, k).len() ==> 0 <= #[trigger] of_size(sols, k)[a] < sols.len(),
    decreases sols.len(),
{
    if sols.len() > 0 {
        lemma_of_size_range(sols.drop_last(), k);
        let p = of_size(sols.drop_last(), k);
        assert forall|a: int| 0 <= a < of_size(sols, k).len() implies 0 <= #[trigger] of_size(sols, k)[a] < sols.len() by {
            if a < p.len() {
                assert(of_size(sols, k)[a] == p[a]);
            }
        }
    }
}

fn of_size_exec(sols: &Vec<Solution>, k: usize) -> (r: Vec<usize>)
    ensures
        r@.map_values(|x: usize| x as int) == of_size(sols@, k as int),
{
    let mut out: Vec<usize> = Vec::new();
    let mut i: usize = 0;
    while i < sols.len()
        invariant
            i <= sols.len(),
            out@.map_values(|x: usize| x as int) == of_size(sols@.subrange(0, i as int), k as int),
        decreases sols.len() - i,
    {
        let ghost pre = sols@.subrange(0, i as int);
        let ghost o0 = out@;
        assert(sols@.subrange(0, i + 1).drop_last() =~= pre);
        if sols[i].0.len() == k {
            out.push(i);
            assert(out@.map_values(|x: usize| x as int) =~= o0.map_values(|x: usize| x as int).push(i as int));
        }
        i = i + 1;
    }
    assert(sols@.subrange(0, sols.len() as int) =~= sols@);
    out
}

proof fn lemma_ins_score_at(idx: Seq<int>, sols: Seq<Solution>, x: int, p: int)
    requires
        0 <= p <= idx.len(),
        forall|q: int| p <= q < idx.len() ==> sols[#[trigger] idx[q]].1 < sols[x].1,
        p > 0 ==> sols[idx[p - 1]].1 >= sols[x].1,
    ensures
        ins_by_score(idx, sols, x) == idx.insert(p, x),
    decreases idx.len(),
{
    if idx.len() == 0 {
        assert(idx.insert(p, x) =~= seq![x]);
    } else if sols[idx.last()].1 >= sols[x].1 {
        assert(p == idx.len());
        assert(idx.insert(p, x) =~= idx.push(x));
    } else {
        lemma_ins_score_at(idx.drop_last(), sols, x, p);
        assert(idx.drop_last().insert(p, x).push(idx.last()) =~= idx.insert(p, x));
    }
}

proof fn lemma_sort_score_range(idx: Seq<int>, sols: Seq<Solution>)
    requires
        forall|a: int| 0 <= a < idx.len() ==> 0 <= #[trigger] idx[a] < sols.len(),
    ensures
        sort_by_score(idx, sols).len() == idx.len(),
        forall|a: int| 0 <= a < idx.len() ==> 0 <= #[trigger] sort_by_score(idx, sols)[a] < sols.len(),
    decreases idx.len(),
{
    if idx.len() > 0 {
        lemma_sort_score_range(idx.drop_last(), sols);
        lemma_ins_score_range(sort_by_score(idx.drop_last(), sols), sols, idx.last());
    }
}

proof fn lemma_ins_score_range(idx: Seq<int>, sols: Seq<Solution>, x: int)
    requires
        0 <= x < sols.len(),
        forall|a: int| 0 <= a < idx.len() ==> 0 <= #[trigger] idx[a] < sols.len(),
    ensures
        ins_by_score(idx, sols, x).len() == idx.len() + 1,
        forall|a: int| 0 <= a < idx.len() + 1 ==> 0 <= #[trigger] ins_by_score(idx, sols, x)[a] < sols.len(),
    decreases idx.len(),
{
    if idx.len() > 0 && sols[idx.last()].1 < sols[x].1 {
        lemma_ins_score_range(idx.drop_last(), sols, x);
        let r = ins_by_score(idx.drop_last(), sols, x);
        assert forall|a: int| 0 <= a < idx.len() + 1 implies 0 <= #[trigger] ins_by_score(idx, sols, x)[a] < sols.len() by {
            if a < r.len() {
                assert(ins_by_score(idx, sols, x)[a] == r[a]);
            }
        }
    }
}

/// Positions of the given list ordered by descending score (stable).
fn sort_positions(idx: &Vec<usize>, sols: &Vec<Solution>) -> (r: Vec<usize>)
    requires
        forall|a: int| 0 <= a < idx.len() ==> #[trigger] idx@[a] < sols.len(),
    ensures
        r@.map_values(|x: usize| x as int) == sort_by_score(idx@.map_values(|x: usize| x as int), sols@),
{
    let ghost iv = idx@.map_values(|x: usize| x as int);
    let mut out: Vec<usize> = Vec::new();
    let mut i: usize = 0;
    while i < idx.len()
        invariant
            i <= idx.len(),
            iv == idx@.map_values(|x: usize| x as int),
            forall|a: int| 0 <= a < idx.len() ==> #[trigger] idx@[a] < sols.len(),
            forall|a: int| 0 <= a < out.len() ==> #[trigger] out@[a] < sols.len(),
            out@.map_values(|x: usize| x as int) == sort_by_score(iv.subrange(0, i as int), sols@),
        decreases idx.len() - i,
    {
        assert(iv.subrange(0, i + 1).drop_last() =~= iv.subrange(0, i as int));
        let x = idx[i];
        let ghost ov = out@.map_values(|y: usize| y as int);
        let mut p: usize = out.len();
        while p > 0 && sols[out[p - 1]].1 < sols[x].1
            invariant
                p <= out.len(),
                x < sols.len(),
                ov == out@.map_values(|y: usize| y as int),
                forall|a: int| 0 <= a < out.len() ==> #[trigger] out@[a] < sols.len(),
                forall|q: int| p <= q < out.len() ==> sols@[#[trigger] ov[q]].1 < sols@[x as int].1,
            decreases p,
        {
            p = p - 1;
        }
        proof {
            lemma_ins_score_at(ov, sols@, x as int, p as int);
        }
        out.insert(p, x);
        assert(out@.map_values(|y: usize| y as int) =~= ov.insert(p as int, x as int));
        i = i + 1;
    }
    assert(iv.subrange(0, idx.len() as int) =~= iv);
    out
}

/// Positions as integers.
pub open spec fn ints(v: Seq<usize>) -> Seq<int> {
    v.map_values(|x: usize| x as int)
}

/// Appends the timetables of size `k`, by descending score, to `ranked`.
fn append_group(ranked: &mut Vec<usize>, sols: &Vec<Solution>, k: usize)
    requires
        forall|a: int| 0 <= a < old(ranked).len() ==> #[trigger] old(ranked)@[a] < sols.len(),
    ensures
        forall|a: int| 0 <= a < final(ranked).len() ==> #[trigger] final(ranked)@[a] < sols.len(),
        ints(final(ranked)@) == ints(old(ranked)@) + sort_by_score(of_size(sols@, k as int), sols@),
{
    let ghost sv = sols@;
    let grp = of_size_exec(sols, k);
    proof {
        lemma_of_size_range(sv, k as int);
        assert forall|a: int| 0 <= a < grp.len() implies #[trigger] grp@[a] < sols.len() by {
            assert(grp@.map_values(|x: usize| x as int)[a] == of_size(sv, k as int)[a]);
        }
    }
    let sorted = sort_positions(&grp, sols);
    let ghost target = sort_by_score(of_size(sv, k as int), sv);
    proof {
        assert(grp@.map_values(|x: usize| x as int) == of_size(sv, k as int));
        lemma_sort_score_range(of_size(sv, k as int), sv);
        assert(ints(sorted@) == target);
    }
    let ghost r0 = ints(ranked@);
    let mut a: usize = 0;
    while a < sorted.len()
        invariant
            a <= sorted.len(),
            ints(sorted@) == target,
            target.len() == sorted.len(),
            forall|b: int| 0 <= b < target.len() ==> 0 <= #[trigger] target[b] < sols.len(),
            forall|b: int| 0 <= b < ranked.len() ==> #[trigger] ranked@[b] < sols.len(),
            ints(ranked@) == r0 + target.subrange(0, a as int),
        decreases sorted.len() - a,
    {
        let x = sorted[a];
        assert(x as int == target[a as int]);
        let ghost before = ranked@;
        ranked.push(x);
        assert(ints(ranked@) =~= ints(before).push(x as int));
        assert(target.subrange(0, a + 1) =~= target.subrange(0, a as int).push(x as int));
        a = a + 1;
    }
    assert(target.subrange(0, sorted.len() as int) =~= target);
}

/// Chooses at most ten timetables: those with six sections first, then five, down to
/// one, each size by descending score (equal scores in their order); when no
/// timetable has one to six sections, the first ten as they come.
pub fn select_solutions(sols: &Vec<Solution>) -> (r: Vec<Solution>)
    ensures
        r.len() == chosen(sols@).len(),
        forall|a: int| 0 <= a < r.len() ==> 0 <= #[trigger] chosen(sols@)[a] < sols.len() && same_solution(r@[a], sols@[chosen(sols@)[a]]),
{
    let ghost sv = sols@;
    let mut ranked: Vec<usize> = Vec::new();
    let mut k: usize = 6;
    assert(ints(ranked@) =~= Seq::<int>::empty());
    while k > 0
        invariant
            k <= 6,
            sv == sols@,
            forall|a: int| 0 <= a < ranked.len() ==> #[trigger] ranked@[a] < sols.len(),
            ints(ranked@) + ranked_from(sv, k as int) == ranked_from(sv, 6),
        decreases k,
    {
        let ghost r0 = ints(ranked@);
        append_group(&mut ranked, sols, k);
        assert(ranked_from(sv, k as int) == sort_by_score(of_size(sv, k as int), sv) + ranked_from(sv, k - 1));
        assert(ints(ranked@) + ranked_from(sv, k - 1) =~= r0 + ranked_from(sv, k as int));
        k = k - 1;
    }
    assert(ints(ranked@) =~= ranked_from(sv, 6));
    let mut out: Vec<Solution> = Vec::new();
    let ghost ch = chosen(sv);
    if ranked.len() > 0 {
        let m = if ranked.len() < 10 { ranked.len() } else { 10 };
        let mut a: usize = 0;
        while a < m
            invariant
                a <= m <= ranked.len(),
                m == ch.len(),
                sv == sols@,
                ch == ints(ranked@).take(m as int),
                forall|b: int| 0 <= b < ranked.len() ==> #[trigger] ranked@[b] < sols.len(),
                out.len() == a,
                forall|b: int| 0 <= b < a ==> 0 <= #[trigger] ch[b] < sols.len() && same_solution(out@[b], sols@[ch[b]]),
            decreases m - a,
        {
            assert(ch[a as int] == ranked@[a as int] as int);
            out.push(copy_solution(&sols[ranked[a]]));
            a = a + 1;
        }
    } else {
        let m = if sols.len() < 10 { sols.len() } else { 10 };
        let mut a: usize = 0;
        while a < m
            invariant
                a <= m <= sols.len(),
                m == ch.len(),
                sv == sols@,
                forall|b: int| 0 <= b < m ==> #[trigger] ch[b] == b,
                out.len() == a,
                forall|b: int| 0 <= b < a ==> 0 <= #[trigger] ch[b] < sols.len() && same_solution(out@[b], sols@[ch[b]]),
            decreases m - a,
        {
            out.push(copy_solution(&sols[a]));
            a = a + 1;
        }
    }
    out
}


/// Whether some section of a timetable overlaps a forbidden block.
pub open spec fn violates(sol: Seq<(Seccion, i32)>, prohibidos: Seq<String>) -> bool {
    prohibidos.len() > 0 && exists|k: int| 0 <= k < sol.len() && any_overlap(
        all_expanded((#[trigger] sol[k]).0.horario@),
        all_expanded(prohibidos),
    )
}

/// The timetables that overlap no forbidden block, in order.
pub open spec fn not_violating(sols: Seq<Solution>, prohibidos: Seq<String>) -> Seq<Solution>
    decreases sols.len(),
{
    if sols.len() == 0 {
        Seq::empty()
    } else if !violates(sols.last().0@, prohibidos) {
        not_violating(sols.drop_last(), prohibidos).push(sols.last())
    } else {
        not_violating(sols.drop_last(), prohibidos)
    }
}

/// The timetables left after the forbidden blocks and, when there are filters, the
/// user's filters.
pub open spec fn after_filters(sols: Seq<Solution>, prohibidos: Seq<String>, filtros: Option<UserFilters>) -> Seq<Solution> {
    let a = not_violating(sols, prohibidos);
    if filtros is Some {
        kept(a, filtros)
    } else {
        a
    }
}

/// Every timetable entry of every section parses within `i32`, and so do the blocks.
pub open spec fn blocks_fit(sols: Seq<Solution>, prohibidos: Seq<String>) -> bool {
    prohibidos.len() > 0 ==> {
        &&& all_expand_fit(prohibidos)
        &&& forall|i: int, k: int| 0 <= i < sols.len() && 0 <= k < sols[i].0@.len() ==> all_expand_fit(
            (#[trigger] sols[i].0@[k]).0.horario@,
        )
    }
}

proof fn lemma_not_violating_sub(sols: Seq<Solution>, prohibidos: Seq<String>)
    ensures
        forall|i: int| 0 <= i < not_violating(sols, prohibidos).len() ==> exists|j: int| 0 <= j < sols.len() && #[trigger] not_violating(sols, prohibidos)[i] == sols[j],
    decreases sols.len(),
{
    if sols.len() > 0 {
        lemma_not_violating_sub(sols.drop_last(), prohibidos);
        let p = not_violating(sols.drop_last(), prohibidos);
        assert forall|i: int| 0 <= i < not_violating(sols, prohibidos).len() implies exists|j: int| 0 <= j < sols.len() && #[trigger] not_violating(sols, prohibidos)[i] == sols[j] by {
            if i < p.len() {
                assert(not_violating(sols, prohibidos)[i] == p[i]);
                let j = choose|j: int| 0 <= j < sols.drop_last().len() && #[trigger] p[i] == sols.drop_last()[j];
                assert(sols[j] == sols.drop_last()[j]);
            } else {
                assert(not_violating(sols, prohibidos)[i] == sols[sols.len() - 1]);
            }
        }
    }
}

fn violates_exec(sol: &Vec<(Seccion, i32)>, prohibidos: &[String]) -> (r: bool)
    requires
        prohibidos.len() > 0 ==> all_expand_fit(prohibidos@) && forall|k: int| 0 <= k < sol.len() ==> all_expand_fit(
            (#[trigger] sol@[k]).0.horario@,
        ),
    ensures
        r == violates(sol@, prohibidos@),
{
    if prohibidos.len() == 0 {
        return false;
    }
    let mut k: usize = 0;
    while k < sol.len()
        invariant
            k <= sol.len(),
            prohibidos.len() > 0,
            all_expand_fit(prohibidos@),
            forall|j: int| 0 <= j < sol.len() ==> all_expand_fit((#[trigger] sol@[j]).0.horario@),
            forall|j: int| 0 <= j < k ==> !any_overlap(all_expanded((#[trigger] sol@[j]).0.horario@), all_expanded(prohibidos@)),
        decreases sol.len() - k,
    {
        if solapan_horarios(sol[k].0.horario.as_slice(), prohibidos) {
            assert(any_overlap(all_expanded(sol@[k as int].0.horario@), all_expanded(prohibidos@)));
            return true;
        }
        k = k + 1;
    }
    false
}

/// Drops the timetables that overlap a forbidden block, keeping the others in order.
fn drop_violating(soluciones: Vec<Solution>, prohibidos: &[String]) -> (r: Vec<Solution>)
    requires
        blocks_fit(soluciones@, prohibidos@),
    ensures
        r@ == not_violating(soluciones@, prohibidos@),
{
    let ghost all = soluciones@;
    let ghost pv = prohibidos@;
    let mut rest = soluciones;
    let mut back: Vec<Solution> = Vec::new();
    while rest.len() > 0
        invariant
            rest@ == all.subrange(0, rest.len() as int),
            pv == prohibidos@,
            blocks_fit(all, pv),
            rest.len() <= all.len(),
            not_violating(all, pv) == not_violating(rest@, pv) + back@.reverse(),
        decreases rest.len(),
    {
        let ghost r0 = rest@;
        let ghost b0 = back@;
        let s = rest.pop().unwrap();
        assert(r0.last() == s);
        assert(r0.drop_last() == rest@);
        assert(all[rest.len() as int] == s);
        let bad = violates_exec(&s.0, prohibidos);
        if !bad {
            back.push(s);
            assert(back@.reverse() =~= seq![s] + b0.reverse());
            assert(not_violating(r0, pv) == not_violating(rest@, pv).push(s));
            assert(not_violating(rest@, pv).push(s) + b0.reverse() =~= not_violating(rest@, pv) + back@.reverse());
        }
    }
    assert(not_violating(rest@, pv) == Seq::<Solution>::empty());
    let mut out: Vec<Solution> = Vec::new();
    let ghost target = back@.reverse();
    assert(not_violating(all, pv) =~= target);
    while back.len() > 0
        invariant
            out@ + back@.reverse() == target,
        decreases back.len(),
    {
        let ghost b0 = back@;
        let s = back.pop().unwrap();
        assert(b0.reverse() =~= seq![s] + back@.reverse());
        out.push(s);
        assert(out@ + back@.reverse() =~= target);
    }
    assert(back@.reverse() =~= Seq::<Solution>::empty());
    assert(out@ =~= target);
    out
}

/// The last steps of the critical-route pipeline on the timetables found by the
/// search: those overlapping a forbidden block are dropped, the user's filters are
/// applied when there are any, and at most ten are chosen (see `select_solutions`).
pub fn finalize_solutions(
    soluciones: Vec<Solution>,
    horarios_prohibidos: &[String],
    filtros: &Option<UserFilters>,
) -> (r: Vec<Solution>)
    requires
        blocks_fit(soluciones@, horarios_prohibidos@),
        filters_fit(soluciones@, *filtros),
    ensures
        r.len() == chosen(after_filters(soluciones@, horarios_prohibidos@, *filtros)).len(),
        forall|a: int| 0 <= a < r.len() ==> 0 <= #[trigger] chosen(after_filters(soluciones@, horarios_prohibidos@, *filtros))[a]
            < after_filters(soluciones@, horarios_prohibidos@, *filtros).len() && same_solution(
            r@[a],
            after_filters(soluciones@, horarios_prohibidos@, *filtros)[chosen(
                after_filters(soluciones@, horarios_prohibidos@, *filtros),
            )[a]],
        ),
{
    let ghost all = soluciones@;
    let a = drop_violating(soluciones, horarios_prohibidos);
    let b = if filtros.is_some() {
        proof {
            lemma_not_violating_sub(all, horarios_prohibidos@);
            let nv = not_violating(all, horarios_prohibidos@);
            match crate::filters::active_blocks(*filtros) {
                Some(fr) => {
                    assert forall|i: int, k: int| 0 <= i < nv.len() && 0 <= k < nv[i].0@.len() implies all_expand_fit(
                        (#[trigger] nv[i].0@[k]).0.horario@,
                    ) by {
                        let j = choose|j: int| 0 <= j < all.len() && #[trigger] nv[i] == all[j];
                        assert(nv[i].0@[k] == all[j].0@[k]);
                    }
                },
                None => {},
            }
            assert(filters_fit(nv, *filtros));
        }
        apply_all_filters(a, filtros)
    } else {
        a
    };
    select_solutions(&b)
}

/// Whether timetable `x` ranks at least as high as `y`: more sections, or as many
/// sections and a score at least as high.
pub open spec fn ranks_before(x: Solution, y: Solution) -> bool {
    x.0@.len() > y.0@.len() || (x.0@.len() == y.0@.len() && x.1 >= y.1)
}

/// Whether the positions of `s` have descending scores.
spec fn desc_score(s: Seq<int>, sols: Seq<Solution>) -> bool {
    forall|a: int, b: int| 0 <= a < b < s.len() ==> sols[#[trigger] s[a]].1 >= sols[#[trigger] s[b]].1
}

proof fn lemma_of_size_members(sols: Seq<Solution>, k: int)
    ensures
        forall|a: int| 0 <= a < of_size(sols, k).len() ==> 0 <= #[trigger] of_size(sols, k)[a] < sols.len()
            && sols[of_size(sols, k)[a]].0@.len() == k,
        forall|x: int| 0 <= x < sols.len() && sols[x].0@.len() == k ==> #[trigger] of_size(sols, k).contains(x),
    decreases sols.len(),
{
    if sols.len() > 0 {
        lemma_of_size_members(sols.drop_last(), k);
        let p = of_size(sols.drop_last(), k);
        let q = of_size(sols, k);
        assert forall|a: int| 0 <= a < q.len() implies 0 <= #[trigger] q[a] < sols.len() && sols[q[a]].0@.len() == k by {
            if a < p.len() {
                assert(q[a] == p[a]);
                assert(sols.drop_last()[p[a]] == sols[p[a]]);
            }
        }
        assert forall|x: int| 0 <= x < sols.len() && sols[x].0@.len() == k implies #[trigger] q.contains(x) by {
            if x == sols.len() - 1 {
                assert(q[q.len() - 1] == x);
            } else {
                assert(sols.drop_last()[x] == sols[x]);
                assert(p.contains(x));
                let a = choose|a: int| 0 <= a < p.len() && p[a] == x;
                assert(q[a] == x);
            }
        }
    }
}

proof fn lemma_ins_members(idx: Seq<int>, sols: Seq<Solution>, x: int)
    ensures
        ins_by_score(idx, sols, x).len() == idx.len() + 1,
        ins_by_score(idx, sols, x).contains(x),
        forall|y: int| #[trigger] ins_by_score(idx, sols, x).contains(y) <==> (y == x || idx.contains(y)),
        desc_score(idx, sols) ==> desc_score(ins_by_score(idx, sols, x), sols),
    decreases idx.len(),
{
    let r = ins_by_score(idx, sols, x);
    if idx.len() == 0 {
        assert(r[0] == x);
    } else if sols[idx.last()].1 >= sols[x].1 {
        assert(r[idx.len() as int] == x);
        assert forall|y: int| #[trigger] r.contains(y) <==> (y == x || idx.contains(y)) by {
            if idx.contains(y) {
                let a = choose|a: int| 0 <= a < idx.len() && idx[a] == y;
                assert(r[a] == y);
            }
        }
        if desc_score(idx, sols) {
            assert forall|a: int, b: int| 0 <= a < b < r.len() implies sols[#[trigger] r[a]].1 >= sols[#[trigger] r[b]].1 by {
                if b == idx.len() {
                    if a < idx.len() - 1 {
                        assert(sols[idx[a]].1 >= sols[idx[idx.len() - 1]].1);
                    }
                }
            }
        }
    } else {
        let i0 = idx.drop_last();
        let r0 = ins_by_score(i0, sols, x);
        lemma_ins_members(i0, sols, x);
        assert(r == r0.push(idx.last()));
        assert forall|y: int| #[trigger] r.contains(y) <==> (y == x || idx.contains(y)) by {
            if r.contains(y) {
                let a = choose|a: int| 0 <= a < r.len() && r[a] == y;
                if a < r0.len() {
                    assert(r0.contains(y));
                    if y != x {
                        assert(i0.contains(y));
                        let b = choose|b: int| 0 <= b < i0.len() && i0[b] == y;
                        assert(idx[b] == y);
                    }
                } else {
                    assert(idx[idx.len() - 1] == y);
                }
            }
            if y == x {
                assert(r0.contains(x));
                let a = choose|a: int| 0 <= a < r0.len() && r0[a] == x;
                assert(r[a] == x);
            }
            if idx.contains(y) {
                let b = choose|b: int| 0 <= b < idx.len() && idx[b] == y;
                if b == idx.len() - 1 {
                    assert(r[r.len() - 1] == y);
                } else {
                    assert(i0[b] == y);
                    assert(r0.contains(y));
                    let a = choose|a: int| 0 <= a < r0.len() && r0[a] == y;
                    assert(r[a] == y);
                }
            }
        }
        if desc_score(idx, sols) {
            assert(desc_score(i0, sols)) by {
                assert forall|a: int, b: int| 0 <= a < b < i0.len() implies sols[#[trigger] i0[a]].1 >= sols[#[trigger] i0[b]].1 by {
                    assert(i0[a] == idx[a] && i0[b] == idx[b]);
                }
            }
            assert forall|a: int, b: int| 0 <= a < b < r.len() implies sols[#[trigger] r[a]].1 >= sols[#[trigger] r[b]].1 by {
                if b == r.len() - 1 {
                    let y = r0[a];
                    assert(r[a] == y);
                    assert(r0.contains(y));
                    if y != x {
                        assert(i0.contains(y));
                        let c = choose|c: int| 0 <= c < i0.len() && i0[c] == y;
                        assert(idx[c] == y);
                        assert(sols[idx[c]].1 >= sols[idx[idx.len() - 1]].1);
                    }
                } else {
                    assert(r[a] == r0[a] && r[b] == r0[b]);
                }
            }
        }
    }
}

proof fn lemma_sort_members(idx: Seq<int>, sols: Seq<Solution>)
    ensures
        forall|y: int| #[trigger] sort_by_score(idx, sols).contains(y) <==> idx.contains(y),
        desc_score(sort_by_score(idx, sols), sols),
    decreases idx.len(),
{
    if idx.len() > 0 {
        let i0 = idx.drop_last();
        lemma_sort_members(i0, sols);
        lemma_ins_members(sort_by_score(i0, sols), sols, idx.last());
        assert forall|y: int| #[trigger] sort_by_score(idx, sols).contains(y) <==> idx.contains(y) by {
            if idx.contains(y) && y != idx.last() {
                let b = choose|b: int| 0 <= b < idx.len() && idx[b] == y;
                assert(i0[b] == y);
                assert(i0.contains(y));
            }
            if i0.contains(y) {
                let b = choose|b: int| 0 <= b < i0.len() && i0[b] == y;
                assert(idx[b] == y);
            }
            if y == idx.last() {
                assert(idx[idx.len() - 1] == y);
            }
        }
    }
}

proof fn lemma_ranked_members(sols: Seq<Solution>, k: int)
    ensures
        forall|y: int| #[trigger] ranked_from(sols, k).contains(y) <==> (0 <= y < sols.len() && 1 <= sols[y].0@.len() <= k),
        forall|a: int, b: int| 0 <= a < b < ranked_from(sols, k).len() ==> ranks_before(
            sols[#[trigger] ranked_from(sols, k)[a]],
            sols[#[trigger] ranked_from(sols, k)[b]],
        ),
    decreases k,
{
    let r = ranked_from(sols, k);
    if k > 0 {
        let g = sort_by_score(of_size(sols, k), sols);
        let rest = ranked_from(sols, k - 1);
        lemma_ranked_members(sols, k - 1);
        lemma_sort_members(of_size(sols, k), sols);
        lemma_of_size_members(sols, k);
        assert(r == g + rest);
        assert forall|y: int| g.contains(y) implies 0 <= y < sols.len() && sols[y].0@.len() == k by {
            assert(of_size(sols, k).contains(y));
            let a = choose|a: int| 0 <= a < of_size(sols, k).len() && of_size(sols, k)[a] == y;
        }
        assert forall|y: int| #[trigger] r.contains(y) <==> (0 <= y < sols.len() && 1 <= sols[y].0@.len() <= k) by {
            if r.contains(y) {
                let a = choose|a: int| 0 <= a < r.len() && r[a] == y;
                if a < g.len() {
                    assert(g[a] == y);
                    assert(g.contains(y));
                } else {
                    assert(rest[a - g.len()] == y);
                    assert(rest.contains(y));
                }
            }
            if 0 <= y < sols.len() && 1 <= sols[y].0@.len() <= k {
                if sols[y].0@.len() == k {
                    assert(of_size(sols, k).contains(y));
                    assert(g.contains(y));
                    let a = choose|a: int| 0 <= a < g.len() && g[a] == y;
                    assert(r[a] == y);
                } else {
                    assert(rest.contains(y));
                    let a = choose|a: int| 0 <= a < rest.len() && rest[a] == y;
                    assert(r[a + g.len()] == y);
                }
            }
        }
        assert forall|a: int, b: int| 0 <= a < b < r.len() implies ranks_before(
            sols[#[trigger] r[a]],
            sols[#[trigger] r[b]],
        ) by {
            if b < g.len() {
                assert(r[a] == g[a] && r[b] == g[b]);
                assert(g.contains(g[a]) && g.contains(g[b]));
                assert(sols[g[a]].1 >= sols[g[b]].1);
            } else if a < g.len() {
                assert(r[a] == g[a] && r[b] == rest[b - g.len()]);
                assert(g.contains(g[a]));
                assert(rest.contains(rest[b - g.len()]));
            } else {
                assert(r[a] == rest[a - g.len()] && r[b] == rest[b - g.len()]);
            }
        }
    } else {
        assert forall|y: int| #[trigger] r.contains(y) <==> (0 <= y < sols.len() && 1 <= sols[y].0@.len() <= k) by {
            if r.contains(y) {
                let a = choose|a: int| 0 <= a < r.len() && r[a] == y;
            }
        }
    }
}

/// Whether positions of `s` with equal scores come in increasing order.
spec fn ties_ordered(s: Seq<int>, sols: Seq<Solution>) -> bool {
    forall|a: int, b: int| 0 <= a < b < s.len() && sols[#[trigger] s[a]].1 == sols[#[trigger] s[b]].1 ==> s[a] < s[b]
}

proof fn lemma_of_size_ascending(sols: Seq<Solution>, k: int)
    ensures
        forall|a: int, b: int| 0 <= a < b < of_size(sols, k).len() ==> #[trigger] of_size(sols, k)[a] < #[trigger] of_size(sols, k)[b],
    decreases sols.len(),
{
    if sols.len() > 0 {
        lemma_of_size_ascending(sols.drop_last(), k);
        lemma_of_size_members(sols.drop_last(), k);
        let p = of_size(sols.drop_last(), k);
        let q = of_size(sols, k);
        assert forall|a: int, b: int| 0 <= a < b < q.len() implies #[trigger] q[a] < #[trigger] q[b] by {
            assert(q[a] == p[a]);
            if b < p.len() {
                assert(q[b] == p[b]);
            }
        }
    }
}

proof fn lemma_ins_ties(idx: Seq<int>, sols: Seq<Solution>, x: int)
    requires
        forall|b: int| 0 <= b < idx.len() ==> #[trigger] idx[b] < x,
        desc_score(idx, sols),
        ties_ordered(idx, sols),
    ensures
        ties_ordered(ins_by_score(idx, sols, x), sols),
    decreases idx.len(),
{
    let r = ins_by_score(idx, sols, x);
    lemma_ins_members(idx, sols, x);
    if idx.len() == 0 {
    } else if sols[idx.last()].1 >= sols[x].1 {
        assert forall|a: int, b: int| 0 <= a < b < r.len() && sols[#[trigger] r[a]].1 == sols[#[trigger] r[b]].1 implies r[a] < r[b] by {
            if b == idx.len() {
                assert(r[a] == idx[a]);
            }
        }
    } else {
        let i0 = idx.drop_last();
        let r0 = ins_by_score(i0, sols, x);
        assert(desc_score(i0, sols)) by {
            assert forall|a: int, b: int| 0 <= a < b < i0.len() implies sols[#[trigger] i0[a]].1 >= sols[#[trigger] i0[b]].1 by {
                assert(i0[a] == idx[a] && i0[b] == idx[b]);
            }
        }
        assert(ties_ordered(i0, sols)) by {
            assert forall|a: int, b: int| 0 <= a < b < i0.len() && sols[#[trigger] i0[a]].1 == sols[#[trigger] i0[b]].1 implies i0[a] < i0[b] by {
                assert(i0[a] == idx[a] && i0[b] == idx[b]);
            }
        }
        assert forall|b: int| 0 <= b < i0.len() implies #[trigger] i0[b] < x by {
            assert(i0[b] == idx[b]);
        }
        lemma_ins_ties(i0, sols, x);
        lemma_ins_members(i0, sols, x);
        assert(r == r0.push(idx.last()));
        assert forall|a: int, b: int| 0 <= a < b < r.len() && sols[#[trigger] r[a]].1 == sols[#[trigger] r[b]].1 implies r[a] < r[b] by {
            if b == r.len() - 1 {
                let y = r0[a];
                assert(r[a] == y);
                assert(r0.contains(y));
                if y != x {
                    assert(i0.contains(y));
                    let c = choose|c: int| 0 <= c < i0.len() && i0[c] == y;
                    assert(idx[c] == y);
                    assert(r[b] == idx[idx.len() - 1]);
                }
            } else {
                assert(r[a] == r0[a] && r[b] == r0[b]);
            }
        }
    }
}

proof fn lemma_sort_ties(idx: Seq<int>, sols: Seq<Solution>)
    requires
        forall|a: int, b: int| 0 <= a < b < idx.len() ==> #[trigger] idx[a] < #[trigger] idx[b],
    ensures
        ties_ordered(sort_by_score(idx, sols), sols),
    decreases idx.len(),
{
    if idx.len() > 0 {
        let i0 = idx.drop_last();
        assert forall|a: int, b: int| 0 <= a < b < i0.len() implies #[trigger] i0[a] < #[trigger] i0[b] by {
            assert(i0[a] == idx[a] && i0[b] == idx[b]);
        }
        lemma_sort_ties(i0, sols);
        lemma_sort_members(i0, sols);
        let g = sort_by_score(i0, sols);
        assert forall|b: int| 0 <= b < g.len() implies #[trigger] g[b] < idx.last() by {
            assert(g.contains(g[b]));
            assert(i0.contains(g[b]));
            let c = choose|c: int| 0 <= c < i0.len() && i0[c] == g[b];
            assert(idx[c] < idx[idx.len() - 1]);
        }
        lemma_ins_ties(g, sols, idx.last());
    }
}

proof fn lemma_ranked_ties(sols: Seq<Solution>, k: int)
    ensures
        forall|a: int, b: int| 0 <= a < b < ranked_from(sols, k).len()
            && sols[#[trigger] ranked_from(sols, k)[a]].0@.len() == sols[#[trigger] ranked_from(sols, k)[b]].0@.len()
            && sols[ranked_from(sols, k)[a]].1 == sols[ranked_from(sols, k)[b]].1 ==> ranked_from(sols, k)[a] < ranked_from(sols, k)[b],
    decreases k,
{
    let r = ranked_from(sols, k);
    if k > 0 {
        let g = sort_by_score(of_size(sols, k), sols);
        let rest = ranked_from(sols, k - 1);
        lemma_ranked_ties(sols, k - 1);
        lemma_ranked_members(sols, k - 1);
        lemma_sort_members(of_size(sols, k), sols);
        lemma_of_size_members(sols, k);
        lemma_of_size_ascending(sols, k);
        lemma_sort_ties(of_size(sols, k), sols);
        assert(r == g + rest);
        assert forall|a: int, b: int| 0 <= a < b < r.len()
            && sols[#[trigger] r[a]].0@.len() == sols[#[trigger] r[b]].0@.len()
            && sols[r[a]].1 == sols[r[b]].1 implies r[a] < r[b] by {
            if b < g.len() {
                assert(r[a] == g[a] && r[b] == g[b]);
            } else if a < g.len() {
                assert(r[a] == g[a] && r[b] == rest[b - g.len()]);
                assert(g.contains(g[a]));
                assert(of_size(sols, k).contains(g[a]));
                let c = choose|c: int| 0 <= c < of_size(sols, k).len() && of_size(sols, k)[c] == g[a];
                assert(rest.contains(rest[b - g.len()]));
            } else {
                assert(r[a] == rest[a - g.len()] && r[b] == rest[b - g.len()]);
            }
        }
    }
}

/// Chosen timetables with as many sections and equal scores keep the order in which
/// they were given.
pub proof fn lemma_chosen_ties_in_order(sols: Seq<Solution>, a: int, b: int)
    requires
        0 <= a < b < chosen(sols).len(),
        sols[chosen(sols)[a]].0@.len() == sols[chosen(sols)[b]].0@.len(),
        sols[chosen(sols)[a]].1 == sols[chosen(sols)[b]].1,
    ensures
        chosen(sols)[a] < chosen(sols)[b],
{
    let r = ranked_from(sols, 6);
    lemma_ranked_ties(sols, 6);
    if r.len() > 0 {
        let m: int = if r.len() < 10 { r.len() as int } else { 10 };
        assert(chosen(sols) == r.take(m));
        assert(chosen(sols)[a] == r[a] && chosen(sols)[b] == r[b]);
    }
}

/// Every timetable with one to six sections is chosen, unless ten timetables are
/// chosen that each rank at least as high as it (more sections, or as many sections
/// and a score at least as high).
pub proof fn lemma_chosen_takes_largest(sols: Seq<Solution>, i: int)
    requires
        0 <= i < sols.len(),
        1 <= sols[i].0@.len() <= 6,
    ensures
        (exists|a: int| 0 <= a < chosen(sols).len() && chosen(sols)[a] == i) || (chosen(sols).len() == 10
            && forall|a: int| 0 <= a < 10 ==> ranks_before(sols[#[trigger] chosen(sols)[a]], sols[i])),
{
    let r = ranked_from(sols, 6);
    lemma_ranked_members(sols, 6);
    assert(r.contains(i));
    let p = choose|p: int| 0 <= p < r.len() && r[p] == i;
    let m: int = if r.len() < 10 { r.len() as int } else { 10 };
    assert(chosen(sols) == r.take(m));
    if p < m {
        assert(chosen(sols)[p] == i);
    } else {
        assert forall|a: int| 0 <= a < 10 implies ranks_before(sols[#[trigger] chosen(sols)[a]], sols[i]) by {
            assert(chosen(sols)[a] == r[a]);
        }
    }
}

/// When some timetable has one to six sections, the chosen timetables all have one to
/// six sections and come in ranking order: more sections first, and among as many
/// sections by descending score.
pub proof fn lemma_chosen_order(sols: Seq<Solution>, a: int, b: int, i: int)
    requires
        0 <= a <= b < chosen(sols).len(),
        0 <= i < sols.len(),
        1 <= sols[i].0@.len() <= 6,
    ensures
        0 <= chosen(sols)[a] < sols.len(),
        1 <= sols[chosen(sols)[a]].0@.len() <= 6,
        ranks_before(sols[chosen(sols)[a]], sols[chosen(sols)[b]]),
{
    let r = ranked_from(sols, 6);
    lemma_ranked_members(sols, 6);
    assert(r.contains(i));
    let m: int = if r.len() < 10 { r.len() as int } else { 10 };
    assert(chosen(sols) == r.take(m));
    assert(chosen(sols)[a] == r[a] && chosen(sols)[b] == r[b]);
    assert(r.contains(r[a]));
}

/// When no timetable has one to six sections, the first ten timetables (all of them
/// when fewer) are chosen, in their order.
pub proof fn lemma_chosen_unranked(sols: Seq<Solution>)
    requires
        forall|i: int| 0 <= i < sols.len() ==> !(1 <= (#[trigger] sols[i]).0@.len() <= 6),
    ensures
        chosen(sols).len() == (if sols.len() < 10 { sols.len() as int } else { 10 }),
        forall|a: int| 0 <= a < chosen(sols).len() ==> #[trigger] chosen(sols)[a] == a,
{
    let r = ranked_from(sols, 6);
    lemma_ranked_members(sols, 6);
    if r.len() > 0 {
        assert(r.contains(r[0]));
    }
}

/// At most ten timetables are chosen, and at least one whenever there is one.
pub proof fn lemma_chosen_bounds(sols: Seq<Solution>)
    ensures
        chosen(sols).len() <= 10,
        sols.len() > 0 ==> chosen(sols).len() > 0,
{
}
} // verus!
