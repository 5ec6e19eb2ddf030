//! Summary of an academic offer: how many sections each course has.
use vstd::prelude::*;
use crate::models::Seccion;
use crate::text::{chars_of, chars_eq, string_from_chars};
use crate::selector::{seq_le, chars_le, lemma_seq_le_total, lemma_seq_le_antisym, lemma_seq_le_trans};

verus! {

/// Number of sections of `secs` whose course name is `name`.
pub open spec fn count_named(secs: Seq<Seccion>, name: Seq<char>) -> nat
    decreases secs.len(),
{
    if secs.len() == 0 {
        0
    } else if secs.last().nombre@ == name {
        count_named(secs.drop_last(), name) + 1
    } else {
        count_named(secs.drop_last(), name)
    }
}

proof fn lemma_count_named_le(secs: Seq<Seccion>, name: Seq<char>)
    ensures
        count_named(secs, name) <= secs.len(),
    decreases secs.len(),
{
    if secs.len() > 0 {
        lemma_count_named_le(secs.drop_last(), name);
    }
}

/// Whether some entry of the summary is for the course `name`.
pub open spec fn lists_name(r: Seq<(Seq<char>, nat)>, name: Seq<char>) -> bool {
    exists|k: int| 0 <= k < r.len() && (#[trigger] r[k]).0 == name
}

/// Whether `name` is one of `names`.
spec fn has_name(names: Seq<Vec<char>>, name: Seq<char>) -> bool {
    exists|k: int| 0 <= k < names.len() && (#[trigger] names[k])@ == name
}

/// Strict lexicographic order of names.
pub open spec fn name_lt(a: Seq<char>, b: Seq<char>) -> bool {
    seq_le(a, b) && a != b
}

/// Order of the summary: more sections first, then by name.
pub open spec fn ranks_before(a: (Seq<char>, nat), b: (Seq<char>, nat)) -> bool {
    a.1 > b.1 || (a.1 == b.1 && name_lt(a.0, b.0))
}

proof fn lemma_ranks_total(a: (Seq<char>, nat), b: (Seq<char>, nat))
    requires
        a.0 != b.0,
    ensures
        ranks_before(a, b) || ranks_before(b, a),
{
    lemma_seq_le_total(a.0, b.0);
}

proof fn lemma_ranks_trans(a: (Seq<char>, nat), b: (Seq<char>, nat), c: (Seq<char>, nat))
    requires
        ranks_before(a, b),
        ranks_before(b, c),
    ensures
        ranks_before(a, c),
{
    if a.1 == b.1 && b.1 == c.1 {
        lemma_seq_le_trans(a.0, b.0, c.0);
        if a.0 == c.0 {
            lemma_seq_le_antisym(a.0, b.0);
        }
    }
}

/// Whether `a` ranks before `b`.
fn ranks_before_exec(a: &(Vec<char>, usize), b: &(Vec<char>, usize)) -> (r: bool)
    ensures
        r == ranks_before((a.0@, a.1 as nat), (b.0@, b.1 as nat)),
{
    a.1 > b.1 || (a.1 == b.1 && chars_le(&a.0, &b.0) && !chars_eq(&a.0, &b.0))
}

/// The entries of the summary as plain values.
pub open spec fn summary_view(r: Seq<(String, usize)>) -> Seq<(Seq<char>, nat)> {
    r.map_values(|e: (String, usize)| (e.0@, e.1 as nat))
}

/// The working entries as plain values.
spec fn entries_view(r: Seq<(Vec<char>, usize)>) -> Seq<(Seq<char>, nat)> {
    r.map_values(|e: (Vec<char>, usize)| (e.0@, e.1 as nat))
}

/// Every entry ranks before every later one.
pub open spec fn sorted_ranks(s: Seq<(Seq<char>, nat)>) -> bool {
    forall|a: int, b: int| 0 <= a < b < s.len() ==> ranks_before(#[trigger] s[a], #[trigger] s[b])
}

/// Inserting an entry at the first place where it ranks before the entry there keeps
/// a ranking sorted, when its name is new.
proof fn lemma_insert_sorted(o: Seq<(Seq<char>, nat)>, p: int, x: (Seq<char>, nat))
    requires
        sorted_ranks(o),
        0 <= p <= o.len(),
        forall|q: int| 0 <= q < p ==> !ranks_before(x, #[trigger] o[q]),
        p < o.len() ==> ranks_before(x, o[p]),
        forall|q: int| 0 <= q < o.len() ==> (#[trigger] o[q]).0 != x.0,
    ensures
        sorted_ranks(o.insert(p, x)),
{
    let o1 = o.insert(p, x);
    assert forall|a: int, b: int| 0 <= a < b < o1.len() implies ranks_before(#[trigger] o1[a], #[trigger] o1[b]) by {
        if b < p {
            assert(o1[a] == o[a] && o1[b] == o[b]);
        } else if a > p {
            assert(o1[a] == o[a - 1] && o1[b] == o[b - 1]);
        } else if a == p {
            assert(o1[b] == o[b - 1]);
            if b - 1 > p {
                lemma_ranks_trans(x, o[p], o[b - 1]);
            }
        } else if b == p {
            assert(o1[a] == o[a]);
            lemma_ranks_total(x, o[a]);
        } else {
            assert(o1[a] == o[a] && o1[b] == o[b - 1]);
        }
    }
}

/// The `k`-th name with its count.
pub open spec fn entry_of(nv: Seq<Seq<char>>, cv: Seq<usize>, k: int) -> (Seq<char>, nat) {
    (nv[k], cv[k] as nat)
}

/// Every entry is one of the first `t` names with its count.
pub open spec fn entries_from(ev: Seq<(Seq<char>, nat)>, nv: Seq<Seq<char>>, cv: Seq<usize>, t: int) -> bool {
    forall|a: int| 0 <= a < ev.len() ==> exists|k: int| 0 <= k < t && #[trigger] ev[a] == #[trigger] entry_of(nv, cv, k)
}

/// Each of the first `t` names has an entry.
pub open spec fn covers(ev: Seq<(Seq<char>, nat)>, nv: Seq<Seq<char>>, t: int) -> bool {
    forall|k: int| 0 <= k < t ==> exists|a: int| 0 <= a < ev.len() && (#[trigger] ev[a]).0 == #[trigger] nv[k]
}

proof fn lemma_insert_members(ev: Seq<(Seq<char>, nat)>, p: int, nv: Seq<Seq<char>>, cv: Seq<usize>, t: int)
    requires
        entries_from(ev, nv, cv, t),
        covers(ev, nv, t),
        0 <= p <= ev.len(),
        0 <= t < nv.len(),
    ensures
        entries_from(ev.insert(p, entry_of(nv, cv, t)), nv, cv, t + 1),
        covers(ev.insert(p, entry_of(nv, cv, t)), nv, t + 1),
{
    let e1 = ev.insert(p, entry_of(nv, cv, t));
    assert forall|a: int| 0 <= a < e1.len() implies exists|k: int| 0 <= k < t + 1 && #[trigger] e1[a] == #[trigger] entry_of(nv, cv, k) by {
        if a < p {
            assert(e1[a] == ev[a]);
            let k = choose|k: int| 0 <= k < t && #[trigger] ev[a] == #[trigger] entry_of(nv, cv, k);
        } else if a == p {
            assert(e1[a] == entry_of(nv, cv, t));
        } else {
            assert(e1[a] == ev[a - 1]);
            let k = choose|k: int| 0 <= k < t && #[trigger] ev[a - 1] == #[trigger] entry_of(nv, cv, k);
        }
    }
    assert forall|k: int| 0 <= k < t + 1 implies exists|a: int| 0 <= a < e1.len() && (#[trigger] e1[a]).0 == #[trigger] nv[k] by {
        if k == t {
            assert(e1[p].0 == nv[k]);
        } else {
            let a = choose|a: int| 0 <= a < ev.len() && (#[trigger] ev[a]).0 == #[trigger] nv[k];
            if a < p {
                assert(e1[a] == ev[a]);
            } else {
                assert(e1[a + 1] == ev[a]);
            }
        }
    }
}

/// Counts the sections of each course of an academic offer. Each course name appears
/// once with its number of sections; courses with more sections come first, ties in
/// the order of their names.
pub fn resumen_oferta_academica(secciones: &[Seccion]) -> (r: Vec<(String, usize)>)
    ensures
        forall|k: int| 0 <= k < r.len() ==> (#[trigger] r@[k]).1 == count_named(secciones@, r@[k].0@) && r@[k].1 > 0,
        forall|s: int| 0 <= s < secciones.len() ==> lists_name(summary_view(r@), (#[trigger] secciones@[s]).nombre@),
        sorted_ranks(summary_view(r@)),
{
    let ghost secs = secciones@;
    let (names, counts) = count_by_name(secciones);
    let ghost nv = names@.map_values(|v: Vec<char>| v@);
    let ghost cv = counts@;
    assert(forall|k: int| 0 <= k < names.len() ==> #[trigger] nv[k] == names@[k]@);
    // Insert each (name, count) at its place in the ranking.
    let mut out: Vec<(Vec<char>, usize)> = Vec::new();
    let mut t: usize = 0;
    assert(entries_view(out@) =~= Seq::<(Seq<char>, nat)>::empty());
    while t < names.len()
        invariant
            t <= names.len() == counts.len() == nv.len() == cv.len(),
            cv == counts@,
            forall|k: int| 0 <= k < names.len() ==> #[trigger] nv[k] == names@[k]@,
            forall|a: int, b: int| 0 <= a < b < nv.len() ==> #[trigger] nv[a] != #[trigger] nv[b],
            out.len() == t,
            entries_from(entries_view(out@), nv, cv, t as int),
            covers(entries_view(out@), nv, t as int),
            sorted_ranks(entries_view(out@)),
        decreases names.len() - t,
    {
        let x = (names[t].clone(), counts[t]);
        let ghost ev = entries_view(out@);
        let ghost xv = entry_of(nv, cv, t as int);
        assert(xv == (x.0@, x.1 as nat));
        let mut p: usize = 0;
        while p < out.len() && !ranks_before_exec(&x, &out[p])
            invariant
                p <= out.len(),
                ev == entries_view(out@),
                xv == (x.0@, x.1 as nat),
                forall|q: int| 0 <= q < p ==> !ranks_before(xv, #[trigger] ev[q]),
            decreases out.len() - p,
        {
            p = p + 1;
        }
        proof {
            assert forall|q: int| 0 <= q < ev.len() implies (#[trigger] ev[q]).0 != xv.0 by {
                let k = choose|k: int| 0 <= k < t && #[trigger] ev[q] == #[trigger] entry_of(nv, cv, k);
                assert(nv[k] != nv[t as int]);
            }
            lemma_insert_sorted(ev, p as int, xv);
            lemma_insert_members(ev, p as int, nv, cv, t as int);
        }
        out.insert(p, x);
        assert(entries_view(out@) =~= ev.insert(p as int, xv));
        t = t + 1;
    }
    let mut r: Vec<(String, usize)> = Vec::new();
    let mut k: usize = 0;
    while k < out.len()
        invariant
            k <= out.len(),
            r.len() == k,
            forall|a: int| 0 <= a < k ==> (#[trigger] r@[a]).0@ == out@[a].0@ && r@[a].1 == out@[a].1,
        decreases out.len() - k,
    {
        r.push((string_from_chars(&out[k].0), out[k].1));
        k = k + 1;
    }
    proof {
        let ev = entries_view(out@);
        assert(summary_view(r@) =~= ev);
        assert forall|k: int| 0 <= k < r.len() implies (#[trigger] r@[k]).1 == count_named(secs, r@[k].0@) && r@[k].1 > 0 by {
            assert(ev[k] == (r@[k].0@, r@[k].1 as nat));
            let j = choose|j: int| 0 <= j < nv.len() && #[trigger] ev[k] == #[trigger] entry_of(nv, cv, j);
            assert(counts@[j] == count_named(secs, names@[j]@));
            assert(counts@[j] > 0);
        }
        assert forall|s: int| 0 <= s < secs.len() implies lists_name(summary_view(r@), (#[trigger] secciones@[s]).nombre@) by {
            assert(has_name(names@, secciones@[s].nombre@));
            let j = choose|j: int| 0 <= j < names.len() && (#[trigger] names@[j])@ == secciones@[s].nombre@;
            assert(nv[j] == names@[j]@);
            let a = choose|a: int| 0 <= a < ev.len() && (#[trigger] ev[a]).0 == #[trigger] nv[j];
            assert(summary_view(r@)[a].0 == secs[s].nombre@);
        }
    }
    r
}

/// The distinct course names of `secciones` with their numbers of sections.
fn count_by_name(secciones: &[Seccion]) -> (r: (Vec<Vec<char>>, Vec<usize>))
    ensures
        r.0.len() == r.1.len(),
        forall|k: int| 0 <= k < r.0.len() ==> #[trigger] r.1@[k] == count_named(secciones@, r.0@[k]@),
        forall|k: int| 0 <= k < r.0.len() ==> #[trigger] r.1@[k] > 0,
        forall|a: int, b: int| 0 <= a < b < r.0.len() ==> (#[trigger] r.0@[a])@ != (#[trigger] r.0@[b])@,
        forall|s: int| 0 <= s < secciones.len() ==> has_name(r.0@, (#[trigger] secciones@[s]).nombre@),
{
    let ghost secs = secciones@;
    let mut names: Vec<Vec<char>> = Vec::new();
    let mut counts: Vec<usize> = Vec::new();
    let mut i: usize = 0;
    while i < secciones.len()
        invariant
            i <= secciones.len(),
            secs == secciones@,
            names.len() == counts.len(),
            forall|k: int| 0 <= k < names.len() ==> #[trigger] counts@[k] == count_named(secs.subrange(0, i as int), names@[k]@),
            forall|k: int| 0 <= k < names.len() ==> #[trigger] counts@[k] > 0,
            forall|a: int, b: int| 0 <= a < b < names.len() ==> (#[trigger] names@[a])@ != (#[trigger] names@[b])@,
            forall|s: int| 0 <= s < i ==> has_name(names@, (#[trigger] secs[s]).nombre@),
        decreases secciones.len() - i,
    {
        let ghost pre = secs.subrange(0, i as int);
        let ghost post = secs.subrange(0, i + 1);
        let ghost n0 = names@;
        assert(post.drop_last() =~= pre);
        assert(post.last() == secs[i as int]);
        proof {
            lemma_count_named_le(post, secs[i as int].nombre@);
        }
        let nm = chars_of(secciones[i].nombre.as_str());
        let mut j: usize = 0;
        let mut found = false;
        while j < names.len()
            invariant_except_break
                !found,
            invariant
                j <= names.len(),
                forall|a: int| 0 <= a < j ==> (#[trigger] names@[a])@ != nm@,
            ensures
                found ==> j < names.len() && names@[j as int]@ == nm@,
                !found ==> forall|a: int| 0 <= a < names.len() ==> (#[trigger] names@[a])@ != nm@,
            decreases names.len() - j,
        {
            if chars_eq(&names[j], &nm) {
                found = true;
                break;
            }
            j = j + 1;
        }
        if found {
            let c = counts[j];
            assert(c == count_named(pre, nm@));
            counts.set(j, c + 1);
            assert forall|k: int| 0 <= k < names.len() implies #[trigger] counts@[k] == count_named(post, names@[k]@) by {
                if k != j as int {
                    if k < j {
                        assert(names@[k]@ != names@[j as int]@);
                    } else {
                        assert(names@[j as int]@ != names@[k]@);
                    }
                }
            }
        } else {
            names.push(nm);
            counts.push(1);
            assert(count_named(pre, nm@) == 0) by {
                if count_named(pre, nm@) > 0 {
                    lemma_count_named_pos(pre, nm@);
                    let s = choose|s: int| 0 <= s < pre.len() && pre[s].nombre@ == nm@;
                    assert(pre[s] == secs[s]);
                    assert(has_name(n0, secs[s].nombre@));
                    let k = choose|k: int| 0 <= k < n0.len() && (#[trigger] n0[k])@ == secs[s].nombre@;
                }
            }
            assert forall|k: int| 0 <= k < names.len() implies #[trigger] counts@[k] == count_named(post, names@[k]@) by {
                if k < n0.len() {
                    assert(names@[k] == n0[k]);
                    assert(n0[k]@ != nm@);
                }
            }
        }
        assert forall|s: int| 0 <= s < i + 1 implies has_name(names@, (#[trigger] secs[s]).nombre@) by {
            if s == i as int {
                if found {
                    assert(names@[j as int]@ == secs[s].nombre@);
                } else {
                    assert(names@[names.len() - 1]@ == secs[s].nombre@);
                }
            } else {
                assert(has_name(n0, secs[s].nombre@));
                let k = choose|k: int| 0 <= k < n0.len() && (#[trigger] n0[k])@ == secs[s].nombre@;
                assert(names@[k]@ == n0[k]@);
            }
        }
        i = i + 1;
    }
    assert(secs.subrange(0, secciones.len() as int) =~= secs);
    assert forall|s: int| 0 <= s < secciones.len() implies has_name(names@, (#[trigger] secciones@[s]).nombre@) by {
        assert(secciones@[s] == secs[s]);
    }
    (names, counts)
}

proof fn lemma_count_named_pos(secs: Seq<Seccion>, name: Seq<char>)
    requires
        count_named(secs, name) > 0,
    ensures
        exists|s: int| 0 <= s < secs.len() && secs[s].nombre@ == name,
    decreases secs.len(),
{
    if secs.last().nombre@ == name {
        assert(secs[secs.len() - 1].nombre@ == name);
    } else {
        lemma_count_named_pos(secs.drop_last(), name);
        let s = choose|s: int| 0 <= s < secs.drop_last().len() && secs.drop_last()[s].nombre@ == name;
        assert(secs[s] == secs.drop_last()[s]);
    }
}

} // verus!
