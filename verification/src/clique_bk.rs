//! Bron–Kerbosch search with pivoting over bitset adjacency lists for a clique of
//! high total weight with at most `max_size` vertices, within a time budget.
use vstd::prelude::*;
use crate::bitset::{bitset_and, bitset_copy, bitset_count, bitset_is_empty, bitset_not, bitset_or, bs_has, for_each_bit, lemma_members_finite, lemma_set_bit, members};

verus! {

#[verifier::external_type_specification]
#[verifier::external_body]
pub struct ExInstant(std::time::Instant);

/// `Instant::now`. Trusted only to return some instant; nothing is promised of it.
#[verifier::external_body]
fn clock_now() -> std::time::Instant {
    std::time::Instant::now()
}

/// Milliseconds elapsed since `start` (`Instant::elapsed` read with `Duration::as_millis`).
/// Trusted only to return a number: it depends on the clock.
#[verifier::external_body]
fn elapsed_ms(start: &std::time::Instant) -> u128 {
    start.elapsed().as_millis()
}

/// Whether `b` is in the adjacency bitset of vertex `a`.
pub open spec fn adj(neigh: Seq<Vec<u64>>, a: int, b: int) -> bool {
    bs_has(neigh[a]@, b)
}

/// No vertex lists itself as a neighbour.
pub open spec fn irreflexive(neigh: Seq<Vec<u64>>) -> bool {
    forall|v: int| 0 <= v < neigh.len() ==> !adj(neigh, v, v)
}

/// `a` and `b` are joined by an edge in at least one of the two adjacency lists.
pub open spec fn linked(neigh: Seq<Vec<u64>>, a: int, b: int) -> bool {
    adj(neigh, a, b) || adj(neigh, b, a)
}

/// Each vertex of `r` lists every later vertex of `r` as a neighbour.
pub open spec fn chain_clique(neigh: Seq<Vec<u64>>, r: Seq<usize>) -> bool {
    forall|i: int, j: int| 0 <= i < j < r.len() ==> adj(neigh, #[trigger] r[i] as int, #[trigger] r[j] as int)
}

/// `res` is a clique of at most `max` distinct vertices below `n`: any two of its
/// vertices are joined by an edge.
pub open spec fn is_clique_result(neigh: Seq<Vec<u64>>, n: int, max: int, res: Seq<usize>) -> bool {
    &&& res.len() <= max
    &&& forall|k: int| 0 <= k < res.len() ==> #[trigger] res[k] < n
    &&& res.no_duplicates()
    &&& forall|i: int, j: int|
        0 <= i < res.len() && 0 <= j < res.len() && i != j ==> linked(
            neigh,
            #[trigger] res[i] as int,
            #[trigger] res[j] as int,
        )
}

/// Whether no clique of more than `max` vertices holds a vertex of weight `i32::MIN`:
/// such a clique is cut to its heaviest vertices by a sort on the negated weights,
/// which that weight does not survive.
pub open spec fn truncation_safe(neigh: Seq<Vec<u64>>, weights: Seq<i32>, max: int) -> bool {
    forall|c: Seq<usize>| c.len() > max && c.no_duplicates() && (forall|k: int| 0 <= k < c.len() ==> #[trigger] c[k] < neigh.len())
        && chain_clique(neigh, c) ==> forall|k: int| 0 <= k < c.len() ==> #[trigger] weights[c[k] as int] > i32::MIN
}

/// Adjacency lists that the search accepts: no self loops, weights for every vertex,
/// and no `i32::MIN` weight in a clique that must be cut to `max_size` vertices.
pub open spec fn search_ok(neigh: Seq<Vec<u64>>, weights: Seq<i32>, max_size: int) -> bool {
    &&& neigh.len() <= u32::MAX
    &&& neigh.len() + 64 <= usize::MAX
    &&& weights.len() >= neigh.len()
    &&& irreflexive(neigh)
    &&& truncation_safe(neigh, weights, max_size)
}

/// Sum of the weights of the listed vertices.
pub open spec fn weight_sum(weights: Seq<i32>, idx: Seq<usize>) -> int
    decreases idx.len(),
{
    if idx.len() == 0 {
        0
    } else {
        weight_sum(weights, idx.drop_last()) + weights[idx.last() as int]
    }
}

/// Sum of the weights of `idx[..k]`.
fn sum_weights(weights: &Vec<i32>, idx: &Vec<usize>, k: usize) -> (s: i64)
    requires
        k <= idx.len() <= u32::MAX,
        forall|j: int| 0 <= j < idx.len() ==> #[trigger] idx@[j] < weights.len(),
    ensures
        s == weight_sum(weights@, idx@.subrange(0, k as int)),
{
    let mut s: i64 = 0;
    let mut j: usize = 0;
    while j < k
        invariant
            j <= k <= idx.len() <= u32::MAX,
            forall|t: int| 0 <= t < idx.len() ==> #[trigger] idx@[t] < weights.len(),
            s == weight_sum(weights@, idx@.subrange(0, j as int)),
            -0x8000_0000 * j <= s <= 0x8000_0000 * j,
        decreases k - j,
    {
        assert(idx@.subrange(0, j + 1).drop_last() =~= idx@.subrange(0, j as int));
        s = s + weights[idx[j]] as i64;
        j = j + 1;
    }
    s
}

/// A nonzero word has a set bit at or above `b` when its bits from `b` on are not all
/// zero.
proof fn lemma_word_has_bit(w: u64, b: u64)
    requires
        b < 64,
        (w >> b) != 0,
    ensures
        exists|k: u64| b <= k < 64 && #[trigger] crate::bitset::bit(w, k),
    decreases 64 - b,
{
    if crate::bitset::bit(w, b) {
        assert(crate::bitset::bit(w, b));
    } else {
        assert((w >> b) & 1u64 != 1u64);
        if b == 63 {
            assert((w >> 63u64) != 0 ==> (w >> 63u64) & 1u64 == 1u64) by (bit_vector);
        } else {
            assert(b < 63 && (w >> b) != 0 && (w >> b) & 1u64 != 1u64 ==> (w >> ((b + 1) as u64)) != 0) by (bit_vector);
            lemma_word_has_bit(w, (b + 1) as u64);
        }
    }
}

/// A bitset with a nonzero word has a member.
proof fn lemma_nonzero_has_member(bs: Seq<u64>)
    requires
        !(forall|k: int| 0 <= k < bs.len() ==> bs[k] == 0),
    ensures
        exists|q: int| crate::bitset::bs_has(bs, q),
{
    let k = choose|k: int| 0 <= k < bs.len() && bs[k] != 0;
    let w = bs[k];
    assert(w >> 0u64 == w) by (bit_vector);
    lemma_word_has_bit(w, 0);
    let b = choose|b: u64| 0 <= b < 64 && #[trigger] crate::bitset::bit(w, b);
    let q = 64 * k + b as int;
    assert(q / 64 == k && q % 64 == b as int);
    assert(crate::bitset::bs_has(bs, q));
}

/// A sum of fewer than 2^32 weights lies above `i64::MIN`.
proof fn lemma_weight_sum_lower(weights: Seq<i32>, idx: Seq<usize>)
    requires
        forall|k: int| 0 <= k < idx.len() ==> #[trigger] idx[k] < weights.len(),
        idx.len() <= u32::MAX,
    ensures
        weight_sum(weights, idx) > i64::MIN,
{
    lemma_weight_sum_min(weights, idx);
    let l = idx.len() as int;
    assert(l * (i32::MIN as int) > i64::MIN) by (nonlinear_arith)
        requires 0 <= l <= u32::MAX;
}

proof fn lemma_weight_sum_min(weights: Seq<i32>, idx: Seq<usize>)
    ensures
        weight_sum(weights, idx) >= idx.len() * (i32::MIN as int),
    decreases idx.len(),
{
    if idx.len() > 0 {
        lemma_weight_sum_min(weights, idx.drop_last());
    }
}

/// Whether every weight is at least zero.
pub open spec fn weights_nonneg(weights: Seq<i32>) -> bool {
    forall|i: int| 0 <= i < weights.len() ==> #[trigger] weights[i] >= 0
}

/// Taking out one vertex takes out its weight.
proof fn lemma_weight_sum_remove(weights: Seq<i32>, s: Seq<usize>, i: int)
    requires
        0 <= i < s.len(),
    ensures
        weight_sum(weights, s) == weight_sum(weights, s.remove(i)) + weights[s[i] as int],
    decreases s.len(),
{
    if i == s.len() - 1 {
        assert(s.remove(i) =~= s.drop_last());
    } else {
        lemma_weight_sum_remove(weights, s.drop_last(), i);
        assert(s.remove(i).drop_last() =~= s.drop_last().remove(i));
        assert(s.remove(i).last() == s.last());
    }
}

/// Replacing one vertex changes the sum by the difference of the weights.
proof fn lemma_weight_sum_update(weights: Seq<i32>, s: Seq<usize>, i: int, z: usize)
    requires
        0 <= i < s.len(),
    ensures
        weight_sum(weights, s.update(i, z)) == weight_sum(weights, s) - weights[s[i] as int] + weights[z as int],
{
    lemma_weight_sum_remove(weights, s, i);
    lemma_weight_sum_remove(weights, s.update(i, z), i);
    assert(s.update(i, z).remove(i) =~= s.remove(i));
}

/// With weights of at least zero, the vertices of a list without repeats that all lie
/// in `r` (also without repeats) weigh no more than `r`.
proof fn lemma_weight_sum_subset(weights: Seq<i32>, k: Seq<usize>, r: Seq<usize>)
    requires
        weights_nonneg(weights),
        k.no_duplicates(),
        r.no_duplicates(),
        forall|a: int| 0 <= a < r.len() ==> #[trigger] r[a] < weights.len(),
        forall|a: int| 0 <= a < k.len() ==> r.contains(#[trigger] k[a]),
    ensures
        weight_sum(weights, k) <= weight_sum(weights, r),
    decreases r.len(),
{
    if r.len() == 0 {
        if k.len() > 0 {
            assert(r.contains(k[0]));
        }
        assert(k.len() == 0);
    } else {
        let x = r.last();
        let r1 = r.drop_last();
        assert(weights[x as int] >= 0);
        if k.contains(x) {
            let i = choose|i: int| 0 <= i < k.len() && k[i] == x;
            let k1 = k.remove(i);
            lemma_weight_sum_remove(weights, k, i);
            assert forall|a: int| 0 <= a < k1.len() implies r1.contains(#[trigger] k1[a]) by {
                let ai = if a < i { a } else { a + 1 };
                assert(k1[a] == k[ai]);
                assert(k[ai] != x);
                let b = choose|b: int| 0 <= b < r.len() && r[b] == k[ai];
                assert(b != r.len() - 1);
                assert(r1[b] == k1[a]);
            }
            assert forall|a: int, b: int| 0 <= a < k1.len() && 0 <= b < k1.len() && a != b implies k1[a] != k1[b] by {
                let ai = if a < i { a } else { a + 1 };
                let bi = if b < i { b } else { b + 1 };
                assert(k1[a] == k[ai] && k1[b] == k[bi]);
            }
            assert forall|a: int| 0 <= a < r1.len() implies #[trigger] r1[a] < weights.len() by {
                assert(r1[a] == r[a]);
            }
            lemma_weight_sum_subset(weights, k1, r1);
        } else {
            assert forall|a: int| 0 <= a < k.len() implies r1.contains(#[trigger] k[a]) by {
                let b = choose|b: int| 0 <= b < r.len() && r[b] == k[a];
                assert(b != r.len() - 1);
                assert(r1[b] == k[a]);
            }
            assert forall|a: int| 0 <= a < r1.len() implies #[trigger] r1[a] < weights.len() by {
                assert(r1[a] == r[a]);
            }
            lemma_weight_sum_subset(weights, k, r1);
        }
    }
}

/// How many vertices of `k` are not in `t`.
pub open spec fn count_out(k: Seq<usize>, t: Seq<usize>) -> nat
    decreases k.len(),
{
    if k.len() == 0 {
        0
    } else {
        count_out(k.drop_last(), t) + if t.contains(k.last()) { 0nat } else { 1nat }
    }
}

proof fn lemma_count_out_zero(k: Seq<usize>, t: Seq<usize>)
    ensures
        count_out(k, t) == 0 <==> forall|a: int| 0 <= a < k.len() ==> t.contains(#[trigger] k[a]),
    decreases k.len(),
{
    if k.len() > 0 {
        lemma_count_out_zero(k.drop_last(), t);
        if count_out(k, t) == 0 {
            assert forall|a: int| 0 <= a < k.len() implies t.contains(#[trigger] k[a]) by {
                if a < k.len() - 1 {
                    assert(k.drop_last()[a] == k[a]);
                }
            }
        }
        if forall|a: int| 0 <= a < k.len() ==> t.contains(#[trigger] k[a]) {
            assert(t.contains(k[k.len() - 1]));
            assert forall|a: int| 0 <= a < k.drop_last().len() implies t.contains(#[trigger] k.drop_last()[a]) by {
                assert(k.drop_last()[a] == k[a]);
            }
        }
    }
}

proof fn lemma_count_out_update(k: Seq<usize>, t: Seq<usize>, i: int, z: usize)
    requires
        0 <= i < k.len(),
        !t.contains(k[i]),
        t.contains(z),
    ensures
        count_out(k.update(i, z), t) + 1 == count_out(k, t),
    decreases k.len(),
{
    let k2 = k.update(i, z);
    if i == k.len() - 1 {
        assert(k2.drop_last() =~= k.drop_last());
    } else {
        lemma_count_out_update(k.drop_last(), t, i, z);
        assert(k2.drop_last() =~= k.drop_last().update(i, z));
    }
}

/// Every vertex of a list without repeats lies in a same-length list without repeats
/// drawn from it.
proof fn lemma_same_members(r: Seq<usize>, v: Seq<usize>)
    requires
        r.no_duplicates(),
        v.no_duplicates(),
        v.len() == r.len(),
        forall|a: int| 0 <= a < v.len() ==> r.contains(#[trigger] v[a]),
    ensures
        forall|a: int| 0 <= a < r.len() ==> v.contains(#[trigger] r[a]),
{
    r.unique_seq_to_set();
    v.unique_seq_to_set();
    vstd::seq_lib::seq_to_set_is_finite(r);
    vstd::seq_lib::seq_to_set_is_finite(v);
    assert(v.to_set().subset_of(r.to_set())) by {
        assert forall|x: usize| v.to_set().contains(x) implies r.to_set().contains(x) by {
            let a = choose|a: int| 0 <= a < v.len() && v[a] == x;
            assert(r.contains(v[a]));
        }
    }
    vstd::set_lib::lemma_subset_equality(v.to_set(), r.to_set());
    assert forall|a: int| 0 <= a < r.len() implies v.contains(#[trigger] r[a]) by {
        assert(r.to_set().contains(r[a]));
        assert(v.to_set().contains(r[a]));
    }
}

/// With weights of at least zero, the first `m` vertices of a list by decreasing weight
/// weigh at least as much as any `m` or fewer of its vertices.
proof fn lemma_top_weight(weights: Seq<i32>, v: Seq<usize>, m: int, k: Seq<usize>)
    requires
        weights_nonneg(weights),
        v.no_duplicates(),
        desc_by_weight(weights, v),
        forall|a: int| 0 <= a < v.len() ==> #[trigger] v[a] < weights.len(),
        0 <= m <= v.len(),
        k.no_duplicates(),
        k.len() <= m,
        forall|a: int| 0 <= a < k.len() ==> v.contains(#[trigger] k[a]),
    ensures
        weight_sum(weights, k) <= weight_sum(weights, v.take(m)),
    decreases count_out(k, v.take(m)),
{
    let t = v.take(m);
    assert forall|a: int, b: int| 0 <= a < t.len() && 0 <= b < t.len() && a != b implies t[a] != t[b] by {
        assert(t[a] == v[a] && t[b] == v[b]);
    }
    assert forall|a: int| 0 <= a < t.len() implies #[trigger] t[a] < weights.len() by {
        assert(t[a] == v[a]);
    }
    lemma_count_out_zero(k, t);
    if count_out(k, t) == 0 {
        lemma_weight_sum_subset(weights, k, t);
    } else {
        let i = choose|i: int| 0 <= i < k.len() && !t.contains(#[trigger] k[i]);
        let y = k[i];
        let j = choose|j: int| 0 <= j < v.len() && v[j] == y;
        if j < m {
            assert(t[j] == y);
        }
        assert(j >= m);
        // some vertex of `t` is not in `k`
        let q = if exists|q: int| 0 <= q < t.len() && !k.contains(#[trigger] t[q]) {
            choose|q: int| 0 <= q < t.len() && !k.contains(#[trigger] t[q])
        } else {
            k.unique_seq_to_set();
            t.unique_seq_to_set();
            vstd::seq_lib::seq_to_set_is_finite(k);
            vstd::seq_lib::seq_to_set_is_finite(t);
            assert(t.to_set().subset_of(k.to_set().remove(y))) by {
                assert forall|x: usize| t.to_set().contains(x) implies k.to_set().remove(y).contains(x) by {
                    let b = choose|b: int| 0 <= b < t.len() && t[b] == x;
                    assert(k.contains(t[b]));
                    assert(x != y);
                }
            }
            vstd::set_lib::lemma_len_subset(t.to_set(), k.to_set().remove(y));
            assert(k.to_set().contains(y));
            assert(false);
            0
        };
        let z = t[q];
        assert(z == v[q]);
        assert(weights[z as int] >= weights[y as int]);
        let k2 = k.update(i, z);
        lemma_weight_sum_update(weights, k, i, z);
        lemma_count_out_update(k, t, i, z);
        assert forall|a: int| 0 <= a < k2.len() implies v.contains(#[trigger] k2[a]) by {
            if a == i {
                assert(v[q] == z);
            }
        }
        assert forall|a: int, b: int| 0 <= a < k2.len() && 0 <= b < k2.len() && a != b implies k2[a] != k2[b] by {
            if a == i {
                assert(k2[b] == k[b]);
            } else if b == i {
                assert(k2[a] == k[a]);
            }
        }
        lemma_top_weight(weights, v, m, k2);
    }
}

/// A chain clique without self loops has no repeated vertex, and any two of its
/// vertices are linked.
proof fn lemma_chain_distinct(neigh: Seq<Vec<u64>>, r: Seq<usize>)
    requires
        irreflexive(neigh),
        chain_clique(neigh, r),
        forall|k: int| 0 <= k < r.len() ==> #[trigger] r[k] < neigh.len(),
    ensures
        r.no_duplicates(),
{
    assert forall|i: int, j: int| 0 <= i < r.len() && 0 <= j < r.len() && i != j implies r[i]
        != r[j] by {
        if i < j {
            assert(adj(neigh, r[i] as int, r[j] as int));
        } else {
            assert(adj(neigh, r[j] as int, r[i] as int));
        }
    }
}

/// A duplicate-free selection of vertices of a chain clique is a clique.
proof fn lemma_selection_is_clique(neigh: Seq<Vec<u64>>, n: int, max: int, r: Seq<usize>, s: Seq<usize>)
    requires
        irreflexive(neigh),
        chain_clique(neigh, r),
        n == neigh.len(),
        forall|k: int| 0 <= k < r.len() ==> #[trigger] r[k] < n,
        forall|k: int| 0 <= k < s.len() ==> r.contains(#[trigger] s[k]),
        s.no_duplicates(),
        s.len() <= max,
    ensures
        is_clique_result(neigh, n, max, s),
{
    assert forall|k: int| 0 <= k < s.len() implies #[trigger] s[k] < n by {
        assert(r.contains(s[k]));
    }
    assert forall|i: int, j: int| 0 <= i < s.len() && 0 <= j < s.len() && i != j implies linked(
        neigh,
        #[trigger] s[i] as int,
        #[trigger] s[j] as int,
    ) by {
        assert(r.contains(s[i]));
        assert(r.contains(s[j]));
        let a = choose|a: int| 0 <= a < r.len() && r[a] == s[i];
        let b = choose|b: int| 0 <= b < r.len() && r[b] == s[j];
        assert(a != b);
        if a < b {
            assert(adj(neigh, r[a] as int, r[b] as int));
        } else {
            assert(adj(neigh, r[b] as int, r[a] as int));
        }
    }
}

/// Whether the vertices of `v` come by decreasing weight.
pub open spec fn desc_by_weight(weights: Seq<i32>, v: Seq<usize>) -> bool {
    forall|a: int, b: int| 0 <= a < b < v.len() ==> weights[#[trigger] v[a] as int] >= weights[#[trigger] v[b] as int]
}

/// Whether `v` lists each vertex of `r` once, by decreasing weight.
pub open spec fn heaviest_first(weights: Seq<i32>, r: Seq<usize>, v: Seq<usize>) -> bool {
    &&& v.len() == r.len()
    &&& v.no_duplicates()
    &&& forall|k: int| 0 <= k < v.len() ==> r.contains(#[trigger] v[k])
    &&& desc_by_weight(weights, v)
}

/// The vertices of `r` ordered by decreasing weight, ties kept in their order
/// (a stable sort by the negated weight).
fn sort_by_weight_desc(weights: &Vec<i32>, r: &Vec<usize>) -> (out: Vec<usize>)
    requires
        forall|j: int| 0 <= j < r.len() ==> #[trigger] r@[j] < weights.len(),
        r@.no_duplicates(),
    ensures
        out.len() == r.len(),
        out@.no_duplicates(),
        forall|k: int| 0 <= k < out.len() ==> r@.contains(#[trigger] out@[k]),
        desc_by_weight(weights@, out@),
{
    let mut out: Vec<usize> = Vec::new();
    let mut i: usize = 0;
    while i < r.len()
        invariant
            i <= r.len(),
            forall|j: int| 0 <= j < r.len() ==> #[trigger] r@[j] < weights.len(),
            r@.no_duplicates(),
            out.len() == i,
            out@.no_duplicates(),
            forall|k: int| 0 <= k < out.len() ==> r@.subrange(0, i as int).contains(#[trigger] out@[k]),
            desc_by_weight(weights@, out@),
            forall|k: int| 0 <= k < out.len() ==> #[trigger] out@[k] < weights.len(),
        decreases r.len() - i,
    {
        let x = r[i];
        let wx = weights[x];
        let mut pos: usize = 0;
        while pos < out.len() && weights[out[pos]] >= wx
            invariant
                pos <= out.len(),
                forall|k: int| 0 <= k < out.len() ==> r@.subrange(0, i as int).contains(#[trigger] out@[k]),
                forall|j: int| 0 <= j < r.len() ==> #[trigger] r@[j] < weights.len(),
                forall|k: int| 0 <= k < out.len() ==> #[trigger] out@[k] < weights.len(),
                i < r.len(),
                wx == weights@[x as int],
                forall|k: int| 0 <= k < pos ==> weights@[#[trigger] out@[k] as int] >= wx,
            decreases out.len() - pos,
        {
            assert(r@.subrange(0, i as int).contains(out@[pos as int]));
            pos = pos + 1;
        }
        let ghost o0 = out@;
        proof {
            assert forall|k: int| 0 <= k < o0.len() implies o0[k] != x by {
                assert(r@.subrange(0, i as int).contains(o0[k]));
                let a = choose|a: int| 0 <= a < i && r@.subrange(0, i as int)[a] == o0[k];
                assert(r@[a] == o0[k]);
            }
        }
        assert(pos < o0.len() ==> weights@[o0[pos as int] as int] < wx);
        out.insert(pos, x);
        assert(out@ == o0.insert(pos as int, x));
        assert forall|a: int, b: int| 0 <= a < b < out.len() implies weights@[#[trigger] out@[a] as int]
            >= weights@[#[trigger] out@[b] as int] by {
            if b < pos {
                assert(out@[a] == o0[a] && out@[b] == o0[b]);
            } else if b == pos {
                assert(out@[a] == o0[a]);
            } else if a < pos {
                assert(out@[a] == o0[a] && out@[b] == o0[b - 1]);
            } else if a == pos {
                assert(out@[b] == o0[b - 1]);
                assert(weights@[o0[pos as int] as int] >= weights@[o0[b - 1] as int]);
            } else {
                assert(out@[a] == o0[a - 1] && out@[b] == o0[b - 1]);
            }
        }
        assert forall|k: int| 0 <= k < out.len() implies #[trigger] out@[k] < weights.len() by {
            if k < pos {
                assert(out@[k] == o0[k]);
            } else if k > pos {
                assert(out@[k] == o0[k - 1]);
            }
        }
        assert forall|k: int| 0 <= k < out.len() implies r@.subrange(0, i + 1).contains(
            #[trigger] out@[k],
        ) by {
            if k < pos {
                assert(out@[k] == o0[k]);
                assert(r@.subrange(0, i as int).contains(o0[k]));
                let a = choose|a: int| 0 <= a < i && r@.subrange(0, i as int)[a] == o0[k];
                assert(r@.subrange(0, i + 1)[a] == o0[k]);
            } else if k == pos {
                assert(r@.subrange(0, i + 1)[i as int] == x);
            } else {
                assert(out@[k] == o0[k - 1]);
                assert(r@.subrange(0, i as int).contains(o0[k - 1]));
                let a = choose|a: int| 0 <= a < i && r@.subrange(0, i as int)[a] == o0[k - 1];
                assert(r@.subrange(0, i + 1)[a] == o0[k - 1]);
            }
        }
        assert forall|a: int, b: int| 0 <= a < out.len() && 0 <= b < out.len() && a != b implies out@[a]
            != out@[b] by {
            let ia = if a < pos { a } else if a == pos { -1 } else { a - 1 };
            let ib = if b < pos { b } else if b == pos { -1 } else { b - 1 };
            if ia >= 0 && ib >= 0 {
                assert(out@[a] == o0[ia] && out@[b] == o0[ib]);
            } else if ia >= 0 {
                assert(out@[a] == o0[ia]);
            } else if ib >= 0 {
                assert(out@[b] == o0[ib]);
            }
        }
        i = i + 1;
    }
    assert(r@.subrange(0, r.len() as int) =~= r@);
    out
}

/// Invariants that every call of the recursive search relies on.
pub open spec fn search_state(
    neigh: Seq<Vec<u64>>,
    r: Seq<usize>,
    p: Seq<u64>,
    x: Seq<u64>,
) -> bool {
    let n = neigh.len() as int;
    &&& forall|q: int| bs_has(p, q) ==> q < n
    &&& forall|q: int| !bs_has(x, q)
    &&& p.len() * 64 <= usize::MAX
    &&& x.len() * 64 <= usize::MAX
    &&& forall|k: int| 0 <= k < r.len() ==> #[trigger] r[k] < n
    &&& chain_clique(neigh, r)
    &&& forall|k: int, q: int| 0 <= k < r.len() && #[trigger] bs_has(p, q) ==> adj(neigh, #[trigger] r[k] as int, q)
    &&& members(p).finite()
    &&& r.len() + members(p).len() <= n
}

/// Records `r` (a maximal clique of the search) as the best one if its score, the sum of
/// its at most `max_size` heaviest vertices, beats the best so far.
fn record_leaf(
    neigh: &Vec<Vec<u64>>,
    weights: &Vec<i32>,
    max_size: usize,
    r: &Vec<usize>,
    best_clique: &mut Vec<usize>,
    best_score: &mut i64,
)
    requires
        search_ok(neigh@, weights@, max_size as int),
        forall|k: int| 0 <= k < r.len() ==> #[trigger] r@[k] < neigh.len(),
        chain_clique(neigh@, r@),
        r.len() <= neigh.len(),
        is_clique_result(neigh@, neigh.len() as int, max_size as int, old(best_clique)@),
    ensures
        is_clique_result(neigh@, neigh.len() as int, max_size as int, final(best_clique)@),
        r.len() <= max_size ==> if weight_sum(weights@, r@) > *old(best_score) {
            *final(best_score) == weight_sum(weights@, r@) && final(best_clique)@ == r@
        } else {
            *final(best_score) == *old(best_score) && final(best_clique)@ == old(best_clique)@
        },
        r.len() > max_size ==> exists|v: Seq<usize>| #[trigger] heaviest_first(weights@, r@, v) && if weight_sum(weights@,
            v.take(max_size as int)) > *old(best_score) {
            *final(best_score) == weight_sum(weights@, v.take(max_size as int)) && final(best_clique)@ == v.take(max_size as int)
        } else {
            *final(best_score) == *old(best_score) && final(best_clique)@ == old(best_clique)@
        },
{
    proof {
        lemma_chain_distinct(neigh@, r@);
    }
    if r.len() <= max_size {
        let score = sum_weights(weights, r, r.len());
        assert(r@.subrange(0, r.len() as int) =~= r@);
        if score > *best_score {
            *best_score = score;
            *best_clique = r.clone();
            proof {
                lemma_selection_is_clique(neigh@, neigh.len() as int, max_size as int, r@, r@);
            }
        }
    } else {
        let tmp = sort_by_weight_desc(weights, r);
        let score = sum_weights(weights, &tmp, max_size);
        assert(heaviest_first(weights@, r@, tmp@));
        assert(tmp@.subrange(0, max_size as int) =~= tmp@.take(max_size as int));
        if score > *best_score {
            *best_score = score;
            let mut taken: Vec<usize> = Vec::new();
            let mut k: usize = 0;
            while k < max_size
                invariant
                    k <= max_size < tmp.len(),
                    taken@ == tmp@.subrange(0, k as int),
                decreases max_size - k,
            {
                taken.push(tmp[k]);
                k = k + 1;
                assert(taken@ =~= tmp@.subrange(0, k as int));
            }
            proof {
                assert forall|a: int| 0 <= a < taken.len() implies r@.contains(#[trigger] taken@[a]) by {
                    assert(taken@[a] == tmp@[a]);
                }
                assert(taken@.no_duplicates()) by {
                    assert forall|a: int, b: int| 0 <= a < taken.len() && 0 <= b < taken.len() && a != b
                        implies taken@[a] != taken@[b] by {
                        assert(taken@[a] == tmp@[a] && taken@[b] == tmp@[b]);
                    }
                }
                lemma_selection_is_clique(neigh@, neigh.len() as int, max_size as int, r@, taken@);
            }
            *best_clique = taken;
        }
    }
}

/// Whether every word of a bitset is zero.
pub open spec fn bitset_empty_spec(bs: Seq<u64>) -> bool {
    forall|k: int| 0 <= k < bs.len() ==> bs[k] == 0
}

/// Whether every adjacency list has at least `words` words.
pub open spec fn rows_cover(neigh: Seq<Vec<u64>>, words: int) -> bool {
    forall|i: int| 0 <= i < neigh.len() ==> (#[trigger] neigh[i]).len() >= words
}

/// Whether `k` lists at most `max` vertices below the node count, without repeats,
/// each with every other as a neighbour.
pub open spec fn clique_k(neigh: Seq<Vec<u64>>, k: Seq<usize>, max: int) -> bool {
    &&& k.no_duplicates()
    &&& k.len() <= max
    &&& forall|a: int| 0 <= a < k.len() ==> #[trigger] k[a] < neigh.len()
    &&& forall|a: int, b: int| 0 <= a < k.len() && 0 <= b < k.len() && a != b ==> adj(neigh, #[trigger] k[a] as int, #[trigger] k[b] as int)
}

/// Whether vertex `e` is in the clique built so far or among the vertices that may
/// extend it.
pub open spec fn in_reach(p: Seq<u64>, r: Seq<usize>, e: usize) -> bool {
    r.contains(e) || bs_has(p, e as int)
}

/// Whether every vertex of `k` is within reach of the search that extends `r` by `v`.
pub open spec fn child_reach(neigh: Seq<Vec<u64>>, p: Seq<u64>, r: Seq<usize>, v: usize, k: Seq<usize>) -> bool {
    forall|a: int| 0 <= a < k.len() ==> r.push(v).contains(#[trigger] k[a]) || (bs_has(p, k[a] as int) && bs_has(
        neigh[v as int]@,
        k[a] as int,
    ))
}

/// One level of the search: `r` is the clique built so far, `p` the vertices that extend
/// it, `x` the excluded ones.
fn bk_rec(
    neigh: &Vec<Vec<u64>>,
    weights: &Vec<i32>,
    max_size: usize,
    start: &std::time::Instant,
    budget_ms: u128,
    r: &mut Vec<usize>,
    p: &Vec<u64>,
    x: &Vec<u64>,
    best_clique: &mut Vec<usize>,
    best_score: &mut i64,
    aborted: &mut bool,
)
    requires
        search_ok(neigh@, weights@, max_size as int),
        search_state(neigh@, old(r)@, p@, x@),
        is_clique_result(neigh@, neigh.len() as int, max_size as int, old(best_clique)@),
    ensures
        final(r)@ == old(r)@,
        is_clique_result(neigh@, neigh.len() as int, max_size as int, final(best_clique)@),
        *final(best_score) >= *old(best_score),
        *final(best_score) == *old(best_score) ==> final(best_clique)@ == old(best_clique)@,
        *final(best_score) > *old(best_score) ==> *final(best_score) == weight_sum(weights@, final(best_clique)@),
        *old(aborted) ==> *final(aborted) && *final(best_score) == *old(best_score),
        !*final(aborted) && (forall|k: int| 0 <= k < p.len() ==> p@[k] == 0) && (forall|k: int| 0 <= k < x.len() ==> x@[k] == 0)
            && old(r).len() <= max_size ==> *final(best_score) >= weight_sum(weights@, old(r)@),
        budget_ms == u128::MAX && !*old(aborted) ==> !*final(aborted),
        max_size >= 1 && (old(r).len() >= 1 || exists|q: int| bs_has(p@, q))
            && (*old(best_score) > i64::MIN ==> old(best_clique).len() >= 1)
            ==> (*final(best_score) > i64::MIN ==> final(best_clique).len() >= 1),
        !*final(aborted) && max_size >= 1 && rows_cover(neigh@, p.len() as int)
            && (old(r).len() >= 1 || exists|q: int| bs_has(p@, q)) ==> *final(best_score) > i64::MIN,
        !*final(aborted) && rows_cover(neigh@, p.len() as int) && weights_nonneg(weights@)
            ==> forall|k: Seq<usize>| #[trigger] clique_k(neigh@, k, max_size as int) && (forall|a: int| 0 <= a < k.len()
            ==> in_reach(p@, old(r)@, #[trigger] k[a])) ==> weight_sum(weights@, k) <= *final(best_score),
    decreases members(p@).len(),
{
    if *aborted {
        return;
    }
    if elapsed_ms(start) > budget_ms {
        *aborted = true;
        return;
    }
    if bitset_is_empty(p) && bitset_is_empty(x) {
        proof {
            if exists|q: int| bs_has(p@, q) {
                let q = choose|q: int| bs_has(p@, q);
                assert(members(p@).contains(q));
            }
            lemma_weight_sum_lower(weights@, r@);
        }
        record_leaf(neigh, weights, max_size, r, best_clique, best_score);
        proof {
            if r.len() > max_size {
                let v = choose|v: Seq<usize>| #[trigger] heaviest_first(weights@, r@, v) && if weight_sum(weights@,
                    v.take(max_size as int)) > *old(best_score) {
                    *best_score == weight_sum(weights@, v.take(max_size as int)) && best_clique@ == v.take(max_size as int)
                } else {
                    *best_score == *old(best_score) && best_clique@ == old(best_clique)@
                };
                let t = v.take(max_size as int);
                assert forall|k: int| 0 <= k < t.len() implies #[trigger] t[k] < weights.len() by {
                    assert(r@.contains(v[k]));
                }
                lemma_weight_sum_lower(weights@, t);
            }
            if weights_nonneg(weights@) {
                lemma_chain_distinct(neigh@, r@);
                assert forall|k: Seq<usize>| #[trigger] clique_k(neigh@, k, max_size as int) && (forall|a: int| 0 <= a < k.len()
                    ==> in_reach(p@, old(r)@, #[trigger] k[a])) implies weight_sum(weights@, k) <= *best_score by {
                    assert forall|a: int| 0 <= a < k.len() implies r@.contains(#[trigger] k[a]) by {
                        assert(in_reach(p@, old(r)@, k[a]));
                        if bs_has(p@, k[a] as int) {
                            assert(members(p@).contains(k[a] as int));
                        }
                    }
                    assert forall|a: int| 0 <= a < r@.len() implies #[trigger] r@[a] < weights.len() by {}
                    if r.len() <= max_size {
                        lemma_weight_sum_subset(weights@, k, r@);
                    } else {
                        let v = choose|v: Seq<usize>| #[trigger] heaviest_first(weights@, r@, v) && if weight_sum(weights@,
                            v.take(max_size as int)) > *old(best_score) {
                            *best_score == weight_sum(weights@, v.take(max_size as int)) && best_clique@ == v.take(max_size as int)
                        } else {
                            *best_score == *old(best_score) && best_clique@ == old(best_clique)@
                        };
                        lemma_same_members(r@, v);
                        assert forall|a: int| 0 <= a < v.len() implies #[trigger] v[a] < weights.len() by {
                            assert(r@.contains(v[a]));
                        }
                        assert forall|a: int| 0 <= a < k.len() implies v.contains(#[trigger] k[a]) by {
                            let b = choose|b: int| 0 <= b < r@.len() && r@[b] == k[a];
                            assert(v.contains(r@[b]));
                        }
                        lemma_top_weight(weights@, v, max_size as int, k);
                    }
                }
            }
        }
        return;
    }
    proof {
        if !bitset_empty_spec(x@) {
            lemma_nonzero_has_member(x@);
        }
        lemma_nonzero_has_member(p@);
    }
    let p_union_x = bitset_or(p, x);
    let mut u_opt: Option<usize> = None;
    let mut best_cnt: usize = 0;
    let pux_bits = for_each_bit(&p_union_x);
    let mut t: usize = 0;
    while t < pux_bits.len()
        invariant
            t <= pux_bits.len(),
            search_state(neigh@, r@, p@, x@),
            forall|k: int| 0 <= k < pux_bits.len() ==> bs_has(p_union_x@, #[trigger] pux_bits@[k] as int),
            p_union_x.len() <= p.len(),
            forall|i: int| 0 <= i < p_union_x.len() * 64 ==> bs_has(p_union_x@, i) == (bs_has(p@, i) || bs_has(x@, i)),
            match u_opt {
                Some(u) => u < neigh.len() && bs_has(p@, u as int),
                None => true,
            },
        decreases pux_bits.len() - t,
    {
        let u = pux_bits[t];
        assert(bs_has(p_union_x@, u as int));
        assert(bs_has(p@, u as int));
        let inter = bitset_and(&neigh[u], p);
        let cnt = bitset_count(&inter);
        if cnt > best_cnt {
            best_cnt = cnt;
            u_opt = Some(u);
        }
        t = t + 1;
    }
    let candidates = match u_opt {
        Some(u) => {
            let not_nu = bitset_not(&neigh[u]);
            bitset_and(p, &not_nu)
        },
        None => bitset_copy(p),
    };
    assert(forall|i: int| bs_has(candidates@, i) ==> bs_has(p@, i));
    proof {
        if rows_cover(neigh@, p.len() as int) {
            match u_opt {
                Some(u) => {
                    assert(!adj(neigh@, u as int, u as int));
                    assert(bs_has(candidates@, u as int));
                },
                None => {
                    let q = choose|q: int| bs_has(p@, q);
                    assert(bs_has(candidates@, q));
                },
            }
        }
    }
    let cand_vertices = for_each_bit(&candidates);
    proof {
        if rows_cover(neigh@, p.len() as int) {
            let q = choose|q: int| bs_has(candidates@, q);
            assert(cand_vertices@.contains(q as usize));
        }
    }
    let ghost r0 = r@;
    proof {
        lemma_members_finite(p@);
    }
    let mut c: usize = 0;
    while c < cand_vertices.len()
        invariant
            c <= cand_vertices.len(),
            r@ == r0,
            r0 == old(r)@,
            search_ok(neigh@, weights@, max_size as int),
            search_state(neigh@, r0, p@, x@),
            forall|k: int| 0 <= k < cand_vertices.len() ==> bs_has(p@, #[trigger] cand_vertices@[k] as int),
            is_clique_result(neigh@, neigh.len() as int, max_size as int, best_clique@),
            *best_score >= *old(best_score),
            *best_score == *old(best_score) ==> best_clique@ == old(best_clique)@,
            *best_score > *old(best_score) ==> *best_score == weight_sum(weights@, best_clique@),
            !*old(aborted),
            !(bitset_empty_spec(p@) && bitset_empty_spec(x@)),
            budget_ms == u128::MAX ==> !*aborted,
            max_size >= 1 && (*old(best_score) > i64::MIN ==> old(best_clique).len() >= 1)
                ==> (*best_score > i64::MIN ==> best_clique.len() >= 1),
            !*aborted && max_size >= 1 && rows_cover(neigh@, p.len() as int) && c >= 1 ==> *best_score > i64::MIN,
            rows_cover(neigh@, p.len() as int) ==> cand_vertices.len() >= 1,
            p.len() * 64 <= usize::MAX,
            !*aborted && rows_cover(neigh@, p.len() as int) && weights_nonneg(weights@)
                ==> forall|c2: int, k: Seq<usize>| #![trigger child_reach(neigh@, p@, r0, cand_vertices@[c2], k)]
                0 <= c2 < c && clique_k(neigh@, k, max_size as int) && child_reach(neigh@, p@, r0, cand_vertices@[c2], k)
                ==> weight_sum(weights@, k) <= *best_score,
        decreases cand_vertices.len() - c,
    {
        if elapsed_ms(start) > budget_ms {
            *aborted = true;
            return;
        }
        let v = cand_vertices[c];
        assert(bs_has(p@, v as int));
        let ghost n = neigh.len() as int;
        r.push(v);
        let p_new = bitset_and(p, &neigh[v]);
        let x_new = bitset_and(x, &neigh[v]);
        proof {
            assert(r@ == r0.push(v));
            assert forall|k: int| 0 <= k < r@.len() implies #[trigger] r@[k] < n by {
                if k < r0.len() {
                    assert(r@[k] == r0[k]);
                }
            }
            assert forall|i: int, j: int| 0 <= i < j < r@.len() implies adj(
                neigh@,
                #[trigger] r@[i] as int,
                #[trigger] r@[j] as int,
            ) by {
                assert(r@[i] == r0[i]);
                if j < r0.len() {
                    assert(r@[j] == r0[j]);
                } else {
                    assert(r@[j] == v);
                }
            }
            assert forall|k: int, q: int| 0 <= k < r@.len() && #[trigger] bs_has(p_new@, q) implies adj(
                neigh@,
                #[trigger] r@[k] as int,
                q,
            ) by {
                if k < r0.len() {
                    assert(r@[k] == r0[k]);
                } else {
                    assert(r@[k] == v);
                }
            }
            assert forall|q: int| members(p_new@).contains(q) implies members(p@).remove(
                v as int,
            ).contains(q) by {
                assert(bs_has(p_new@, q));
                if q == v as int {
                    assert(!adj(neigh@, v as int, v as int));
                }
            }
            assert(members(p_new@).subset_of(members(p@).remove(v as int)));
            vstd::set_lib::lemma_len_subset(members(p_new@), members(p@).remove(v as int));
            assert(members(p@).contains(v as int));
        }
        let ghost b0 = *best_score;
        proof {
            if rows_cover(neigh@, p.len() as int) {
                assert forall|i: int| 0 <= i < neigh.len() implies (#[trigger] neigh@[i]).len() >= p_new.len() by {}
            }
        }
        bk_rec(neigh, weights, max_size, start, budget_ms, r, &p_new, &x_new, best_clique, best_score, aborted);
        proof {
            if !*aborted && rows_cover(neigh@, p.len() as int) && weights_nonneg(weights@) {
                assert forall|c2: int, k: Seq<usize>| #![trigger child_reach(neigh@, p@, r0, cand_vertices@[c2], k)]
                    0 <= c2 < c + 1 && clique_k(neigh@, k, max_size as int) && child_reach(neigh@, p@, r0, cand_vertices@[c2], k)
                    implies weight_sum(weights@, k) <= *best_score by {
                    if c2 == c {
                        assert forall|a: int| 0 <= a < k.len() implies in_reach(p_new@, r0.push(v), #[trigger] k[a]) by {
                            assert(r0.push(v).contains(k[a]) || (bs_has(p@, k[a] as int) && bs_has(neigh@[v as int]@, k[a] as int)));
                        }
                        assert(clique_k(neigh@, k, max_size as int));
                    }
                }
            }
        }
        r.pop();
        assert(r@ =~= r0);
        c = c + 1;
    }
    proof {
        if !*aborted && rows_cover(neigh@, p.len() as int) && weights_nonneg(weights@) {
            assert forall|k: Seq<usize>| #[trigger] clique_k(neigh@, k, max_size as int) && (forall|a: int| 0 <= a < k.len()
                ==> in_reach(p@, old(r)@, #[trigger] k[a])) implies weight_sum(weights@, k) <= *best_score by {
                let vv: usize = if exists|a: int| 0 <= a < k.len() && bs_has(p@, k[a] as int) && bs_has(candidates@, #[trigger] k[a] as int) {
                    let a = choose|a: int| 0 <= a < k.len() && bs_has(p@, k[a] as int) && bs_has(candidates@, #[trigger] k[a] as int);
                    k[a]
                } else {
                    match u_opt {
                        Some(u) => u,
                        None => {
                            let q = choose|q: int| bs_has(candidates@, q);
                            q as usize
                        },
                    }
                };
                assert(bs_has(candidates@, vv as int)) by {
                    match u_opt {
                        Some(u) => {
                            assert(!adj(neigh@, u as int, u as int));
                        },
                        None => {},
                    }
                }
                assert(cand_vertices@.contains(vv));
                let c2 = choose|c2: int| 0 <= c2 < cand_vertices.len() && cand_vertices@[c2] == vv;
                assert forall|a: int| 0 <= a < k.len() implies r0.push(vv).contains(#[trigger] k[a]) || (bs_has(p@, k[a] as int)
                    && bs_has(neigh@[vv as int]@, k[a] as int)) by {
                    assert(in_reach(p@, r0, k[a]));
                    if !r0.contains(k[a]) && k[a] != vv {
                        assert(bs_has(p@, k[a] as int));
                        if exists|a2: int| 0 <= a2 < k.len() && bs_has(p@, k[a2] as int) && bs_has(candidates@, #[trigger] k[a2] as int) {
                            let a2 = choose|a2: int| 0 <= a2 < k.len() && bs_has(p@, k[a2] as int) && bs_has(candidates@, #[trigger] k[a2] as int);
                            assert(vv == k[a2]);
                            assert(a2 != a);
                            assert(adj(neigh@, k[a2] as int, k[a] as int));
                        } else {
                            assert(!bs_has(candidates@, k[a] as int));
                            match u_opt {
                                Some(u) => {
                                    assert(vv == u);
                                    assert(k[a] < p.len() * 64);
                                    assert(neigh@[u as int].len() >= p.len());
                                },
                                None => {
                                    assert(bs_has(candidates@, k[a] as int));
                                },
                            }
                        }
                    } else if r0.contains(k[a]) {
                        let b = choose|b: int| 0 <= b < r0.len() && r0[b] == k[a];
                        assert(r0.push(vv)[b] == k[a]);
                    } else {
                        assert(r0.push(vv)[r0.len() as int] == k[a]);
                    }
                }
                assert(child_reach(neigh@, p@, r0, cand_vertices@[c2], k));
            }
        }
    }
}

/// Searches, within `budget_ms` milliseconds, for a clique of maximum weight with at
/// most `max_size` vertices in the graph whose vertex `i` has the adjacency bitset
/// `neigh[i]` and the weight `weights[i]`; returns the positions of its vertices (the
/// empty list when the budget ran out before any maximal clique was scored). Every
/// maximal clique is scored by its `max_size` heaviest vertices, so with a budget that
/// cannot run out and weights of at least zero no clique of at most `max_size`
/// vertices weighs more than the answer.
pub fn bk_find_max_weight_clique(
    neigh: &Vec<Vec<u64>>,
    weights: &Vec<i32>,
    max_size: usize,
    budget_ms: u128,
) -> (res: Vec<usize>)
    requires
        search_ok(neigh@, weights@, max_size as int),
    ensures
        is_clique_result(neigh@, neigh.len() as int, max_size as int, res@),
        budget_ms == u128::MAX && neigh.len() > 0 && max_size > 0
            && (forall|i: int| 0 <= i < neigh.len() ==> (#[trigger] neigh@[i]).len() * 64 >= neigh.len()) ==> res.len() > 0,
        budget_ms == u128::MAX && neigh.len() > 0 && max_size > 0
            && (forall|i: int| 0 <= i < neigh.len() ==> (#[trigger] neigh@[i]).len() * 64 >= neigh.len())
            && weights_nonneg(weights@) ==> forall|k: Seq<usize>| #[trigger] clique_k(neigh@, k, max_size as int)
            ==> weight_sum(weights@, k) <= weight_sum(weights@, res@),
{
    bk_search_max_weight_clique(neigh, weights, max_size, budget_ms).0
}

/// The search of `bk_find_max_weight_clique`, also telling whether it ran to its end
/// (`true`) or stopped when the budget ran out (`false`). Whenever it ran to its end,
/// with every vertex's row wide enough and weights of at least zero, no clique of at
/// most `max_size` vertices weighs more than the answer; with a budget that cannot run
/// out it always runs to its end.
pub fn bk_search_max_weight_clique(
    neigh: &Vec<Vec<u64>>,
    weights: &Vec<i32>,
    max_size: usize,
    budget_ms: u128,
) -> (res: (Vec<usize>, bool))
    requires
        search_ok(neigh@, weights@, max_size as int),
    ensures
        is_clique_result(neigh@, neigh.len() as int, max_size as int, res.0@),
        budget_ms == u128::MAX ==> res.1,
        res.1 && neigh.len() > 0 && max_size > 0
            && (forall|i: int| 0 <= i < neigh.len() ==> (#[trigger] neigh@[i]).len() * 64 >= neigh.len()) ==> res.0.len() > 0,
        res.1 && neigh.len() > 0 && max_size > 0
            && (forall|i: int| 0 <= i < neigh.len() ==> (#[trigger] neigh@[i]).len() * 64 >= neigh.len())
            && weights_nonneg(weights@) ==> forall|k: Seq<usize>| #[trigger] clique_k(neigh@, k, max_size as int)
            ==> weight_sum(weights@, k) <= weight_sum(weights@, res.0@),
{
    let n = neigh.len();
    let words = if n == 0 { 0 } else { (n - 1) / 64 + 1 };
    let mut p: Vec<u64> = Vec::new();
    let mut x: Vec<u64> = Vec::new();
    let mut k: usize = 0;
    while k < words
        invariant
            k <= words,
            p.len() == k,
            x.len() == k,
            forall|j: int| 0 <= j < k ==> p@[j] == 0 && x@[j] == 0,
        decreases words - k,
    {
        p.push(0);
        x.push(0);
        k = k + 1;
    }
    proof {
        if n > 0 {
            assert(((n - 1) / 64 + 1) * 64 >= n && ((n - 1) / 64 + 1) * 64 <= n + 64)
                by (nonlinear_arith)
                requires
                    n > 0,
            ;
        }
        assert forall|q: int| !bs_has(p@, q) by {
            if 0 <= q < p@.len() * 64 {
                crate::bitset::lemma_bit_ops(0, 0, (q % 64) as u64);
            }
        }
    }
    let mut i: usize = 0;
    while i < n
        invariant
            i <= n == neigh.len() <= u32::MAX,
            words == if n == 0 { 0 } else { (n - 1) / 64 + 1 },
            p.len() == words,
            x.len() == words,
            words * 64 >= n,
            words * 64 <= n + 64,
            forall|j: int| 0 <= j < words ==> x@[j] == 0,
            forall|q: int| bs_has(p@, q) <==> 0 <= q < i,
        decreases n - i,
    {
        let w = i / 64;
        let b = i % 64;
        let ghost p0 = p@;
        assert(w < words);
        p.set(w, p[w] | (1u64 << (b as u64)));
        proof {
            assert(p@ == p0.update(w as int, p0[w as int] | (1u64 << (b as u64))));
            assert(i as int == 64 * (w as int) + b as int);
            assert forall|q: int| bs_has(p@, q) <==> 0 <= q < i + 1 by {
                if 0 <= q < p@.len() * 64 {
                    let qw = q / 64;
                    let qb = q % 64;
                    assert(q == 64 * qw + qb);
                    if qw == w as int {
                        lemma_set_bit(p0[w as int], b as u64, qb as u64);
                        assert(bs_has(p@, q) == (bs_has(p0, q) || qb == b as int));
                    } else {
                        assert(p@[qw] == p0[qw]);
                        assert(bs_has(p@, q) == bs_has(p0, q));
                        assert(q != i as int);
                    }
                } else {
                    assert(!bs_has(p@, q));
                    assert(!bs_has(p0, q));
                }
            }
        }
        i = i + 1;
    }
    proof {
        assert forall|q: int| !bs_has(x@, q) by {
            if 0 <= q < x@.len() * 64 {
                crate::bitset::lemma_bit_ops(0, 0, (q % 64) as u64);
            }
        }
        assert(members(p@) =~= vstd::set_lib::set_int_range(0, n as int));
        vstd::set_lib::lemma_int_range(0, n as int);
        assert(forall|q: int| bs_has(p@, q) ==> q < n);
    }
    let mut r: Vec<usize> = Vec::new();
    assert(search_state(neigh@, r@, p@, x@));
    let start = clock_now();
    let mut best_clique: Vec<usize> = Vec::new();
    let mut best_score: i64 = i64::MIN;
    let mut aborted = false;
    proof {
        if n > 0 {
            assert(bs_has(p@, 0));
            if forall|i: int| 0 <= i < neigh.len() ==> (#[trigger] neigh@[i]).len() * 64 >= neigh.len() {
                assert forall|i: int| 0 <= i < neigh.len() implies (#[trigger] neigh@[i]).len() >= p.len() by {
                    let l = neigh@[i].len() as int;
                    assert(l * 64 >= n);
                    assert(l >= (n - 1) / 64 + 1) by (nonlinear_arith)
                        requires
                            l * 64 >= n,
                            n > 0,
                    ;
                }
            }
        }
    }
    let ghost r_start = r@;
    bk_rec(neigh, weights, max_size, &start, budget_ms, &mut r, &p, &x, &mut best_clique, &mut best_score, &mut aborted);
    proof {
        if !aborted && n > 0 && max_size > 0
            && (forall|i: int| 0 <= i < neigh.len() ==> (#[trigger] neigh@[i]).len() * 64 >= neigh.len())
            && weights_nonneg(weights@) {
            assert forall|k: Seq<usize>| #[trigger] clique_k(neigh@, k, max_size as int)
                implies weight_sum(weights@, k) <= weight_sum(weights@, best_clique@) by {
                assert forall|a: int| 0 <= a < k.len() implies in_reach(p@, r_start, #[trigger] k[a]) by {
                    assert(bs_has(p@, k[a] as int));
                }
            }
        }
    }
    (best_clique, !aborted)
}

} // verus!
