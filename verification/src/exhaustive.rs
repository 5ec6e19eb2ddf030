//! Exhaustive clique search over the graph of compatible sections: depth-first from
//! every section in turn, collecting the cliques of the requested size.
use vstd::prelude::*;
use crate::models::{RamoDisponible, Seccion};
use crate::clique::{codes_cut, entries_sum, entries_sum_exec, pool_adjacency, pool_secs, same_keys, sort_by_score, subseq_from};
use crate::clique_all::upper_weight;
use crate::pert::edges_in_range;
use crate::plan_pool::{
    PlanParams, SeccionPlan, course_forms, cumple_filtros, filters_fit, find_eq, seccion_cumple_filtros, uppers_of,
};
use crate::rutacritica::clique::{compatible, lemma_compatible_symmetric};
use crate::scoring::compute_priority;
use crate::selector::same_section;
use crate::text::{chars_of, to_upper, upper_of};

verus! {

/// The nodes that the edges among the first `k` leave from `a` towards, the most
/// recently added first.
pub open spec fn out_nbrs(edges: Seq<(usize, usize)>, a: usize, k: int) -> Seq<usize>
    decreases k,
{
    if k <= 0 || k > edges.len() {
        Seq::empty()
    } else if edges[k - 1].0 == a {
        seq![edges[k - 1].1] + out_nbrs(edges, a, k - 1)
    } else {
        out_nbrs(edges, a, k - 1)
    }
}

/// The nodes that the edges among the first `k` arrive at `a` from, the most recently
/// added first.
pub open spec fn in_nbrs(edges: Seq<(usize, usize)>, a: usize, k: int) -> Seq<usize>
    decreases k,
{
    if k <= 0 || k > edges.len() {
        Seq::empty()
    } else if edges[k - 1].1 == a {
        seq![edges[k - 1].0] + in_nbrs(edges, a, k - 1)
    } else {
        in_nbrs(edges, a, k - 1)
    }
}

/// The neighbours of node `a` of an undirected graph built by adding `edges` in order,
/// as the graph lists them: the far ends of the edges added from `a`, then those of
/// the edges added towards `a`, each most recent first.
pub open spec fn nbr_order(edges: Seq<(usize, usize)>, a: usize) -> Seq<usize> {
    out_nbrs(edges, a, edges.len() as int) + in_nbrs(edges, a, edges.len() as int)
}

/// The neighbour lists of the nodes `0..n` of a `petgraph` undirected graph built by
/// adding the nodes and then `edges` in order (`UnGraph::add_node`, `add_edge`,
/// `neighbors`). Trusted: each list is as `nbr_order` gives it, which is the order the
/// source of `Graph::neighbors` documents for a graph without self-loops.
#[verifier::external_body]
fn neighbor_lists(n: usize, edges: &Vec<(usize, usize)>) -> (r: Vec<Vec<usize>>)
    requires
        edges_in_range(n as int, edges@),
        forall|k: int| 0 <= k < edges.len() ==> (#[trigger] edges@[k]).0 != edges@[k].1,
    ensures
        r.len() == n,
        forall|a: int| 0 <= a < n ==> (#[trigger] r@[a])@ == nbr_order(edges@, a as usize),
{
    let mut g = petgraph::graph::UnGraph::<(), (), usize>::with_capacity(n, edges.len());
    for _ in 0..n {
        g.add_node(());
    }
    for &(a, b) in edges.iter() {
        g.add_edge(petgraph::graph::NodeIndex::new(a), petgraph::graph::NodeIndex::new(b), ());
    }
    (0..n).map(|a| g.neighbors(petgraph::graph::NodeIndex::new(a)).map(|x| x.index()).collect()).collect()
}

/// Every node a neighbour list names is one of the edges' far ends.
proof fn lemma_nbrs_bounded(edges: Seq<(usize, usize)>, n: int, a: usize, k: int)
    requires
        edges_in_range(n, edges),
    ensures
        forall|q: int| 0 <= q < out_nbrs(edges, a, k).len() ==> #[trigger] out_nbrs(edges, a, k)[q] < n,
        forall|q: int| 0 <= q < in_nbrs(edges, a, k).len() ==> #[trigger] in_nbrs(edges, a, k)[q] < n,
    decreases k,
{
    if 0 < k <= edges.len() {
        lemma_nbrs_bounded(edges, n, a, k - 1);
        let e = edges[k - 1];
        assert(e.0 < n && e.1 < n);
        let o = out_nbrs(edges, a, k);
        let o1 = out_nbrs(edges, a, k - 1);
        assert forall|q: int| 0 <= q < o.len() implies #[trigger] o[q] < n by {
            if e.0 == a {
                if q > 0 {
                    assert(o[q] == o1[q - 1]);
                }
            }
        }
        let i = in_nbrs(edges, a, k);
        let i1 = in_nbrs(edges, a, k - 1);
        assert forall|q: int| 0 <= q < i.len() implies #[trigger] i[q] < n by {
            if e.1 == a {
                if q > 0 {
                    assert(i[q] == i1[q - 1]);
                }
            }
        }
    }
}

/// Every node a neighbour list names is joined to the node in `m`.
proof fn lemma_nbrs_adjacent(edges: Seq<(usize, usize)>, m: Seq<Vec<bool>>, a: usize, k: int)
    requires
        sym_matrix(m),
        edges_in_range(m.len() as int, edges),
        forall|j: int| 0 <= j < edges.len() ==> m[(#[trigger] edges[j]).0 as int]@[edges[j].1 as int],
    ensures
        forall|q: int| 0 <= q < out_nbrs(edges, a, k).len() ==> m[a as int]@[#[trigger] out_nbrs(edges, a, k)[q] as int],
        forall|q: int| 0 <= q < in_nbrs(edges, a, k).len() ==> m[a as int]@[#[trigger] in_nbrs(edges, a, k)[q] as int],
    decreases k,
{
    if 0 < k <= edges.len() {
        lemma_nbrs_adjacent(edges, m, a, k - 1);
        let e = edges[k - 1];
        assert(m[e.0 as int]@[e.1 as int]);
        let o = out_nbrs(edges, a, k);
        let o1 = out_nbrs(edges, a, k - 1);
        assert forall|q: int| 0 <= q < o.len() implies m[a as int]@[#[trigger] o[q] as int] by {
            if e.0 == a {
                if q > 0 {
                    assert(o[q] == o1[q - 1]);
                }
            }
        }
        let i = in_nbrs(edges, a, k);
        let i1 = in_nbrs(edges, a, k - 1);
        assert forall|q: int| 0 <= q < i.len() implies m[a as int]@[#[trigger] i[q] as int] by {
            if e.1 == a {
                if q > 0 {
                    assert(i[q] == i1[q - 1]);
                } else {
                    assert(m[e.1 as int]@[e.0 as int] == m[e.0 as int]@[e.1 as int]);
                }
            }
        }
    }
}

/// Whether the nodes of `c` are pairwise joined in `m`, with `size` of them when `size`
/// is positive (at least one in any case).
pub open spec fn clique_of(m: Seq<Vec<bool>>, c: Seq<usize>, size: int) -> bool {
    &&& c.len() >= 1
    &&& size >= 1 ==> c.len() == size
    &&& forall|q: int| 0 <= q < c.len() ==> #[trigger] c[q] < m.len()
    &&& forall|a: int, b: int| 0 <= a < c.len() && 0 <= b < c.len() && a != b ==> m[#[trigger] c[a] as int]@[#[trigger] c[b] as int]
}

/// Whether `m` is a symmetric `n`-by-`n` matrix without loops.
pub open spec fn sym_matrix(m: Seq<Vec<bool>>) -> bool {
    &&& forall|i: int| 0 <= i < m.len() ==> (#[trigger] m[i]).len() == m.len()
    &&& forall|i: int, j: int| 0 <= i < m.len() && 0 <= j < m.len() ==> (#[trigger] m[i]@[j]) == m[j]@[i]
    &&& forall|i: int| 0 <= i < m.len() ==> !(#[trigger] m[i]@[i])
}

/// Whether `m` joins exactly the pairs of different compatible sections that both pass
/// the user's filters.
pub open spec fn edge_matrix_ok(m: Seq<Vec<bool>>, secs: Seq<SeccionPlan>, params: PlanParams) -> bool {
    &&& m.len() == secs.len()
    &&& forall|x: int| 0 <= x < m.len() ==> (#[trigger] m[x]).len() == m.len()
    &&& forall|x: int, y: int| 0 <= x < m.len() && 0 <= y < m.len() ==> (#[trigger] m[x]@[y] == (x != y
        && compatible(secs[x].seccion, secs[y].seccion) && cumple_filtros(secs[x], params.filtros)
        && cumple_filtros(secs[y], params.filtros)))
}

/// A clique of a loop-free matrix has at most as many nodes as the matrix.
proof fn lemma_clique_len(m: Seq<Vec<bool>>, c: Seq<usize>, size: int)
    requires
        clique_of(m, c, size),
        sym_matrix(m),
    ensures
        c.len() <= m.len(),
{
    let ci = c.map_values(|x: usize| x as int);
    assert forall|a: int, b: int| 0 <= a < ci.len() && 0 <= b < ci.len() && a != b implies ci[a] != ci[b] by {
        assert(m[c[a] as int]@[c[b] as int]);
        if c[a] == c[b] {
            assert(!m[c[a] as int]@[c[a] as int]);
        }
    }
    assert(ci.no_duplicates());
    ci.unique_seq_to_set();
    let r = vstd::set_lib::set_int_range(0, m.len() as int);
    vstd::set_lib::lemma_int_range(0, m.len() as int);
    assert forall|x: int| ci.to_set().contains(x) implies r.contains(x) by {
        let q = choose|q: int| 0 <= q < ci.len() && ci[q] == x;
        assert(c[q] < m.len());
    }
    vstd::set_lib::lemma_len_subset(ci.to_set(), r);
}

/// A copy of a list of positions.
fn copy_positions(v: &Vec<usize>) -> (r: Vec<usize>)
    ensures
        r@ == v@,
{
    let mut out: Vec<usize> = Vec::new();
    let mut k: usize = 0;
    while k < v.len()
        invariant
            k <= v.len(),
            out@ == v@.subrange(0, k as int),
        decreases v.len() - k,
    {
        out.push(v[k]);
        k = k + 1;
        assert(out@ =~= v@.subrange(0, k as int));
    }
    assert(v@.subrange(0, v.len() as int) =~= v@);
    out
}

/// Whether `x` is adjacent in `m` to every position of `cur`.
pub open spec fn adj_all(m: Seq<Vec<bool>>, x: usize, cur: Seq<usize>) -> bool {
    forall|b: int| 0 <= b < cur.len() ==> m[x as int]@[#[trigger] cur[b] as int]
}

/// The candidates of `cands[lo..hi]` adjacent in `m` to `x`, in order.
pub open spec fn adj_between(m: Seq<Vec<bool>>, x: usize, cands: Seq<usize>, lo: int, hi: int) -> Seq<usize>
    decreases hi - lo,
{
    if hi <= lo {
        Seq::empty()
    } else if m[x as int]@[cands[hi - 1] as int] {
        adj_between(m, x, cands, lo, hi - 1).push(cands[hi - 1])
    } else {
        adj_between(m, x, cands, lo, hi - 1)
    }
}

/// At most as many candidates are adjacent as the range holds.
pub proof fn lemma_adj_between_len(m: Seq<Vec<bool>>, x: usize, cands: Seq<usize>, lo: int, hi: int)
    ensures
        adj_between(m, x, cands, lo, hi).len() <= (if hi <= lo { 0 } else { hi - lo }),
    decreases hi - lo,
{
    if hi > lo {
        lemma_adj_between_len(m, x, cands, lo, hi - 1);
    }
}

/// The cliques kept, after `found`, by the depth-first search that extends `cur` by
/// the candidates `cands`: none once `maxc` are kept; `cur` itself when it has
/// `max_size` sections; none when too few candidates are left to reach `max_size`;
/// `cur` itself when no candidate is left; else the search from each candidate in
/// turn (see `dfs_from`).
pub open spec fn dfs_kept(m: Seq<Vec<bool>>, cands: Seq<usize>, cur: Seq<usize>, found: Seq<Seq<usize>>, max_size: int,
    maxc: int) -> Seq<Seq<usize>>
    decreases cands.len(), 1int, 0int,
{
    if found.len() >= maxc {
        found
    } else if cur.len() == max_size {
        found.push(cur)
    } else if cur.len() < max_size && cands.len() < max_size - cur.len() {
        found
    } else if cands.len() == 0 {
        found.push(cur)
    } else {
        dfs_from(m, cands, cur, found, max_size, maxc, 0)
    }
}

/// The cliques kept, after `found`, by trying the candidates `cands[i..]` in turn: a
/// candidate adjacent to all of `cur` extends it, with the later candidates adjacent
/// to it as the new candidates.
pub open spec fn dfs_from(m: Seq<Vec<bool>>, cands: Seq<usize>, cur: Seq<usize>, found: Seq<Seq<usize>>, max_size: int,
    maxc: int, i: int) -> Seq<Seq<usize>>
    decreases cands.len(), 0int, cands.len() - i,
{
    if i < 0 || i >= cands.len() {
        found
    } else {
        let x = cands[i];
        if adj_all(m, x, cur) {
            let next = adj_between(m, x, cands, i + 1, cands.len() as int);
            proof {
                lemma_adj_between_len(m, x, cands, i + 1, cands.len() as int);
            }
            dfs_from(m, cands, cur, dfs_kept(m, next, cur.push(x), found, max_size, maxc), max_size, maxc, i + 1)
        } else {
            dfs_from(m, cands, cur, found, max_size, maxc, i + 1)
        }
    }
}

/// The candidates `adj_between` keeps are candidates of the range joined to `x`.
proof fn lemma_adj_between_members(m: Seq<Vec<bool>>, x: usize, cands: Seq<usize>, lo: int, hi: int)
    ensures
        forall|q: int| 0 <= q < adj_between(m, x, cands, lo, hi).len() ==> exists|j: int| lo <= j < hi
            && cands[j] == #[trigger] adj_between(m, x, cands, lo, hi)[q] && m[x as int]@[cands[j] as int],
    decreases hi - lo,
{
    if hi > lo {
        lemma_adj_between_members(m, x, cands, lo, hi - 1);
        let s0 = adj_between(m, x, cands, lo, hi - 1);
        let s1 = adj_between(m, x, cands, lo, hi);
        assert forall|q: int| 0 <= q < s1.len() implies exists|j: int| lo <= j < hi
            && cands[j] == #[trigger] s1[q] && m[x as int]@[cands[j] as int] by {
            if q < s0.len() {
                assert(s1[q] == s0[q]);
                let j = choose|j: int| lo <= j < hi - 1 && cands[j] == #[trigger] s0[q] && m[x as int]@[cands[j] as int];
                assert(cands[j] == s1[q]);
            } else {
                assert(s1[q] == cands[hi - 1]);
            }
        }
    }
}

/// Searching for cliques of any size from a non-empty `cur` whose candidates are all
/// joined to every node of `cur` keeps at least one more clique, unless `maxc` are
/// kept already.
pub proof fn lemma_dfs_any_size_finds(m: Seq<Vec<bool>>, cands: Seq<usize>, cur: Seq<usize>, found: Seq<Seq<usize>>, maxc: int)
    requires
        sym_matrix(m),
        cur.len() >= 1,
        found.len() < maxc,
        forall|q: int| 0 <= q < cur.len() ==> #[trigger] cur[q] < m.len(),
        forall|q: int| 0 <= q < cands.len() ==> #[trigger] cands[q] < m.len() && adj_all(m, cands[q], cur),
    ensures
        dfs_kept(m, cands, cur, found, 0, maxc).len() > found.len(),
    decreases cands.len(),
{
    if cands.len() > 0 {
        let x = cands[0];
        assert(adj_all(m, x, cur));
        let next = adj_between(m, x, cands, 1, cands.len() as int);
        lemma_adj_between_len(m, x, cands, 1, cands.len() as int);
        lemma_adj_between_members(m, x, cands, 1, cands.len() as int);
        let c2 = cur.push(x);
        assert forall|q: int| 0 <= q < c2.len() implies #[trigger] c2[q] < m.len() by {
            if q < cur.len() {
                assert(c2[q] == cur[q]);
            }
        }
        assert forall|q: int| 0 <= q < next.len() implies #[trigger] next[q] < m.len() && adj_all(m, next[q], c2) by {
            let j = choose|j: int| 1 <= j < cands.len() && cands[j] == #[trigger] next[q] && m[x as int]@[cands[j] as int];
            assert(adj_all(m, cands[j], cur));
            assert forall|b: int| 0 <= b < c2.len() implies m[next[q] as int]@[#[trigger] c2[b] as int] by {
                if b < cur.len() {
                    assert(c2[b] == cur[b]);
                } else {
                    assert(m[x as int]@[next[q] as int] == m[next[q] as int]@[x as int]);
                }
            }
        }
        lemma_dfs_any_size_finds(m, next, c2, found, maxc);
        let f1 = dfs_kept(m, next, c2, found, 0, maxc);
        lemma_dfs_from_grows(m, cands, cur, f1, 0, maxc, 1);
    }
}

/// The search keeps every clique kept before it.
pub proof fn lemma_dfs_kept_grows(m: Seq<Vec<bool>>, cands: Seq<usize>, cur: Seq<usize>, found: Seq<Seq<usize>>,
    max_size: int, maxc: int)
    ensures
        dfs_kept(m, cands, cur, found, max_size, maxc).len() >= found.len(),
    decreases cands.len(), 1int, 0int,
{
    if !(found.len() >= maxc) && !(cur.len() == max_size) && !(cur.len() < max_size && cands.len() < max_size - cur.len())
        && cands.len() != 0 {
        lemma_dfs_from_grows(m, cands, cur, found, max_size, maxc, 0);
    }
}

/// Trying the candidates in turn keeps every clique kept before.
pub proof fn lemma_dfs_from_grows(m: Seq<Vec<bool>>, cands: Seq<usize>, cur: Seq<usize>, found: Seq<Seq<usize>>,
    max_size: int, maxc: int, i: int)
    ensures
        dfs_from(m, cands, cur, found, max_size, maxc, i).len() >= found.len(),
    decreases cands.len(), 0int, cands.len() - i,
{
    if 0 <= i < cands.len() {
        let x = cands[i];
        if adj_all(m, x, cur) {
            let next = adj_between(m, x, cands, i + 1, cands.len() as int);
            lemma_adj_between_len(m, x, cands, i + 1, cands.len() as int);
            let f1 = dfs_kept(m, next, cur.push(x), found, max_size, maxc);
            lemma_dfs_kept_grows(m, next, cur.push(x), found, max_size, maxc);
            lemma_dfs_from_grows(m, cands, cur, f1, max_size, maxc, i + 1);
        } else {
            lemma_dfs_from_grows(m, cands, cur, found, max_size, maxc, i + 1);
        }
    }
}

/// Whether each node of `ext` is joined in `m` to all nodes before it, those of `cur`
/// included.
pub open spec fn extends_clique(m: Seq<Vec<bool>>, cur: Seq<usize>, ext: Seq<usize>) -> bool {
    forall|j: int| 0 <= j < ext.len() ==> adj_all(m, #[trigger] ext[j], cur + ext.take(j))
}

/// A list found at increasing places of `order` from `start` on is no longer than
/// what is left of `order`.
proof fn lemma_subseq_len(order: Seq<usize>, start: int, ext: Seq<usize>)
    requires
        0 <= start,
        subseq_from(order, start, ext),
    ensures
        ext.len() + start <= order.len() || ext.len() == 0,
    decreases ext.len(),
{
    if ext.len() > 0 {
        let p = choose|p: int| #![trigger order[p]] start <= p < order.len() && order[p] == ext[0]
            && subseq_from(order, p + 1, ext.drop_first());
        lemma_subseq_len(order, p + 1, ext.drop_first());
    }
}

/// Found from an earlier place is found from any place before it.
proof fn lemma_subseq_earlier(order: Seq<usize>, a: int, b: int, ext: Seq<usize>)
    requires
        a <= b,
        subseq_from(order, b, ext),
    ensures
        subseq_from(order, a, ext),
{
    if ext.len() > 0 {
        let p = choose|p: int| #![trigger order[p]] b <= p < order.len() && order[p] == ext[0]
            && subseq_from(order, p + 1, ext.drop_first());
        assert(order[p] == ext[0]);
    }
}

/// Places in `seq![c] + o` are those in `o` shifted by one.
proof fn lemma_subseq_shift(c: usize, o: Seq<usize>, k: int, ext: Seq<usize>)
    requires
        0 <= k,
        subseq_from(o, k, ext),
    ensures
        subseq_from(seq![c] + o, k + 1, ext),
    decreases ext.len(),
{
    if ext.len() > 0 {
        let p = choose|p: int| #![trigger o[p]] k <= p < o.len() && o[p] == ext[0]
            && subseq_from(o, p + 1, ext.drop_first());
        lemma_subseq_shift(c, o, p + 1, ext.drop_first());
        let co = seq![c] + o;
        assert(co[p + 1] == o[p]);
    }
}

/// `adj_between` read from the front.
proof fn lemma_adj_between_front(m: Seq<Vec<bool>>, x: usize, cands: Seq<usize>, lo: int, hi: int)
    requires
        lo < hi,
    ensures
        adj_between(m, x, cands, lo, hi) == if m[x as int]@[cands[lo] as int] {
            seq![cands[lo]] + adj_between(m, x, cands, lo + 1, hi)
        } else {
            adj_between(m, x, cands, lo + 1, hi)
        },
    decreases hi - lo,
{
    if lo + 1 < hi {
        lemma_adj_between_front(m, x, cands, lo, hi - 1);
        if m[x as int]@[cands[lo] as int] {
            assert(seq![cands[lo]] + adj_between(m, x, cands, lo + 1, hi - 1).push(cands[hi - 1])
                =~= (seq![cands[lo]] + adj_between(m, x, cands, lo + 1, hi - 1)).push(cands[hi - 1]));
        }
    } else {
        assert(adj_between(m, x, cands, lo + 1, hi) == Seq::<usize>::empty());
        assert(adj_between(m, x, cands, lo, hi - 1) == Seq::<usize>::empty());
        if m[x as int]@[cands[lo] as int] {
            assert(seq![cands[lo]] + Seq::<usize>::empty() =~= Seq::<usize>::empty().push(cands[lo]));
        }
    }
}

/// Nodes found in order among the candidates from `lo` on, all joined to `x`, are found
/// in order among the candidates from `lo` on joined to `x`.
proof fn lemma_subseq_adj_between(m: Seq<Vec<bool>>, x: usize, cands: Seq<usize>, lo: int, ext: Seq<usize>)
    requires
        0 <= lo,
        subseq_from(cands, lo, ext),
        forall|k: int| 0 <= k < ext.len() ==> m[x as int]@[#[trigger] ext[k] as int],
    ensures
        subseq_from(adj_between(m, x, cands, lo, cands.len() as int), 0, ext),
    decreases cands.len() - lo,
{
    if ext.len() > 0 {
        let p = choose|p: int| #![trigger cands[p]] lo <= p < cands.len() && cands[p] == ext[0]
            && subseq_from(cands, p + 1, ext.drop_first());
        lemma_adj_between_front(m, x, cands, lo, cands.len() as int);
        let rest = adj_between(m, x, cands, lo + 1, cands.len() as int);
        if p == lo {
            assert(m[x as int]@[ext[0] as int]);
            let e2 = ext.drop_first();
            assert forall|k: int| 0 <= k < e2.len() implies m[x as int]@[#[trigger] e2[k] as int] by {
                assert(e2[k] == ext[k + 1]);
            }
            lemma_subseq_adj_between(m, x, cands, lo + 1, e2);
            lemma_subseq_shift(cands[lo], rest, 0, e2);
            let a = seq![cands[lo]] + rest;
            assert(a[0] == ext[0]);
            assert(subseq_from(a, 1, e2));
        } else {
            assert(subseq_from(cands, lo + 1, ext));
            lemma_subseq_adj_between(m, x, cands, lo + 1, ext);
            if m[x as int]@[cands[lo] as int] {
                lemma_subseq_shift(cands[lo], rest, 0, ext);
                lemma_subseq_earlier(seq![cands[lo]] + rest, 0, 1, ext);
            }
        }
    }
}

/// A kept clique stays kept by the search.
proof fn lemma_dfs_kept_keeps(m: Seq<Vec<bool>>, cands: Seq<usize>, cur: Seq<usize>, found: Seq<Seq<usize>>,
    max_size: int, maxc: int, c: Seq<usize>)
    requires
        found.contains(c),
    ensures
        dfs_kept(m, cands, cur, found, max_size, maxc).contains(c),
    decreases cands.len(), 1int, 0int,
{
    let k = choose|k: int| 0 <= k < found.len() && found[k] == c;
    if found.len() >= maxc {
    } else if cur.len() == max_size || (!(cur.len() < max_size && cands.len() < max_size - cur.len()) && cands.len() == 0) {
        assert(found.push(cur)[k] == c);
    } else if cur.len() < max_size && cands.len() < max_size - cur.len() {
    } else {
        lemma_dfs_from_keeps(m, cands, cur, found, max_size, maxc, 0, c);
    }
}

proof fn lemma_dfs_from_keeps(m: Seq<Vec<bool>>, cands: Seq<usize>, cur: Seq<usize>, found: Seq<Seq<usize>>,
    max_size: int, maxc: int, i: int, c: Seq<usize>)
    requires
        found.contains(c),
    ensures
        dfs_from(m, cands, cur, found, max_size, maxc, i).contains(c),
    decreases cands.len(), 0int, cands.len() - i,
{
    if 0 <= i < cands.len() {
        let x = cands[i];
        if adj_all(m, x, cur) {
            let next = adj_between(m, x, cands, i + 1, cands.len() as int);
            lemma_adj_between_len(m, x, cands, i + 1, cands.len() as int);
            lemma_dfs_kept_keeps(m, next, cur.push(x), found, max_size, maxc, c);
            let f1 = dfs_kept(m, next, cur.push(x), found, max_size, maxc);
            lemma_dfs_from_keeps(m, cands, cur, f1, max_size, maxc, i + 1, c);
        } else {
            lemma_dfs_from_keeps(m, cands, cur, found, max_size, maxc, i + 1, c);
        }
    }
}

/// The depth-first search (see `dfs_kept`, which the search of
/// `exhaustive_clique_search_with_cfg` follows from each start) is complete: with fewer
/// than `maxc` cliques kept in the end, it keeps `cur` extended by every list of
/// candidates, in their order, each joined to all nodes before it, that brings `cur`
/// to `max_size` nodes.
pub proof fn lemma_dfs_kept_complete(m: Seq<Vec<bool>>, cands: Seq<usize>, cur: Seq<usize>, found: Seq<Seq<usize>>,
    max_size: int, maxc: int, ext: Seq<usize>)
    requires
        sym_matrix(m),
        max_size >= 1,
        subseq_from(cands, 0, ext),
        extends_clique(m, cur, ext),
        forall|k: int| 0 <= k < ext.len() ==> #[trigger] ext[k] < m.len(),
        cur.len() + ext.len() == max_size,
        dfs_kept(m, cands, cur, found, max_size, maxc).len() < maxc,
    ensures
        dfs_kept(m, cands, cur, found, max_size, maxc).contains(cur + ext),
    decreases cands.len(), 1int, 0int,
{
    lemma_subseq_len(cands, 0, ext);
    if found.len() >= maxc {
    } else if cur.len() == max_size {
        assert(ext.len() == 0);
        assert(cur + ext =~= cur);
        assert(found.push(cur)[found.len() as int] == cur);
    } else if cur.len() < max_size && cands.len() < max_size - cur.len() {
    } else if cands.len() == 0 {
    } else {
        lemma_dfs_from_complete(m, cands, cur, found, max_size, maxc, 0, ext);
    }
}

proof fn lemma_dfs_from_complete(m: Seq<Vec<bool>>, cands: Seq<usize>, cur: Seq<usize>, found: Seq<Seq<usize>>,
    max_size: int, maxc: int, i: int, ext: Seq<usize>)
    requires
        sym_matrix(m),
        max_size >= 1,
        0 <= i,
        ext.len() > 0,
        subseq_from(cands, i, ext),
        extends_clique(m, cur, ext),
        forall|k: int| 0 <= k < ext.len() ==> #[trigger] ext[k] < m.len(),
        cur.len() + ext.len() == max_size,
        dfs_from(m, cands, cur, found, max_size, maxc, i).len() < maxc,
    ensures
        dfs_from(m, cands, cur, found, max_size, maxc, i).contains(cur + ext),
    decreases cands.len(), 0int, cands.len() - i,
{
    let p = choose|p: int| #![trigger cands[p]] i <= p < cands.len() && cands[p] == ext[0]
        && subseq_from(cands, p + 1, ext.drop_first());
    let x = cands[i];
    if p > i {
        assert(subseq_from(cands, i + 1, ext));
        if adj_all(m, x, cur) {
            let next = adj_between(m, x, cands, i + 1, cands.len() as int);
            lemma_adj_between_len(m, x, cands, i + 1, cands.len() as int);
            let f1 = dfs_kept(m, next, cur.push(x), found, max_size, maxc);
            lemma_dfs_from_complete(m, cands, cur, f1, max_size, maxc, i + 1, ext);
        } else {
            lemma_dfs_from_complete(m, cands, cur, found, max_size, maxc, i + 1, ext);
        }
    } else {
        assert(ext[0] == x);
        assert(cur + ext.take(0) =~= cur);
        assert(adj_all(m, ext[0], cur + ext.take(0)));
        let next = adj_between(m, x, cands, i + 1, cands.len() as int);
        lemma_adj_between_len(m, x, cands, i + 1, cands.len() as int);
        let e2 = ext.drop_first();
        let c2 = cur.push(x);
        assert forall|k: int| 0 <= k < e2.len() implies #[trigger] e2[k] < m.len() by {
            assert(e2[k] == ext[k + 1]);
        }
        assert forall|k: int| 0 <= k < e2.len() implies m[x as int]@[#[trigger] e2[k] as int] by {
            assert(e2[k] == ext[k + 1]);
            assert(x < m.len() && ext[k + 1] < m.len());
            assert(adj_all(m, ext[k + 1], cur + ext.take(k + 1)));
            let pre = cur + ext.take(k + 1);
            assert(pre[cur.len() as int] == x);
            assert(m[ext[k + 1] as int]@[x as int]);
        }
        lemma_subseq_adj_between(m, x, cands, i + 1, e2);
        assert(extends_clique(m, c2, e2)) by {
            assert forall|j: int| 0 <= j < e2.len() implies adj_all(m, #[trigger] e2[j], c2 + e2.take(j)) by {
                assert(c2 + e2.take(j) =~= cur + ext.take(j + 1));
                assert(e2[j] == ext[j + 1]);
            }
        }
        let f1 = dfs_kept(m, next, c2, found, max_size, maxc);
        lemma_dfs_from_grows(m, cands, cur, f1, max_size, maxc, i + 1);
        lemma_dfs_kept_complete(m, next, c2, found, max_size, maxc, e2);
        assert(c2 + e2 =~= cur + ext);
        lemma_dfs_from_keeps(m, cands, cur, f1, max_size, maxc, i + 1, cur + ext);
    }
}

/// Depth-first search for cliques extending `cur` by the candidates `cands`, in order;
/// a clique is kept when it reaches `max_size` sections (or, when `max_size` is 0, when
/// no candidate is left), until `max_cliques` are kept.
fn cliques_dfs(
    cands: Vec<usize>,
    m: &Vec<Vec<bool>>,
    cur: &mut Vec<usize>,
    found: &mut Vec<Vec<usize>>,
    max_size: usize,
    max_cliques: usize,
)
    requires
        sym_matrix(m@),
        forall|q: int| 0 <= q < cands.len() ==> #[trigger] cands@[q] < m.len(),
        old(cur).len() >= 1,
        max_size >= 1 ==> old(cur).len() <= max_size,
        forall|q: int| 0 <= q < old(cur).len() ==> #[trigger] old(cur)@[q] < m.len(),
        forall|a: int, b: int| 0 <= a < old(cur).len() && 0 <= b < old(cur).len() && a != b
            ==> m@[#[trigger] old(cur)@[a] as int]@[#[trigger] old(cur)@[b] as int],
        forall|t: int| 0 <= t < old(found).len() ==> clique_of(m@, #[trigger] old(found)@[t]@, max_size as int),
    ensures
        final(cur)@ == old(cur)@,
        final(found).deep_view() == dfs_kept(m@, cands@, old(cur)@, old(found).deep_view(), max_size as int, max_cliques as int),
        forall|t: int| 0 <= t < final(found).len() ==> clique_of(m@, #[trigger] final(found)@[t]@, max_size as int),
        old(found).len() <= max_cliques ==> final(found).len() <= max_cliques,
    decreases cands.len(),
{
    let ghost target = dfs_kept(m@, cands@, cur@, found.deep_view(), max_size as int, max_cliques as int);
    if found.len() >= max_cliques {
        return;
    }
    if cur.len() == max_size {
        let ghost o = found@;
        let ghost od = found.deep_view();
        let c = cur.clone();
        assert(c@ == cur@);
        assert(c.deep_view() =~= cur@);
        found.push(c);
        assert(found.deep_view() =~= od.push(cur@)) by {
            assert forall|k: int| 0 <= k < found.len() implies found.deep_view()[k] == od.push(cur@)[k] by {
                if k < od.len() {
                    assert(found@[k] == o[k]);
                }
            }
        }
        assert forall|t: int| 0 <= t < found.len() implies clique_of(m@, #[trigger] found@[t]@, max_size as int) by {
            if t < o.len() {
                assert(found@[t] == o[t]);
            }
        }
        return;
    }
    if cur.len() < max_size && cands.len() < max_size - cur.len() {
        return;
    }
    if cands.len() == 0 {
        let ghost o = found@;
        let ghost od = found.deep_view();
        let c = cur.clone();
        assert(c@ == cur@);
        assert(c.deep_view() =~= cur@);
        found.push(c);
        assert(found.deep_view() =~= od.push(cur@)) by {
            assert forall|k: int| 0 <= k < found.len() implies found.deep_view()[k] == od.push(cur@)[k] by {
                if k < od.len() {
                    assert(found@[k] == o[k]);
                }
            }
        }
        assert forall|t: int| 0 <= t < found.len() implies clique_of(m@, #[trigger] found@[t]@, max_size as int) by {
            if t < o.len() {
                assert(found@[t] == o[t]);
            }
        }
        return;
    }
    let ghost c0 = cur@;
    let ghost f0 = found.len();
    let mut i: usize = 0;
    while i < cands.len()
        invariant
            i <= cands.len(),
            sym_matrix(m@),
            forall|q: int| 0 <= q < cands.len() ==> #[trigger] cands@[q] < m.len(),
            cur@ == c0,
            c0.len() >= 1,
            max_size >= 1 ==> c0.len() < max_size,
            forall|q: int| 0 <= q < c0.len() ==> #[trigger] c0[q] < m.len(),
            forall|a: int, b: int| 0 <= a < c0.len() && 0 <= b < c0.len() && a != b ==> m@[#[trigger] c0[a] as int]@[#[trigger] c0[b] as int],
            forall|t: int| 0 <= t < found.len() ==> clique_of(m@, #[trigger] found@[t]@, max_size as int),
            f0 <= max_cliques ==> found.len() <= max_cliques,
            f0 < max_cliques,
            target == dfs_from(m@, cands@, c0, found.deep_view(), max_size as int, max_cliques as int, i as int),
        decreases cands.len() - i,
    {
        let cand = cands[i];
        let mut ok = true;
        let mut e: usize = 0;
        while e < cur.len()
            invariant
                e <= cur.len(),
                cur@ == c0,
                cand < m.len(),
                sym_matrix(m@),
                forall|q: int| 0 <= q < c0.len() ==> #[trigger] c0[q] < m.len(),
                ok == forall|b: int| 0 <= b < e ==> m@[cand as int]@[#[trigger] c0[b] as int],
            decreases cur.len() - e,
        {
            if !m[cand][cur[e]] {
                ok = false;
            }
            e = e + 1;
        }
        if ok {
            cur.push(cand);
            proof {
                let c1 = cur@;
                assert forall|a: int, b: int| 0 <= a < c1.len() && 0 <= b < c1.len() && a != b
                    implies m@[#[trigger] c1[a] as int]@[#[trigger] c1[b] as int] by {
                    if a < c0.len() && b < c0.len() {
                        assert(c1[a] == c0[a] && c1[b] == c0[b]);
                    } else if a < c0.len() {
                        assert(c1[a] == c0[a]);
                        assert(m@[cand as int]@[c0[a] as int]);
                    } else {
                        assert(c1[b] == c0[b]);
                    }
                }
            }
            let mut next: Vec<usize> = Vec::new();
            let mut q: usize = i + 1;
            while q < cands.len()
                invariant
                    i < q <= cands.len(),
                    cand < m.len(),
                    sym_matrix(m@),
                    forall|x: int| 0 <= x < cands.len() ==> #[trigger] cands@[x] < m.len(),
                    next.len() <= q - i - 1,
                    forall|x: int| 0 <= x < next.len() ==> #[trigger] next@[x] < m.len(),
                    next@ == adj_between(m@, cand, cands@, i + 1, q as int),
                decreases cands.len() - q,
            {
                if m[cand][cands[q]] {
                    next.push(cands[q]);
                }
                q = q + 1;
            }
            cliques_dfs(next, m, cur, found, max_size, max_cliques);
            cur.pop();
            assert(cur@ =~= c0);
        }
        i = i + 1;
    }
}

/// Whether `sol` with `score` is a clique found by the exhaustive search: sections at
/// positions `idx` of `secs`, `size` of them when `size` is positive, pairwise
/// compatible and both passing the user's filters, weighted by the priority of the
/// course of the same upper-cased code (10 010 150 for a CFG section without one, else
/// 0), and scored by the sum of the weights.
pub open spec fn exhaustive_clique(
    secs: Seq<SeccionPlan>,
    ramos: Seq<RamoDisponible>,
    params: PlanParams,
    size: int,
    sol: Seq<(Seccion, i32)>,
    score: i64,
) -> bool {
    &&& score == entries_sum(sol)
    &&& exists|idx: Seq<usize>| #[trigger] found_at(secs, ramos, params, size, sol, idx)
}

/// The positions a found clique lists.
pub open spec fn found_at(
    secs: Seq<SeccionPlan>,
    ramos: Seq<RamoDisponible>,
    params: PlanParams,
    size: int,
    sol: Seq<(Seccion, i32)>,
    idx: Seq<usize>,
) -> bool {
    &&& idx.len() == sol.len() && idx.len() >= 1
    &&& size >= 1 ==> idx.len() == size
    &&& forall|a: int| 0 <= a < idx.len() ==> (#[trigger] idx[a]) < secs.len() && same_section(sol[a].0, secs[idx[a] as int].seccion)
        && sol[a].1 as int == upper_weight(ramos, secs[idx[a] as int])
    &&& forall|a: int, b: int| 0 <= a < idx.len() && 0 <= b < idx.len() && a != b ==> {
        let (x, y) = (secs[#[trigger] idx[a] as int], secs[#[trigger] idx[b] as int]);
        compatible(x.seccion, y.seccion) && cumple_filtros(x, params.filtros) && cumple_filtros(y, params.filtros)
    }
}

/// The cliques of `max_size` sections (of any size when `max_size` is 0) of the graph
/// whose edges join two compatible sections that both pass the user's filters, found
/// depth first from each section in decreasing position, candidates taken in the
/// order the graph lists the start's neighbours, until `max_solutions` are found.
/// Each becomes a timetable weighted by the priority of the course of the same
/// upper-cased code (10 010 150 for a CFG section without one, else 0) and scored by
/// the sum of its weights; a timetable listing the same box codes in the same order as
/// an earlier one is skipped; the answer is ordered by score, best first.
pub fn exhaustive_clique_search_with_cfg(
    secs: &Vec<SeccionPlan>,
    ramos: &[RamoDisponible],
    params: &PlanParams,
    max_size: usize,
    max_solutions: usize,
) -> (r: Vec<(Vec<(Seccion, i32)>, i64)>)
    requires
        codes_cut(secs@),
        forall|i: int| 0 <= i < secs.len() ==> filters_fit((#[trigger] secs@[i]).seccion, params.filtros),
        secs.len() * 20_000_000 <= i64::MAX,
    ensures
        r.len() <= max_solutions,
        forall|t: int| 0 <= t < r.len() ==> exhaustive_clique(secs@, ramos@, *params, max_size as int, (#[trigger] r@[t]).0@,
            r@[t].1),
        forall|t: int, u: int| 0 <= t < u < r.len() ==> (#[trigger] r@[t]).1 >= (#[trigger] r@[u]).1,
        secs.len() > 0 && max_solutions > 0 && max_size <= 1 ==> r.len() > 0,
{
    let n = secs.len();
    let mut all_pos: Vec<usize> = Vec::new();
    let mut z: usize = 0;
    while z < n
        invariant
            z <= n == secs.len(),
            all_pos.len() == z,
            forall|q: int| 0 <= q < z ==> #[trigger] all_pos@[q] == q,
        decreases n - z,
    {
        all_pos.push(z);
        z = z + 1;
    }
    let ghost ps = pool_secs(secs@, all_pos@);
    assert(ps =~= secs@);
    let compat = pool_adjacency(secs.as_slice(), &all_pos);
    let mut fil: Vec<bool> = Vec::new();
    let mut z: usize = 0;
    while z < n
        invariant
            z <= n == secs.len(),
            forall|i: int| 0 <= i < secs.len() ==> filters_fit((#[trigger] secs@[i]).seccion, params.filtros),
            fil.len() == z,
            forall|q: int| 0 <= q < z ==> #[trigger] fil@[q] == cumple_filtros(secs@[q], params.filtros),
        decreases n - z,
    {
        fil.push(seccion_cumple_filtros(&secs[z], &params.filtros));
        z = z + 1;
    }
    // The edge matrix and the edges in the order they are added to the graph.
    let mut m: Vec<Vec<bool>> = Vec::new();
    let mut i: usize = 0;
    while i < n
        invariant
            i <= n == secs.len() == compat.len() == fil.len(),
            forall|x: int| 0 <= x < n ==> (#[trigger] compat@[x]).len() == n,
            forall|x: int, y: int| 0 <= x < n && 0 <= y < n ==> (#[trigger] compat@[x]@[y] == (x != y
                && compatible(secs@[x].seccion, secs@[y].seccion))),
            forall|q: int| 0 <= q < n ==> #[trigger] fil@[q] == cumple_filtros(secs@[q], params.filtros),
            m.len() == i,
            forall|x: int| 0 <= x < i ==> (#[trigger] m@[x]).len() == n,
            forall|x: int, y: int| 0 <= x < i && 0 <= y < n ==> (#[trigger] m@[x]@[y] == (x != y
                && compatible(secs@[x].seccion, secs@[y].seccion) && fil@[x] && fil@[y])),
        decreases n - i,
    {
        let mut row: Vec<bool> = Vec::new();
        let mut j: usize = 0;
        while j < n
            invariant
                i < n == secs.len() == compat.len() == fil.len(),
                forall|x: int| 0 <= x < n ==> (#[trigger] compat@[x]).len() == n,
                forall|x: int, y: int| 0 <= x < n && 0 <= y < n ==> (#[trigger] compat@[x]@[y] == (x != y
                    && compatible(secs@[x].seccion, secs@[y].seccion))),
                j <= n,
                row.len() == j,
                forall|y: int| 0 <= y < j ==> (#[trigger] row@[y] == (i != y
                    && compatible(secs@[i as int].seccion, secs@[y].seccion) && fil@[i as int] && fil@[y])),
            decreases n - j,
        {
            row.push(compat[i][j] && fil[i] && fil[j]);
            j = j + 1;
        }
        m.push(row);
        i = i + 1;
    }
    proof {
        assert forall|x: int, y: int| 0 <= x < n && 0 <= y < n implies (#[trigger] m@[x]@[y]) == m@[y]@[x] by {
            lemma_compatible_symmetric(secs@[x].seccion, secs@[y].seccion);
        }
        assert(edge_matrix_ok(m@, secs@, *params));
    }
    let mut edges: Vec<(usize, usize)> = Vec::new();
    let mut i: usize = 0;
    while i < n
        invariant
            i <= n == m.len(),
            forall|x: int| 0 <= x < n ==> (#[trigger] m@[x]).len() == n,
            forall|k: int| 0 <= k < edges.len() ==> (#[trigger] edges@[k]).0 < n && edges@[k].1 < n && edges@[k].0 != edges@[k].1,
            forall|k: int| 0 <= k < edges.len() ==> m@[(#[trigger] edges@[k]).0 as int]@[edges@[k].1 as int],
            edge_matrix_ok(m@, secs@, *params),
            sym_matrix(m@),
        decreases n - i,
    {
        let mut j: usize = i + 1;
        while j < n
            invariant
                i < j <= n == m.len(),
                forall|x: int| 0 <= x < n ==> (#[trigger] m@[x]).len() == n,
                forall|k: int| 0 <= k < edges.len() ==> (#[trigger] edges@[k]).0 < n && edges@[k].1 < n && edges@[k].0 != edges@[k].1,
                forall|k: int| 0 <= k < edges.len() ==> m@[(#[trigger] edges@[k]).0 as int]@[edges@[k].1 as int],
            decreases n - j,
        {
            if m[i][j] {
                edges.push((i, j));
            }
            j = j + 1;
        }
        i = i + 1;
    }
    let nbrs = neighbor_lists(n, &edges);
    // Depth-first search from each node, highest position first.
    let mut found: Vec<Vec<usize>> = Vec::new();
    let mut s: usize = n;
    while s > 0
        invariant
            s <= n == m.len() == nbrs.len(),
            sym_matrix(m@),
            edge_matrix_ok(m@, secs@, *params),
            edges_in_range(n as int, edges@),
            forall|a: int| 0 <= a < n ==> (#[trigger] nbrs@[a])@ == nbr_order(edges@, a as usize),
            forall|t: int| 0 <= t < found.len() ==> clique_of(m@, #[trigger] found@[t]@, max_size as int),
            found.len() <= max_solutions,
            s < n && max_solutions > 0 && max_size <= 1 ==> found.len() > 0,
            forall|k: int| 0 <= k < edges.len() ==> m@[(#[trigger] edges@[k]).0 as int]@[edges@[k].1 as int],
        ensures
            forall|t: int| 0 <= t < found.len() ==> clique_of(m@, #[trigger] found@[t]@, max_size as int),
            found.len() <= max_solutions,
            n > 0 && max_solutions > 0 && max_size <= 1 ==> found.len() > 0,
        decreases s,
    {
        if found.len() >= max_solutions {
            break;
        }
        s = s - 1;
        proof {
            lemma_nbrs_bounded(edges@, n as int, s, edges.len() as int);
            assert forall|q: int| 0 <= q < nbrs@[s as int].len() implies #[trigger] nbrs@[s as int]@[q] < n by {
                let o = out_nbrs(edges@, s, edges.len() as int);
                if q < o.len() {
                    assert(nbrs@[s as int]@[q] == o[q]);
                } else {
                    assert(nbrs@[s as int]@[q] == in_nbrs(edges@, s, edges.len() as int)[q - o.len()]);
                }
            }
        }
        let cands = copy_positions(&nbrs[s]);
        let mut cur: Vec<usize> = Vec::new();
        cur.push(s);
        let ghost fd = found.deep_view();
        let ghost cv = cur@;
        let ghost cs = cands@;
        cliques_dfs(cands, &m, &mut cur, &mut found, max_size, max_solutions);
        proof {
            if max_size == 0 && fd.len() < max_solutions {
                lemma_nbrs_adjacent(edges@, m@, s, edges.len() as int);
                assert forall|q: int| 0 <= q < cs.len() implies #[trigger] cs[q] < m.len() && adj_all(m@, cs[q], cv) by {
                    let o = out_nbrs(edges@, s, edges.len() as int);
                    if q < o.len() {
                        assert(cs[q] == o[q]);
                    } else {
                        assert(cs[q] == in_nbrs(edges@, s, edges.len() as int)[q - o.len()]);
                    }
                    assert(m@[s as int]@[cs[q] as int] == m@[cs[q] as int]@[s as int]);
                    assert(cv[0] == s);
                }
                lemma_dfs_any_size_finds(m@, cs, cv, fd, max_solutions as int);
            }
            lemma_dfs_kept_grows(m@, cs, cv, fd, max_size as int, max_solutions as int);
            assert(found.len() == found.deep_view().len());
        }
    }
    // The timetables of the cliques.
    let (_codes, ups, _names) = course_forms(ramos);
    let mut fcodes: Vec<Vec<char>> = Vec::new();
    let mut z: usize = 0;
    while z < n
        invariant
            z <= n == secs.len(),
            fcodes.len() == z,
            forall|q: int| 0 <= q < z ==> (#[trigger] fcodes@[q])@ == upper_of(secs@[q].seccion.codigo@),
        decreases n - z,
    {
        fcodes.push(to_upper(&chars_of(secs[z].seccion.codigo.as_str())));
        z = z + 1;
    }
    let ghost pred = |x: (Vec<(Seccion, i32)>, i64)| exhaustive_clique(secs@, ramos@, *params, max_size as int, x.0@, x.1);
    let mut sols: Vec<(Vec<(Seccion, i32)>, i64)> = Vec::new();
    let mut keys: Vec<Vec<Vec<char>>> = Vec::new();
    let mut t: usize = 0;
    while t < found.len()
        invariant
            t <= found.len() <= max_solutions,
            n == secs.len() == m.len() == fcodes.len(),
            forall|x: int| 0 <= x < n ==> (#[trigger] fcodes@[x])@ == upper_of(secs@[x].seccion.codigo@),
            edge_matrix_ok(m@, secs@, *params),
            sym_matrix(m@),
            forall|q: int| 0 <= q < found.len() ==> clique_of(m@, #[trigger] found@[q]@, max_size as int),
            ups.deep_view() == uppers_of(ramos@),
            secs.len() * 20_000_000 <= i64::MAX,
            sols.len() <= t,
            t > 0 ==> sols.len() > 0,
            keys.len() == sols.len(),
            pred == (|x: (Vec<(Seccion, i32)>, i64)| exhaustive_clique(secs@, ramos@, *params, max_size as int, x.0@, x.1)),
            forall|q: int| 0 <= q < sols.len() ==> #[trigger] pred(sols@[q]),
        decreases found.len() - t,
    {
        let c = &found[t];
        assert(clique_of(m@, c@, max_size as int));
        let mut sol: Vec<(Seccion, i32)> = Vec::new();
        let mut key: Vec<Vec<char>> = Vec::new();
        let mut k: usize = 0;
        while k < c.len()
            invariant
                k <= c.len(),
                c == &found@[t as int],
                clique_of(m@, c@, max_size as int),
                edge_matrix_ok(m@, secs@, *params),
                n == secs.len() == m.len() == fcodes.len(),
                forall|x: int| 0 <= x < n ==> (#[trigger] fcodes@[x])@ == upper_of(secs@[x].seccion.codigo@),
                ups.deep_view() == uppers_of(ramos@),
                sol.len() == k,
                forall|a: int| 0 <= a < k ==> same_section((#[trigger] sol@[a]).0, secs@[c@[a] as int].seccion)
                    && sol@[a].1 as int == upper_weight(ramos@, secs@[c@[a] as int])
                    && 0 <= sol@[a].1 <= 20_000_000,
            decreases c.len() - k,
        {
            let ix = c[k];
            let w: i32 = match find_eq(&ups, &fcodes[ix]) {
                Some(kk) => {
                    proof {
                        crate::scoring::lemma_priority_bounds(ramos@[kk as int], secs@[ix as int].seccion.seccion@);
                    }
                    compute_priority(&ramos[kk], &secs[ix].seccion) as i32
                },
                None => if secs[ix].is_cfg { 10_010_150 } else { 0 },
            };
            sol.push((secs[ix].seccion.duplicate(), w));
            key.push(chars_of(secs[ix].seccion.codigo_box.as_str()));
            k = k + 1;
        }
        proof {
            assert(found_at(secs@, ramos@, *params, max_size as int, sol@, c@));
            lemma_clique_len(m@, c@, max_size as int);
            crate::clique::lemma_entries_sum_bound(sol@);
            assert(sol.len() * 20_000_000 <= secs.len() * 20_000_000) by (nonlinear_arith)
                requires sol.len() <= secs.len();
        }
        let score = entries_sum_exec(&sol);
        let mut seen = false;
        let mut q: usize = 0;
        while q < keys.len()
            invariant
                q <= keys.len(),
                keys.len() == 0 ==> !seen,
            decreases keys.len() - q,
        {
            if same_keys(&keys[q], &key) {
                seen = true;
            }
            q = q + 1;
        }
        if !seen {
            let ghost o = sols@;
            let ghost sv = sol@;
            sols.push((sol, score));
            keys.push(key);
            assert forall|q: int| 0 <= q < sols.len() implies #[trigger] pred(sols@[q]) by {
                if q < o.len() {
                    assert(sols@[q] == o[q]);
                } else {
                    assert(sols@[q].0@ == sv);
                    assert(found_at(secs@, ramos@, *params, max_size as int, sv, c@));
                }
            }
        }
        t = t + 1;
    }
    let r = sort_by_score(sols, Ghost(pred));
    proof {
        assert forall|q: int| 0 <= q < r.len() implies exhaustive_clique(secs@, ramos@, *params, max_size as int,
            (#[trigger] r@[q]).0@, r@[q].1) by {
            assert(pred(r@[q]));
        }
    }
    r
}

/// A clique of the exhaustive search never holds two sections that share a timetable
/// entry or a box code.
pub proof fn lemma_exhaustive_clash_free(
    secs: Seq<SeccionPlan>,
    ramos: Seq<RamoDisponible>,
    params: PlanParams,
    size: int,
    sol: Seq<(Seccion, i32)>,
    score: i64,
)
    requires
        exhaustive_clique(secs, ramos, params, size, sol, score),
    ensures
        forall|a: int, b: int| 0 <= a < sol.len() && 0 <= b < sol.len() && a != b ==> {
            &&& !crate::scoring::share_entry((#[trigger] sol[a]).0.horario@, (#[trigger] sol[b]).0.horario@)
            &&& sol[a].0.codigo_box@ != sol[b].0.codigo_box@
        },
{
    let idx = choose|idx: Seq<usize>| #[trigger] found_at(secs, ramos, params, size, sol, idx);
    assert forall|a: int, b: int| 0 <= a < sol.len() && 0 <= b < sol.len() && a != b implies {
        &&& !crate::scoring::share_entry((#[trigger] sol[a]).0.horario@, (#[trigger] sol[b]).0.horario@)
        &&& sol[a].0.codigo_box@ != sol[b].0.codigo_box@
    } by {
        assert(idx[a] < secs.len() && same_section(sol[a].0, secs[idx[a] as int].seccion));
        assert(idx[b] < secs.len() && same_section(sol[b].0, secs[idx[b] as int].seccion));
        assert(compatible(secs[idx[a] as int].seccion, secs[idx[b] as int].seccion));
    }
}

} // verus!
