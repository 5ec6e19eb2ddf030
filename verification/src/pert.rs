//! Critical-path (PERT) analysis of a prerequisite graph: earliest and latest start and
//! finish of each course (one term each) and its slack.
use vstd::prelude::*;

verus! {

/// Whether `(u, v)` is one of the edges.
pub open spec fn has_edge(edges: Seq<(usize, usize)>, u: int, v: int) -> bool {
    exists|k: int| 0 <= k < edges.len() && (#[trigger] edges[k]).0 == u && edges[k].1 == v
}

/// `order` lists each of the `n` nodes once, and every edge goes from an earlier to a
/// later node of the list (so no node has an edge to itself).
pub open spec fn is_topo_order(n: int, edges: Seq<(usize, usize)>, order: Seq<usize>) -> bool {
    &&& order.len() == n
    &&& order.no_duplicates()
    &&& forall|k: int| 0 <= k < n ==> #[trigger] order[k] < n
    &&& forall|a: int, b: int|
        0 <= a <= b < n ==> !has_edge(edges, #[trigger] order[b] as int, #[trigger] order[a] as int)
}

/// Every edge joins two of the `n` nodes.
pub open spec fn edges_in_range(n: int, edges: Seq<(usize, usize)>) -> bool {
    forall|k: int| 0 <= k < edges.len() ==> (#[trigger] edges[k]).0 < n && edges[k].1 < n
}

/// Topological sort of the directed graph on nodes `0..n` with the given edges, by
/// `petgraph::algo::toposort`. Trusted: on `Ok` the list is a topological order of all
/// nodes; `Err` (a node on a cycle) only when the graph has no topological order.
#[verifier::external_body]
fn toposort_edges(n: usize, edges: &Vec<(usize, usize)>) -> (r: Result<Vec<usize>, usize>)
    requires
        edges_in_range(n as int, edges@),
    ensures
        match r {
            Ok(order) => is_topo_order(n as int, edges@, order@),
            Err(_) => !exists|o: Seq<usize>| is_topo_order(n as int, edges@, o),
        },
{
    let mut g = petgraph::graph::DiGraph::<(), (), usize>::with_capacity(n, edges.len());
    for _ in 0..n {
        g.add_node(());
    }
    g.extend_with_edges(edges.iter().map(|&(a, b)| (a, b)));
    match petgraph::algo::toposort(&g, None) {
        Ok(v) => Ok(v.into_iter().map(|x| x.index()).collect()),
        Err(c) => Err(c.node_id().index()),
    }
}

/// The PERT values of one node: earliest start/finish, latest start/finish, slack.
#[derive(Debug, Clone, Copy)]
pub struct PertTimes {
    pub es: i32,
    pub ef: i32,
    pub ls: i32,
    pub lf: i32,
    pub h: i32,
}

/// Forward pass: each node starts at 1, or when its latest predecessor finishes, and
/// finishes one term later.
pub open spec fn forward_ok(n: int, edges: Seq<(usize, usize)>, es: Seq<i32>, ef: Seq<i32>) -> bool {
    &&& es.len() == n && ef.len() == n
    &&& forall|v: int| 0 <= v < n ==> #[trigger] ef[v] == es[v] + 1 && es[v] >= 1
    &&& forall|u: int, v: int| has_edge(edges, u, v) ==> #[trigger] es[v] >= #[trigger] ef[u]
    &&& forall|v: int|
        0 <= v < n ==> (#[trigger] es[v] == 1 || exists|u: int| has_edge(edges, u, v) && es[v] == ef[u])
}

/// The project length: the largest earliest finish, or 1 without nodes.
pub open spec fn max_finish(ef: Seq<i32>) -> int
    decreases ef.len(),
{
    if ef.len() == 0 {
        1
    } else {
        let m = max_finish(ef.drop_last());
        if ef.last() > m { ef.last() as int } else { m }
    }
}

/// Backward pass: each node must finish by the project length and one term before each
/// successor's latest finish; its latest start is one term earlier; its slack is the
/// difference between latest and earliest finish, never negative.
pub open spec fn backward_ok(
    n: int,
    edges: Seq<(usize, usize)>,
    ef: Seq<i32>,
    lf: Seq<i32>,
    ls: Seq<i32>,
    h: Seq<i32>,
) -> bool {
    let mx = max_finish(ef);
    &&& lf.len() == n && ls.len() == n && h.len() == n
    &&& forall|v: int| 0 <= v < n ==> #[trigger] lf[v] <= mx
    &&& forall|u: int, v: int| has_edge(edges, u, v) ==> #[trigger] lf[u] <= #[trigger] lf[v] - 1
    &&& forall|v: int|
        0 <= v < n ==> (#[trigger] lf[v] == mx || exists|s: int| has_edge(edges, v, s) && lf[v] == lf[s] - 1)
    &&& forall|v: int| 0 <= v < n ==> #[trigger] ls[v] == lf[v] - 1
    &&& forall|v: int| 0 <= v < n ==> #[trigger] h[v] == if lf[v] - ef[v] > 0 { lf[v] - ef[v] } else { 0 }
}

/// The largest earliest finish bounds every earliest finish.
proof fn lemma_max_finish(ef: Seq<i32>)
    ensures
        forall|v: int| 0 <= v < ef.len() ==> ef[v] <= max_finish(ef),
        max_finish(ef) >= 1,
        ef.len() > 0 ==> exists|v: int| 0 <= v < ef.len() && ef[v] == max_finish(ef) || max_finish(ef) == 1,
    decreases ef.len(),
{
    if ef.len() > 0 {
        lemma_max_finish(ef.drop_last());
        assert forall|v: int| 0 <= v < ef.len() implies ef[v] <= max_finish(ef) by {
            if v < ef.len() - 1 {
                assert(ef.drop_last()[v] == ef[v]);
            }
        }
        if max_finish(ef) != 1 {
            if ef.last() > max_finish(ef.drop_last()) {
                assert(ef[ef.len() - 1] == max_finish(ef));
            } else {
                let v = choose|v: int| 0 <= v < ef.drop_last().len() && ef.drop_last()[v] == max_finish(ef.drop_last());
                assert(ef[v] == max_finish(ef));
            }
        }
    }
}

/// Position of each node in `order`.
fn positions(n: usize, order: &Vec<usize>) -> (pos: Vec<usize>)
    requires
        order.len() == n,
        order@.no_duplicates(),
        forall|k: int| 0 <= k < n ==> #[trigger] order@[k] < n,
    ensures
        pos.len() == n,
        forall|k: int| 0 <= k < n ==> pos@[#[trigger] order@[k] as int] == k,
        forall|v: int| 0 <= v < n ==> #[trigger] pos@[v] < n && order@[pos@[v] as int] == v,
{
    let mut pos: Vec<usize> = Vec::new();
    let mut z: usize = 0;
    while z < n
        invariant
            z <= n,
            pos.len() == z,
        decreases n - z,
    {
        pos.push(0);
        z = z + 1;
    }
    let mut k: usize = 0;
    while k < n
        invariant
            k <= n == order.len() == pos.len(),
            order@.no_duplicates(),
            forall|j: int| 0 <= j < n ==> #[trigger] order@[j] < n,
            forall|j: int| 0 <= j < k ==> pos@[#[trigger] order@[j] as int] == j,
        decreases n - k,
    {
        let ghost p0 = pos@;
        pos.set(order[k], k);
        assert forall|j: int| 0 <= j < k + 1 implies pos@[#[trigger] order@[j] as int] == j by {
            if j < k {
                assert(order@[j] != order@[k as int]);
                assert(pos@[order@[j] as int] == p0[order@[j] as int]);
            }
        }
        k = k + 1;
    }
    proof {
        assert forall|v: int| 0 <= v < n implies #[trigger] pos@[v] < n && order@[pos@[v] as int] == v by {
            lemma_perm_onto(n as int, order@, v);
            let j = choose|j: int| 0 <= j < n && order@[j] == v;
            assert(pos@[order@[j] as int] == j);
        }
    }
    pos
}

/// A duplicate-free list of `n` nodes below `n` lists every node.
proof fn lemma_perm_onto(n: int, order: Seq<usize>, v: int)
    requires
        order.len() == n,
        order.no_duplicates(),
        forall|k: int| 0 <= k < n ==> #[trigger] order[k] < n,
        0 <= v < n,
    ensures
        exists|j: int| 0 <= j < n && order[j] == v,
{
    let oi = order.map_values(|x: usize| x as int);
    assert(oi.no_duplicates()) by {
        assert forall|a: int, b: int| 0 <= a < oi.len() && 0 <= b < oi.len() && a != b implies oi[a] != oi[b] by {
            assert(order[a] != order[b]);
        }
    }
    oi.unique_seq_to_set();
    let full = vstd::set_lib::set_int_range(0, n);
    vstd::set_lib::lemma_int_range(0, n);
    if !(exists|j: int| 0 <= j < n && order[j] == v) {
        assert forall|x: int| oi.to_set().contains(x) implies full.remove(v).contains(x) by {
            let j = choose|j: int| 0 <= j < oi.len() && oi[j] == x;
            assert(order[j] < n);
        }
        assert(oi.to_set().subset_of(full.remove(v)));
        vstd::set_lib::lemma_len_subset(oi.to_set(), full.remove(v));
    }
}

/// Forward pass over a topological order: earliest start and finish of every node.
fn forward_pass(n: usize, edges: &Vec<(usize, usize)>, order: &Vec<usize>, pos: &Vec<usize>) -> (r: (
    Vec<i32>,
    Vec<i32>,
))
    requires
        n + 2 <= i32::MAX,
        edges_in_range(n as int, edges@),
        is_topo_order(n as int, edges@, order@),
        pos.len() == n,
        forall|k: int| 0 <= k < n ==> pos@[#[trigger] order@[k] as int] == k,
        forall|v: int| 0 <= v < n ==> #[trigger] pos@[v] < n && order@[pos@[v] as int] == v,
    ensures
        forward_ok(n as int, edges@, r.0@, r.1@),
        forall|v: int| 0 <= v < n ==> #[trigger] r.0@[v] <= pos@[v] + 1,
{
    let mut es: Vec<i32> = Vec::new();
    let mut ef: Vec<i32> = Vec::new();
    let mut z: usize = 0;
    while z < n
        invariant
            z <= n,
            es.len() == z && ef.len() == z,
            forall|v: int| 0 <= v < z ==> es@[v] == 1 && ef@[v] == 2,
        decreases n - z,
    {
        es.push(1);
        ef.push(2);
        z = z + 1;
    }
    let mut i: usize = 0;
    while i < n
        invariant
            i <= n,
            n + 2 <= i32::MAX,
            edges_in_range(n as int, edges@),
            is_topo_order(n as int, edges@, order@),
            pos.len() == n,
            forall|k: int| 0 <= k < n ==> pos@[#[trigger] order@[k] as int] == k,
            forall|v: int| 0 <= v < n ==> #[trigger] pos@[v] < n && order@[pos@[v] as int] == v,
            es.len() == n && ef.len() == n,
            forall|v: int| 0 <= v < n ==> #[trigger] ef@[v] == es@[v] + 1 && 1 <= es@[v] <= pos@[v] + 1,
            forall|u: int, v: int|
                has_edge(edges@, u, v) && pos@[u] < i ==> #[trigger] es@[v] >= #[trigger] ef@[u],
            forall|v: int|
                0 <= v < n ==> (#[trigger] es@[v] == 1 || exists|u: int|
                    has_edge(edges@, u, v) && pos@[u] < i && es@[v] == ef@[u]),
        decreases n - i,
    {
        let u = order[i];
        let uef = ef[u];
        let ghost es0 = es@;
        let ghost ef0 = ef@;
        let mut k: usize = 0;
        while k < edges.len()
            invariant
                i < n,
                u == order@[i as int],
                u < n,
                pos@[u as int] == i,
                uef == ef0[u as int],
                n + 2 <= i32::MAX,
                edges_in_range(n as int, edges@),
                is_topo_order(n as int, edges@, order@),
                pos.len() == n,
                forall|q: int| 0 <= q < n ==> pos@[#[trigger] order@[q] as int] == q,
                forall|v: int| 0 <= v < n ==> #[trigger] pos@[v] < n && order@[pos@[v] as int] == v,
                es.len() == n && ef.len() == n && es0.len() == n && ef0.len() == n,
                forall|v: int| 0 <= v < n ==> #[trigger] ef0[v] == es0[v] + 1 && 1 <= es0[v] <= pos@[v] + 1,
                forall|v: int| 0 <= v < n ==> #[trigger] ef@[v] == es@[v] + 1 && 1 <= es@[v] <= pos@[v] + 1,
                forall|v: int| 0 <= v < n ==> #[trigger] es@[v] >= es0[v],
                forall|v: int| 0 <= v < n && pos@[v] <= i ==> #[trigger] es@[v] == es0[v],
                forall|v: int|
                    0 <= v < n ==> (#[trigger] es@[v] == es0[v] || (es@[v] == uef && has_edge(
                        edges@,
                        u as int,
                        v,
                    ))),
                forall|q: int| 0 <= q < k && (#[trigger] edges@[q]).0 == u ==> es@[edges@[q].1 as int] >= uef,
            decreases edges.len() - k,
        {
            assert(forall|w: int| 0 <= w < n ==> #[trigger] ef@[w] == es@[w] + 1 && 1 <= es@[w] <= pos@[w] + 1);
            if edges[k].0 == u {
                let v = edges[k].1;
                assert(has_edge(edges@, u as int, v as int));
                assert(pos@[v as int] > i) by {
                    let a = pos@[v as int] as int;
                    assert(order@[a] == v);
                    if a <= i {
                        assert(has_edge(edges@, order@[i as int] as int, order@[a] as int));
                    }
                }
                assert(uef <= i + 2);
                assert(forall|w: int| 0 <= w < n ==> #[trigger] ef@[w] == es@[w] + 1 && 1 <= es@[w] <= pos@[w] + 1);
                if es[v] < uef {
                    assert(uef <= pos@[v as int] + 1);
                    let ghost es1 = es@;
                    let ghost ef1 = ef@;
                    es.set(v, uef);
                    ef.set(v, uef + 1);
                    assert forall|w: int| 0 <= w < n implies #[trigger] ef@[w] == es@[w] + 1 && 1 <= es@[w] <= pos@[w] + 1 by {
                        if w != v as int {
                            assert(es@[w] == es1[w] && ef@[w] == ef1[w]);
                        }
                    }
                }
            }
            assert(forall|w: int| 0 <= w < n ==> #[trigger] ef@[w] == es@[w] + 1 && 1 <= es@[w] <= pos@[w] + 1);
            k = k + 1;
        }
        proof {
            assert forall|u2: int, v: int|
                has_edge(edges@, u2, v) && pos@[u2] < i + 1 implies #[trigger] es@[v] >= #[trigger] ef@[u2] by {
                let q = choose|q: int| 0 <= q < edges.len() && (#[trigger] edges@[q]).0 == u2 && edges@[q].1 == v;
                assert(0 <= u2 < n);
                if u2 == u as int {
                    assert(es@[u2] == es0[u2]);
                } else {
                    assert(pos@[u2] < i);
                    assert(es@[u2] == es0[u2]);
                    assert(es0[v] >= ef0[u2]);
                }
            }
            assert forall|v: int| 0 <= v < n implies (#[trigger] es@[v] == 1 || exists|w: int|
                has_edge(edges@, w, v) && pos@[w] < i + 1 && es@[v] == ef@[w]) by {
                if es@[v] != 1 {
                    if es@[v] == es0[v] {
                        let w = choose|w: int| has_edge(edges@, w, v) && pos@[w] < i && es0[v] == ef0[w];
                        let q = choose|q: int| 0 <= q < edges.len() && (#[trigger] edges@[q]).0 == w && edges@[q].1 == v;
                        assert(0 <= w < n);
                        assert(es@[w] == es0[w]);
                        assert(has_edge(edges@, w, v) && pos@[w] < i + 1 && es@[v] == ef@[w]);
                    } else {
                        assert(es@[u as int] == es0[u as int]);
                        assert(has_edge(edges@, u as int, v));
                        assert(ef@[u as int] == uef);
                        assert(has_edge(edges@, u as int, v) && pos@[u as int] < i + 1 && es@[v] == ef@[u as int]);
                    }
                }
            }
        }
        i = i + 1;
    }
    proof {
        assert forall|u: int, v: int| has_edge(edges@, u, v) implies #[trigger] es@[v] >= #[trigger] ef@[u] by {
            let q = choose|q: int| 0 <= q < edges.len() && (#[trigger] edges@[q]).0 == u && edges@[q].1 == v;
        }
        assert forall|v: int| 0 <= v < n implies (#[trigger] es@[v] == 1 || exists|u: int|
            has_edge(edges@, u, v) && es@[v] == ef@[u]) by {
            if es@[v] != 1 {
                let w = choose|w: int| has_edge(edges@, w, v) && pos@[w] < n && es@[v] == ef@[w];
            }
        }
    }
    (es, ef)
}

/// The largest earliest finish, or 1 without nodes.
fn max_finish_exec(ef: &Vec<i32>) -> (m: i32)
    ensures
        m == max_finish(ef@),
{
    let mut m: i32 = 1;
    let mut i: usize = 0;
    while i < ef.len()
        invariant
            i <= ef.len(),
            m == max_finish(ef@.subrange(0, i as int)),
        decreases ef.len() - i,
    {
        assert(ef@.subrange(0, i + 1).drop_last() =~= ef@.subrange(0, i as int));
        if ef[i] > m {
            m = ef[i];
        }
        i = i + 1;
    }
    assert(ef@.subrange(0, ef.len() as int) =~= ef@);
    m
}

/// Backward pass over a topological order: latest finish and start and slack.
fn backward_pass(
    n: usize,
    edges: &Vec<(usize, usize)>,
    order: &Vec<usize>,
    pos: &Vec<usize>,
    es: &Vec<i32>,
    ef: &Vec<i32>,
) -> (r: (Vec<i32>, Vec<i32>, Vec<i32>))
    requires
        n + 2 <= i32::MAX,
        edges_in_range(n as int, edges@),
        is_topo_order(n as int, edges@, order@),
        pos.len() == n,
        forall|k: int| 0 <= k < n ==> pos@[#[trigger] order@[k] as int] == k,
        forall|v: int| 0 <= v < n ==> #[trigger] pos@[v] < n && order@[pos@[v] as int] == v,
        forward_ok(n as int, edges@, es@, ef@),
        forall|v: int| 0 <= v < n ==> #[trigger] es@[v] <= pos@[v] + 1,
    ensures
        backward_ok(n as int, edges@, ef@, r.0@, r.1@, r.2@),
        forall|v: int| 0 <= v < n ==> #[trigger] r.0@[v] >= ef@[v],
{
    let mx = max_finish_exec(ef);
    proof {
        lemma_max_finish(ef@);
        assert forall|v: int| 0 <= v < n implies #[trigger] ef@[v] <= n + 1 by {
            assert(es@[v] <= pos@[v] + 1);
        }
        if n > 0 {
            assert(ef@[0] <= n + 1);
        }
    }
    assert(mx <= n + 1);
    let mut lf: Vec<i32> = Vec::new();
    let mut ls: Vec<i32> = Vec::new();
    let mut h: Vec<i32> = Vec::new();
    let mut z: usize = 0;
    while z < n
        invariant
            z <= n,
            lf.len() == z && ls.len() == z && h.len() == z,
        decreases n - z,
    {
        lf.push(0);
        ls.push(0);
        h.push(0);
        z = z + 1;
    }
    let mut j: usize = n;
    while j > 0
        invariant
            j <= n,
            n + 2 <= i32::MAX,
            mx == max_finish(ef@),
            mx <= n + 1,
            forall|v: int| 0 <= v < n ==> #[trigger] ef@[v] <= mx,
            edges_in_range(n as int, edges@),
            is_topo_order(n as int, edges@, order@),
            pos.len() == n,
            forall|k: int| 0 <= k < n ==> pos@[#[trigger] order@[k] as int] == k,
            forall|v: int| 0 <= v < n ==> #[trigger] pos@[v] < n && order@[pos@[v] as int] == v,
            forward_ok(n as int, edges@, es@, ef@),
            lf.len() == n && ls.len() == n && h.len() == n,
            forall|v: int| 0 <= v < n && pos@[v] >= j ==> #[trigger] lf@[v] <= mx && lf@[v] >= ef@[v],
            forall|v: int| 0 <= v < n && pos@[v] >= j ==> #[trigger] ls@[v] == lf@[v] - 1,
            forall|v: int|
                0 <= v < n && pos@[v] >= j ==> #[trigger] h@[v] == if lf@[v] - ef@[v] > 0 {
                    lf@[v] - ef@[v]
                } else {
                    0
                },
            forall|u: int, v: int|
                has_edge(edges@, u, v) && pos@[u] >= j ==> #[trigger] lf@[u] <= #[trigger] lf@[v] - 1,
            forall|v: int|
                0 <= v < n && pos@[v] >= j ==> (#[trigger] lf@[v] == mx || exists|s: int|
                    has_edge(edges@, v, s) && lf@[v] == lf@[s] - 1),
        decreases j,
    {
        let v = order[j - 1];
        assert(pos@[v as int] == j - 1);
        let mut cur: i32 = mx;
        let ghost lf0 = lf@;
        let mut k: usize = 0;
        while k < edges.len()
            invariant
                0 < j <= n,
                v == order@[j - 1],
                v < n,
                pos@[v as int] == j - 1,
                lf@ == lf0,
                lf.len() == n,
                edges_in_range(n as int, edges@),
                is_topo_order(n as int, edges@, order@),
                pos.len() == n,
                forall|q: int| 0 <= q < n ==> pos@[#[trigger] order@[q] as int] == q,
                forall|w: int| 0 <= w < n ==> #[trigger] pos@[w] < n && order@[pos@[w] as int] == w,
                forward_ok(n as int, edges@, es@, ef@),
                mx == max_finish(ef@),
                forall|w: int| 0 <= w < n ==> #[trigger] ef@[w] <= mx,
                forall|w: int| 0 <= w < n && pos@[w] >= j ==> #[trigger] lf@[w] <= mx && lf@[w] >= ef@[w],
                cur <= mx,
                cur >= ef@[v as int],
                forall|q: int| 0 <= q < k && (#[trigger] edges@[q]).0 == v ==> cur <= lf@[edges@[q].1 as int] - 1,
                cur == mx || exists|s: int| has_edge(edges@, v as int, s) && cur == lf@[s] - 1,
            decreases edges.len() - k,
        {
            if edges[k].0 == v {
                let s = edges[k].1;
                assert(has_edge(edges@, v as int, s as int));
                assert(pos@[s as int] >= j) by {
                    let a = pos@[s as int] as int;
                    assert(order@[a] == s);
                    if a < j {
                        assert(has_edge(edges@, order@[a] as int, order@[(j - 1) as int] as int));
                        assert(has_edge(edges@, order@[(j - 1) as int] as int, order@[a] as int));
                    }
                }
                assert(lf@[s as int] >= ef@[s as int]);
                assert(es@[s as int] >= ef@[v as int]);
                let cand = lf[s] - 1;
                if cand < cur {
                    cur = cand;
                }
            }
            k = k + 1;
        }
        proof {
            assert forall|q: int| 0 <= q < edges.len() && (#[trigger] edges@[q]).0 == v implies cur <= lf@[edges@[q].1 as int] - 1 by {
            }
        }
        let ghost lf1 = lf@;
        let ghost ls1 = ls@;
        let ghost h1 = h@;
        lf.set(v, cur);
        ls.set(v, cur - 1);
        let slack = cur - ef[v];
        h.set(v, if slack > 0 { slack } else { 0 });
        proof {
            assert forall|w: int| 0 <= w < n && pos@[w] >= j - 1 implies #[trigger] lf@[w] <= mx && lf@[w] >= ef@[w] by {
                if w != v as int {
                    assert(lf@[w] == lf1[w]);
                }
            }
            assert forall|w: int| 0 <= w < n && pos@[w] >= j - 1 implies #[trigger] ls@[w] == lf@[w] - 1 by {
                if w != v as int {
                    assert(lf@[w] == lf1[w] && ls@[w] == ls1[w]);
                }
            }
            assert forall|w: int| 0 <= w < n && pos@[w] >= j - 1 implies #[trigger] h@[w] == if lf@[w] - ef@[w] > 0 {
                lf@[w] - ef@[w]
            } else {
                0
            } by {
                if w != v as int {
                    assert(lf@[w] == lf1[w] && h@[w] == h1[w]);
                }
            }
            assert forall|u: int, w: int|
                has_edge(edges@, u, w) && pos@[u] >= j - 1 implies #[trigger] lf@[u] <= #[trigger] lf@[w] - 1 by {
                let q = choose|q: int| 0 <= q < edges.len() && (#[trigger] edges@[q]).0 == u && edges@[q].1 == w;
                assert(0 <= u < n && 0 <= w < n);
                let b = pos@[w] as int;
                assert(order@[b] == w);
                assert(order@[pos@[u] as int] == u);
                assert(pos@[w] > pos@[u]) by {
                    if b <= pos@[u] {
                        assert(has_edge(edges@, order@[pos@[u] as int] as int, order@[b] as int));
                    }
                }
                assert(w != v as int);
                assert(lf@[w] == lf1[w]);
                if u == v as int {
                    assert(edges@[q].0 == v);
                } else {
                    assert(lf@[u] == lf1[u]);
                }
            }
            assert forall|w: int|
                0 <= w < n && pos@[w] >= j - 1 implies (#[trigger] lf@[w] == mx || exists|s: int|
                has_edge(edges@, w, s) && lf@[w] == lf@[s] - 1) by {
                if w == v as int {
                    if cur != mx {
                        let s = choose|s: int| has_edge(edges@, v as int, s) && cur == lf1[s] - 1;
                        let q = choose|q: int| 0 <= q < edges.len() && (#[trigger] edges@[q]).0 == v && edges@[q].1 == s;
                        assert(0 <= s < n);
                        let b = pos@[s] as int;
                        assert(order@[b] == s);
                        assert(b >= j) by {
                            if b < j {
                                assert(has_edge(edges@, order@[(j - 1) as int] as int, order@[b] as int));
                            }
                        }
                        assert(lf@[s] == lf1[s]);
                        assert(has_edge(edges@, w, s) && lf@[w] == lf@[s] - 1);
                    }
                } else {
                    assert(lf@[w] == lf1[w]);
                    if lf@[w] != mx {
                        let s = choose|s: int| has_edge(edges@, w, s) && lf1[w] == lf1[s] - 1;
                        let q = choose|q: int| 0 <= q < edges.len() && (#[trigger] edges@[q]).0 == w && edges@[q].1 == s;
                        assert(0 <= s < n);
                        let b = pos@[s] as int;
                        assert(order@[b] == s);
                        assert(order@[pos@[w] as int] == w);
                        assert(b > pos@[w]) by {
                            if b <= pos@[w] {
                                assert(has_edge(edges@, order@[pos@[w] as int] as int, order@[b] as int));
                            }
                        }
                        assert(s != v as int);
                        assert(lf@[s] == lf1[s]);
                        assert(has_edge(edges@, w, s) && lf@[w] == lf@[s] - 1);
                    }
                }
            }
        }
        j = j - 1;
    }
    (lf, ls, h)
}

/// Runs the critical-path analysis on the graph with nodes `0..n` and the given
/// prerequisite edges. Returns the PERT values of every node, or `Err` with a node on a
/// cycle when the graph has no topological order.
pub fn pert_schedule(n: usize, edges: &Vec<(usize, usize)>) -> (r: Result<Vec<PertTimes>, usize>)
    requires
        n + 2 <= i32::MAX,
        edges_in_range(n as int, edges@),
    ensures
        match r {
            Ok(t) => {
                &&& t.len() == n
                &&& exists|o: Seq<usize>| is_topo_order(n as int, edges@, o)
                &&& forward_ok(n as int, edges@, t@.map_values(|x: PertTimes| x.es), t@.map_values(|x: PertTimes| x.ef))
                &&& backward_ok(
                    n as int,
                    edges@,
                    t@.map_values(|x: PertTimes| x.ef),
                    t@.map_values(|x: PertTimes| x.lf),
                    t@.map_values(|x: PertTimes| x.ls),
                    t@.map_values(|x: PertTimes| x.h),
                )
                &&& forall|v: int| 0 <= v < n ==> #[trigger] t@[v].lf >= t@[v].ef
            },
            Err(_) => !exists|o: Seq<usize>| is_topo_order(n as int, edges@, o),
        },
{
    let order = match toposort_edges(n, edges) {
        Ok(o) => o,
        Err(c) => return Err(c),
    };
    let pos = positions(n, &order);
    let (es, ef) = forward_pass(n, edges, &order, &pos);
    let (lf, ls, h) = backward_pass(n, edges, &order, &pos, &es, &ef);
    let mut t: Vec<PertTimes> = Vec::new();
    let mut v: usize = 0;
    while v < n
        invariant
            v <= n,
            es.len() == n && ef.len() == n && lf.len() == n && ls.len() == n && h.len() == n,
            t.len() == v,
            forall|w: int| 0 <= w < v ==> #[trigger] t@[w] == (PertTimes { es: es@[w], ef: ef@[w], ls: ls@[w], lf: lf@[w], h: h@[w] }),
        decreases n - v,
    {
        t.push(PertTimes { es: es[v], ef: ef[v], ls: ls[v], lf: lf[v], h: h[v] });
        v = v + 1;
    }
    assert(t@.map_values(|x: PertTimes| x.es) =~= es@);
    assert(t@.map_values(|x: PertTimes| x.ef) =~= ef@);
    assert(t@.map_values(|x: PertTimes| x.lf) =~= lf@);
    assert(t@.map_values(|x: PertTimes| x.ls) =~= ls@);
    assert(t@.map_values(|x: PertTimes| x.h) =~= h@);
    assert forall|v: int| 0 <= v < n implies #[trigger] t@[v].lf >= t@[v].ef by {
        assert(lf@[v] >= ef@[v]);
    }
    Ok(t)
}

/// No course has negative slack: when every latest finish is at least the earliest
/// finish, the slack equals latest finish minus earliest finish.
pub proof fn lemma_slack_exact(n: int, edges: Seq<(usize, usize)>, ef: Seq<i32>, lf: Seq<i32>, ls: Seq<i32>, h: Seq<i32>)
    requires
        backward_ok(n, edges, ef, lf, ls, h),
        ef.len() == n,
        forall|v: int| 0 <= v < n ==> #[trigger] lf[v] >= ef[v],
    ensures
        forall|v: int| 0 <= v < n ==> #[trigger] h[v] == lf[v] - ef[v] && h[v] >= 0,
{
}

/// Every non-empty acyclic prerequisite graph has a critical course: some node has
/// zero slack (one that finishes last).
pub proof fn lemma_has_critical(
    n: int,
    edges: Seq<(usize, usize)>,
    es: Seq<i32>,
    ef: Seq<i32>,
    lf: Seq<i32>,
    ls: Seq<i32>,
    h: Seq<i32>,
)
    requires
        n > 0,
        forward_ok(n, edges, es, ef),
        backward_ok(n, edges, ef, lf, ls, h),
        forall|v: int| 0 <= v < n ==> #[trigger] lf[v] >= ef[v],
    ensures
        exists|v: int| 0 <= v < n && h[v] == 0,
{
    lemma_max_finish(ef);
    assert(ef[0] == es[0] + 1);
    assert(max_finish(ef) != 1);
    let v = choose|v: int| 0 <= v < ef.len() && ef[v] == max_finish(ef);
    assert(lf[v] <= max_finish(ef));
    assert(h[v] == 0);
}

} // verus!
