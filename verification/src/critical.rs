//! The PERT analysis of a curriculum: the prerequisite graph of the offered courses
//! (sequence-number links and prerequisite tables), its slack values, and the
//! marking of critical courses (zero slack).
use vstd::prelude::*;
use crate::models::{RamoDisponible, Seccion};
use crate::datafiles::{ascii_upper, to_ascii_upper};
use crate::text::{alphanumeric, chars_of, chars_eq, is_alphanumeric, parse_i32, parse_i32_spec, trim, trim_chars};
use crate::pert::{backward_ok, edges_in_range, forward_ok, has_edge, is_topo_order, pert_schedule, PertTimes};

verus! {

/// ASCII upper case of each character.
pub open spec fn upper_ascii(s: Seq<char>) -> Seq<char> {
    s.map_values(|c: char| ascii_upper(c))
}

/// The form in which course codes are compared: trimmed, ASCII upper case.
pub open spec fn code_form(s: Seq<char>) -> Seq<char> {
    upper_ascii(trim(s))
}

/// Whether some section of the offer has the course code `key`.
pub open spec fn offered(secs: Seq<Seccion>, key: Seq<char>) -> bool {
    exists|k: int| 0 <= k < secs.len() && code_form((#[trigger] secs[k]).codigo@) == code_form(key)
}

/// The identifiers of the graph's nodes: the offered courses, in order.
pub open spec fn node_ids(ramos: Seq<(String, RamoDisponible)>, secs: Seq<Seccion>) -> Seq<i32>
    decreases ramos.len(),
{
    if ramos.len() == 0 {
        Seq::empty()
    } else if offered(secs, ramos.last().0@) {
        node_ids(ramos.drop_last(), secs).push(ramos.last().1.id)
    } else {
        node_ids(ramos.drop_last(), secs)
    }
}

/// The node that stands for identifier `id`: the last node with it.
pub open spec fn node_of(ids: Seq<i32>, id: i32) -> Option<int>
    decreases ids.len(),
{
    if ids.len() == 0 {
        None
    } else if ids.last() == id {
        Some(ids.len() - 1)
    } else {
        node_of(ids.drop_last(), id)
    }
}

/// Alphanumeric characters of a name, ASCII upper-cased.
pub open spec fn alnum_key(s: Seq<char>) -> Seq<char>
    decreases s.len(),
{
    if s.len() == 0 {
        Seq::empty()
    } else if alphanumeric(s.last()) {
        alnum_key(s.drop_last()).push(ascii_upper(s.last()))
    } else {
        alnum_key(s.drop_last())
    }
}

/// Identifier of the last course whose name has the given key.
pub open spec fn id_by_name(ramos: Seq<(String, RamoDisponible)>, key: Seq<char>) -> Option<i32>
    decreases ramos.len(),
{
    if ramos.len() == 0 {
        None
    } else if alnum_key(ramos.last().1.nombre@) == key {
        Some(ramos.last().1.id)
    } else {
        id_by_name(ramos.drop_last(), key)
    }
}

/// The course that an entry of a prerequisite table names: its text read as the
/// identifier of a node, or else the course with the same name key.
pub open spec fn resolve_id(ramos: Seq<(String, RamoDisponible)>, ids: Seq<i32>, s: Seq<char>) -> Option<i32> {
    match parse_i32_spec(s) {
        Some(id) => if node_of(ids, id) is Some {
            Some(id)
        } else {
            id_by_name(ramos, alnum_key(s))
        },
        None => id_by_name(ramos, alnum_key(s)),
    }
}

/// Courses `i` and `j` have the same sequence number and consecutive identifiers
/// within it (in ascending order, equal identifiers included).
pub open spec fn corr_pair(ramos: Seq<(String, RamoDisponible)>, i: int, j: int) -> bool {
    &&& 0 <= i < ramos.len() && 0 <= j < ramos.len() && i != j
    &&& ramos[i].1.numb_correlativo == ramos[j].1.numb_correlativo
    &&& ramos[i].1.id <= ramos[j].1.id
    &&& forall|k: int| 0 <= k < ramos.len() && (#[trigger] ramos[k]).1.numb_correlativo == ramos[i].1.numb_correlativo
        ==> !(ramos[i].1.id < ramos[k].1.id < ramos[j].1.id)
}

/// Entry `q` of prerequisite row `t` names course `a`, and the row names course `b`.
pub open spec fn prereq_pair(
    ramos: Seq<(String, RamoDisponible)>,
    ids: Seq<i32>,
    prereqs: Seq<(String, Vec<String>)>,
    t: int,
    q: int,
    a: i32,
    b: i32,
) -> bool {
    &&& 0 <= t < prereqs.len() && 0 <= q < prereqs[t].1@.len()
    &&& resolve_id(ramos, ids, prereqs[t].0@) == Some(b)
    &&& resolve_id(ramos, ids, prereqs[t].1@[q]@) == Some(a)
}

/// Whether the PERT graph links node `u` to node `v`: by consecutive sequence numbers
/// or by a prerequisite table entry, between the nodes of the two courses.
pub open spec fn pert_link(
    ramos: Seq<(String, RamoDisponible)>,
    ids: Seq<i32>,
    prereqs: Seq<(String, Vec<String>)>,
    u: int,
    v: int,
) -> bool {
    ||| exists|i: int, j: int| #[trigger] corr_pair(ramos, i, j) && node_of(ids, ramos[i].1.id) == Some(u) && node_of(
        ids,
        ramos[j].1.id,
    ) == Some(v)
    ||| exists|t: int, q: int, a: i32, b: i32| #[trigger] prereq_pair(ramos, ids, prereqs, t, q, a, b) && node_of(ids, a)
        == Some(u) && node_of(ids, b) == Some(v)
}

proof fn lemma_node_of_range(ids: Seq<i32>, id: i32)
    ensures
        node_of(ids, id) matches Some(k) ==> 0 <= k < ids.len() && ids[k] == id,
        node_of(ids, id) is None ==> forall|k: int| 0 <= k < ids.len() ==> ids[k] != id,
    decreases ids.len(),
{
    if ids.len() > 0 {
        lemma_node_of_range(ids.drop_last(), id);
        if ids.last() != id {
            assert forall|k: int| 0 <= k < ids.len() - 1 implies ids[k] == ids.drop_last()[k] by {}
        }
    }
}

fn code_form_exec(s: &str) -> (r: Vec<char>)
    ensures
        r@ == code_form(s@),
{
    let t = trim_chars(&chars_of(s));
    let mut out: Vec<char> = Vec::new();
    let mut i: usize = 0;
    while i < t.len()
        invariant
            i <= t.len(),
            out@ == upper_ascii(t@.subrange(0, i as int)),
        decreases t.len() - i,
    {
        out.push(to_ascii_upper(t[i]));
        i = i + 1;
        assert(out@ =~= upper_ascii(t@.subrange(0, i as int)));
    }
    assert(t@.subrange(0, t.len() as int) =~= t@);
    out
}

fn offered_exec(forms: &Vec<Vec<char>>, key: &str, secs: Ghost<Seq<Seccion>>) -> (r: bool)
    requires
        forms.len() == secs@.len(),
        forall|k: int| 0 <= k < forms.len() ==> (#[trigger] forms@[k])@ == code_form(secs@[k].codigo@),
    ensures
        r == offered(secs@, key@),
{
    let kf = code_form_exec(key);
    let mut k: usize = 0;
    while k < forms.len()
        invariant
            k <= forms.len() == secs@.len(),
            kf@ == code_form(key@),
            forall|j: int| 0 <= j < forms.len() ==> (#[trigger] forms@[j])@ == code_form(secs@[j].codigo@),
            forall|j: int| 0 <= j < k ==> code_form((#[trigger] secs@[j]).codigo@) != code_form(key@),
        decreases forms.len() - k,
    {
        if chars_eq(&forms[k], &kf) {
            assert(code_form(secs@[k as int].codigo@) == code_form(key@));
            return true;
        }
        k = k + 1;
    }
    false
}

/// The identifiers of the graph's nodes: the courses with a section in the offer.
fn build_node_ids(ramos: &Vec<(String, RamoDisponible)>, secs: &[Seccion]) -> (r: Vec<i32>)
    ensures
        r@ == node_ids(ramos@, secs@),
{
    let mut forms: Vec<Vec<char>> = Vec::new();
    let mut k: usize = 0;
    while k < secs.len()
        invariant
            k <= secs.len(),
            forms.len() == k,
            forall|j: int| 0 <= j < k ==> (#[trigger] forms@[j])@ == code_form(secs@[j].codigo@),
        decreases secs.len() - k,
    {
        forms.push(code_form_exec(secs[k].codigo.as_str()));
        k = k + 1;
    }
    let mut ids: Vec<i32> = Vec::new();
    let mut i: usize = 0;
    while i < ramos.len()
        invariant
            i <= ramos.len(),
            forms.len() == secs.len(),
            forall|j: int| 0 <= j < forms.len() ==> (#[trigger] forms@[j])@ == code_form(secs@[j].codigo@),
            ids@ == node_ids(ramos@.subrange(0, i as int), secs@),
        decreases ramos.len() - i,
    {
        assert(ramos@.subrange(0, i + 1).drop_last() =~= ramos@.subrange(0, i as int));
        if offered_exec(&forms, ramos[i].0.as_str(), Ghost(secs@)) {
            ids.push(ramos[i].1.id);
        }
        i = i + 1;
    }
    assert(ramos@.subrange(0, ramos.len() as int) =~= ramos@);
    ids
}

/// The node of identifier `id`.
fn node_of_exec(ids: &Vec<i32>, id: i32) -> (r: Option<usize>)
    ensures
        match r {
            Some(k) => node_of(ids@, id) == Some(k as int),
            None => node_of(ids@, id) is None,
        },
{
    let mut k: usize = ids.len();
    assert(ids@.subrange(0, k as int) =~= ids@);
    while k > 0
        invariant
            k <= ids.len(),
            node_of(ids@, id) == node_of(ids@.subrange(0, k as int), id),
        decreases k,
    {
        let ghost s = ids@.subrange(0, k as int);
        assert(s.drop_last() =~= ids@.subrange(0, k - 1));
        if ids[k - 1] == id {
            return Some(k - 1);
        }
        k = k - 1;
    }
    None
}


fn alnum_key_exec(s: &str) -> (r: Vec<char>)
    ensures
        r@ == alnum_key(s@),
{
    let v = chars_of(s);
    let mut out: Vec<char> = Vec::new();
    let mut i: usize = 0;
    while i < v.len()
        invariant
            i <= v.len(),
            v@ == s@,
            out@ == alnum_key(v@.subrange(0, i as int)),
        decreases v.len() - i,
    {
        assert(v@.subrange(0, i + 1).drop_last() =~= v@.subrange(0, i as int));
        if is_alphanumeric(v[i]) {
            out.push(to_ascii_upper(v[i]));
        }
        i = i + 1;
    }
    assert(v@.subrange(0, v.len() as int) =~= v@);
    out
}

/// The name keys of the courses.
fn name_keys(ramos: &Vec<(String, RamoDisponible)>) -> (r: Vec<Vec<char>>)
    ensures
        r.len() == ramos.len(),
        forall|k: int| 0 <= k < ramos.len() ==> (#[trigger] r@[k])@ == alnum_key(ramos@[k].1.nombre@),
{
    let mut keys: Vec<Vec<char>> = Vec::new();
    let mut k: usize = 0;
    while k < ramos.len()
        invariant
            k <= ramos.len(),
            keys.len() == k,
            forall|j: int| 0 <= j < k ==> (#[trigger] keys@[j])@ == alnum_key(ramos@[j].1.nombre@),
        decreases ramos.len() - k,
    {
        keys.push(alnum_key_exec(ramos[k].1.nombre.as_str()));
        k = k + 1;
    }
    keys
}

fn id_by_name_exec(ramos: &Vec<(String, RamoDisponible)>, keys: &Vec<Vec<char>>, key: &Vec<char>) -> (r: Option<i32>)
    requires
        keys.len() == ramos.len(),
        forall|k: int| 0 <= k < ramos.len() ==> (#[trigger] keys@[k])@ == alnum_key(ramos@[k].1.nombre@),
    ensures
        r == id_by_name(ramos@, key@),
{
    let mut k: usize = ramos.len();
    assert(ramos@.subrange(0, k as int) =~= ramos@);
    while k > 0
        invariant
            k <= ramos.len() == keys.len(),
            forall|j: int| 0 <= j < ramos.len() ==> (#[trigger] keys@[j])@ == alnum_key(ramos@[j].1.nombre@),
            id_by_name(ramos@, key@) == id_by_name(ramos@.subrange(0, k as int), key@),
        decreases k,
    {
        let ghost s = ramos@.subrange(0, k as int);
        assert(s.drop_last() =~= ramos@.subrange(0, k - 1));
        if chars_eq(&keys[k - 1], key) {
            return Some(ramos[k - 1].1.id);
        }
        k = k - 1;
    }
    None
}

fn resolve_id_exec(
    ramos: &Vec<(String, RamoDisponible)>,
    keys: &Vec<Vec<char>>,
    ids: &Vec<i32>,
    s: &str,
) -> (r: Option<i32>)
    requires
        keys.len() == ramos.len(),
        forall|k: int| 0 <= k < ramos.len() ==> (#[trigger] keys@[k])@ == alnum_key(ramos@[k].1.nombre@),
    ensures
        r == resolve_id(ramos@, ids@, s@),
{
    match parse_i32(&chars_of(s)) {
        Some(id) => {
            if node_of_exec(ids, id).is_some() {
                return Some(id);
            }
        },
        None => {},
    }
    id_by_name_exec(ramos, keys, &alnum_key_exec(s))
}

fn corr_pair_exec(ramos: &Vec<(String, RamoDisponible)>, i: usize, j: usize) -> (r: bool)
    requires
        i < ramos.len() && j < ramos.len(),
    ensures
        r == corr_pair(ramos@, i as int, j as int),
{
    if i == j || ramos[i].1.numb_correlativo != ramos[j].1.numb_correlativo || ramos[i].1.id > ramos[j].1.id {
        return false;
    }
    let c = ramos[i].1.numb_correlativo;
    let (a, b) = (ramos[i].1.id, ramos[j].1.id);
    let mut k: usize = 0;
    while k < ramos.len()
        invariant
            k <= ramos.len(),
            i < ramos.len() && j < ramos.len(),
            c == ramos@[i as int].1.numb_correlativo && a == ramos@[i as int].1.id && b == ramos@[j as int].1.id,
            forall|x: int| 0 <= x < k && (#[trigger] ramos@[x]).1.numb_correlativo == c ==> !(a < ramos@[x].1.id < b),
        decreases ramos.len() - k,
    {
        if ramos[k].1.numb_correlativo == c && a < ramos[k].1.id && ramos[k].1.id < b {
            assert(!corr_pair(ramos@, i as int, j as int)) by {
                assert(ramos@[k as int].1.numb_correlativo == ramos@[i as int].1.numb_correlativo);
            }
            return false;
        }
        k = k + 1;
    }
    true
}

/// The edges of the PERT graph on the nodes `ids`: one for every pair of courses
/// with consecutive identifiers under the same sequence number, and one for every
/// entry of the prerequisite tables, when both courses have a node.
fn build_edges(
    ramos: &Vec<(String, RamoDisponible)>,
    ids: &Vec<i32>,
    prereqs: &[(String, Vec<String>)],
) -> (r: Vec<(usize, usize)>)
    ensures
        edges_in_range(ids.len() as int, r@),
        forall|u: int, v: int| has_edge(r@, u, v) <==> pert_link(ramos@, ids@, prereqs@, u, v),
{
    let ghost rv = ramos@;
    let ghost iv = ids@;
    let ghost pv = prereqs@;
    let n = ramos.len();
    let mut edges: Vec<(usize, usize)> = Vec::new();
    let mut i: usize = 0;
    while i < n
        invariant
            i <= n == ramos.len(),
            rv == ramos@ && iv == ids@ && pv == prereqs@,
            forall|k: int| 0 <= k < edges.len() ==> (#[trigger] edges@[k]).0 < ids.len() && edges@[k].1 < ids.len()
                && pert_link(rv, iv, pv, edges@[k].0 as int, edges@[k].1 as int),
            forall|x: int, y: int| 0 <= x < i && #[trigger] corr_pair(rv, x, y) ==> (
                node_of(iv, rv[x].1.id) matches Some(u) ==> (node_of(iv, rv[y].1.id) matches Some(w) ==> has_edge(edges@, u, w))),
        decreases n - i,
    {
        let mut j: usize = 0;
        while j < n
            invariant
                i < n == ramos.len(),
                j <= n,
                rv == ramos@ && iv == ids@ && pv == prereqs@,
                forall|k: int| 0 <= k < edges.len() ==> (#[trigger] edges@[k]).0 < ids.len() && edges@[k].1 < ids.len()
                    && pert_link(rv, iv, pv, edges@[k].0 as int, edges@[k].1 as int),
                forall|x: int, y: int| 0 <= x < i && #[trigger] corr_pair(rv, x, y) ==> (
                    node_of(iv, rv[x].1.id) matches Some(u) ==> (node_of(iv, rv[y].1.id) matches Some(w) ==> has_edge(edges@, u, w))),
                forall|y: int| 0 <= y < j && #[trigger] corr_pair(rv, i as int, y) ==> (
                    node_of(iv, rv[i as int].1.id) matches Some(u) ==> (node_of(iv, rv[y].1.id) matches Some(w) ==> has_edge(edges@, u, w))),
            decreases n - j,
        {
            if corr_pair_exec(ramos, i, j) {
                match (node_of_exec(ids, ramos[i].1.id), node_of_exec(ids, ramos[j].1.id)) {
                    (Some(u), Some(w)) => {
                        proof {
                            lemma_node_of_range(iv, rv[i as int].1.id);
                            lemma_node_of_range(iv, rv[j as int].1.id);
                            assert(corr_pair(rv, i as int, j as int));
                        }
                        let ghost e0 = edges@;
                        edges.push((u, w));
                        assert(edges@[e0.len() as int] == (u, w));
                        assert forall|k: int| 0 <= k < edges.len() implies (#[trigger] edges@[k]).0 < ids.len() && edges@[k].1 < ids.len()
                            && pert_link(rv, iv, pv, edges@[k].0 as int, edges@[k].1 as int) by {
                            if k < e0.len() {
                                assert(edges@[k] == e0[k]);
                            }
                        }
                        assert forall|x: int, y: int| 0 <= x < i && #[trigger] corr_pair(rv, x, y) implies (
                            node_of(iv, rv[x].1.id) matches Some(u2) ==> (node_of(iv, rv[y].1.id) matches Some(w2) ==> has_edge(edges@, u2, w2))) by {
                            if node_of(iv, rv[x].1.id) is Some && node_of(iv, rv[y].1.id) is Some {
                                let u2 = node_of(iv, rv[x].1.id)->0;
                                let w2 = node_of(iv, rv[y].1.id)->0;
                                assert(has_edge(e0, u2, w2));
                                let q = choose|q: int| 0 <= q < e0.len() && (#[trigger] e0[q]).0 == u2 && e0[q].1 == w2;
                                assert(edges@[q] == e0[q]);
                            }
                        }
                        assert forall|y: int| 0 <= y < j + 1 && #[trigger] corr_pair(rv, i as int, y) implies (
                            node_of(iv, rv[i as int].1.id) matches Some(u2) ==> (node_of(iv, rv[y].1.id) matches Some(w2) ==> has_edge(edges@, u2, w2))) by {
                            if node_of(iv, rv[i as int].1.id) is Some && node_of(iv, rv[y].1.id) is Some {
                                let u2 = node_of(iv, rv[i as int].1.id)->0;
                                let w2 = node_of(iv, rv[y].1.id)->0;
                                if y == j as int {
                                    assert(edges@[e0.len() as int].0 == u2 && edges@[e0.len() as int].1 == w2);
                                } else {
                                    assert(has_edge(e0, u2, w2));
                                    let q = choose|q: int| 0 <= q < e0.len() && (#[trigger] e0[q]).0 == u2 && e0[q].1 == w2;
                                    assert(edges@[q] == e0[q]);
                                }
                            }
                        }
                    },
                    _ => {},
                }
            }
            j = j + 1;
        }
        i = i + 1;
    }
    let keys = name_keys(ramos);
    let mut t: usize = 0;
    while t < prereqs.len()
        invariant
            t <= prereqs.len(),
            rv == ramos@ && iv == ids@ && pv == prereqs@,
            keys.len() == ramos.len(),
            forall|k: int| 0 <= k < ramos.len() ==> (#[trigger] keys@[k])@ == alnum_key(ramos@[k].1.nombre@),
            forall|k: int| 0 <= k < edges.len() ==> (#[trigger] edges@[k]).0 < ids.len() && edges@[k].1 < ids.len()
                && pert_link(rv, iv, pv, edges@[k].0 as int, edges@[k].1 as int),
            forall|x: int, y: int| 0 <= x < n && #[trigger] corr_pair(rv, x, y) ==> (
                node_of(iv, rv[x].1.id) matches Some(u) ==> (node_of(iv, rv[y].1.id) matches Some(w) ==> has_edge(edges@, u, w))),
            forall|x: int, q: int, a: i32, b: i32| 0 <= x < t && #[trigger] prereq_pair(rv, iv, pv, x, q, a, b) ==> (
                node_of(iv, a) matches Some(u) ==> (node_of(iv, b) matches Some(w) ==> has_edge(edges@, u, w))),
        decreases prereqs.len() - t,
    {
        let b_opt = resolve_id_exec(ramos, &keys, ids, prereqs[t].0.as_str());
        match b_opt {
            None => {},
            Some(b) => {
                match node_of_exec(ids, b) {
                    None => {},
                    Some(w) => {
                        proof {
                            lemma_node_of_range(iv, b);
                        }
                        let m = prereqs[t].1.len();
                        let mut q: usize = 0;
                        while q < m
                            invariant
                                t < prereqs.len(),
                                q <= m == pv[t as int].1@.len(),
                                rv == ramos@ && iv == ids@ && pv == prereqs@,
                                keys.len() == ramos.len(),
                                forall|k: int| 0 <= k < ramos.len() ==> (#[trigger] keys@[k])@ == alnum_key(ramos@[k].1.nombre@),
                                resolve_id(rv, iv, pv[t as int].0@) == Some(b),
                                node_of(iv, b) == Some(w as int),
                                w < ids.len(),
                                forall|k: int| 0 <= k < edges.len() ==> (#[trigger] edges@[k]).0 < ids.len() && edges@[k].1 < ids.len()
                                    && pert_link(rv, iv, pv, edges@[k].0 as int, edges@[k].1 as int),
                                forall|x: int, y: int| 0 <= x < n && #[trigger] corr_pair(rv, x, y) ==> (
                                    node_of(iv, rv[x].1.id) matches Some(u) ==> (node_of(iv, rv[y].1.id) matches Some(w2) ==> has_edge(edges@, u, w2))),
                                forall|x: int, q2: int, a: i32, b2: i32| 0 <= x < t && #[trigger] prereq_pair(rv, iv, pv, x, q2, a, b2) ==> (
                                    node_of(iv, a) matches Some(u) ==> (node_of(iv, b2) matches Some(w2) ==> has_edge(edges@, u, w2))),
                                forall|q2: int, a: i32, b2: i32| 0 <= q2 < q && #[trigger] prereq_pair(rv, iv, pv, t as int, q2, a, b2) ==> (
                                    node_of(iv, a) matches Some(u) ==> (node_of(iv, b2) matches Some(w2) ==> has_edge(edges@, u, w2))),
                            decreases m - q,
                        {
                            let a_opt = resolve_id_exec(ramos, &keys, ids, prereqs[t].1[q].as_str());
                            let ghost e0 = edges@;
                            match a_opt {
                                None => {},
                                Some(a) => {
                                    match node_of_exec(ids, a) {
                                        None => {},
                                        Some(u) => {
                                            proof {
                                                lemma_node_of_range(iv, a);
                                                assert(prereq_pair(rv, iv, pv, t as int, q as int, a, b));
                                            }
                                            edges.push((u, w));
                                            assert(edges@[e0.len() as int] == (u, w));
                                        },
                                    }
                                },
                            }
                            proof {
                                assert forall|k: int| 0 <= k < e0.len() implies edges@[k] == e0[k] by {}
                                assert forall|u2: int, w2: int| has_edge(e0, u2, w2) implies has_edge(edges@, u2, w2) by {
                                    let z = choose|z: int| 0 <= z < e0.len() && (#[trigger] e0[z]).0 == u2 && e0[z].1 == w2;
                                    assert(edges@[z] == e0[z]);
                                }
                                assert forall|q2: int, a2: i32, b2: i32| 0 <= q2 < q + 1 && #[trigger] prereq_pair(rv, iv, pv, t as int, q2, a2, b2) implies (
                                    node_of(iv, a2) matches Some(u) ==> (node_of(iv, b2) matches Some(w2) ==> has_edge(edges@, u, w2))) by {
                                    if q2 == q as int && node_of(iv, a2) is Some {
                                        assert(a_opt == Some(a2));
                                        assert(b2 == b);
                                        let u = node_of(iv, a2)->0;
                                        assert(edges@[e0.len() as int].0 == u && edges@[e0.len() as int].1 == w);
                                    }
                                }
                            }
                            q = q + 1;
                        }
                    },
                }
            },
        }
        proof {
            assert forall|q2: int, a: i32, b2: i32| #[trigger] prereq_pair(rv, iv, pv, t as int, q2, a, b2) implies (
                node_of(iv, a) matches Some(u) ==> (node_of(iv, b2) matches Some(w2) ==> has_edge(edges@, u, w2))) by {
                if node_of(iv, b2) is Some {
                    assert(b_opt == Some(b2));
                }
            }
        }
        t = t + 1;
    }
    proof {
        assert forall|u: int, v: int| pert_link(rv, iv, pv, u, v) implies has_edge(edges@, u, v) by {
            if exists|x: int, y: int| #[trigger] corr_pair(rv, x, y) && node_of(iv, rv[x].1.id) == Some(u) && node_of(iv, rv[y].1.id) == Some(v) {
                let (x, y) = choose|x: int, y: int| #[trigger] corr_pair(rv, x, y) && node_of(iv, rv[x].1.id) == Some(u) && node_of(iv, rv[y].1.id) == Some(v);
            } else {
                let (x, q, a, b) = choose|x: int, q: int, a: i32, b: i32| #[trigger] prereq_pair(rv, iv, pv, x, q, a, b) && node_of(iv, a) == Some(u) && node_of(iv, b) == Some(v);
            }
        }
        assert forall|u: int, v: int| has_edge(edges@, u, v) implies pert_link(rv, iv, pv, u, v) by {
            let k = choose|k: int| 0 <= k < edges.len() && (#[trigger] edges@[k]).0 == u && edges@[k].1 == v;
        }
    }
    edges
}

/// `es` with its values read as integers.
pub open spec fn opt_ints(es: Seq<Option<i32>>) -> Seq<Option<int>> {
    es.map_values(|o: Option<i32>| match o {
        Some(x) => Some(x as int),
        None => None,
    })
}

/// The start that the cycle fallback gives node `v` from the current starts `es`:
/// the largest of 1 and each set predecessor start plus one, over `edges[0..k]`.
pub open spec fn pred_best(es: Seq<Option<int>>, edges: Seq<(usize, usize)>, v: int, k: int) -> int
    decreases k,
{
    if k <= 0 {
        1
    } else {
        let m = pred_best(es, edges, v, k - 1);
        let e = edges[k - 1];
        if e.1 == v && es[e.0 as int] is Some && es[e.0 as int]->0 + 1 > m {
            es[e.0 as int]->0 + 1
        } else {
            m
        }
    }
}

/// The starts after updating nodes `0..i` in order, each from the current values.
pub open spec fn simple_pass(es: Seq<Option<int>>, edges: Seq<(usize, usize)>, i: int) -> Seq<Option<int>>
    decreases i,
{
    if i <= 0 {
        es
    } else {
        let p = simple_pass(es, edges, i - 1);
        p.update(i - 1, Some(pred_best(p, edges, i - 1, edges.len() as int)))
    }
}

/// The starts after `r` passes over all `n` nodes, from no start set.
pub open spec fn simple_rounds(n: nat, edges: Seq<(usize, usize)>, r: nat) -> Seq<Option<int>>
    decreases r,
{
    if r == 0 {
        Seq::new(n, |i: int| None)
    } else {
        simple_pass(simple_rounds(n, edges, (r - 1) as nat), edges, n as int)
    }
}

/// The slack that the cycle fallback gives node `v` after three passes: the number of
/// nodes minus its finish (start plus one), never negative.
pub open spec fn fallback_slack(n: nat, edges: Seq<(usize, usize)>, v: int) -> int {
    let h = n - (simple_rounds(n, edges, 3)[v]->0 + 1);
    if h > 0 {
        h
    } else {
        0
    }
}

proof fn lemma_pred_best_bound(es: Seq<Option<int>>, edges: Seq<(usize, usize)>, v: int, k: int, c: int)
    requires
        0 <= k <= edges.len(),
        c >= 0,
        forall|x: int| 0 <= x < es.len() && (#[trigger] es[x]) is Some ==> 1 <= es[x]->0 <= c,
        forall|j: int| 0 <= j < edges.len() ==> (#[trigger] edges[j]).0 < es.len(),
    ensures
        1 <= pred_best(es, edges, v, k) <= c + 1,
    decreases k,
{
    if k > 0 {
        lemma_pred_best_bound(es, edges, v, k - 1, c);
        let e = edges[k - 1];
        if es[e.0 as int] is Some {
            assert(es[e.0 as int]->0 <= c);
        }
    }
}

/// The slacks that the fallback for a graph with a cycle gives: three passes over the
/// nodes, each node starting one term after its latest set predecessor.
fn fallback_slacks(n: usize, edges: &Vec<(usize, usize)>) -> (h: Vec<i32>)
    requires
        3 * n + 2 <= i32::MAX,
        edges_in_range(n as int, edges@),
    ensures
        h.len() == n,
        forall|v: int| 0 <= v < n ==> #[trigger] h@[v] == fallback_slack(n as nat, edges@, v),
{
    let mut es: Vec<Option<i32>> = Vec::new();
    let mut i: usize = 0;
    while i < n
        invariant
            i <= n,
            es.len() == i,
            forall|x: int| 0 <= x < i ==> (#[trigger] es@[x]) is None,
        decreases n - i,
    {
        es.push(None);
        i = i + 1;
    }
    assert(opt_ints(es@) =~= simple_rounds(n as nat, edges@, 0));
    let mut r: usize = 0;
    while r < 3
        invariant
            r <= 3,
            3 * n + 2 <= i32::MAX,
            edges_in_range(n as int, edges@),
            es.len() == n,
            opt_ints(es@) == simple_rounds(n as nat, edges@, r as nat),
            forall|x: int| 0 <= x < n && (#[trigger] es@[x]) is Some ==> 1 <= es@[x]->0 <= r * n,
            r > 0 ==> forall|x: int| 0 <= x < n ==> (#[trigger] es@[x]) is Some,
        decreases 3 - r,
    {
        let ghost start = opt_ints(es@);
        let mut v: usize = 0;
        while v < n
            invariant
                r < 3,
                v <= n,
                3 * n + 2 <= i32::MAX,
                edges_in_range(n as int, edges@),
                es.len() == n,
                opt_ints(es@) == simple_pass(start, edges@, v as int),
                forall|x: int| 0 <= x < n && (#[trigger] es@[x]) is Some ==> 1 <= es@[x]->0 <= r * n + v,
                forall|x: int| 0 <= x < v ==> (#[trigger] es@[x]) is Some,
                r > 0 ==> forall|x: int| 0 <= x < n ==> (#[trigger] es@[x]) is Some,
            decreases n - v,
        {
            let ghost cur = opt_ints(es@);
            proof {
                assert(r * n + v + 1 < i32::MAX) by (nonlinear_arith)
                    requires r < 3, v < n, 3 * n + 2 <= i32::MAX;
                assert forall|x: int| 0 <= x < cur.len() && (#[trigger] cur[x]) is Some implies 1 <= cur[x]->0 <= r * n + v by {
                    assert(es@[x] is Some);
                }
                lemma_pred_best_bound(cur, edges@, v as int, edges.len() as int, (r * n + v) as int);
            }
            let mut best: i32 = 1;
            let mut k: usize = 0;
            while k < edges.len()
                invariant
                    k <= edges.len(),
                    v < n,
                    es.len() == n,
                    cur == opt_ints(es@),
                    edges_in_range(n as int, edges@),
                    best == pred_best(cur, edges@, v as int, k as int),
                    forall|x: int| 0 <= x < n && (#[trigger] es@[x]) is Some ==> 1 <= es@[x]->0 <= r * n + v,
                    r * n + v + 1 < i32::MAX,
                decreases edges.len() - k,
            {
                let e = edges[k];
                proof {
                    lemma_pred_best_bound(cur, edges@, v as int, k as int, (r * n + v) as int);
                }
                if e.1 == v {
                    match es[e.0] {
                        Some(x) => {
                            if x + 1 > best {
                                best = x + 1;
                            }
                        },
                        None => {},
                    }
                }
                k = k + 1;
            }
            es.set(v, Some(best));
            assert(opt_ints(es@) =~= cur.update(v as int, Some(best as int)));
            v = v + 1;
        }
        proof {
            assert((r + 1) * n == r * n + n) by (nonlinear_arith);
        }
        r = r + 1;
    }
    let mut h: Vec<i32> = Vec::new();
    let mut v: usize = 0;
    while v < n
        invariant
            v <= n,
            3 * n + 2 <= i32::MAX,
            es.len() == n,
            opt_ints(es@) == simple_rounds(n as nat, edges@, 3),
            forall|x: int| 0 <= x < n ==> (#[trigger] es@[x]) is Some,
            forall|x: int| 0 <= x < n && (#[trigger] es@[x]) is Some ==> 1 <= es@[x]->0 <= 3 * n,
            h.len() == v,
            forall|x: int| 0 <= x < v ==> #[trigger] h@[x] == fallback_slack(n as nat, edges@, x),
        decreases n - v,
    {
        let x = match es[v] {
            Some(x) => x,
            None => 1,
        };
        assert(opt_ints(es@)[v as int] == Some(x as int));
        let d = (n as i32) - (x + 1);
        h.push(if d > 0 { d } else { 0 });
        v = v + 1;
    }
    h
}

/// `r` with its critical flag set to `c`.
pub open spec fn with_critico(r: RamoDisponible, c: bool) -> RamoDisponible {
    RamoDisponible {
        id: r.id,
        nombre: r.nombre,
        codigo: r.codigo,
        holgura: r.holgura,
        numb_correlativo: r.numb_correlativo,
        critico: c,
        requisitos_ids: r.requisitos_ids,
        electivo: r.electivo,
        semestre: r.semestre,
    }
}

/// No course before `k` has the identifier of course `k`.
pub open spec fn first_of_id(ramos: Seq<(String, RamoDisponible)>, k: int) -> bool {
    forall|j: int| 0 <= j < k ==> (#[trigger] ramos[j]).1.id != ramos[k].1.id
}

/// Whether course `k` is marked critical: the first course with its identifier whose
/// node has zero slack.
pub open spec fn made_critical(ramos: Seq<(String, RamoDisponible)>, ids: Seq<i32>, h: Seq<i32>, k: int) -> bool {
    &&& first_of_id(ramos, k)
    &&& node_of(ids, ramos[k].1.id) matches Some(v) && h[v] == 0
}

/// The slacks `h` of the graph: those of its PERT schedule when the graph has a
/// topological order, those of the three-pass fallback otherwise.
pub open spec fn slacks_ok(n: int, edges: Seq<(usize, usize)>, h: Seq<i32>) -> bool {
    &&& h.len() == n
    &&& (exists|o: Seq<usize>| is_topo_order(n, edges, o)) ==> exists|es: Seq<i32>, ef: Seq<i32>, lf: Seq<i32>, ls: Seq<i32>|
        forward_ok(n, edges, es, ef) && backward_ok(n, edges, ef, lf, ls, h)
    &&& !(exists|o: Seq<usize>| is_topo_order(n, edges, o)) ==> forall|v: int| 0 <= v < n ==> #[trigger] h[v]
        == fallback_slack(n as nat, edges, v)
}

/// The outcome of the analysis: `edges` is the graph of the courses, `h` its slacks,
/// and `after` is `before` with the critical courses marked.
pub open spec fn pert_outcome(
    before: Seq<(String, RamoDisponible)>,
    after: Seq<(String, RamoDisponible)>,
    secs: Seq<Seccion>,
    prereqs: Seq<(String, Vec<String>)>,
    edges: Seq<(usize, usize)>,
    h: Seq<i32>,
) -> bool {
    let ids = node_ids(before, secs);
    &&& forall|u: int, v: int| has_edge(edges, u, v) <==> pert_link(before, ids, prereqs, u, v)
    &&& slacks_ok(ids.len() as int, edges, h)
    &&& after.len() == before.len()
    &&& forall|k: int| 0 <= k < before.len() ==> (#[trigger] after[k]).0 == before[k].0 && after[k].1 == with_critico(
        before[k].1,
        before[k].1.critico || made_critical(before, ids, h, k),
    )
}

/// Runs the critical-path analysis of a curriculum and marks its critical courses.
/// The graph has a node for each course (with its code) that has a section in the
/// offer; it links courses of one sequence number in ascending identifier order, and
/// each course of the prerequisite tables (by identifier or by name) to the course
/// that requires it. On an acyclic graph the PERT slacks are computed; on a graph with
/// a cycle, three passes of the simple fallback. Every course whose node has zero
/// slack is marked critical (the first course with that identifier); nothing else
/// changes.
pub fn build_and_run_pert(
    ramos: &mut Vec<(String, RamoDisponible)>,
    lista_secciones: &[Seccion],
    prereqs: &[(String, Vec<String>)],
)
    requires
        3 * old(ramos).len() + 2 <= i32::MAX,
    ensures
        final(ramos).len() == old(ramos).len(),
        exists|edges: Seq<(usize, usize)>, h: Seq<i32>| #[trigger] pert_outcome(
            old(ramos)@,
            final(ramos)@,
            lista_secciones@,
            prereqs@,
            edges,
            h,
        ),
{
    let ghost r0 = ramos@;
    let ids = build_node_ids(ramos, lista_secciones);
    proof {
        lemma_node_ids_len(r0, lista_secciones@);
    }
    let edges = build_edges(ramos, &ids, prereqs);
    let n = ids.len();
    let h: Vec<i32> = match pert_schedule(n, &edges) {
        Ok(t) => {
            let mut h: Vec<i32> = Vec::new();
            let mut v: usize = 0;
            while v < n
                invariant
                    v <= n == t.len(),
                    h.len() == v,
                    forall|x: int| 0 <= x < v ==> #[trigger] h@[x] == t@[x].h,
                decreases n - v,
            {
                h.push(t[v].h);
                v = v + 1;
            }
            assert(h@ =~= t@.map_values(|x: PertTimes| x.h));
            h
        },
        Err(_) => fallback_slacks(n, &edges),
    };
    assert(slacks_ok(n as int, edges@, h@));
    let mut k: usize = 0;
    while k < ramos.len()
        invariant
            k <= ramos.len() == r0.len(),
            ids@ == node_ids(r0, lista_secciones@),
            h.len() == ids.len(),
            forall|x: int| 0 <= x < r0.len() ==> (#[trigger] ramos@[x]).0 == r0[x].0 && ramos@[x].1.id == r0[x].1.id,
            forall|x: int| 0 <= x < k ==> (#[trigger] ramos@[x]).1 == with_critico(
                r0[x].1,
                r0[x].1.critico || made_critical(r0, ids@, h@, x),
            ),
            forall|x: int| k <= x < r0.len() ==> (#[trigger] ramos@[x]) == r0[x],
        decreases r0.len() - k,
    {
        let id = ramos[k].1.id;
        let mut j: usize = 0;
        while j < k && ramos[j].1.id != id
            invariant
                j <= k < ramos.len() == r0.len(),
                id == r0[k as int].1.id,
                forall|x: int| 0 <= x < r0.len() ==> (#[trigger] ramos@[x]).1.id == r0[x].1.id,
                forall|x: int| 0 <= x < j ==> (#[trigger] r0[x]).1.id != id,
            decreases k - j,
        {
            j = j + 1;
        }
        let first = j == k;
        if first {
            match node_of_exec(&ids, id) {
                Some(v) => {
                    proof {
                        lemma_node_of_range(ids@, id);
                    }
                    if h[v] == 0 {
                        let mut e = ramos.remove(k);
                        e.1.critico = true;
                        ramos.insert(k, e);
                    }
                },
                None => {},
            }
        }
        proof {
            if !first {
                assert(r0[j as int].1.id == id);
                assert(!first_of_id(r0, k as int));
            }
        }
        assert(ramos@[k as int].1 == with_critico(r0[k as int].1, r0[k as int].1.critico || made_critical(r0, ids@, h@, k as int)));
        k = k + 1;
    }
    assert(pert_outcome(r0, ramos@, lista_secciones@, prereqs@, edges@, h@));
}

proof fn lemma_node_ids_len(ramos: Seq<(String, RamoDisponible)>, secs: Seq<Seccion>)
    ensures
        node_ids(ramos, secs).len() <= ramos.len(),
    decreases ramos.len(),
{
    if ramos.len() > 0 {
        lemma_node_ids_len(ramos.drop_last(), secs);
    }
}
} // verus!
