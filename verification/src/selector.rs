//! Choice of exactly one section per course such that no two chosen sections share a
//! timetable slot, by deterministic backtracking.
use vstd::prelude::*;
use crate::conflict::{all_fit, all_slots, horarios_tienen_conflicto, share_slot};
use crate::models::Seccion;
use crate::text::{append_chars, chars_of};

verus! {

/// Two timetables are compatible when they share no slot.
pub open spec fn compat(a: Seq<String>, b: Seq<String>) -> bool {
    !share_slot(all_slots(a), all_slots(b))
}

/// Timetable of candidate `k` of group `g`.
pub open spec fn hor(groups: Seq<Vec<Seccion>>, g: int, k: int) -> Seq<String> {
    groups[g]@[k].horario@
}

/// Every timetable entry of every candidate parses within `i32` arithmetic.
pub open spec fn groups_fit(groups: Seq<Vec<Seccion>>) -> bool {
    forall|g: int, k: int|
        0 <= g < groups.len() && 0 <= k < groups[g].len() ==> all_fit(#[trigger] groups[g]@[k].horario@)
}

/// `sel` picks one candidate of each group, and the picked timetables are pairwise
/// compatible.
pub open spec fn valid_selection(groups: Seq<Vec<Seccion>>, sel: Seq<int>) -> bool {
    &&& sel.len() == groups.len()
    &&& forall|g: int| 0 <= g < groups.len() ==> 0 <= #[trigger] sel[g] < groups[g].len()
    &&& forall|g1: int, g2: int|
        0 <= g1 < groups.len() && 0 <= g2 < groups.len() && g1 != g2 ==> compat(
            hor(groups, g1, #[trigger] sel[g1]),
            hor(groups, g2, #[trigger] sel[g2]),
        )
}

/// Some valid selection exists.
pub open spec fn selectable(groups: Seq<Vec<Seccion>>) -> bool {
    exists|sel: Seq<int>| valid_selection(groups, sel)
}

/// Two sections agree on every field.
pub open spec fn same_section(a: Seccion, b: Seccion) -> bool {
    &&& a.codigo@ == b.codigo@
    &&& a.nombre@ == b.nombre@
    &&& a.seccion@ == b.seccion@
    &&& a.horario@ == b.horario@
    &&& a.profesor@ == b.profesor@
    &&& a.codigo_box@ == b.codigo_box@
}

/// `s` agrees on every field with one of the candidates `cands`.
pub open spec fn picked_from(s: Seccion, cands: Seq<Seccion>) -> bool {
    exists|k: int| 0 <= k < cands.len() && same_section(s, #[trigger] cands[k])
}

/// The key by which candidates of a group are ordered: `codigo_box::codigo::seccion`.
pub open spec fn order_key(s: Seccion) -> Seq<char> {
    s.codigo_box@ + seq![':', ':'] + s.codigo@ + seq![':', ':'] + s.seccion@
}

fn order_key_exec(s: &Seccion) -> (r: Vec<char>)
    ensures
        r@ == order_key(*s),
{
    let mut k = chars_of(s.codigo_box.as_str());
    let mut sep: Vec<char> = Vec::new();
    sep.push(':');
    sep.push(':');
    assert(sep@ =~= seq![':', ':']);
    append_chars(&mut k, &sep);
    append_chars(&mut k, &chars_of(s.codigo.as_str()));
    append_chars(&mut k, &sep);
    append_chars(&mut k, &chars_of(s.seccion.as_str()));
    k
}

/// Lexicographic order of character sequences by code point (the order of `String`).
pub open spec fn seq_le(a: Seq<char>, b: Seq<char>) -> bool
    decreases a.len(),
{
    if a.len() == 0 {
        true
    } else if b.len() == 0 {
        false
    } else if a[0] < b[0] {
        true
    } else if a[0] > b[0] {
        false
    } else {
        seq_le(a.drop_first(), b.drop_first())
    }
}


/// Any two character sequences are ordered one way or the other.
pub proof fn lemma_seq_le_total(a: Seq<char>, b: Seq<char>)
    ensures
        seq_le(a, b) || seq_le(b, a),
    decreases a.len(),
{
    if a.len() > 0 && b.len() > 0 && a[0] == b[0] {
        lemma_seq_le_total(a.drop_first(), b.drop_first());
    }
}

/// Two sequences each before the other are equal.
pub proof fn lemma_seq_le_antisym(a: Seq<char>, b: Seq<char>)
    requires
        seq_le(a, b),
        seq_le(b, a),
    ensures
        a == b,
    decreases a.len(),
{
    if a.len() > 0 && b.len() > 0 {
        lemma_seq_le_antisym(a.drop_first(), b.drop_first());
        assert(a =~= seq![a[0]] + a.drop_first());
        assert(b =~= seq![b[0]] + b.drop_first());
    }
}

/// The lexicographic order is transitive.
pub proof fn lemma_seq_le_trans(a: Seq<char>, b: Seq<char>, c: Seq<char>)
    requires
        seq_le(a, b),
        seq_le(b, c),
    ensures
        seq_le(a, c),
    decreases a.len(),
{
    if a.len() > 0 && b.len() > 0 && c.len() > 0 && a[0] == b[0] && b[0] == c[0] {
        lemma_seq_le_trans(a.drop_first(), b.drop_first(), c.drop_first());
    }
}

/// Whether `a` comes before or equals `b` in lexicographic order.
pub fn chars_le(a: &Vec<char>, b: &Vec<char>) -> (r: bool)
    ensures
        r == seq_le(a@, b@),
{
    let mut i: usize = 0;
    assert(a@.subrange(0, a.len() as int) =~= a@);
    assert(b@.subrange(0, b.len() as int) =~= b@);
    while i < a.len() && i < b.len() && a[i] == b[i]
        invariant
            i <= a.len(),
            i <= b.len(),
            seq_le(a@, b@) == seq_le(a@.subrange(i as int, a.len() as int), b@.subrange(i as int, b.len() as int)),
        decreases a.len() - i,
    {
        let ghost sa = a@.subrange(i as int, a.len() as int);
        let ghost sb = b@.subrange(i as int, b.len() as int);
        assert(sa.drop_first() =~= a@.subrange(i + 1, a.len() as int));
        assert(sb.drop_first() =~= b@.subrange(i + 1, b.len() as int));
        i = i + 1;
    }
    assert(a@.subrange(0, a.len() as int) =~= a@);
    assert(b@.subrange(0, b.len() as int) =~= b@);
    let ghost sa = a@.subrange(i as int, a.len() as int);
    let ghost sb = b@.subrange(i as int, b.len() as int);
    if i == a.len() {
        assert(sa.len() == 0);
        true
    } else if i == b.len() {
        assert(sb.len() == 0 && sa.len() > 0);
        false
    } else {
        assert(sa[0] == a@[i as int] && sb[0] == b@[i as int]);
        a[i] < b[i]
    }
}

/// Candidate `a` of `group` is tried before candidate `b`: its key comes first, or the
/// keys are equal and it stands earlier in the group.
pub open spec fn cand_before(group: Seq<Seccion>, a: int, b: int) -> bool {
    let ka = order_key(group[a]);
    let kb = order_key(group[b]);
    (seq_le(ka, kb) && ka != kb) || (ka == kb && a < b)
}

/// Group `g1` is searched before group `g2`: it has fewer candidates, or as many and
/// stands earlier.
pub open spec fn group_before(groups: Seq<Vec<Seccion>>, g1: int, g2: int) -> bool {
    groups[g1].len() < groups[g2].len() || (groups[g1].len() == groups[g2].len() && g1 < g2)
}

/// Selection `s1` comes before `s2` in the search: at some group it picks a candidate
/// tried before that of `s2`, and the two agree on every group searched before it.
pub open spec fn sel_before(groups: Seq<Vec<Seccion>>, s1: Seq<int>, s2: Seq<int>) -> bool {
    exists|g: int| 0 <= g < groups.len() && #[trigger] cand_before(groups[g]@, s1[g], s2[g])
        && forall|h: int| 0 <= h < groups.len() && #[trigger] group_before(groups, h, g) ==> s1[h] == s2[h]
}

/// No candidate is tried both before and after another.
pub proof fn lemma_cand_before_asym(group: Seq<Seccion>, a: int, b: int)
    requires
        cand_before(group, a, b),
    ensures
        !cand_before(group, b, a),
        a != b,
{
    let ka = order_key(group[a]);
    let kb = order_key(group[b]);
    if cand_before(group, b, a) && seq_le(ka, kb) && seq_le(kb, ka) {
        lemma_seq_le_antisym(ka, kb);
    }
}

/// The candidate positions of `group` in order of their key (stable).
fn sorted_positions(group: &Vec<Seccion>) -> (r: Vec<usize>)
    ensures
        r.len() == group.len(),
        r@.no_duplicates(),
        forall|k: int| 0 <= k < r.len() ==> #[trigger] r@[k] < group.len(),
        forall|j: int| 0 <= j < group.len() ==> #[trigger] r@.contains(j as usize),
        forall|a: int, b: int| 0 <= a < b < r.len() ==> cand_before(group@, #[trigger] r@[a] as int, #[trigger] r@[b] as int),
{
    let mut out: Vec<usize> = Vec::new();
    let mut i: usize = 0;
    while i < group.len()
        invariant
            i <= group.len(),
            out.len() == i,
            out@.no_duplicates(),
            forall|k: int| 0 <= k < out.len() ==> #[trigger] out@[k] < i,
            forall|j: int| 0 <= j < i ==> #[trigger] out@.contains(j as usize),
            forall|a: int, b: int| 0 <= a < b < out.len() ==> cand_before(group@, #[trigger] out@[a] as int, #[trigger] out@[b] as int),
        decreases group.len() - i,
    {
        let key = order_key_exec(&group[i]);
        let mut pos: usize = 0;
        while pos < out.len() && chars_le(&order_key_exec(&group[out[pos]]), &key)
            invariant
                pos <= out.len(),
                forall|k: int| 0 <= k < out.len() ==> #[trigger] out@[k] < i,
                i < group.len(),
                key@ == order_key(group@[i as int]),
                forall|q: int| 0 <= q < pos ==> seq_le(order_key(group@[#[trigger] out@[q] as int]), key@),
            decreases out.len() - pos,
        {
            pos = pos + 1;
        }
        let ghost stop = pos < out.len() ==> !seq_le(order_key(group@[out@[pos as int] as int]), key@);
        assert(stop);
        let ghost o0 = out@;
        out.insert(pos, i);
        assert(out@ == o0.insert(pos as int, i));
        assert forall|k: int| 0 <= k < out.len() implies #[trigger] out@[k] < i + 1 by {
            if k < pos {
                assert(out@[k] == o0[k]);
            } else if k > pos {
                assert(out@[k] == o0[k - 1]);
            }
        }
        assert forall|j: int| 0 <= j < i + 1 implies #[trigger] out@.contains(j as usize) by {
            if j == i {
                assert(out@[pos as int] == i);
            } else {
                assert(o0.contains(j as usize));
                let a = choose|a: int| 0 <= a < o0.len() && o0[a] == j as usize;
                if a < pos {
                    assert(out@[a] == o0[a]);
                } else {
                    assert(out@[a + 1] == o0[a]);
                }
            }
        }
        assert forall|a: int, b: int| 0 <= a < out.len() && 0 <= b < out.len() && a != b implies out@[a]
            != out@[b] by {
            let ia = if a < pos { a } else if a == pos { -1 } else { a - 1 };
            let ib = if b < pos { b } else if b == pos { -1 } else { b - 1 };
            if ia >= 0 && ib >= 0 {
                assert(out@[a] == o0[ia] && out@[b] == o0[ib]);
            } else if ia >= 0 {
                assert(out@[a] == o0[ia]);
            } else if ib >= 0 {
                assert(out@[b] == o0[ib]);
            }
        }
        assert forall|a: int, b: int| 0 <= a < b < out.len() implies cand_before(group@, #[trigger] out@[a] as int,
            #[trigger] out@[b] as int) by {
            let ki = order_key(group@[i as int]);
            if b < pos {
                assert(out@[a] == o0[a] && out@[b] == o0[b]);
            } else if b == pos {
                assert(out@[a] == o0[a]);
                assert(seq_le(order_key(group@[o0[a] as int]), ki));
            } else if a > pos {
                assert(out@[a] == o0[a - 1] && out@[b] == o0[b - 1]);
            } else {
                let kp = order_key(group@[o0[pos as int] as int]);
                assert(!seq_le(kp, ki));
                lemma_seq_le_total(kp, ki);
                assert(out@[b] == o0[b - 1]);
                let kb = order_key(group@[o0[b - 1] as int]);
                if b - 1 > pos {
                    assert(cand_before(group@, o0[pos as int] as int, o0[b - 1] as int));
                }
                if kp == kb {
                    lemma_seq_le_total(kp, kb);
                }
                assert(seq_le(kp, kb));
                lemma_seq_le_trans(ki, kp, kb);
                if ki == kb {
                    lemma_seq_le_antisym(kp, kb);
                }
                if a < pos {
                    assert(out@[a] == o0[a]);
                    assert(seq_le(order_key(group@[o0[a] as int]), ki));
                    let ka = order_key(group@[o0[a] as int]);
                    lemma_seq_le_trans(ka, ki, kb);
                    if ka == kb {
                        lemma_seq_le_antisym(ka, ki);
                    }
                }
            }
        }
        i = i + 1;
    }
    out
}

/// The group positions ordered by number of candidates, ties by position.
fn group_order(groups: &Vec<Vec<Seccion>>) -> (r: Vec<usize>)
    ensures
        r.len() == groups.len(),
        r@.no_duplicates(),
        forall|k: int| 0 <= k < r.len() ==> #[trigger] r@[k] < groups.len(),
        forall|j: int| 0 <= j < groups.len() ==> #[trigger] r@.contains(j as usize),
        forall|a: int, b: int| 0 <= a < b < r.len() ==> group_before(groups@, #[trigger] r@[a] as int, #[trigger] r@[b] as int),
{
    let mut out: Vec<usize> = Vec::new();
    let mut i: usize = 0;
    while i < groups.len()
        invariant
            i <= groups.len(),
            out.len() == i,
            out@.no_duplicates(),
            forall|k: int| 0 <= k < out.len() ==> #[trigger] out@[k] < i,
            forall|j: int| 0 <= j < i ==> #[trigger] out@.contains(j as usize),
            forall|a: int, b: int| 0 <= a < b < out.len() ==> group_before(groups@, #[trigger] out@[a] as int, #[trigger] out@[b] as int),
        decreases groups.len() - i,
    {
        let mut pos: usize = 0;
        while pos < out.len() && groups[out[pos]].len() <= groups[i].len()
            invariant
                pos <= out.len(),
                forall|k: int| 0 <= k < out.len() ==> #[trigger] out@[k] < i,
                i < groups.len(),
                forall|q: int| 0 <= q < pos ==> groups@[#[trigger] out@[q] as int].len() <= groups@[i as int].len(),
            decreases out.len() - pos,
        {
            pos = pos + 1;
        }
        assert(pos < out.len() ==> groups@[out@[pos as int] as int].len() > groups@[i as int].len());
        let ghost o0 = out@;
        out.insert(pos, i);
        assert(out@ == o0.insert(pos as int, i));
        assert forall|k: int| 0 <= k < out.len() implies #[trigger] out@[k] < i + 1 by {
            if k < pos {
                assert(out@[k] == o0[k]);
            } else if k > pos {
                assert(out@[k] == o0[k - 1]);
            }
        }
        assert forall|j: int| 0 <= j < i + 1 implies #[trigger] out@.contains(j as usize) by {
            if j == i {
                assert(out@[pos as int] == i);
            } else {
                assert(o0.contains(j as usize));
                let a = choose|a: int| 0 <= a < o0.len() && o0[a] == j as usize;
                if a < pos {
                    assert(out@[a] == o0[a]);
                } else {
                    assert(out@[a + 1] == o0[a]);
                }
            }
        }
        assert forall|a: int, b: int| 0 <= a < out.len() && 0 <= b < out.len() && a != b implies out@[a]
            != out@[b] by {
            let ia = if a < pos { a } else if a == pos { -1 } else { a - 1 };
            let ib = if b < pos { b } else if b == pos { -1 } else { b - 1 };
            if ia >= 0 && ib >= 0 {
                assert(out@[a] == o0[ia] && out@[b] == o0[ib]);
            } else if ia >= 0 {
                assert(out@[a] == o0[ia]);
            } else if ib >= 0 {
                assert(out@[b] == o0[ib]);
            }
        }
        assert forall|a: int, b: int| 0 <= a < b < out.len() implies group_before(groups@, #[trigger] out@[a] as int,
            #[trigger] out@[b] as int) by {
            if b < pos {
                assert(out@[a] == o0[a] && out@[b] == o0[b]);
            } else if b == pos {
                assert(out@[a] == o0[a]);
            } else if a > pos {
                assert(out@[a] == o0[a - 1] && out@[b] == o0[b - 1]);
            } else {
                assert(out@[b] == o0[b - 1]);
                if b - 1 > pos {
                    assert(group_before(groups@, o0[pos as int] as int, o0[b - 1] as int));
                }
                if a < pos {
                    assert(out@[a] == o0[a]);
                }
            }
        }
        i = i + 1;
    }
    out
}

/// The partial choice for the first `pos` groups of `order` is pairwise compatible.
pub open spec fn partial_ok(groups: Seq<Vec<Seccion>>, order: Seq<usize>, assign: Seq<usize>, pos: int) -> bool {
    &&& forall|k: int|
        0 <= k < pos ==> (#[trigger] assign[order[k] as int]) < groups[order[k] as int].len()
    &&& forall|k1: int, k2: int|
        0 <= k1 < pos && 0 <= k2 < pos && k1 != k2 ==> compat(
            hor(groups, #[trigger] order[k1] as int, assign[order[k1] as int] as int),
            hor(groups, #[trigger] order[k2] as int, assign[order[k2] as int] as int),
        )
}

/// `sel` keeps the choices of `assign` for the first `pos` groups of `order`.
pub open spec fn agrees(sel: Seq<int>, assign: Seq<usize>, order: Seq<usize>, pos: int) -> bool {
    forall|k: int| 0 <= k < pos ==> sel[#[trigger] order[k] as int] == assign[order[k] as int] as int
}

/// The choice vector read as integers.
pub open spec fn as_sel(assign: Seq<usize>) -> Seq<int> {
    assign.map_values(|x: usize| x as int)
}

/// Whether candidate `cand` of group `g` conflicts with one of the groups already chosen.
fn conflicts_with_chosen(
    groups: &Vec<Vec<Seccion>>,
    order: &Vec<usize>,
    assign: &Vec<usize>,
    pos: usize,
    g: usize,
    cand: usize,
) -> (r: bool)
    requires
        groups_fit(groups@),
        pos <= order.len(),
        order.len() == assign.len() == groups.len(),
        forall|k: int| 0 <= k < order.len() ==> #[trigger] order@[k] < groups.len(),
        g < groups.len(),
        cand < groups@[g as int].len(),
        forall|k: int|
            0 <= k < pos ==> (#[trigger] assign@[order@[k] as int]) < groups@[order@[k] as int].len(),
    ensures
        r == exists|k: int|
            0 <= k < pos && !compat(
                hor(groups@, #[trigger] order@[k] as int, assign@[order@[k] as int] as int),
                hor(groups@, g as int, cand as int),
            ),
{
    let mut k: usize = 0;
    while k < pos
        invariant
            k <= pos <= order.len(),
            order.len() == assign.len() == groups.len(),
            groups_fit(groups@),
            forall|q: int| 0 <= q < order.len() ==> #[trigger] order@[q] < groups.len(),
            g < groups.len(),
            cand < groups@[g as int].len(),
            forall|q: int|
                0 <= q < pos ==> (#[trigger] assign@[order@[q] as int]) < groups@[order@[q] as int].len(),
            forall|q: int|
                0 <= q < k ==> compat(
                    hor(groups@, #[trigger] order@[q] as int, assign@[order@[q] as int] as int),
                    hor(groups@, g as int, cand as int),
                ),
        decreases pos - k,
    {
        let og = order[k];
        let oc = assign[og];
        assert(oc < groups@[og as int].len());
        assert(all_fit(groups@[og as int]@[oc as int].horario@));
        assert(all_fit(groups@[g as int]@[cand as int].horario@));
        if horarios_tienen_conflicto(groups[og][oc].horario.as_slice(), groups[g][cand].horario.as_slice()) {
            assert(!compat(hor(groups@, order@[k as int] as int, assign@[order@[k as int] as int] as int), hor(groups@, g as int, cand as int)));
            return true;
        }
        k = k + 1;
    }
    false
}

/// Well-formedness of the search data: `order` lists each group once, and `lists[g]`
/// lists every candidate position of group `g`.
/// `x` stands before `y` in the candidate list `l`.
pub open spec fn ranked_before(l: Seq<usize>, x: int, y: int) -> bool {
    exists|q1: int, q2: int| 0 <= q1 < q2 < l.len() && #[trigger] l[q1] as int == x && #[trigger] l[q2] as int == y
}

/// `s2` agrees with `s1` on the groups at positions `pos..p` of `order` and picks, at
/// position `p`, a candidate listed before that of `s1`.
pub open spec fn lex_from(lists: Seq<Vec<usize>>, order: Seq<usize>, s2: Seq<int>, s1: Seq<int>, pos: int) -> bool {
    exists|p: int| pos <= p < order.len()
        && (forall|k: int| pos <= k < p ==> s2[#[trigger] order[k] as int] == s1[order[k] as int])
        && #[trigger] ranked_before(lists[order[p] as int]@, s2[order[p] as int], s1[order[p] as int])
}

pub open spec fn bt_wf(groups: Seq<Vec<Seccion>>, order: Seq<usize>, lists: Seq<Vec<usize>>) -> bool {
    &&& forall|g: int| 0 <= g < lists.len() ==> (#[trigger] lists[g])@.no_duplicates()
    &&& groups_fit(groups)
    &&& groups.len() <= usize::MAX
    &&& order.len() == groups.len() == lists.len()
    &&& order.no_duplicates()
    &&& forall|k: int| 0 <= k < order.len() ==> #[trigger] order[k] < groups.len()
    &&& forall|j: int| 0 <= j < groups.len() ==> #[trigger] order.contains(j as usize)
    &&& forall|g: int, k: int|
        0 <= g < lists.len() && 0 <= k < lists[g].len() ==> #[trigger] lists[g]@[k] < groups[g].len()
    &&& forall|g: int, j: int|
        0 <= g < groups.len() && 0 <= j < groups[g].len() ==> #[trigger] lists[g]@.contains(j as usize)
}

/// A complete compatible partial choice is a valid selection.
proof fn lemma_complete(groups: Seq<Vec<Seccion>>, order: Seq<usize>, lists: Seq<Vec<usize>>, assign: Seq<usize>)
    requires
        bt_wf(groups, order, lists),
        assign.len() == groups.len(),
        partial_ok(groups, order, assign, order.len() as int),
    ensures
        valid_selection(groups, as_sel(assign)),
{
    let sel = as_sel(assign);
    assert forall|g: int| 0 <= g < groups.len() implies 0 <= #[trigger] sel[g] < groups[g].len() by {
        assert(order.contains(g as usize));
        let k = choose|k: int| 0 <= k < order.len() && order[k] == g as usize;
        assert(assign[order[k] as int] < groups[order[k] as int].len());
    }
    assert forall|g1: int, g2: int|
        0 <= g1 < groups.len() && 0 <= g2 < groups.len() && g1 != g2 implies compat(
        hor(groups, g1, #[trigger] sel[g1]),
        hor(groups, g2, #[trigger] sel[g2]),
    ) by {
        assert(order.contains(g1 as usize));
        assert(order.contains(g2 as usize));
        let k1 = choose|k: int| 0 <= k < order.len() && order[k] == g1 as usize;
        let k2 = choose|k: int| 0 <= k < order.len() && order[k] == g2 as usize;
        assert(compat(
            hor(groups, order[k1] as int, assign[order[k1] as int] as int),
            hor(groups, order[k2] as int, assign[order[k2] as int] as int),
        ));
    }
}

/// A candidate that conflicts with an earlier choice extends to no valid selection.
proof fn lemma_conflict_excludes(
    groups: Seq<Vec<Seccion>>,
    order: Seq<usize>,
    lists: Seq<Vec<usize>>,
    a0: Seq<usize>,
    assign: Seq<usize>,
    pos: int,
    idx: int,
    cand: int,
)
    requires
        bt_wf(groups, order, lists),
        0 <= pos < order.len(),
        idx == order[pos],
        forall|k: int| 0 <= k < pos ==> assign[#[trigger] order[k] as int] == a0[order[k] as int],
        exists|k: int|
            0 <= k < pos && !compat(
                hor(groups, #[trigger] order[k] as int, assign[order[k] as int] as int),
                hor(groups, idx, cand),
            ),
    ensures
        !exists|sel: Seq<int>|
            valid_selection(groups, sel) && agrees(sel, a0, order, pos) && sel[idx] == cand,
{
    let k = choose|k: int|
        0 <= k < pos && !compat(
            hor(groups, #[trigger] order[k] as int, assign[order[k] as int] as int),
            hor(groups, idx, cand),
        );
    assert forall|sel: Seq<int>| !(valid_selection(groups, sel) && agrees(sel, a0, order, pos) && sel[idx] == cand) by {
        if valid_selection(groups, sel) && agrees(sel, a0, order, pos) && sel[idx] == cand {
            assert(order[k] != order[pos]);
            assert(sel[order[k] as int] == a0[order[k] as int] as int);
            assert(compat(hor(groups, order[k] as int, sel[order[k] as int]), hor(groups, idx, sel[idx])));
        }
    }
}

/// Choosing a compatible candidate for `order[pos]` keeps the partial choice compatible.
proof fn lemma_extend(
    groups: Seq<Vec<Seccion>>,
    order: Seq<usize>,
    lists: Seq<Vec<usize>>,
    a0: Seq<usize>,
    a1: Seq<usize>,
    pos: int,
    cand: int,
)
    requires
        bt_wf(groups, order, lists),
        0 <= pos < order.len(),
        a1.len() == groups.len(),
        0 <= cand < groups[order[pos] as int].len(),
        partial_ok(groups, order, a0, pos),
        forall|k: int| 0 <= k < pos ==> a1[#[trigger] order[k] as int] == a0[order[k] as int],
        forall|k: int|
            0 <= k < pos ==> compat(
                hor(groups, #[trigger] order[k] as int, a1[order[k] as int] as int),
                hor(groups, order[pos] as int, cand),
            ),
    ensures
        partial_ok(groups, order, a1.update(order[pos] as int, cand as usize), pos + 1),
        forall|k: int| 0 <= k < pos ==> a1.update(order[pos] as int, cand as usize)[#[trigger] order[k] as int] == a0[order[k] as int],
{
    let a2 = a1.update(order[pos] as int, cand as usize);
    assert forall|k: int| 0 <= k < pos implies a2[#[trigger] order[k] as int] == a0[order[k] as int] by {
        assert(order[k] != order[pos]);
    }
    assert forall|k: int| 0 <= k < pos + 1 implies (#[trigger] a2[order[k] as int]) < groups[order[k] as int].len() by {
        if k < pos {
            assert(a2[order[k] as int] == a0[order[k] as int]);
        }
    }
    assert forall|k1: int, k2: int|
        0 <= k1 < pos + 1 && 0 <= k2 < pos + 1 && k1 != k2 implies compat(
        hor(groups, #[trigger] order[k1] as int, a2[order[k1] as int] as int),
        hor(groups, #[trigger] order[k2] as int, a2[order[k2] as int] as int),
    ) by {
        if k1 < pos && k2 < pos {
            assert(a2[order[k1] as int] == a0[order[k1] as int]);
            assert(a2[order[k2] as int] == a0[order[k2] as int]);
        } else if k1 == pos {
            assert(a2[order[k2] as int] == a1[order[k2] as int]);
            crate::conflict::lemma_conflicto_simetrico(
                hor(groups, order[k2] as int, a1[order[k2] as int] as int),
                hor(groups, order[pos] as int, cand),
            );
        } else {
            assert(a2[order[k1] as int] == a1[order[k1] as int]);
        }
    }
}

/// Depth-first search over the groups in `order` from position `pos` on; on success
/// `assign` holds a compatible choice for every group.
fn backtrack(
    pos: usize,
    order: &Vec<usize>,
    groups: &Vec<Vec<Seccion>>,
    lists: &Vec<Vec<usize>>,
    assign: &mut Vec<usize>,
) -> (ok: bool)
    requires
        bt_wf(groups@, order@, lists@),
        old(assign).len() == groups.len(),
        pos <= order.len(),
        partial_ok(groups@, order@, old(assign)@, pos as int),
    ensures
        final(assign).len() == old(assign).len(),
        forall|k: int| 0 <= k < pos ==> final(assign)@[#[trigger] order@[k] as int] == old(assign)@[order@[k] as int],
        ok ==> valid_selection(groups@, as_sel(final(assign)@)),
        !ok ==> !exists|sel: Seq<int>| valid_selection(groups@, sel) && agrees(sel, old(assign)@, order@, pos as int),
        ok ==> forall|s2: Seq<int>| valid_selection(groups@, s2) && agrees(s2, old(assign)@, order@, pos as int)
            ==> !lex_from(lists@, order@, s2, as_sel(final(assign)@), pos as int),
    decreases order.len() - pos,
{
    if pos == order.len() {
        proof {
            lemma_complete(groups@, order@, lists@, assign@);
        }
        return true;
    }
    let idx = order[pos];
    let cands = &lists[idx];
    let ghost a0 = assign@;
    let mut c: usize = 0;
    while c < cands.len()
        invariant
            c <= cands.len(),
            pos < order.len(),
            idx == order@[pos as int],
            cands == lists@[idx as int],
            bt_wf(groups@, order@, lists@),
            assign.len() == a0.len() == groups.len(),
            a0 == old(assign)@,
            partial_ok(groups@, order@, a0, pos as int),
            forall|k: int| 0 <= k < pos ==> assign@[#[trigger] order@[k] as int] == a0[order@[k] as int],
            forall|q: int|
                0 <= q < c ==> !exists|sel: Seq<int>|
                    valid_selection(groups@, sel) && agrees(sel, a0, order@, pos as int) && sel[idx as int]
                        == #[trigger] cands@[q] as int,
        decreases cands.len() - c,
    {
        let cand = cands[c];
        assert(cand < groups@[idx as int].len());
        assert forall|k: int| 0 <= k < pos implies (#[trigger] assign@[order@[k] as int]) < groups@[order@[k] as int].len() by {
            assert(assign@[order@[k] as int] == a0[order@[k] as int]);
        }
        if conflicts_with_chosen(groups, order, assign, pos, idx, cand) {
            proof {
                lemma_conflict_excludes(groups@, order@, lists@, a0, assign@, pos as int, idx as int, cand as int);
            }
            c = c + 1;
            continue;
        }
        let ghost a1 = assign@;
        proof {
            lemma_extend(groups@, order@, lists@, a0, a1, pos as int, cand as int);
        }
        assign.set(idx, cand);
        let ghost a2 = assign@;
        if backtrack(pos + 1, order, groups, lists, assign) {
            proof {
                assert forall|k: int| 0 <= k < pos implies assign@[#[trigger] order@[k] as int] == old(assign)@[order@[k] as int] by {
                    assert(assign@[order@[k] as int] == a2[order@[k] as int]);
                }
                let f = as_sel(assign@);
                assert(assign@[order@[pos as int] as int] == a2[order@[pos as int] as int]);
                assert(f[idx as int] == cand as int);
                assert forall|s2: Seq<int>| valid_selection(groups@, s2) && agrees(s2, a0, order@, pos as int)
                    implies !lex_from(lists@, order@, s2, f, pos as int) by {
                    if lex_from(lists@, order@, s2, f, pos as int) {
                        let p = choose|p: int| pos <= p < order.len()
                            && (forall|k: int| pos <= k < p ==> s2[#[trigger] order@[k] as int] == f[order@[k] as int])
                            && #[trigger] ranked_before(lists@[order@[p] as int]@, s2[order@[p] as int], f[order@[p] as int]);
                        if p == pos {
                            let (q1, q2) = choose|q1: int, q2: int| 0 <= q1 < q2 < cands@.len()
                                && #[trigger] cands@[q1] as int == s2[idx as int] && #[trigger] cands@[q2] as int == f[idx as int];
                            assert(cands@[q2] == cands@[c as int]);
                            assert(cands@.no_duplicates());
                            assert(q2 == c);
                            assert(valid_selection(groups@, s2) && agrees(s2, a0, order@, pos as int)
                                && s2[idx as int] == cands@[q1] as int);
                        } else {
                            assert(s2[order@[pos as int] as int] == f[order@[pos as int] as int]);
                            assert forall|k: int| 0 <= k < pos + 1 implies s2[#[trigger] order@[k] as int] == a2[order@[k] as int] as int by {
                                if k < pos {
                                    assert(a2[order@[k] as int] == a0[order@[k] as int]);
                                }
                            }
                            assert(agrees(s2, a2, order@, pos + 1));
                            assert(lex_from(lists@, order@, s2, f, pos + 1));
                        }
                    }
                }
            }
            return true;
        }
        proof {
            assert forall|sel: Seq<int>| !(valid_selection(groups@, sel) && agrees(sel, a0, order@, pos as int)
                && sel[idx as int] == cand as int) by {
                if valid_selection(groups@, sel) && agrees(sel, a0, order@, pos as int) && sel[idx as int] == cand as int {
                    assert forall|k: int| 0 <= k < pos + 1 implies sel[#[trigger] order@[k] as int] == a2[order@[k] as int] as int by {
                        if k < pos {
                            assert(a2[order@[k] as int] == a0[order@[k] as int]);
                        }
                    }
                    assert(agrees(sel, a2, order@, pos + 1));
                }
            }
            assert forall|k: int| 0 <= k < pos implies assign@[#[trigger] order@[k] as int] == a0[order@[k] as int] by {
                assert(assign@[order@[k] as int] == a2[order@[k] as int]);
            }
        }
        c = c + 1;
    }
    proof {
        assert forall|sel: Seq<int>| !(valid_selection(groups@, sel) && agrees(sel, a0, order@, pos as int)) by {
            if valid_selection(groups@, sel) && agrees(sel, a0, order@, pos as int) {
                let s = sel[idx as int];
                assert(0 <= s < groups@[idx as int].len());
                assert(cands@.contains(s as usize));
                let q = choose|q: int| 0 <= q < cands.len() && cands@[q] == s as usize;
                assert(sel[idx as int] == cands@[q] as int);
            }
        }
    }
    false
}

/// Among the groups satisfying `p`, one is searched first.
proof fn lemma_first_group(groups: Seq<Vec<Seccion>>, p: spec_fn(int) -> bool, g0: int) -> (g: int)
    requires
        0 <= g0 < groups.len(),
        p(g0),
    ensures
        0 <= g < groups.len(),
        p(g),
        forall|h: int| 0 <= h < groups.len() && p(h) ==> !group_before(groups, h, g),
    decreases groups[g0].len(), g0,
{
    if exists|h: int| 0 <= h < groups.len() && #[trigger] p(h) && group_before(groups, h, g0) {
        let h = choose|h: int| 0 <= h < groups.len() && #[trigger] p(h) && group_before(groups, h, g0);
        lemma_first_group(groups, p, h)
    } else {
        g0
    }
}

/// Whether each candidate of each group of `g1` is, field for field, a candidate of
/// the group of `g2` at its position.
#[verifier::opaque]
pub open spec fn found_in(g1: Seq<Vec<Seccion>>, g2: Seq<Vec<Seccion>>) -> bool {
    &&& g1.len() == g2.len()
    &&& forall|g: int, k: int| #![trigger g1[g]@[k]] 0 <= g < g1.len() && 0 <= k < g1[g].len()
        ==> exists|k2: int| 0 <= k2 < g2[g].len() && #[trigger] same_section(g1[g]@[k], g2[g]@[k2])
}

/// Whether the keys inside each group are pairwise different.
pub open spec fn keys_apart(groups: Seq<Vec<Seccion>>) -> bool {
    forall|g: int, a: int, b: int| 0 <= g < groups.len() && 0 <= a < groups[g].len() && 0 <= b < groups[g].len() && a != b
        ==> order_key(#[trigger] groups[g]@[a]) != order_key(#[trigger] groups[g]@[b])
}

/// Whether every group of `g1` holds, field for field, the same candidates as the
/// group of `g2` at its position (in any order), and the keys inside each group are
/// pairwise different.
pub open spec fn same_candidates(g1: Seq<Vec<Seccion>>, g2: Seq<Vec<Seccion>>) -> bool {
    &&& forall|g: int| 0 <= g < g1.len() ==> (#[trigger] g1[g]).len() == g2[g].len()
    &&& found_in(g1, g2)
    &&& found_in(g2, g1)
    &&& keys_apart(g1)
    &&& keys_apart(g2)
}

/// Whether `sel` is the selection that the search returns: valid, and no valid
/// selection comes before it.
#[verifier::opaque]
pub open spec fn first_selection(groups: Seq<Vec<Seccion>>, sel: Seq<int>) -> bool {
    &&& valid_selection(groups, sel)
    &&& forall|t: Seq<int>| #[trigger] valid_selection(groups, t) ==> !sel_before(groups, t, sel)
}

/// A selection of `g1` carried over to `g2`: each pick replaced by a same candidate.
spec fn carried(g1: Seq<Vec<Seccion>>, g2: Seq<Vec<Seccion>>, s: Seq<int>) -> Seq<int> {
    Seq::new(s.len(), |g: int| choose|k2: int| 0 <= k2 < g2[g].len() && same_section(g1[g]@[s[g]], g2[g]@[k2]))
}

proof fn lemma_carried(g1: Seq<Vec<Seccion>>, g2: Seq<Vec<Seccion>>, s: Seq<int>)
    requires
        found_in(g1, g2),
        valid_selection(g1, s),
    ensures
        valid_selection(g2, carried(g1, g2, s)),
        forall|g: int| 0 <= g < g1.len() ==> same_section(g1[g]@[s[g]], #[trigger] g2[g]@[carried(g1, g2, s)[g]]),
{
    reveal(found_in);
    let c = carried(g1, g2, s);
    assert forall|g: int| 0 <= g < g1.len() implies 0 <= #[trigger] c[g] < g2[g].len()
        && same_section(g1[g]@[s[g]], g2[g]@[c[g]]) by {
        let k = s[g];
        assert(0 <= k < g1[g].len());
        let x = g1[g]@[k];
        assert(exists|k2: int| 0 <= k2 < g2[g].len() && #[trigger] same_section(g1[g]@[k], g2[g]@[k2]));
    }
    assert forall|x: int, y: int| 0 <= x < g2.len() && 0 <= y < g2.len() && x != y implies compat(
        hor(g2, x, #[trigger] c[x]),
        hor(g2, y, #[trigger] c[y]),
    ) by {
        assert(compat(hor(g1, x, s[x]), hor(g1, y, s[y])));
        assert(same_section(g1[x]@[s[x]], g2[x]@[c[x]]));
        assert(same_section(g1[y]@[s[y]], g2[y]@[c[y]]));
    }
}

/// Two candidates of one group with equal keys are the same candidate.
proof fn lemma_key_pick(groups: Seq<Vec<Seccion>>, g: int, a: int, b: int)
    requires
        0 <= g < groups.len(),
        0 <= a < groups[g].len(),
        0 <= b < groups[g].len(),
        order_key(groups[g]@[a]) == order_key(groups[g]@[b]),
        keys_apart(groups),
    ensures
        a == b,
{
}

/// When `s1` (a first selection of `g1`) and `t` (a valid one) first differ at group
/// `gs`, with `s1`'s pick tried first, the selection `u` carried over from `s1` comes
/// before `s2` in `g2`, whose picks `t` was carried from.
proof fn lemma_carried_before(
    g1: Seq<Vec<Seccion>>,
    g2: Seq<Vec<Seccion>>,
    s1: Seq<int>,
    s2: Seq<int>,
    t: Seq<int>,
    u: Seq<int>,
    gs: int,
)
    requires
        g1.len() == g2.len(),
        forall|g: int| 0 <= g < g1.len() ==> (#[trigger] g1[g]).len() == g2[g].len(),
        keys_apart(g1),
        keys_apart(g2),
        forall|g: int| #![trigger g1[g]] 0 <= g < g1.len() ==> 0 <= s1[g] < g1[g].len() && 0 <= t[g] < g1[g].len(),
        forall|g: int| #![trigger g2[g]] 0 <= g < g2.len() ==> 0 <= s2[g] < g2[g].len() && 0 <= u[g] < g2[g].len(),
        forall|g: int| 0 <= g < g1.len() ==> same_section(g1[g]@[s1[g]], #[trigger] g2[g]@[u[g]]),
        forall|g: int| 0 <= g < g1.len() ==> same_section(g2[g]@[s2[g]], #[trigger] g1[g]@[t[g]]),
        0 <= gs < g1.len(),
        cand_before(g1[gs]@, s1[gs], t[gs]),
        forall|h: int| 0 <= h < g1.len() && #[trigger] group_before(g1, h, gs) ==> t[h] == s1[h],
    ensures
        sel_before(g2, u, s2),
{
    assert(same_section(g1[gs]@[s1[gs]], g2[gs]@[u[gs]]));
    assert(same_section(g2[gs]@[s2[gs]], g1[gs]@[t[gs]]));
    lemma_cand_before_asym(g1[gs]@, s1[gs], t[gs]);
    if u[gs] == s2[gs] {
        assert(order_key(g1[gs]@[s1[gs]]) == order_key(g1[gs]@[t[gs]]));
        lemma_key_pick(g1, gs, s1[gs], t[gs]);
    }
    assert(cand_before(g2[gs]@, u[gs], s2[gs]));
    assert forall|h: int| 0 <= h < g2.len() && #[trigger] group_before(g2, h, gs) implies u[h] == s2[h] by {
        assert(g1[h].len() == g2[h].len() && g1[gs].len() == g2[gs].len());
        assert(group_before(g1, h, gs));
        assert(same_section(g1[h]@[s1[h]], g2[h]@[u[h]]));
        assert(same_section(g2[h]@[s2[h]], g1[h]@[t[h]]));
        lemma_key_pick(g2, h, u[h], s2[h]);
    }
}

/// The answer of the selection does not depend on the order of the candidates inside
/// each group: for groups holding the same candidates (with pairwise different keys),
/// the first selections pick the same sections.
pub proof fn lemma_selection_order_free(g1: Seq<Vec<Seccion>>, g2: Seq<Vec<Seccion>>, s1: Seq<int>, s2: Seq<int>)
    requires
        same_candidates(g1, g2),
        first_selection(g1, s1),
        first_selection(g2, s2),
    ensures
        forall|g: int| 0 <= g < g1.len() ==> same_section(#[trigger] g1[g]@[s1[g]], g2[g]@[s2[g]]),
{
    assert(valid_selection(g1, s1) && valid_selection(g2, s2)) by {
        reveal(first_selection);
    }
    assert(g1.len() == g2.len()) by {
        reveal(found_in);
    }
    lemma_carried(g2, g1, s2);
    lemma_carried(g1, g2, s1);
    let t = carried(g2, g1, s2);
    let u = carried(g1, g2, s1);
    let d = |g: int| s1[g] != t[g];
    if exists|g: int| 0 <= g < g1.len() && #[trigger] d(g) {
        let g0 = choose|g: int| 0 <= g < g1.len() && #[trigger] d(g);
        let gs = lemma_first_group(g1, d, g0);
        let ka = order_key(g1[gs]@[s1[gs]]);
        let kb = order_key(g1[gs]@[t[gs]]);
        assert(ka != kb);
        lemma_seq_le_total(ka, kb);
        assert forall|h: int| 0 <= h < g1.len() && #[trigger] group_before(g1, h, gs) implies t[h] == s1[h] by {
            assert(!d(h));
        }
        if seq_le(kb, ka) {
            assert(cand_before(g1[gs]@, t[gs], s1[gs]));
            assert(sel_before(g1, t, s1));
            assert(false) by {
                reveal(first_selection);
            }
        } else {
            assert(cand_before(g1[gs]@, s1[gs], t[gs]));
            lemma_carried_before(g1, g2, s1, s2, t, u, gs);
            assert(false) by {
                reveal(first_selection);
            }
        }
    }
    assert forall|g: int| 0 <= g < g1.len() implies same_section(#[trigger] g1[g]@[s1[g]], g2[g]@[s2[g]]) by {
        assert(!d(g));
        assert(same_section(g2[g]@[s2[g]], g1[g]@[t[g]]));
    }
}

/// Chooses exactly one section from each group of candidates so that no two chosen
/// sections share a timetable slot. Candidates are tried in the order of their key
/// `codigo_box::codigo::seccion`, groups with fewer candidates first; the first
/// assignment found is returned, or `None` when none exists. No valid assignment comes
/// before the one returned in that search order (see `sel_before`).
pub fn select_non_conflicting_sections(candidate_groups: &Vec<Vec<Seccion>>) -> (r: Option<Vec<Seccion>>)
    requires
        groups_fit(candidate_groups@),
    ensures
        r is Some <==> selectable(candidate_groups@),
        match r {
            Some(out) => {
                &&& out.len() == candidate_groups.len()
                &&& forall|g: int| 0 <= g < out.len() ==> picked_from(#[trigger] out@[g], candidate_groups@[g]@)
                &&& forall|g1: int, g2: int|
                    0 <= g1 < out.len() && 0 <= g2 < out.len() && g1 != g2 ==> compat(
                        (#[trigger] out@[g1]).horario@,
                        (#[trigger] out@[g2]).horario@,
                    )
            },
            None => true,
        },
        match r {
            Some(out) => exists|sel: Seq<int>| valid_selection(candidate_groups@, sel)
                && (forall|g: int| 0 <= g < out.len() ==> same_section(#[trigger] out@[g], candidate_groups@[g]@[sel[g]]))
                && forall|s2: Seq<int>| #[trigger] valid_selection(candidate_groups@, s2)
                    ==> !sel_before(candidate_groups@, s2, sel),
            None => true,
        },
{
    let groups = candidate_groups;
    let m = groups.len();
    let mut lists: Vec<Vec<usize>> = Vec::new();
    let mut g: usize = 0;
    while g < m
        invariant
            g <= m == groups.len(),
            lists.len() == g,
            forall|a: int, k: int|
                0 <= a < lists.len() && 0 <= k < lists@[a].len() ==> #[trigger] lists@[a]@[k] < groups@[a].len(),
            forall|a: int, j: int|
                0 <= a < lists.len() && 0 <= j < groups@[a].len() ==> #[trigger] lists@[a]@.contains(j as usize),
            forall|a: int| 0 <= a < lists.len() ==> (#[trigger] lists@[a])@.no_duplicates(),
            forall|a: int, x: int, y: int| 0 <= a < lists.len() && 0 <= x < y < lists@[a].len()
                ==> cand_before(groups@[a]@, #[trigger] lists@[a]@[x] as int, #[trigger] lists@[a]@[y] as int),
        decreases m - g,
    {
        let l = sorted_positions(&groups[g]);
        lists.push(l);
        g = g + 1;
    }
    let order = group_order(groups);
    let mut assign: Vec<usize> = Vec::new();
    let mut z: usize = 0;
    while z < m
        invariant
            z <= m,
            assign.len() == z,
        decreases m - z,
    {
        assign.push(0);
        z = z + 1;
    }
    let ghost a_init = assign@;
    if backtrack(0, &order, groups, &lists, &mut assign) {
        let ghost sel = as_sel(assign@);
        let mut out: Vec<Seccion> = Vec::new();
        let mut q: usize = 0;
        while q < m
            invariant
                q <= m == groups.len() == assign.len(),
                sel == as_sel(assign@),
                valid_selection(groups@, sel),
                out.len() == q,
                forall|a: int| 0 <= a < q ==> same_section(#[trigger] out@[a], groups@[a]@[sel[a]]),
            decreases m - q,
        {
            assert(0 <= sel[q as int] < groups@[q as int].len());
            let s = groups[q][assign[q]].duplicate();
            out.push(s);
            q = q + 1;
        }
        proof {
            assert forall|s2: Seq<int>| #[trigger] valid_selection(groups@, s2) implies !sel_before(groups@, s2, sel) by {
                assert(agrees(s2, a_init, order@, 0));
                if sel_before(groups@, s2, sel) {
                    let g = choose|g: int| 0 <= g < groups@.len() && #[trigger] cand_before(groups@[g]@, s2[g], sel[g])
                        && forall|h: int| 0 <= h < groups@.len() && #[trigger] group_before(groups@, h, g) ==> s2[h] == sel[h];
                    assert(order@.contains(g as usize));
                    let p = choose|p: int| 0 <= p < order@.len() && order@[p] == g as usize;
                    assert forall|k: int| 0 <= k < p implies s2[#[trigger] order@[k] as int] == sel[order@[k] as int] by {
                        assert(group_before(groups@, order@[k] as int, order@[p] as int));
                    }
                    lemma_cand_before_asym(groups@[g]@, s2[g], sel[g]);
                    let l = lists@[g]@;
                    assert(l.contains(s2[g] as usize));
                    assert(l.contains(sel[g] as usize));
                    let q1 = choose|q: int| 0 <= q < l.len() && l[q] == s2[g] as usize;
                    let q2 = choose|q: int| 0 <= q < l.len() && l[q] == sel[g] as usize;
                    if q2 < q1 {
                        assert(cand_before(groups@[g]@, l[q2] as int, l[q1] as int));
                    }
                    assert(q1 != q2);
                    assert(ranked_before(l, s2[g], sel[g]));
                    assert(ranked_before(lists@[order@[p] as int]@, s2[order@[p] as int], sel[order@[p] as int]));
                    assert(lex_from(lists@, order@, s2, sel, 0));
                }
            }
            assert(selectable(groups@));
            assert forall|a: int| 0 <= a < out.len() implies picked_from(#[trigger] out@[a], candidate_groups@[a]@) by {
                assert(same_section(out@[a], groups@[a]@[sel[a]]));
            }
            assert forall|g1: int, g2: int|
                0 <= g1 < out.len() && 0 <= g2 < out.len() && g1 != g2 implies compat(
                (#[trigger] out@[g1]).horario@,
                (#[trigger] out@[g2]).horario@,
            ) by {
                assert(same_section(out@[g1], groups@[g1]@[sel[g1]]));
                assert(same_section(out@[g2], groups@[g2]@[sel[g2]]));
            }
        }
        assert(out.len() == candidate_groups.len());
        assert(forall|g1: int, g2: int|
                    0 <= g1 < out.len() && 0 <= g2 < out.len() && g1 != g2 ==> compat(
                        (#[trigger] out@[g1]).horario@,
                        (#[trigger] out@[g2]).horario@,
                    ));
        assert(selectable(candidate_groups@));
        Some(out)
    } else {
        proof {
            assert forall|sel: Seq<int>| !valid_selection(groups@, sel) by {
                if valid_selection(groups@, sel) {
                    assert(agrees(sel, a_init, order@, 0));
                }
            }
        }
        None
    }
}

} // verus!
