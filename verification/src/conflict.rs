//! Conflicts between timetables: identical slots, minimum gaps between classes,
//! containment of sections in ranges and overlap with forbidden blocks.
use vstd::prelude::*;
use crate::text::chars_of;
use crate::horario::{dayless_range, dayless_times, expand_entry, expand_fits, expand_horario_entry, flex_hm, hm_fits, hm_minutes, parse_slots_chars, slots_fit, slots_of, to_min_opt};
use crate::models::Seccion;

verus! {

/// A (day, start minute, end minute) slot.
pub type SlotView = (Seq<char>, i32, i32);

/// All slots of a list of timetable entries, in order.
pub open spec fn all_slots(hs: Seq<String>) -> Seq<SlotView>
    decreases hs.len(),
{
    if hs.len() == 0 {
        Seq::empty()
    } else {
        all_slots(hs.drop_last()) + slots_of(hs.last()@)
    }
}

/// Whether every entry parses within `i32` arithmetic.
pub open spec fn all_fit(hs: Seq<String>) -> bool {
    forall|i: int| 0 <= i < hs.len() ==> slots_fit(#[trigger] hs[i]@)
}

/// Collects the slots of every entry of `hs`.
pub fn collect_slots(hs: &[String]) -> (r: Vec<(String, i32, i32)>)
    requires
        all_fit(hs@),
    ensures
        r.deep_view() == all_slots(hs@),
{
    let mut out: Vec<(String, i32, i32)> = Vec::new();
    let mut i: usize = 0;
    while i < hs.len()
        invariant
            i <= hs.len(),
            all_fit(hs@),
            out.deep_view() == all_slots(hs@.subrange(0, i as int)),
        decreases hs.len() - i,
    {
        assert(hs@.subrange(0, i + 1).drop_last() =~= hs@.subrange(0, i as int));
        assert(slots_fit(hs@[i as int]@));
        let piece = parse_slots_chars(&chars_of(hs[i].as_str()));
        let ghost o0 = out.deep_view();
        let mut k: usize = 0;
        while k < piece.len()
            invariant
                k <= piece.len(),
                out.deep_view() == o0 + piece.deep_view().subrange(0, k as int),
            decreases piece.len() - k,
        {
            let t = (piece[k].0.clone(), piece[k].1, piece[k].2);
            let ghost od = out.deep_view();
            out.push(t);
            assert(out.deep_view() =~= od.push(piece.deep_view()[k as int]));
            k = k + 1;
            assert(out.deep_view() =~= o0 + piece.deep_view().subrange(0, k as int));
        }
        assert(piece.deep_view().subrange(0, piece.len() as int) =~= piece.deep_view());
        i = i + 1;
    }
    assert(hs@.subrange(0, hs.len() as int) =~= hs@);
    out
}

/// Two slot lists share a slot: same day, same start and same end.
pub open spec fn share_slot(a: Seq<SlotView>, b: Seq<SlotView>) -> bool {
    exists|i: int, j: int| 0 <= i < a.len() && 0 <= j < b.len() && #[trigger] a[i] == #[trigger] b[j]
}

/// True when some slot of `horario1` is exactly a slot of `horario2` (same day, start and
/// end); overlapping but different slots on one day are allowed.
pub fn horarios_tienen_conflicto(horario1: &[String], horario2: &[String]) -> (r: bool)
    requires
        all_fit(horario1@),
        all_fit(horario2@),
    ensures
        r == share_slot(all_slots(horario1@), all_slots(horario2@)),
{
    let s1 = collect_slots(horario1);
    let s2 = collect_slots(horario2);
    let ghost a = s1.deep_view();
    let ghost b = s2.deep_view();
    let mut i: usize = 0;
    while i < s1.len()
        invariant
            i <= s1.len(),
            a == s1.deep_view(),
            b == s2.deep_view(),
            a == all_slots(horario1@),
            b == all_slots(horario2@),
            forall|x: int, y: int| 0 <= x < i && 0 <= y < b.len() ==> a[x] != b[y],
        decreases s1.len() - i,
    {
        let mut j: usize = 0;
        while j < s2.len()
            invariant
                i < s1.len(),
                j <= s2.len(),
                a == s1.deep_view(),
                b == s2.deep_view(),
                a == all_slots(horario1@),
                b == all_slots(horario2@),
                forall|x: int, y: int| 0 <= x < i && 0 <= y < b.len() ==> a[x] != b[y],
                forall|y: int| 0 <= y < j ==> a[i as int] != b[y],
            decreases s2.len() - j,
        {
            if s1[i].0 == s2[j].0 && s1[i].1 == s2[j].1 && s1[i].2 == s2[j].2 {
                assert(a[i as int] == b[j as int]);
                return true;
            }
            assert(a[i as int] != b[j as int]);
            j = j + 1;
        }
        i = i + 1;
    }
    false
}

/// Sharing a slot is symmetric: `horarios_tienen_conflicto(a, b) == horarios_tienen_conflicto(b, a)`.
pub proof fn lemma_conflicto_simetrico(a: Seq<String>, b: Seq<String>)
    ensures
        share_slot(all_slots(a), all_slots(b)) == share_slot(all_slots(b), all_slots(a)),
{
    let sa = all_slots(a);
    let sb = all_slots(b);
    if share_slot(sa, sb) {
        let (i, j) = choose|i: int, j: int| 0 <= i < sa.len() && 0 <= j < sb.len() && sa[i] == sb[j];
        assert(sb[j] == sa[i]);
    }
    if share_slot(sb, sa) {
        let (i, j) = choose|i: int, j: int| 0 <= i < sb.len() && 0 <= j < sa.len() && sb[i] == sa[j];
        assert(sa[j] == sb[i]);
    }
}

/// Whether `[a0, a1)` and `[b0, b1)` overlap.
pub open spec fn overlap(a0: int, a1: int, b0: int, b1: int) -> bool {
    a0 < b1 && b0 < a1
}

/// Minutes between two blocks of one day; 0 when they overlap.
pub open spec fn gap(s1: int, e1: int, s2: int, e2: int) -> int {
    if e1 <= s2 {
        s2 - e1
    } else if e2 <= s1 {
        s1 - e2
    } else {
        0
    }
}

/// Two slots on the same day overlap or are closer than `min` minutes.
pub open spec fn too_close(x: SlotView, y: SlotView, min: int) -> bool {
    x.0 == y.0 && (overlap(x.1 as int, x.2 as int, y.1 as int, y.2 as int) || gap(
        x.1 as int,
        x.2 as int,
        y.1 as int,
        y.2 as int,
    ) < min)
}

/// Some pair of slots of `a` and `b` is too close.
pub open spec fn any_too_close(a: Seq<SlotView>, b: Seq<SlotView>, min: int) -> bool {
    exists|i: int, j: int|
        0 <= i < a.len() && 0 <= j < b.len() && too_close(#[trigger] a[i], #[trigger] b[j], min)
}

/// True when on some day a block of `horario1` overlaps a block of `horario2` or lies
/// fewer than `min_minutes` minutes away from it.
pub fn horarios_violate_min_gap(horario1: &[String], horario2: &[String], min_minutes: i32) -> (r:
    bool)
    requires
        all_fit(horario1@),
        all_fit(horario2@),
    ensures
        r == any_too_close(all_slots(horario1@), all_slots(horario2@), min_minutes as int),
{
    let s1 = collect_slots(horario1);
    let s2 = collect_slots(horario2);
    let ghost a = s1.deep_view();
    let ghost b = s2.deep_view();
    let mut i: usize = 0;
    while i < s1.len()
        invariant
            i <= s1.len(),
            a == s1.deep_view(),
            b == s2.deep_view(),
            a == all_slots(horario1@),
            b == all_slots(horario2@),
            forall|x: int, y: int|
                0 <= x < i && 0 <= y < b.len() ==> !too_close(a[x], b[y], min_minutes as int),
        decreases s1.len() - i,
    {
        let mut j: usize = 0;
        while j < s2.len()
            invariant
                i < s1.len(),
                j <= s2.len(),
                a == s1.deep_view(),
                b == s2.deep_view(),
                a == all_slots(horario1@),
                b == all_slots(horario2@),
                forall|x: int, y: int|
                    0 <= x < i && 0 <= y < b.len() ==> !too_close(a[x], b[y], min_minutes as int),
                forall|y: int| 0 <= y < j ==> !too_close(a[i as int], b[y], min_minutes as int),
            decreases s2.len() - j,
        {
            if s1[i].0 == s2[j].0 {
                let (st1, en1) = (s1[i].1 as i64, s1[i].2 as i64);
                let (st2, en2) = (s2[j].1 as i64, s2[j].2 as i64);
                if st1 < en2 && st2 < en1 {
                    assert(too_close(a[i as int], b[j as int], min_minutes as int));
                    return true;
                }
                let g: i64 = if en1 <= st2 {
                    st2 - en1
                } else if en2 <= st1 {
                    st1 - en2
                } else {
                    0
                };
                if g < min_minutes as i64 {
                    assert(too_close(a[i as int], b[j as int], min_minutes as int));
                    return true;
                }
            }
            assert(!too_close(a[i as int], b[j as int], min_minutes as int));
            j = j + 1;
        }
        i = i + 1;
    }
    false
}

/// Whether the minute `m` falls inside some slot `[start, end)` of `slots`.
pub open spec fn covers_minute(slots: Seq<SlotView>, m: int) -> bool {
    exists|k: int| 0 <= k < slots.len() && (#[trigger] slots[k]).1 <= m < slots[k].2
}

/// Whether some block of the section contains the time `hora_prohibida` (e.g. `"08:30"`).
pub fn seccion_contiene_hora(seccion: &Seccion, hora_prohibida: &str) -> (r: bool)
    requires
        hm_fits(flex_hm(hora_prohibida@)),
        all_fit(seccion.horario@),
    ensures
        r == match hm_minutes(flex_hm(hora_prohibida@)) {
            Some(m) => covers_minute(all_slots(seccion.horario@), m as int),
            None => false,
        },
{
    let objetivo = match to_min_opt(&chars_of(hora_prohibida)) {
        Some(m) => m,
        None => return false,
    };
    let slots = collect_slots(seccion.horario.as_slice());
    let ghost sv = slots.deep_view();
    let mut k: usize = 0;
    while k < slots.len()
        invariant
            k <= slots.len(),
            sv == slots.deep_view(),
            sv == all_slots(seccion.horario@),
            hm_minutes(flex_hm(hora_prohibida@)) == Some(objetivo),
            forall|x: int| 0 <= x < k ==> !((#[trigger] sv[x]).1 <= objetivo < sv[x].2),
        decreases slots.len() - k,
    {
        if objetivo >= slots[k].1 && objetivo < slots[k].2 {
            assert(sv[k as int].1 <= objetivo < sv[k as int].2);
            assert(covers_minute(sv, objetivo as int));
            return true;
        }
        k = k + 1;
    }
    false
}

/// Slot `x` lies within a slot of `rs` on the same day.
pub open spec fn inside_some(x: SlotView, rs: Seq<SlotView>) -> bool {
    exists|k: int|
        0 <= k < rs.len() && (#[trigger] rs[k]).0 == x.0 && x.1 >= rs[k].1 && x.2 <= rs[k].2
}

/// Slot `x` lies within the range: within its times when the range names no day,
/// else within one of its slots on the same day.
pub open spec fn within_range(x: SlotView, rango: Seq<char>) -> bool {
    match dayless_times(rango) {
        Some((st, en)) => st <= x.1 && x.2 <= en,
        None => inside_some(x, slots_of(rango)),
    }
}

/// The section lies wholly inside the range: the range is readable (with days, or
/// times alone as in `"08:00-10:00"`), every entry of the section has slots, and each of
/// them lies within the range.
pub open spec fn contenida(horario: Seq<String>, rango: Seq<char>) -> bool {
    &&& (slots_of(rango).len() > 0 || dayless_times(rango) is Some)
    &&& forall|i: int|
        0 <= i < horario.len() ==> {
            let ss = slots_of(#[trigger] horario[i]@);
            &&& ss.len() > 0
            &&& forall|k: int| 0 <= k < ss.len() ==> within_range(#[trigger] ss[k], rango)
        }
}

/// Whether slot `x` lies within the range whose slots are `rs` and whose times, when it
/// names no day, are `dl`.
fn slot_within(x: &(String, i32, i32), rs: &Vec<(String, i32, i32)>, dl: Option<(i32, i32)>, rango: Ghost<Seq<char>>) -> (r: bool)
    requires
        rs.deep_view() == slots_of(rango@),
        dl == dayless_times(rango@),
    ensures
        r == within_range((x.0@, x.1, x.2), rango@),
{
    match dl {
        Some((st, en)) => st <= x.1 && x.2 <= en,
        None => {
            let ghost rv = rs.deep_view();
            let mut q: usize = 0;
            while q < rs.len()
                invariant
                    q <= rs.len(),
                    rv == rs.deep_view(),
                    rv == slots_of(rango@),
                    dayless_times(rango@) is None,
                    forall|z: int| 0 <= z < q ==> !(rv[z].0 == x.0@ && x.1 >= rv[z].1 && x.2 <= rv[z].2),
                decreases rs.len() - q,
            {
                assert(rv[q as int] == (rs@[q as int].0@, rs@[q as int].1, rs@[q as int].2));
                if rs[q].0 == x.0 && x.1 >= rs[q].1 && x.2 <= rs[q].2 {
                    assert(rv[q as int] == (rs@[q as int].0@, rs@[q as int].1, rs@[q as int].2));
                    assert(rv[q as int].0 == x.0@);
                    assert(inside_some((x.0@, x.1, x.2), rv));
                    return true;
                }
                q = q + 1;
            }
            false
        },
    }
}

/// True when the section lies wholly inside `rango` (e.g. `"LU 08:00-10:00"`, or
/// `"08:00-10:00"` for any day).
pub fn seccion_contenida_en_rango(seccion: &Seccion, rango: &str) -> (r: bool)
    requires
        slots_fit(rango@),
        all_fit(seccion.horario@),
    ensures
        r == contenida(seccion.horario@, rango@),
{
    let rc = chars_of(rango);
    let rs = parse_slots_chars(&rc);
    let dl = dayless_range(&rc);
    if rs.len() == 0 && dl.is_none() {
        assert(rs.deep_view().len() == 0);
        return false;
    }
    let hs = &seccion.horario;
    let mut i: usize = 0;
    while i < hs.len()
        invariant
            i <= hs.len(),
            hs@ == seccion.horario@,
            all_fit(hs@),
            rs.deep_view() == slots_of(rango@),
            dl == dayless_times(rango@),
            slots_of(rango@).len() > 0 || dayless_times(rango@) is Some,
            forall|x: int|
                0 <= x < i ==> {
                    let ss = slots_of(#[trigger] hs@[x]@);
                    &&& ss.len() > 0
                    &&& forall|k: int| 0 <= k < ss.len() ==> within_range(#[trigger] ss[k], rango@)
                },
        decreases hs.len() - i,
    {
        assert(slots_fit(hs@[i as int]@));
        let ss = parse_slots_chars(&chars_of(hs[i].as_str()));
        let ghost sv = ss.deep_view();
        if ss.len() == 0 {
            assert(slots_of(hs@[i as int]@).len() == 0);
            return false;
        }
        let mut k: usize = 0;
        while k < ss.len()
            invariant
                k <= ss.len(),
                i < hs.len(),
                hs@ == seccion.horario@,
                sv == ss.deep_view(),
                sv == slots_of(hs@[i as int]@),
                rs.deep_view() == slots_of(rango@),
                dl == dayless_times(rango@),
                forall|y: int| 0 <= y < k ==> within_range(#[trigger] sv[y], rango@),
            decreases ss.len() - k,
        {
            let w = slot_within(&ss[k], &rs, dl, Ghost(rango@));
            assert(sv[k as int] == (ss@[k as int].0@, ss@[k as int].1, ss@[k as int].2));
            if !w {
                assert(!contenida(seccion.horario@, rango@)) by {
                    let ss_i = slots_of(hs@[i as int]@);
                    assert(!within_range(ss_i[k as int], rango@));
                }
                return false;
            }
            k = k + 1;
        }
        i = i + 1;
    }
    true
}

/// Whether intervals `[a0, a1)` and `[b0, b1)` overlap.
pub fn intervals_overlap(a0: i32, a1: i32, b0: i32, b1: i32) -> (r: bool)
    ensures
        r == overlap(a0 as int, a1 as int, b0 as int, b1 as int),
{
    a0 < b1 && b0 < a1
}

/// Whether two (start, end) minute ranges overlap.
pub fn horas_se_solapan(a: &(i32, i32), b: &(i32, i32)) -> (r: bool)
    ensures
        r == overlap(a.0 as int, a.1 as int, b.0 as int, b.1 as int),
{
    intervals_overlap(a.0, a.1, b.0, b.1)
}

/// Overlap of intervals is symmetric.
pub proof fn lemma_overlap_simetrico(a0: int, a1: int, b0: int, b1: int)
    ensures
        overlap(a0, a1, b0, b1) == overlap(b0, b1, a0, a1),
{
}

/// All expanded segments of a list of entries, in order.
pub open spec fn all_expanded(hs: Seq<String>) -> Seq<SlotView>
    decreases hs.len(),
{
    if hs.len() == 0 {
        Seq::empty()
    } else {
        all_expanded(hs.drop_last()) + expand_entry(hs.last()@)
    }
}

/// Whether every entry expands within `i32` arithmetic.
pub open spec fn all_expand_fit(hs: Seq<String>) -> bool {
    forall|i: int| 0 <= i < hs.len() ==> expand_fits(#[trigger] hs[i]@)
}

/// Collects the expanded segments of every entry of `hs`.
pub fn collect_expanded(hs: &[String]) -> (r: Vec<(String, i32, i32)>)
    requires
        all_expand_fit(hs@),
    ensures
        r.deep_view() == all_expanded(hs@),
{
    let mut out: Vec<(String, i32, i32)> = Vec::new();
    let mut i: usize = 0;
    while i < hs.len()
        invariant
            i <= hs.len(),
            all_expand_fit(hs@),
            out.deep_view() == all_expanded(hs@.subrange(0, i as int)),
        decreases hs.len() - i,
    {
        assert(hs@.subrange(0, i + 1).drop_last() =~= hs@.subrange(0, i as int));
        assert(expand_fits(hs@[i as int]@));
        let piece = expand_horario_entry(&chars_of(hs[i].as_str()));
        let ghost o0 = out.deep_view();
        let mut k: usize = 0;
        while k < piece.len()
            invariant
                k <= piece.len(),
                out.deep_view() == o0 + piece.deep_view().subrange(0, k as int),
            decreases piece.len() - k,
        {
            let t = (piece[k].0.clone(), piece[k].1, piece[k].2);
            let ghost od = out.deep_view();
            out.push(t);
            assert(out.deep_view() =~= od.push(piece.deep_view()[k as int]));
            k = k + 1;
            assert(out.deep_view() =~= o0 + piece.deep_view().subrange(0, k as int));
        }
        assert(piece.deep_view().subrange(0, piece.len() as int) =~= piece.deep_view());
        i = i + 1;
    }
    assert(hs@.subrange(0, hs.len() as int) =~= hs@);
    out
}

/// Some segment of `a` overlaps a segment of `b` on the same day.
pub open spec fn any_overlap(a: Seq<SlotView>, b: Seq<SlotView>) -> bool {
    exists|i: int, j: int|
        0 <= i < a.len() && 0 <= j < b.len() && (#[trigger] a[i]).0 == (#[trigger] b[j]).0
            && overlap(a[i].1 as int, a[i].2 as int, b[j].1 as int, b[j].2 as int)
}

/// True when some block of `horarios_actuales` overlaps a forbidden block on the same
/// day; entries look like `"LU JU 14:30 - 15:50"`.
pub fn solapan_horarios(horarios_actuales: &[String], franjas_prohibidas: &[String]) -> (r: bool)
    requires
        all_expand_fit(horarios_actuales@),
        all_expand_fit(franjas_prohibidas@),
    ensures
        r == any_overlap(all_expanded(horarios_actuales@), all_expanded(franjas_prohibidas@)),
{
    let prohibidos = collect_expanded(franjas_prohibidas);
    let ghost b = prohibidos.deep_view();
    if prohibidos.len() == 0 {
        return false;
    }
    let segs = collect_expanded(horarios_actuales);
    let ghost a = segs.deep_view();
    let mut i: usize = 0;
    while i < segs.len()
        invariant
            i <= segs.len(),
            a == segs.deep_view(),
            b == prohibidos.deep_view(),
            a == all_expanded(horarios_actuales@),
            b == all_expanded(franjas_prohibidas@),
            forall|x: int, y: int|
                0 <= x < i && 0 <= y < b.len() ==> !(a[x].0 == b[y].0 && overlap(
                    a[x].1 as int,
                    a[x].2 as int,
                    b[y].1 as int,
                    b[y].2 as int,
                )),
        decreases segs.len() - i,
    {
        let mut j: usize = 0;
        while j < prohibidos.len()
            invariant
                i < segs.len(),
                j <= prohibidos.len(),
                a == segs.deep_view(),
                b == prohibidos.deep_view(),
                a == all_expanded(horarios_actuales@),
                b == all_expanded(franjas_prohibidas@),
                forall|x: int, y: int|
                    0 <= x < i && 0 <= y < b.len() ==> !(a[x].0 == b[y].0 && overlap(
                        a[x].1 as int,
                        a[x].2 as int,
                        b[y].1 as int,
                        b[y].2 as int,
                    )),
                forall|y: int|
                    0 <= y < j ==> !(a[i as int].0 == b[y].0 && overlap(
                        a[i as int].1 as int,
                        a[i as int].2 as int,
                        b[y].1 as int,
                        b[y].2 as int,
                    )),
            decreases prohibidos.len() - j,
        {
            if segs[i].0 == prohibidos[j].0 && intervals_overlap(
                segs[i].1,
                segs[i].2,
                prohibidos[j].1,
                prohibidos[j].2,
            ) {
                assert(a[i as int].0 == b[j as int].0);
                return true;
            }
            j = j + 1;
        }
        i = i + 1;
    }
    false
}

/// Same as `solapan_horarios`, under the name other modules use.
pub fn solapan_horarios_franja(horarios_actuales: &[String], franjas_prohibidas: &[String]) -> (r:
    bool)
    requires
        all_expand_fit(horarios_actuales@),
        all_expand_fit(franjas_prohibidas@),
    ensures
        r == any_overlap(all_expanded(horarios_actuales@), all_expanded(franjas_prohibidas@)),
{
    solapan_horarios(horarios_actuales, franjas_prohibidas)
}

} // verus!
