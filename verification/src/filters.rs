//! User filters applied to candidate timetables: forbidden time blocks, sections
//! without a timetable, and teachers to avoid.
use vstd::prelude::*;
use crate::models::{Seccion, UserFilters, DiaHorariosLibres, PreferenciasProfesores, VentanaEntreActividades};
use crate::conflict::{all_expand_fit, all_expanded, any_overlap, solapan_horarios_franja};
use crate::text::{chars_of, chars_eq, contains_seq, contains_sub, lit, lower_of, to_lower};

verus! {

/// A candidate timetable: chosen sections with their priorities, and its score.
pub type Solution = (Vec<(Seccion, i32)>, i64);

/// Whether a section has no usable timetable: no entry, or an entry that says
/// "sin" ("sin horario") in any case.
pub open spec fn sin_horario(sec: Seccion) -> bool {
    sec.horario@.len() == 0 || exists|h: int| 0 <= h < sec.horario@.len() && contains_seq(lower_of(#[trigger] sec.horario@[h]@), "sin"@)
}

/// Filter 3 on one timetable: no section overlaps a forbidden block, and, when asked,
/// no section lacks a timetable.
pub open spec fn passes_dias(sol: Seq<(Seccion, i32)>, f: DiaHorariosLibres) -> bool {
    &&& (f.franjas_prohibidas matches Some(fr) ==> forall|k: int| 0 <= k < sol.len() ==> !any_overlap(
        all_expanded((#[trigger] sol[k]).0.horario@),
        all_expanded(fr@),
    ))
    &&& (f.no_sin_horario == Some(true) ==> forall|k: int| 0 <= k < sol.len() ==> !sin_horario((#[trigger] sol[k]).0))
}

/// Whether the lower-cased teacher `p` is one of the avoided teachers, lower-cased.
pub open spec fn avoided(p: Seq<char>, evitar: Seq<String>) -> bool {
    p.len() > 0 && exists|e: int| 0 <= e < evitar.len() && #[trigger] lower_of(evitar[e]@) == p
}

/// The avoided teachers of filter 5 (none when absent).
pub open spec fn evitar_of(f: PreferenciasProfesores) -> Seq<String> {
    match f.profesores_evitar {
        Some(v) => v@,
        None => Seq::empty(),
    }
}

/// Filter 5 on one timetable: no section is taught by an avoided teacher.
pub open spec fn passes_prof(sol: Seq<(Seccion, i32)>, f: PreferenciasProfesores) -> bool {
    forall|k: int| 0 <= k < sol.len() ==> !avoided(lower_of((#[trigger] sol[k]).0.profesor@), evitar_of(f))
}

/// Whether a timetable passes every enabled filter.
pub open spec fn passes_all(sol: Seq<(Seccion, i32)>, filtros: Option<UserFilters>) -> bool {
    match filtros {
        None => true,
        Some(f) => {
            &&& (f.dias_horarios_libres matches Some(d) ==> (d.habilitado ==> passes_dias(sol, d)))
            &&& (f.preferencias_profesores matches Some(p) ==> (p.habilitado ==> passes_prof(sol, p)))
        },
    }
}

/// The timetables of `sols` that pass every enabled filter, in order.
pub open spec fn kept(sols: Seq<Solution>, filtros: Option<UserFilters>) -> Seq<Solution>
    decreases sols.len(),
{
    if sols.len() == 0 {
        Seq::empty()
    } else if passes_all(sols.last().0@, filtros) {
        kept(sols.drop_last(), filtros).push(sols.last())
    } else {
        kept(sols.drop_last(), filtros)
    }
}

/// The forbidden blocks of an enabled filter 3, if any.
pub open spec fn active_blocks(filtros: Option<UserFilters>) -> Option<Vec<String>> {
    match filtros {
        Some(f) => match f.dias_horarios_libres {
            Some(d) => if d.habilitado {
                d.franjas_prohibidas
            } else {
                None
            },
            None => None,
        },
        None => None,
    }
}

/// Every timetable entry that the forbidden-block filter reads parses within `i32`.
pub open spec fn filters_fit(sols: Seq<Solution>, filtros: Option<UserFilters>) -> bool {
    active_blocks(filtros) matches Some(fr) ==> {
        &&& all_expand_fit(fr@)
        &&& forall|i: int, k: int| 0 <= i < sols.len() && 0 <= k < sols[i].0@.len() ==> all_expand_fit(
            (#[trigger] sols[i].0@[k]).0.horario@,
        )
    }
}

fn sin_horario_exec(sec: &Seccion) -> (r: bool)
    ensures
        r == sin_horario(*sec),
{
    if sec.horario.len() == 0 {
        return true;
    }
    let sin = lit("sin");
    let mut h: usize = 0;
    while h < sec.horario.len()
        invariant
            h <= sec.horario.len(),
            sin@ == "sin"@,
            forall|j: int| 0 <= j < h ==> !contains_seq(lower_of(#[trigger] sec.horario@[j]@), "sin"@),
        decreases sec.horario.len() - h,
    {
        if contains_sub(&to_lower(&chars_of(sec.horario[h].as_str())), &sin) {
            return true;
        }
        h = h + 1;
    }
    false
}

/// Filter 3: forbidden blocks and sections without a timetable.
fn filtro_dias_horarios_libres(solucion: &Vec<(Seccion, i32)>, filtro: &DiaHorariosLibres) -> (r: bool)
    requires
        filtro.franjas_prohibidas matches Some(fr) ==> {
            &&& all_expand_fit(fr@)
            &&& forall|k: int| 0 <= k < solucion.len() ==> all_expand_fit((#[trigger] solucion@[k]).0.horario@)
        },
    ensures
        r == passes_dias(solucion@, *filtro),
{
    if let Some(fr) = &filtro.franjas_prohibidas {
        let mut k: usize = 0;
        while k < solucion.len()
            invariant
                k <= solucion.len(),
                filtro.franjas_prohibidas == Some(*fr),
                all_expand_fit(fr@),
                forall|j: int| 0 <= j < solucion.len() ==> all_expand_fit((#[trigger] solucion@[j]).0.horario@),
                forall|j: int| 0 <= j < k ==> !any_overlap(all_expanded((#[trigger] solucion@[j]).0.horario@), all_expanded(fr@)),
            decreases solucion.len() - k,
        {
            if solapan_horarios_franja(solucion[k].0.horario.as_slice(), fr.as_slice()) {
                assert(any_overlap(all_expanded(solucion@[k as int].0.horario@), all_expanded(fr@)));
                assert(!passes_dias(solucion@, *filtro));
                return false;
            }
            k = k + 1;
        }
    }
    if filtro.no_sin_horario == Some(true) {
        let mut k: usize = 0;
        while k < solucion.len()
            invariant
                k <= solucion.len(),
                filtro.no_sin_horario == Some(true),
                forall|j: int| 0 <= j < k ==> !sin_horario((#[trigger] solucion@[j]).0),
            decreases solucion.len() - k,
        {
            if sin_horario_exec(&solucion[k].0) {
                assert(sin_horario(solucion@[k as int].0));
                assert(!passes_dias(solucion@, *filtro));
                return false;
            }
            k = k + 1;
        }
    }
    true
}

/// Filter 5: no section taught by an avoided teacher (compared lower-cased).
fn filtro_preferencias_profesores(solucion: &Vec<(Seccion, i32)>, filtro: &PreferenciasProfesores) -> (r: bool)
    ensures
        r == passes_prof(solucion@, *filtro),
{
    let mut evitar: Vec<Vec<char>> = Vec::new();
    if let Some(v) = &filtro.profesores_evitar {
        let mut e: usize = 0;
        while e < v.len()
            invariant
                e <= v.len(),
                evitar_of(*filtro) == v@,
                evitar.len() == e,
                forall|j: int| 0 <= j < e ==> (#[trigger] evitar@[j])@ == lower_of(v@[j]@),
            decreases v.len() - e,
        {
            evitar.push(to_lower(&chars_of(v[e].as_str())));
            e = e + 1;
        }
    }
    let ghost ev = evitar_of(*filtro);
    assert(evitar.len() == ev.len());
    assert(forall|j: int| 0 <= j < ev.len() ==> (#[trigger] evitar@[j])@ == lower_of(ev[j]@));
    let mut k: usize = 0;
    while k < solucion.len()
        invariant
            k <= solucion.len(),
            evitar.len() == ev.len(),
            forall|j: int| 0 <= j < ev.len() ==> (#[trigger] evitar@[j])@ == lower_of(ev[j]@),
            ev == evitar_of(*filtro),
            forall|j: int| 0 <= j < k ==> !avoided(lower_of((#[trigger] solucion@[j]).0.profesor@), ev),
        decreases solucion.len() - k,
    {
        let p = to_lower(&chars_of(solucion[k].0.profesor.as_str()));
        if p.len() > 0 {
            let mut e: usize = 0;
            while e < evitar.len()
                invariant
                    e <= evitar.len() == ev.len(),
                    k < solucion.len(),
                    ev == evitar_of(*filtro),
                    p@ == lower_of(solucion@[k as int].0.profesor@),
                    p.len() > 0,
                    forall|j: int| 0 <= j < ev.len() ==> (#[trigger] evitar@[j])@ == lower_of(ev[j]@),
                    forall|j: int| 0 <= j < e ==> #[trigger] lower_of(ev[j]@) != p@,
                decreases evitar.len() - e,
            {
                if chars_eq(&evitar[e], &p) {
                    assert(lower_of(ev[e as int]@) == p@);
                    assert(p@ == lower_of(solucion@[k as int].0.profesor@));
                    assert(avoided(lower_of(solucion@[k as int].0.profesor@), ev));
                    return false;
                }
                e = e + 1;
            }
        }
        k = k + 1;
    }
    true
}

/// Filter 4 on one timetable, the gap between activities: every timetable passes it.
pub fn filtro_ventana_entre_actividades(solucion: &Vec<(Seccion, i32)>, filtro: &VentanaEntreActividades) -> (r: bool)
    ensures
        r,
{
    true
}

fn passes_all_exec(sol: &Vec<(Seccion, i32)>, filtros: &Option<UserFilters>) -> (r: bool)
    requires
        active_blocks(*filtros) matches Some(fr) ==> {
            &&& all_expand_fit(fr@)
            &&& forall|k: int| 0 <= k < sol.len() ==> all_expand_fit((#[trigger] sol@[k]).0.horario@)
        },
    ensures
        r == passes_all(sol@, *filtros),
{
    match filtros {
        None => true,
        Some(f) => {
            if let Some(d) = &f.dias_horarios_libres {
                if d.habilitado && !filtro_dias_horarios_libres(sol, d) {
                    return false;
                }
            }
            if let Some(v) = &f.ventana_entre_actividades {
                if v.habilitado && !filtro_ventana_entre_actividades(sol, v) {
                    return false;
                }
            }
            if let Some(p) = &f.preferencias_profesores {
                if p.habilitado && !filtro_preferencias_profesores(sol, p) {
                    return false;
                }
            }
            true
        },
    }
}

/// Keeps the timetables that pass every enabled filter, in their order: no section
/// overlapping a forbidden block, none without a timetable when that is asked, none
/// taught by a teacher to avoid. The gap filter keeps every timetable. Without
/// filters every timetable is kept.
pub fn apply_all_filters(soluciones: Vec<Solution>, filtros: &Option<UserFilters>) -> (r: Vec<Solution>)
    requires
        filters_fit(soluciones@, *filtros),
    ensures
        r@ == kept(soluciones@, *filtros),
{
    let ghost all = soluciones@;
    let mut rest = soluciones;
    let mut back: Vec<Solution> = Vec::new();
    // Take the timetables from the end, keeping those that pass.
    while rest.len() > 0
        invariant
            rest@ == all.subrange(0, rest.len() as int),
            filters_fit(all, *filtros),
            rest.len() <= all.len(),
            kept(all, *filtros) == kept(rest@, *filtros) + back@.reverse(),
        decreases rest.len(),
    {
        let ghost r0 = rest@;
        let ghost b0 = back@;
        let s = rest.pop().unwrap();
        assert(r0.last() == s);
        assert(r0.drop_last() == rest@);
        assert(all[rest.len() as int] == s);
        let ok = passes_all_exec(&s.0, filtros);
        if ok {
            back.push(s);
            assert(back@.reverse() =~= seq![s] + b0.reverse());
            assert(kept(r0, *filtros) == kept(rest@, *filtros).push(s));
            assert(kept(rest@, *filtros).push(s) + b0.reverse() =~= kept(rest@, *filtros) + back@.reverse());
        }
    }
    assert(kept(rest@, *filtros) == Seq::<Solution>::empty());
    let mut out: Vec<Solution> = Vec::new();
    let ghost target = back@.reverse();
    assert(kept(all, *filtros) =~= target);
    while back.len() > 0
        invariant
            out@ + back@.reverse() == target,
        decreases back.len(),
    {
        let ghost b0 = back@;
        let s = back.pop().unwrap();
        assert(b0.reverse() =~= seq![s] + back@.reverse());
        out.push(s);
        assert(out@ + back@.reverse() =~= target);
    }
    assert(back@.reverse() =~= Seq::<Solution>::empty());
    assert(out@ =~= target);
    out
}


/// The timetables that `kept` keeps all pass the filters.
proof fn lemma_kept_passes(sols: Seq<Solution>, filtros: Option<UserFilters>)
    ensures
        forall|i: int| 0 <= i < kept(sols, filtros).len() ==> passes_all((#[trigger] kept(sols, filtros)[i]).0@, filtros),
    decreases sols.len(),
{
    if sols.len() > 0 {
        lemma_kept_passes(sols.drop_last(), filtros);
        let p = kept(sols.drop_last(), filtros);
        assert forall|i: int| 0 <= i < kept(sols, filtros).len() implies passes_all((#[trigger] kept(sols, filtros)[i]).0@, filtros) by {
            if i < p.len() {
                assert(kept(sols, filtros)[i] == p[i]);
            }
        }
    }
}

/// Keeping only the timetables that pass every timetable of the list leaves it unchanged.
proof fn lemma_kept_all(sols: Seq<Solution>, filtros: Option<UserFilters>)
    requires
        forall|i: int| 0 <= i < sols.len() ==> passes_all((#[trigger] sols[i]).0@, filtros),
    ensures
        kept(sols, filtros) == sols,
    decreases sols.len(),
{
    if sols.len() > 0 {
        lemma_kept_all(sols.drop_last(), filtros);
        assert(sols.drop_last().push(sols.last()) =~= sols);
        assert(sols[sols.len() - 1] == sols.last());
    }
}

/// Filtering twice gives what filtering once gives.
pub proof fn lemma_filters_idempotent(sols: Seq<Solution>, filtros: Option<UserFilters>)
    ensures
        kept(kept(sols, filtros), filtros) == kept(sols, filtros),
{
    lemma_kept_passes(sols, filtros);
    lemma_kept_all(kept(sols, filtros), filtros);
}

/// With the teacher filter enabled, no timetable that is kept has a section, at any
/// position, whose lower-cased teacher is non-empty and equals one of the avoided
/// teachers lower-cased.
pub proof fn lemma_kept_avoids_teachers(
    sols: Seq<Solution>,
    f: UserFilters,
    p: PreferenciasProfesores,
    i: int,
    k: int,
)
    requires
        f.preferencias_profesores == Some(p),
        p.habilitado,
        0 <= i < kept(sols, Some(f)).len(),
        0 <= k < kept(sols, Some(f))[i].0@.len(),
    ensures
        p.profesores_evitar matches Some(v) ==> forall|e: int|
            0 <= e < v@.len() ==> lower_of(kept(sols, Some(f))[i].0@[k].0.profesor@).len() == 0
                || #[trigger] lower_of(v@[e]@) != lower_of(kept(sols, Some(f))[i].0@[k].0.profesor@),
{
    lemma_kept_passes(sols, Some(f));
    let sol = kept(sols, Some(f))[i].0@;
    assert(passes_all(sol, Some(f)));
    assert(passes_prof(sol, p));
    assert(!avoided(lower_of(sol[k].0.profesor@), evitar_of(p)));
    if let Some(v) = p.profesores_evitar {
        assert(evitar_of(p) == v@);
        assert forall|e: int| 0 <= e < v@.len() implies lower_of(sol[k].0.profesor@).len() == 0
            || #[trigger] lower_of(v@[e]@) != lower_of(sol[k].0.profesor@) by {
            if lower_of(sol[k].0.profesor@).len() > 0 && lower_of(v@[e]@) == lower_of(sol[k].0.profesor@) {
                assert(avoided(lower_of(sol[k].0.profesor@), evitar_of(p)));
            }
        }
    }
}

/// With only the teacher filter enabled, exactly the timetables in which every
/// section has an empty lower-cased teacher or one that differs from every avoided
/// teacher lower-cased are kept, in their order.
pub proof fn lemma_teacher_filter_exact(sols: Seq<Solution>, f: UserFilters, p: PreferenciasProfesores)
    requires
        f.preferencias_profesores == Some(p),
        p.habilitado,
        f.dias_horarios_libres matches Some(d) ==> !d.habilitado,
    ensures
        kept(sols, Some(f)) == sols.filter(
            |s: Solution|
                forall|k: int|
                    0 <= k < s.0@.len() ==> lower_of((#[trigger] s.0@[k]).0.profesor@).len() == 0 || forall|e: int|
                        0 <= e < evitar_of(p).len() ==> #[trigger] lower_of(evitar_of(p)[e]@) != lower_of(
                            s.0@[k].0.profesor@,
                        ),
        ),
    decreases sols.len(),
{
    let clean = |s: Solution|
        forall|k: int|
            0 <= k < s.0@.len() ==> lower_of((#[trigger] s.0@[k]).0.profesor@).len() == 0 || forall|e: int|
                0 <= e < evitar_of(p).len() ==> #[trigger] lower_of(evitar_of(p)[e]@) != lower_of(s.0@[k].0.profesor@);
    reveal(Seq::filter);
    if sols.len() > 0 {
        lemma_teacher_filter_exact(sols.drop_last(), f, p);
        let sol = sols.last().0@;
        assert(passes_all(sol, Some(f)) == passes_prof(sol, p));
        assert(passes_prof(sol, p) == clean(sols.last())) by {
            if passes_prof(sol, p) {
                assert forall|k: int| 0 <= k < sol.len() implies lower_of((#[trigger] sol[k]).0.profesor@).len() == 0
                    || forall|e: int| 0 <= e < evitar_of(p).len() ==> #[trigger] lower_of(evitar_of(p)[e]@) != lower_of(
                        sol[k].0.profesor@,
                    ) by {
                    assert(!avoided(lower_of(sol[k].0.profesor@), evitar_of(p)));
                }
            }
            if clean(sols.last()) {
                assert forall|k: int| 0 <= k < sol.len() implies !avoided(
                    lower_of((#[trigger] sol[k]).0.profesor@),
                    evitar_of(p),
                ) by {
                    if avoided(lower_of(sol[k].0.profesor@), evitar_of(p)) {
                        let e = choose|e: int| 0 <= e < evitar_of(p).len() && #[trigger] lower_of(evitar_of(p)[e]@) == lower_of(sol[k].0.profesor@);
                        assert(lower_of(evitar_of(p)[e]@) != lower_of(sols.last().0@[k].0.profesor@));
                    }
                }
            }
        }
        assert(sols.filter(clean) == {
            let sub = sols.drop_last().filter(clean);
            if clean(sols.last()) { sub.push(sols.last()) } else { sub }
        });
    } else {
        assert(sols.filter(clean) =~= Seq::<Solution>::empty());
    }
}

/// Without filters every timetable is kept.
pub proof fn lemma_no_filters_keeps_all(sols: Seq<Solution>)
    ensures
        kept(sols, None) == sols,
{
    lemma_kept_all(sols, None);
}
} // verus!
