use quickshift::clique::{enumerate_clique_combinations, get_clique_dependencies_only, get_clique_max_pond_with_prefs, get_clique_max_pond_with_prefs_extended};
use quickshift::exhaustive::exhaustive_clique_search_with_cfg;
use quickshift::clique_all::{enumerate_cliques_with_cfg_priority, get_all_clique_combinations_with_pert, get_clique_with_user_prefs};
use quickshift::models::{PreferenciasProfesores, RamoDisponible, Seccion, UserFilters};
use quickshift::plan_pool::{plan_pool, plan_sections, seccion_cumple_filtros, PlanParams, SeccionPlan};
use quickshift::plan_score::{apply_optimization_modifiers, calculate_compactness_score, gaps_checked};

fn ramo(id: i32, nombre: &str, codigo: &str, numb: i32, reqs: Vec<i32>) -> RamoDisponible {
    RamoDisponible {
        id,
        nombre: nombre.to_string(),
        codigo: codigo.to_string(),
        holgura: 2,
        numb_correlativo: numb,
        critico: false,
        requisitos_ids: reqs,
        electivo: false,
        semestre: Some(1),
    }
}

fn sec(codigo: &str, nombre: &str, seccion: &str, horario: &[&str], profesor: &str, codigo_box: &str) -> Seccion {
    Seccion {
        codigo: codigo.to_string(),
        nombre: nombre.to_string(),
        seccion: seccion.to_string(),
        horario: horario.iter().map(|h| h.to_string()).collect(),
        profesor: profesor.to_string(),
        codigo_box: codigo_box.to_string(),
    }
}

fn plain(s: Seccion) -> SeccionPlan {
    SeccionPlan { seccion: s, is_cfg: false, is_electivo: false }
}

fn ramos() -> Vec<RamoDisponible> {
    vec![
        ramo(1, "Calculo I", "MAT1", 5, vec![]),
        ramo(2, "Fisica", "FIS1", 6, vec![]),
        ramo(3, "Quimica", "QUI1", 7, vec![]),
    ]
}

fn secciones(prof: &str) -> Vec<SeccionPlan> {
    vec![
        plain(sec("MAT1", "Calculo I", "1", &["LU 08:30 - 09:50"], prof, "B1")),
        plain(sec("MAT1", "Calculo I", "2", &["MA 08:30 - 09:50"], prof, "B2")),
        plain(sec("FIS1", "Fisica", "1", &["LU 08:30 - 09:50"], prof, "B3")),
        plain(sec("QUI1", "Quimica", "1", &["JU 10:00 - 11:20"], prof, "B4")),
    ]
}

fn params(filtros: Option<UserFilters>) -> PlanParams {
    PlanParams { ramos_pasados: vec![], ramos_prioritarios: vec![], optimizations: vec![], filtros }
}

fn avoid(teacher: &str) -> Option<UserFilters> {
    Some(UserFilters {
        dias_horarios_libres: None,
        ventana_entre_actividades: None,
        preferencias_profesores: Some(PreferenciasProfesores {
            habilitado: true,
            profesores_preferidos: None,
            profesores_evitar: Some(vec![teacher.to_string()]),
        }),
    })
}

#[test]
fn pool_is_ordered_by_code_and_box() {
    let p = plan_pool(&secciones("Perez"), &ramos(), &params(None));
    assert_eq!(p, vec![2, 0, 1, 3]);
    let mut passed = params(None);
    passed.ramos_pasados = vec!["MAT1".to_string()];
    assert_eq!(plan_pool(&secciones("Perez"), &ramos(), &passed), vec![2, 3]);
}

#[test]
fn teacher_filter_on_sections() {
    let s = &secciones("Juan Perez")[0];
    assert!(!seccion_cumple_filtros(s, &avoid("perez")));
    assert!(seccion_cumple_filtros(s, &avoid("Soto")));
    assert!(seccion_cumple_filtros(s, &None));
    let cfg = SeccionPlan { seccion: s.seccion.clone(), is_cfg: true, is_electivo: false };
    assert!(seccion_cumple_filtros(&cfg, &avoid("perez")));
}

#[test]
fn best_timetable_without_filters() {
    let r = get_clique_max_pond_with_prefs(&secciones("Perez"), &ramos(), &params(None));
    assert_eq!(r.len(), 1);
    let (sol, score) = &r[0];
    let boxes: Vec<&str> = sol.iter().map(|(s, _)| s.codigo_box.as_str()).collect();
    assert_eq!(boxes, vec!["B2", "B3", "B4"]);
    let weights: Vec<i32> = sol.iter().map(|(_, w)| *w).collect();
    assert_eq!(weights, vec![85502, 85401, 85301]);
    assert_eq!(*score, 256204);
}

#[test]
fn filters_keep_every_timetable_by_score() {
    let r = get_clique_max_pond_with_prefs(&secciones("Perez"), &ramos(), &params(avoid("Soto")));
    let scores: Vec<i64> = r.iter().map(|(_, s)| *s).collect();
    assert_eq!(scores, vec![256204, 170903, 170802, 170702, 85502, 85501, 85401, 85301]);
}

#[test]
fn fallback_section_when_filters_leave_nothing() {
    let r = get_clique_max_pond_with_prefs(&secciones("Perez"), &ramos(), &params(avoid("perez")));
    assert_eq!(r.len(), 1);
    assert_eq!(r[0].0.len(), 1);
    assert_eq!(r[0].0[0].0.codigo_box, "B1");
    assert_eq!(r[0].0[0].1, 85501);
    assert_eq!(r[0].1, 85501);
}

#[test]
fn single_section_is_the_answer() {
    let one = vec![secciones("Perez").remove(3)];
    let r = get_clique_max_pond_with_prefs(&one, &ramos(), &params(None));
    assert_eq!(r.len(), 1);
    assert_eq!(r[0].1, 85301);
}

#[test]
fn nothing_to_plan() {
    let r = get_clique_max_pond_with_prefs(&vec![], &ramos(), &params(None));
    assert!(r.is_empty());
}

#[test]
fn cfg_sections_leave_after_four_cfgs() {
    let mut secs = secciones("Perez");
    secs.push(SeccionPlan { seccion: sec("CFG7", "Arte", "1", &["VI 10:00 - 11:20"], "Lee", "B9"), is_cfg: true, is_electivo: false });
    let with = get_clique_max_pond_with_prefs(&secs, &ramos(), &params(None));
    assert_eq!(with.len(), 1);
    assert_eq!(with[0].0.len(), 4);
    assert_eq!(with[0].1, 256204 + 10010150);
    let mut p = params(None);
    p.ramos_pasados = vec!["CFG1".to_string(), "CFG2".to_string(), "cfg3".to_string(), "CFG4".to_string()];
    let without = get_clique_max_pond_with_prefs(&secs, &ramos(), &p);
    assert_eq!(without[0].0.len(), 3);
}

#[test]
fn score_modifiers() {
    let sol = vec![
        (sec("MAT1", "Calculo I", "1", &["LU 08:30 - 09:50", "LU 15:00 - 16:00"], "", "B1"), 10),
        (sec("FIS1", "Fisica", "1", &["MA 10:00 - 11:00"], "", "B3"), 20),
    ];
    assert_eq!(calculate_compactness_score(&sol), 50);
    assert_eq!(gaps_checked(&sol), Some(310));
    let mut p = params(None);
    p.ramos_prioritarios = vec!["fisica".to_string()];
    assert_eq!(apply_optimization_modifiers(30, &sol, &p), 100_030);
    p.optimizations = vec!["compact-days".to_string(), "minimize-gaps".to_string(), "other".to_string()];
    assert_eq!(apply_optimization_modifiers(30, &sol, &p), 100_030 + 500_000 - 31_000);
    p.optimizations = vec!["spread-days".to_string()];
    assert_eq!(apply_optimization_modifiers(30, &sol, &p), 100_030 - 500_000);
    assert_eq!(calculate_compactness_score(&vec![]), 0);
}

#[test]
fn exhaustive_planner_lists_every_combination() {
    let r = get_clique_with_user_prefs(&secciones("Perez"), &ramos(), &params(None));
    let scores: Vec<i64> = r.iter().map(|(_, s)| *s).collect();
    assert_eq!(scores, vec![256204, 170903, 170803, 170802, 170702, 85502, 85501, 85401, 85301]);
}

#[test]
fn exhaustive_search_groups_by_size() {
    let r = get_all_clique_combinations_with_pert(&secciones("Perez"), &ramos(), &params(None), 6, 100);
    let sizes: Vec<usize> = r.iter().map(|(s, _)| s.len()).collect();
    assert_eq!(sizes, vec![3, 2, 2, 2, 2, 1, 1, 1, 1]);
    let mut secs = secciones("Perez");
    secs.push(SeccionPlan { seccion: sec("CFG7", "Arte", "1", &["VI 10:00 - 11:20"], "Lee", "B9"), is_cfg: true, is_electivo: false });
    let r = get_all_clique_combinations_with_pert(&secs, &ramos(), &params(None), 6, 2);
    assert_eq!(r.len(), 1);
    let boxes: Vec<&str> = r[0].0.iter().map(|(s, _)| s.codigo_box.as_str()).collect();
    // B3 clashes with B1 (both LU 08:30), so it does not join the seeded timetable.
    assert_eq!(boxes, vec!["B9", "B1", "B4"]);
    assert_eq!(r[0].0[0].1, 10_010_150);
}

#[test]
fn extended_planner_matches_the_planner() {
    let a = get_clique_max_pond_with_prefs(&secciones("Perez"), &ramos(), &params(avoid("Soto")));
    let b = get_clique_max_pond_with_prefs_extended(&secciones("Perez"), &ramos(), &params(avoid("Soto")), 5);
    let sa: Vec<i64> = a.iter().map(|(_, s)| *s).collect();
    let sb: Vec<i64> = b.iter().map(|(_, s)| *s).collect();
    assert_eq!(sa, sb);
}

#[test]
fn dependencies_only_takes_six_sections() {
    let mut secs: Vec<Seccion> = secciones("Perez").into_iter().map(|p| p.seccion).collect();
    let more: Vec<Seccion> = secs.clone();
    secs.extend(more);
    let r = get_clique_dependencies_only(&secs, &ramos());
    assert_eq!(r.len(), 1);
    assert_eq!(r[0].1, 300);
    assert_eq!(r[0].0.len(), 6);
    assert!(r[0].0.iter().all(|(_, w)| *w == 50));
    assert_eq!(r[0].0[4].0.codigo_box, "B1");
    let few = get_clique_dependencies_only(&secs[..2], &ramos());
    assert_eq!(few[0].0.len(), 2);
    assert_eq!(few[0].1, 300);
    assert!(get_clique_dependencies_only(&[], &ramos()).is_empty());
}

#[test]
fn cfg_seeds_take_neighbours_by_priority() {
    let mut secs = secciones("Perez");
    secs.push(SeccionPlan { seccion: sec("CFG7", "Arte", "1", &["VI 10:00 - 11:20"], "Lee", "B9"), is_cfg: true, is_electivo: false });
    // B1-B2 share a course, B1-B3 clash; every other pair is compatible.
    let pairs = [(0, 3), (0, 4), (1, 2), (1, 3), (1, 4), (2, 3), (2, 4), (3, 4)];
    let mut adj = vec![vec![false; 5]; 5];
    for (a, b) in pairs {
        adj[a][b] = true;
        adj[b][a] = true;
    }
    let r = enumerate_cliques_with_cfg_priority(&secs, &adj, &ramos(), &params(None), 6, 10);
    assert_eq!(r.len(), 1);
    let boxes: Vec<&str> = r[0].0.iter().map(|(s, _)| s.codigo_box.as_str()).collect();
    assert_eq!(boxes, vec!["B9", "B2", "B3", "B4"]);
    let weights: Vec<i32> = r[0].0.iter().map(|(_, w)| *w).collect();
    assert_eq!(weights, vec![10_010_150, 85502, 85401, 85301]);
    assert_eq!(r[0].1, 10_010_150 + 256204);
    let two = enumerate_cliques_with_cfg_priority(&secs, &adj, &ramos(), &params(None), 2, 10);
    assert_eq!(two[0].0.len(), 2);
    assert!(enumerate_cliques_with_cfg_priority(&secs, &adj, &ramos(), &params(None), 6, 0).is_empty());
}

#[test]
fn exhaustive_search_from_every_section() {
    let mut secs = secciones("Perez");
    secs.push(SeccionPlan { seccion: sec("CFG7", "Arte", "1", &["VI 10:00 - 11:20"], "Lee", "B9"), is_cfg: true, is_electivo: false });
    let r = exhaustive_clique_search_with_cfg(&secs, &ramos(), &params(None), 4, 10);
    // the one four-section clique, found from each of its members in the graph's order
    assert_eq!(r.len(), 4);
    for (sol, score) in &r {
        assert_eq!(*score, 10_010_150 + 256204);
        let mut boxes: Vec<&str> = sol.iter().map(|(s, _)| s.codigo_box.as_str()).collect();
        boxes.sort();
        assert_eq!(boxes, vec!["B2", "B3", "B4", "B9"]);
    }
    let first = exhaustive_clique_search_with_cfg(&secs, &ramos(), &params(None), 4, 1);
    assert_eq!(first.len(), 1);
    let boxes: Vec<&str> = first[0].0.iter().map(|(s, _)| s.codigo_box.as_str()).collect();
    assert_eq!(boxes, vec!["B9", "B4", "B3", "B2"]);
    assert!(exhaustive_clique_search_with_cfg(&secs, &ramos(), &params(None), 5, 10).is_empty());
    let pairs = exhaustive_clique_search_with_cfg(&secs, &ramos(), &params(None), 2, 100);
    assert!(pairs.iter().all(|(s, _)| s.len() == 2));
    assert_eq!(pairs[0].1, 10_010_150 + 85502);
}

fn clash_free(sol: &[(Seccion, i32)]) -> bool {
    for a in 0..sol.len() {
        for b in 0..sol.len() {
            if a != b {
                let sa = &sol[a].0;
                let sb = &sol[b].0;
                if sa.codigo_box == sb.codigo_box || sa.horario.iter().any(|h| sb.horario.contains(h)) {
                    return false;
                }
            }
        }
    }
    true
}

#[test]
fn planned_and_exhaustive_timetables_never_clash() {
    let r = get_clique_max_pond_with_prefs(&secciones("Perez"), &ramos(), &params(avoid("Soto")));
    assert!(r.len() > 1);
    assert!(r.iter().all(|(s, _)| clash_free(s)));
    let mut secs = secciones("Perez");
    secs.push(SeccionPlan { seccion: sec("CFG7", "Arte", "1", &["VI 10:00 - 11:20"], "Lee", "B9"), is_cfg: true, is_electivo: false });
    let e = exhaustive_clique_search_with_cfg(&secs, &ramos(), &params(None), 2, 100);
    assert!(!e.is_empty());
    assert!(e.iter().all(|(s, _)| clash_free(s)));
}

#[test]
fn exhaustive_search_of_any_size_and_of_single_sections() {
    let mut secs = secciones("Perez");
    secs.push(SeccionPlan { seccion: sec("CFG7", "Arte", "1", &["VI 10:00 - 11:20"], "Lee", "B9"), is_cfg: true, is_electivo: false });
    let any = exhaustive_clique_search_with_cfg(&secs, &ramos(), &params(None), 0, 100);
    assert!(!any.is_empty());
    let singles = exhaustive_clique_search_with_cfg(&secs, &ramos(), &params(None), 1, 100);
    assert_eq!(singles.len(), secs.len());
    assert!(singles.iter().all(|(s, _)| s.len() == 1));
    assert!(exhaustive_clique_search_with_cfg(&secs, &ramos(), &params(None), 1, 0).is_empty());
}

#[test]
fn cfg_seeded_timetables_have_distinct_box_codes() {
    let mut secs = secciones("Perez");
    secs.push(SeccionPlan { seccion: sec("CFG7", "Arte", "1", &["VI 10:00 - 11:20"], "Lee", "B9"), is_cfg: true, is_electivo: false });
    secs.push(SeccionPlan { seccion: sec("CFG8", "Coro", "1", &["VI 12:00 - 13:20"], "Lee", "B8"), is_cfg: true, is_electivo: false });
    let n = secs.len();
    let adj = vec![vec![false; n]; n];
    let r = enumerate_cliques_with_cfg_priority(&secs, &adj, &ramos(), &params(None), 6, 10);
    assert_eq!(r.len(), 2);
    let boxes: Vec<&str> = r.iter().map(|(s, _)| s[0].0.codigo_box.as_str()).collect();
    assert_eq!(boxes, vec!["B9", "B8"]);
}

#[test]
fn enumeration_below_its_limit_lists_every_single_section() {
    let secs = secciones("Perez");
    let n = secs.len();
    let mut adj = vec![vec![false; n]; n];
    for a in 0..n {
        for b in 0..n {
            adj[a][b] = a != b;
        }
    }
    let r = enumerate_clique_combinations(&secs, &adj, &ramos(), &params(None), 6, 1000);
    assert!(r.len() < 1000);
    for b in ["B1", "B2", "B3", "B4"] {
        assert!(r.iter().any(|(sol, _)| sol.len() == 1 && sol[0].0.codigo_box == b));
    }
    let keys: Vec<Vec<String>> = r
        .iter()
        .map(|(sol, _)| {
            let mut k: Vec<String> = sol.iter().map(|(s, _)| s.codigo_box.clone()).collect();
            k.sort();
            k
        })
        .collect();
    for i in 0..keys.len() {
        for j in (i + 1)..keys.len() {
            assert_ne!(keys[i], keys[j]);
        }
    }
}

fn sorted_boxes(sol: &[(Seccion, i32)]) -> Vec<String> {
    let mut k: Vec<String> = sol.iter().map(|(s, _)| s.codigo_box.clone()).collect();
    k.sort();
    k
}

#[test]
fn planner_answers_have_distinct_box_codes() {
    for filtros in [None, avoid("Soto")] {
        let r = get_clique_max_pond_with_prefs(&secciones("Perez"), &ramos(), &params(filtros));
        assert!(!r.is_empty());
        for i in 0..r.len() {
            for j in (i + 1)..r.len() {
                assert_ne!(sorted_boxes(&r[i].0), sorted_boxes(&r[j].0));
            }
        }
    }
}

#[test]
fn exhaustive_planner_below_its_limit_lists_every_single_section() {
    let r = get_all_clique_combinations_with_pert(&secciones("Perez"), &ramos(), &params(None), 6, 1000);
    assert!(r.len() < 1000);
    for b in ["B1", "B2", "B3", "B4"] {
        assert!(r.iter().any(|(sol, _)| sol.len() == 1 && sol[0].0.codigo_box == b));
    }
}

#[test]
fn enumeration_below_its_limit_lists_every_clique() {
    let secs = secciones("Perez");
    let n = secs.len();
    let mut adj = vec![vec![false; n]; n];
    for a in 0..n {
        for b in 0..n {
            adj[a][b] = a != b;
        }
    }
    let r = enumerate_clique_combinations(&secs, &adj, &ramos(), &params(None), 6, 1000);
    let keys: Vec<Vec<String>> = r.iter().map(|(sol, _)| sorted_boxes(sol)).collect();
    let want: Vec<Vec<&str>> = vec![
        vec!["B1", "B3"], vec!["B1", "B4"], vec!["B2", "B3"], vec!["B2", "B4"], vec!["B3", "B4"],
        vec!["B1", "B3", "B4"], vec!["B2", "B3", "B4"],
    ];
    for w in want {
        let w: Vec<String> = w.iter().map(|s| s.to_string()).collect();
        assert!(keys.contains(&w), "missing {:?}", w);
    }
    // Two sections of one course never share a timetable.
    assert!(!keys.contains(&vec!["B1".to_string(), "B2".to_string()]));
    assert_eq!(r.len(), 11);
}

#[test]
fn plan_sections_mark_cfg_codes() {
    let secs = vec![
        sec("cfg1001", "Arte", "1", &["VI 10:00 - 11:20"], "Lee", "B9"),
        sec("MAT1", "Calculo I", "1", &["LU 08:30 - 09:50"], "Perez", "B1"),
        sec("XCFG", "Otro", "1", &[], "Perez", "B2"),
    ];
    let p = plan_sections(&secs);
    assert_eq!(p.len(), 3);
    assert!(p[0].is_cfg);
    assert!(!p[1].is_cfg);
    assert!(!p[2].is_cfg);
    assert!(p.iter().all(|s| !s.is_electivo));
    assert_eq!(p[1].seccion.codigo_box, "B1");
}

#[test]
fn planner_leaves_out_passed_courses_when_one_section_is_left() {
    let secs = vec![
        plain(sec("MAT1", "Calculo I", "1", &["LU 08:30 - 09:50"], "Perez", "B1")),
        plain(sec("FIS1", "Fisica", "1", &["MA 08:30 - 09:50"], "Perez", "B3")),
    ];
    let mut p = params(None);
    p.ramos_pasados = vec!["MAT1".to_string()];
    let r = get_clique_max_pond_with_prefs(&secs, &ramos(), &p);
    assert_eq!(r.len(), 1);
    assert_eq!(r[0].0.len(), 1);
    assert_eq!(r[0].0[0].0.codigo, "FIS1");
}
