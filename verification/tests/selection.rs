use quickshift::filters::apply_all_filters;
use quickshift::models::{DiaHorariosLibres, PreferenciasProfesores, Seccion, UserFilters};
use quickshift::oferta::resumen_oferta_academica;
use quickshift::ruta::{finalize_solutions, select_solutions, viable_sections};
use quickshift::selector::select_non_conflicting_sections;

fn sec(codigo: &str, nombre: &str, seccion: &str, horario: &[&str], profesor: &str) -> Seccion {
    Seccion {
        codigo: codigo.to_string(),
        nombre: nombre.to_string(),
        seccion: seccion.to_string(),
        horario: horario.iter().map(|h| h.to_string()).collect(),
        profesor: profesor.to_string(),
        codigo_box: codigo.to_string(),
    }
}

#[test]
fn selector_picks_one_section_per_group() {
    let groups = vec![
        vec![
            sec("A", "A", "1", &["LU 08:00-09:00"], ""),
            sec("A", "A", "2", &["MA 08:00-09:00"], ""),
        ],
        vec![sec("B", "B", "1", &["LU 08:00-09:00"], "")],
    ];
    let r = select_non_conflicting_sections(&groups).unwrap();
    assert_eq!(r.len(), 2);
    assert_eq!(r[0].seccion, "2");
    assert_eq!(r[1].codigo, "B");
}

#[test]
fn selector_empty_and_impossible() {
    assert_eq!(select_non_conflicting_sections(&vec![]).unwrap().len(), 0);
    let groups = vec![
        vec![sec("A", "A", "1", &["LU 08:00-09:00"], "")],
        vec![sec("B", "B", "1", &["LU 08:00-09:00"], "")],
    ];
    assert!(select_non_conflicting_sections(&groups).is_none());
    let with_empty = vec![vec![sec("A", "A", "1", &["LU 08:00-09:00"], "")], vec![]];
    assert!(select_non_conflicting_sections(&with_empty).is_none());
}

#[test]
fn offer_summary_counts_and_orders() {
    let secs = vec![
        sec("1", "Beta", "1", &[], ""),
        sec("2", "Alfa", "1", &[], ""),
        sec("3", "Beta", "2", &[], ""),
        sec("4", "Gamma", "1", &[], ""),
        sec("5", "Alfa", "2", &[], ""),
        sec("6", "Beta", "3", &[], ""),
    ];
    assert_eq!(
        resumen_oferta_academica(&secs),
        vec![("Beta".to_string(), 3), ("Alfa".to_string(), 2), ("Gamma".to_string(), 1)]
    );
    assert!(resumen_oferta_academica(&[]).is_empty());
}

fn sol(n: usize, score: i64, prof: &str) -> (Vec<(Seccion, i32)>, i64) {
    let v = (0..n).map(|i| (sec(&format!("C{}", i), "N", "1", &["LU 08:00-09:00"], prof), 1)).collect();
    (v, score)
}

#[test]
fn filters_none_keeps_everything() {
    let sols = vec![sol(1, 5, "Ana"), sol(2, 7, "Luis")];
    let r = apply_all_filters(sols, &None);
    assert_eq!(r.len(), 2);
    assert_eq!(r[1].1, 7);
}

#[test]
fn filters_drop_avoided_teachers() {
    let filtros = Some(UserFilters {
        dias_horarios_libres: None,
        ventana_entre_actividades: None,
        preferencias_profesores: Some(PreferenciasProfesores {
            habilitado: true,
            profesores_preferidos: None,
            profesores_evitar: Some(vec!["LUIS".to_string()]),
        }),
    });
    let sols = vec![sol(1, 5, "Ana"), sol(2, 7, "Luis"), sol(1, 9, "")];
    let r = apply_all_filters(sols, &filtros);
    let scores: Vec<i64> = r.iter().map(|s| s.1).collect();
    assert_eq!(scores, vec![5, 9]);
}

#[test]
fn filters_drop_forbidden_blocks_and_missing_timetables() {
    let filtros = Some(UserFilters {
        dias_horarios_libres: Some(DiaHorariosLibres {
            habilitado: true,
            dias_libres_preferidos: None,
            minimizar_ventanas: None,
            ventana_ideal_minutos: None,
            franjas_prohibidas: Some(vec!["MA 08:00-12:00".to_string()]),
            no_sin_horario: Some(true),
        }),
        ventana_entre_actividades: None,
        preferencias_profesores: None,
    });
    let ok = (vec![(sec("A", "A", "1", &["LU 08:00-09:00"], ""), 1)], 1);
    let forbidden = (vec![(sec("B", "B", "1", &["MA 09:00-10:00"], ""), 1)], 2);
    let sin = (vec![(sec("C", "C", "1", &["Sin Horario"], ""), 1)], 3);
    let r = apply_all_filters(vec![ok, forbidden, sin], &filtros);
    assert_eq!(r.len(), 1);
    assert_eq!(r[0].1, 1);
    // A disabled filter keeps everything.
    let off = Some(UserFilters {
        dias_horarios_libres: Some(DiaHorariosLibres {
            habilitado: false,
            dias_libres_preferidos: None,
            minimizar_ventanas: None,
            ventana_ideal_minutos: None,
            franjas_prohibidas: Some(vec!["MA 08:00-12:00".to_string()]),
            no_sin_horario: Some(true),
        }),
        ventana_entre_actividades: None,
        preferencias_profesores: None,
    });
    let forbidden2 = (vec![(sec("B", "B", "1", &["MA 09:00-10:00"], ""), 1)], 2);
    assert_eq!(apply_all_filters(vec![forbidden2], &off).len(), 1);
}

#[test]
fn selection_by_size_then_score() {
    let sols = vec![sol(2, 10, ""), sol(1, 50, ""), sol(2, 30, ""), sol(7, 99, "")];
    let r = select_solutions(&sols);
    let scores: Vec<i64> = r.iter().map(|s| s.1).collect();
    assert_eq!(scores, vec![30, 10, 50]);
}

#[test]
fn selection_keeps_at_most_ten() {
    let sols: Vec<_> = (0..12).map(|i| sol(1, i as i64, "")).collect();
    let r = select_solutions(&sols);
    assert_eq!(r.len(), 10);
    assert_eq!(r[0].1, 11);
    assert_eq!(r[9].1, 2);
}

#[test]
fn selection_without_sizes_one_to_six_takes_the_first() {
    let sols = vec![sol(0, 3, ""), sol(7, 4, "")];
    let r = select_solutions(&sols);
    let scores: Vec<i64> = r.iter().map(|s| s.1).collect();
    assert_eq!(scores, vec![3, 4]);
}

#[test]
fn viable_sections_exclude_passed_blocked_and_free_days() {
    let lista = vec![
        sec("CIT1", "A", "1", &["LU 08:00-09:00"], ""),
        sec("CIT2", "B", "1", &["MA 08:00-09:00"], ""),
        sec("CIT3", "C", "1", &["MI 08:00-09:00"], ""),
        sec("CIT4", "D", "1", &["JU 08:00-09:00"], ""),
    ];
    let r = viable_sections(
        &lista,
        &["cit1".to_string()],
        &["MA 08:30-10:00".to_string()],
        &Some(vec!["mi".to_string()]),
    );
    let codes: Vec<String> = r.iter().map(|s| s.codigo.clone()).collect();
    assert_eq!(codes, vec!["CIT4".to_string()]);
}

#[test]
fn finalize_drops_blocked_then_selects() {
    let a = (vec![(sec("A", "A", "1", &["LU 08:00-09:00"], ""), 1)], 5);
    let b = (vec![(sec("B", "B", "1", &["MA 08:00-09:00"], ""), 1)], 9);
    let r = finalize_solutions(vec![a, b], &["MA 08:30-09:30".to_string()], &None);
    assert_eq!(r.len(), 1);
    assert_eq!(r[0].1, 5);
}

#[test]
fn selector_takes_the_first_selection_in_key_order() {
    // Both sections of "A" fit; the one with the smaller key ("A::A::1") is taken even
    // though it stands second in its group.
    let groups = vec![
        vec![
            sec("A", "A", "2", &["MA 08:00-09:00"], ""),
            sec("A", "A", "1", &["MI 08:00-09:00"], ""),
        ],
        vec![sec("B", "B", "1", &["LU 08:00-09:00"], "")],
    ];
    let r = select_non_conflicting_sections(&groups).unwrap();
    assert_eq!(r[0].seccion, "1");
    // The group with fewer candidates is settled first: "B" takes its only section, and
    // "A" then takes the first of its candidates that does not clash with it.
    let groups = vec![
        vec![
            sec("A", "A", "1", &["LU 08:00-09:00"], ""),
            sec("A", "A", "2", &["MA 08:00-09:00"], ""),
        ],
        vec![sec("B", "B", "1", &["LU 08:00-09:00"], "")],
    ];
    let r = select_non_conflicting_sections(&groups).unwrap();
    assert_eq!(r[0].seccion, "2");
    assert_eq!(r[1].seccion, "1");
}

#[test]
fn selector_answer_does_not_depend_on_candidate_order() {
    let a1 = sec("A", "A", "1", &["LU 08:00-09:00"], "");
    let a2 = sec("A", "A", "2", &["MA 08:00-09:00"], "");
    let a3 = sec("A", "A", "3", &["MI 08:00-09:00"], "");
    let b1 = sec("B", "B", "1", &["LU 08:00-09:00"], "");
    let b2 = sec("B", "B", "2", &["JU 08:00-09:00"], "");
    let g1 = vec![vec![a1.clone(), a2.clone(), a3.clone()], vec![b1.clone(), b2.clone()]];
    let g2 = vec![vec![a3, a1, a2], vec![b2, b1]];
    let r1 = select_non_conflicting_sections(&g1).unwrap();
    let r2 = select_non_conflicting_sections(&g2).unwrap();
    let k = |v: &Vec<Seccion>| v.iter().map(|s| (s.codigo.clone(), s.seccion.clone())).collect::<Vec<_>>();
    assert_eq!(k(&r1), k(&r2));
}
