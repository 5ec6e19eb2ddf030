use quickshift::critical::build_and_run_pert;
use quickshift::models::{RamoDisponible, Seccion};
use quickshift::pert::pert_schedule;

#[test]
fn pert_chain_is_all_critical() {
    let t = pert_schedule(3, &vec![(0, 1), (1, 2)]).unwrap();
    let es: Vec<i32> = t.iter().map(|x| x.es).collect();
    let ef: Vec<i32> = t.iter().map(|x| x.ef).collect();
    let lf: Vec<i32> = t.iter().map(|x| x.lf).collect();
    let ls: Vec<i32> = t.iter().map(|x| x.ls).collect();
    let h: Vec<i32> = t.iter().map(|x| x.h).collect();
    assert_eq!(es, vec![1, 2, 3]);
    assert_eq!(ef, vec![2, 3, 4]);
    assert_eq!(lf, vec![2, 3, 4]);
    assert_eq!(ls, vec![1, 2, 3]);
    assert_eq!(h, vec![0, 0, 0]);
}

#[test]
fn pert_isolated_node_has_slack() {
    let t = pert_schedule(4, &vec![(0, 1), (1, 2)]).unwrap();
    assert_eq!(t[3].es, 1);
    assert_eq!(t[3].ef, 2);
    assert_eq!(t[3].lf, 4);
    assert_eq!(t[3].h, 2);
    // Some node always has zero slack.
    assert!(t.iter().any(|x| x.h == 0));
}

#[test]
fn pert_diamond_latest_finish() {
    // 0 -> 1 -> 3 and 0 -> 2 -> 3, plus 0 -> 3 directly.
    let t = pert_schedule(4, &vec![(0, 1), (1, 3), (0, 2), (2, 3), (0, 3)]).unwrap();
    assert_eq!(t[3].es, 3);
    assert_eq!(t[0].lf, 2);
    assert_eq!(t[1].h, 0);
    assert_eq!(t[2].h, 0);
}

#[test]
fn pert_cycle_is_reported() {
    assert!(pert_schedule(2, &vec![(0, 1), (1, 0)]).is_err());
    assert!(pert_schedule(1, &vec![(0, 0)]).is_err());
}

#[test]
fn pert_empty_graph() {
    assert!(pert_schedule(0, &vec![]).unwrap().is_empty());
}

fn ramo(id: i32, codigo: &str, nombre: &str, numb: i32) -> (String, RamoDisponible) {
    (
        codigo.to_string(),
        RamoDisponible {
            id,
            nombre: nombre.to_string(),
            codigo: codigo.to_string(),
            holgura: 0,
            numb_correlativo: numb,
            critico: false,
            requisitos_ids: vec![],
            electivo: false,
            semestre: None,
        },
    )
}

fn sec(codigo: &str) -> Seccion {
    Seccion {
        codigo: codigo.to_string(),
        nombre: codigo.to_string(),
        seccion: "1".to_string(),
        horario: vec![],
        profesor: String::new(),
        codigo_box: codigo.to_string(),
    }
}

#[test]
fn pert_marks_the_prerequisite_chain_critical() {
    let mut ramos = vec![
        ramo(1, "A", "Algebra", 1),
        ramo(2, "B", "Calculo", 2),
        ramo(3, "C", "Fisica", 3),
        ramo(4, "D", "Dibujo", 4),
    ];
    let secs = vec![sec("a"), sec(" B "), sec("C"), sec("D")];
    let prereqs = vec![
        ("2".to_string(), vec!["1".to_string()]),
        ("FISICA".to_string(), vec!["calculo".to_string()]),
    ];
    build_and_run_pert(&mut ramos, &secs, &prereqs);
    let crit: Vec<bool> = ramos.iter().map(|(_, r)| r.critico).collect();
    assert_eq!(crit, vec![true, true, true, false]);
    assert_eq!(ramos[3].0, "D");
    assert_eq!(ramos[3].1.nombre, "Dibujo");
}

#[test]
fn pert_links_consecutive_identifiers_of_a_sequence_number() {
    let mut ramos = vec![ramo(5, "A", "Uno", 7), ramo(3, "B", "Dos", 7), ramo(9, "C", "Tres", 8)];
    let secs = vec![sec("A"), sec("B"), sec("C")];
    build_and_run_pert(&mut ramos, &secs, &[]);
    // 3 -> 5 is a chain of two; course 9 stands alone and has slack 1.
    let crit: Vec<bool> = ramos.iter().map(|(_, r)| r.critico).collect();
    assert_eq!(crit, vec![true, true, false]);
}

#[test]
fn pert_skips_courses_without_sections() {
    let mut ramos = vec![ramo(1, "A", "Uno", 1), ramo(2, "B", "Dos", 2)];
    let secs = vec![sec("A")];
    let prereqs = vec![("2".to_string(), vec!["1".to_string()])];
    build_and_run_pert(&mut ramos, &secs, &prereqs);
    let crit: Vec<bool> = ramos.iter().map(|(_, r)| r.critico).collect();
    assert_eq!(crit, vec![true, false]);
}

#[test]
fn pert_cycle_uses_the_fallback() {
    let mut ramos = vec![ramo(1, "A", "Uno", 1), ramo(2, "B", "Dos", 2)];
    let secs = vec![sec("A"), sec("B")];
    let prereqs = vec![
        ("1".to_string(), vec!["2".to_string()]),
        ("2".to_string(), vec!["1".to_string()]),
    ];
    build_and_run_pert(&mut ramos, &secs, &prereqs);
    let crit: Vec<bool> = ramos.iter().map(|(_, r)| r.critico).collect();
    assert_eq!(crit, vec![true, true]);
}
