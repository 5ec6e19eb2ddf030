use quickshift::models::{RamoDisponible, Seccion};
use quickshift::scoring::{calculate_total_gaps, compute_priority, requisitos_cumplidos, sections_conflict};

fn sec(codigo: &str, seccion: &str, horario: &[&str]) -> Seccion {
    Seccion {
        codigo: codigo.to_string(),
        nombre: codigo.to_string(),
        seccion: seccion.to_string(),
        horario: horario.iter().map(|h| h.to_string()).collect(),
        profesor: String::new(),
        codigo_box: codigo.to_string(),
    }
}

fn ramo(id: i32, codigo: &str, critico: bool, holgura: i32, numb: i32, req: Vec<i32>) -> RamoDisponible {
    RamoDisponible {
        id,
        nombre: codigo.to_string(),
        codigo: codigo.to_string(),
        holgura,
        numb_correlativo: numb,
        critico,
        requisitos_ids: req,
        electivo: false,
        semestre: None,
    }
}

#[test]
fn priority_is_the_eight_digit_concatenation() {
    let r = ramo(1, "CIT3313", true, 0, 53, vec![]);
    assert_eq!(compute_priority(&r, &sec("CIT3313", "3", &[])), 10_100_703);
    let r2 = ramo(2, "CIT3413", false, 2, 54, vec![]);
    assert_eq!(compute_priority(&r2, &sec("CIT3413", "12", &[])), 80_612);
}

#[test]
fn priority_clamps_each_field() {
    let r = ramo(1, "X", false, 15, -4, vec![]);
    // slack above 10 counts as 10, a negative sequence number as 0, the section
    // number is limited to 99, and an unreadable section counts as 0.
    assert_eq!(compute_priority(&r, &sec("X", "150", &[])), 6_099);
    assert_eq!(compute_priority(&r, &sec("X", "A", &[])), 6_000);
    let r2 = ramo(1, "X", false, -3, 70, vec![]);
    assert_eq!(compute_priority(&r2, &sec("X", "-5", &[])), 100_000);
}

#[test]
fn sections_conflict_on_identical_entries() {
    let a = sec("A", "1", &["LU 08:00-09:00", "MI 10:00-11:00"]);
    let b = sec("B", "1", &["MI 10:00-11:00"]);
    let c = sec("C", "1", &["MI 10:00-11:30"]);
    assert!(sections_conflict(&a, &b));
    assert!(sections_conflict(&b, &a));
    assert!(!sections_conflict(&a, &c));
}

#[test]
fn prerequisites_by_identifier() {
    let ramos = vec![ramo(1, "mat1", false, 0, 1, vec![]), ramo(2, "FIS1", false, 0, 2, vec![])];
    let target = ramo(3, "FIS2", false, 0, 3, vec![1, 2]);
    assert!(requisitos_cumplidos(&target, &ramos, &["MAT1".to_string(), "FIS1".to_string()]));
    assert!(!requisitos_cumplidos(&target, &ramos, &["MAT1".to_string()]));
    let unknown = ramo(4, "X", false, 0, 4, vec![9]);
    assert!(!requisitos_cumplidos(&unknown, &ramos, &["MAT1".to_string()]));
    let free = ramo(5, "Y", false, 0, 5, vec![]);
    assert!(requisitos_cumplidos(&free, &ramos, &[]));
}

#[test]
fn total_gaps_per_day() {
    let s1 = sec("A", "1", &["LU 08:00-09:00", "MA 08:30-10:00"]);
    let s2 = sec("B", "1", &["LU 10:00-11:00", "MA 08:00-09:00"]);
    let sol = vec![(s1, 0), (s2, 0)];
    // Monday: 09:00 to 10:00 is one hour idle; Tuesday's classes overlap.
    assert_eq!(calculate_total_gaps(&sol), 60);
    assert_eq!(calculate_total_gaps(&[]), 0);
}

#[test]
fn total_gaps_sorts_by_start() {
    let s1 = sec("A", "1", &["JU 14:00-15:00"]);
    let s2 = sec("B", "1", &["JU 08:00-09:00", "JU 10:30-11:00"]);
    let sol = vec![(s1, 0), (s2, 0)];
    // 09:00-10:30 and 11:00-14:00 idle.
    assert_eq!(calculate_total_gaps(&sol), 90 + 180);
}
