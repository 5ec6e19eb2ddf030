use quickshift::conflict::{
    horarios_tienen_conflicto, horarios_violate_min_gap, horas_se_solapan, intervals_overlap,
    seccion_contenida_en_rango, seccion_contiene_hora, solapan_horarios, solapan_horarios_franja,
};
use quickshift::models::Seccion;

fn s(v: &[&str]) -> Vec<String> {
    v.iter().map(|x| x.to_string()).collect()
}

fn sec(horario: &[&str]) -> Seccion {
    Seccion {
        codigo: "CIT1000".to_string(),
        nombre: "Curso".to_string(),
        seccion: "1".to_string(),
        horario: s(horario),
        profesor: String::new(),
        codigo_box: "CIT1000".to_string(),
    }
}

#[test]
fn conflict_only_for_identical_blocks() {
    assert!(horarios_tienen_conflicto(&s(&["LU 08:30-10:00"]), &s(&["LU 08:30-10:00"])));
    assert!(!horarios_tienen_conflicto(&s(&["LU 08:30-10:00"]), &s(&["LU 09:00-10:30"])));
    assert!(!horarios_tienen_conflicto(&s(&["LU 08:30-10:00"]), &s(&["MA 08:30-10:00"])));
}

#[test]
fn conflict_is_symmetric_on_examples() {
    let a = s(&["LU MI 08:30-10:00"]);
    let b = s(&["MI 08:30-10:00"]);
    assert_eq!(horarios_tienen_conflicto(&a, &b), horarios_tienen_conflicto(&b, &a));
    assert!(horarios_tienen_conflicto(&a, &b));
}

#[test]
fn min_gap_between_blocks() {
    assert!(horarios_violate_min_gap(&s(&["LU 08:00-09:00"]), &s(&["LU 09:10-10:00"]), 15));
    assert!(!horarios_violate_min_gap(&s(&["LU 08:00-09:00"]), &s(&["LU 09:10-10:00"]), 10));
    assert!(horarios_violate_min_gap(&s(&["LU 08:00-09:00"]), &s(&["LU 08:30-10:00"]), 0));
    assert!(!horarios_violate_min_gap(&s(&["LU 08:00-09:00"]), &s(&["MA 08:30-10:00"]), 60));
}

#[test]
fn section_contains_an_hour() {
    let x = sec(&["LU 08:00-10:00"]);
    assert!(seccion_contiene_hora(&x, "09:00"));
    assert!(seccion_contiene_hora(&x, "08:00"));
    assert!(!seccion_contiene_hora(&x, "10:00"));
    assert!(!seccion_contiene_hora(&x, "xx"));
}

#[test]
fn section_inside_a_range() {
    let x = sec(&["LU 08:30-09:30"]);
    assert!(seccion_contenida_en_rango(&x, "LU 08:00-10:00"));
    assert!(!seccion_contenida_en_rango(&x, "MA 08:00-10:00"));
    assert!(!seccion_contenida_en_rango(&x, "LU 09:00-10:00"));
    assert!(!seccion_contenida_en_rango(&x, ""));
}

#[test]
fn interval_overlap_is_strict() {
    assert!(!intervals_overlap(0, 10, 10, 20));
    assert!(intervals_overlap(0, 10, 5, 15));
    assert!(horas_se_solapan(&(480, 600), &(540, 660)));
    assert!(!horas_se_solapan(&(480, 540), &(540, 660)));
}

#[test]
fn forbidden_blocks_overlap() {
    assert!(solapan_horarios(&s(&["LU JU 14:30 - 15:50"]), &s(&["JU 15:00-16:00"])));
    assert!(!solapan_horarios(&s(&["LU JU 14:30 - 15:50"]), &s(&["VI 15:00-16:00"])));
    assert!(!solapan_horarios(&s(&["LU JU 14:30 - 15:50"]), &[]));
    assert!(solapan_horarios_franja(&s(&["lu 08:00-09:00"]), &s(&["LU 08:30-08:45"])));
}

#[test]
fn section_inside_a_range_without_days() {
    let x = sec(&["LU 08:30-09:30"]);
    assert!(seccion_contenida_en_rango(&x, "08:00-10:00"));
    assert!(!seccion_contenida_en_rango(&x, "09:00-10:00"));
}
