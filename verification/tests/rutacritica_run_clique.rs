use quickshift::rutacritica::clique::{clique_plan, fallback_ramos, run_clique_example, simulated_sections};
use quickshift::models::{RamoDisponible, Seccion};

#[test]
fn run_rutacritica_clique_example_runs() {
    // The example runner uses the built-in curriculum and simulated sections;
    // it must run without panicking.
    quickshift::rutacritica::clique::run_clique_example();
}

#[test]
fn clique_example_picks_one_section_when_all_share_a_slot() {
    // Every simulated section has the entry "08:00-10:00", so no two are compatible.
    let r = run_clique_example();
    assert_eq!(r.len(), 1);
    assert_eq!(r[0].0.horario, vec!["08:00-10:00".to_string()]);
}

#[test]
fn simulated_sections_follow_the_naming_scheme() {
    let ramos = fallback_ramos();
    assert_eq!(ramos.len(), 4);
    let secs = simulated_sections(&ramos);
    assert_eq!(secs.len(), 8);
    assert_eq!(secs[0].codigo, "CIT3313-SEC1");
    assert_eq!(secs[1].codigo, "CIT3313-SEC2");
    assert_eq!(secs[1].seccion, "2");
    assert_eq!(secs[1].profesor, "Profesor 2");
    assert_eq!(secs[0].codigo_box, "CIT3313");
    assert_eq!(secs[6].nombre, "Curso de Formación General");
}

fn sec(codigo: &str, caja: &str, seccion: &str, horario: &[&str]) -> Seccion {
    Seccion {
        codigo: codigo.to_string(),
        nombre: codigo.to_string(),
        seccion: seccion.to_string(),
        horario: horario.iter().map(|h| h.to_string()).collect(),
        profesor: String::new(),
        codigo_box: caja.to_string(),
    }
}

fn ramo(id: i32, codigo: &str, critico: bool, holgura: i32, numb: i32) -> RamoDisponible {
    RamoDisponible {
        id,
        nombre: codigo.to_string(),
        codigo: codigo.to_string(),
        holgura,
        numb_correlativo: numb,
        critico,
        requisitos_ids: vec![],
        electivo: false,
        semestre: None,
    }
}

#[test]
fn clique_plan_prefers_heavier_compatible_sections() {
    let secs = vec![
        sec("CIT1000", "B1", "1", &["LU 08:00-09:00"]),
        sec("CIT2000", "B2", "1", &["MA 08:00-09:00"]),
        sec("CIT2000", "B3", "2", &["LU 08:00-09:00"]),
    ];
    let ramos = vec![ramo(1, "CIT1000", true, 0, 50), ramo(2, "CIT2000", false, 5, 50)];
    let plan = clique_plan(&secs, &ramos, 6, 1000).unwrap();
    // Sections 0 and 1 are compatible; section 2 shares its slot with section 0 and its
    // code prefix with section 1.
    assert_eq!(plan.len(), 2);
    let mut codes: Vec<String> = plan.iter().map(|(s, _)| s.codigo_box.clone()).collect();
    codes.sort();
    assert_eq!(codes, vec!["B1".to_string(), "B2".to_string()]);
    let w0 = plan.iter().find(|(s, _)| s.codigo_box == "B1").unwrap().1;
    assert_eq!(w0, 10_101_001);
}

#[test]
fn clique_plan_refuses_codes_cut_inside_a_character() {
    // "ÁÁÁÁ" is eight bytes: the seventh byte falls inside the fourth character.
    let secs = vec![sec("ÁÁÁÁ", "B1", "1", &["LU 08:00-09:00"])];
    assert!(clique_plan(&secs, &[], 6, 1000).is_none());
}
