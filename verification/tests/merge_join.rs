use quickshift::merge::{merge_malla_oferta_porcentajes, PaMatch};
use quickshift::models::{RamoDisponible, Seccion};

fn ramo(id: i32, nombre: &str, codigo: &str) -> RamoDisponible {
    RamoDisponible {
        id,
        nombre: nombre.to_string(),
        codigo: codigo.to_string(),
        holgura: 0,
        numb_correlativo: id,
        critico: false,
        requisitos_ids: vec![],
        electivo: false,
        semestre: Some(1),
    }
}

fn sec(codigo: &str, nombre: &str, codigo_box: &str) -> Seccion {
    Seccion {
        codigo: codigo.to_string(),
        nombre: nombre.to_string(),
        seccion: "1".to_string(),
        horario: vec!["LU 08:30 - 09:50".to_string()],
        profesor: "Perez".to_string(),
        codigo_box: codigo_box.to_string(),
    }
}

fn malla() -> Vec<(String, RamoDisponible)> {
    vec![
        ("10".to_string(), ramo(10, "Física", "FIS1")),
        ("B2".to_string(), ramo(3, "Arte", "ART1")),
        ("2".to_string(), ramo(2, "Cálculo I", "MAT1")),
        ("A1".to_string(), ramo(4, "Historia", "HIS1")),
    ]
}

fn oferta() -> Vec<Seccion> {
    vec![
        sec("FIS1", "FISICA", "FB1"),
        sec("MAT1", "Calculo I", "MB1"),
        sec("FIS1", "Fisica", "FB2"),
    ]
}

#[test]
fn join_orders_numeric_codes_first() {
    let boxes = vec!["FB2".to_string()];
    let names = vec![("historia".to_string(), "PAH".to_string(), true), ("calculo i".to_string(), "PAC".to_string(), false)];
    let r = merge_malla_oferta_porcentajes(&malla(), &oferta(), &boxes, &names);
    let codes: Vec<&str> = r.iter().map(|f| f.malla_codigo.as_str()).collect();
    assert_eq!(codes, vec!["2", "10", "10", "A1", "B2"]);
    // the course found by name in the rate table
    assert_eq!(r[0].oferta.as_ref().unwrap().codigo_box, "MB1");
    assert_eq!(r[0].pa, PaMatch::PorNombre(1));
    assert_eq!(r[0].pa_codigo.as_deref(), Some("PAC"));
    assert_eq!(r[0].es_electivo, None);
    // one row per offered section, in offer order; rates by box code
    assert_eq!(r[1].oferta.as_ref().unwrap().codigo_box, "FB1");
    assert_eq!(r[1].pa, PaMatch::Ninguno);
    assert_eq!(r[1].pa_codigo, None);
    assert_eq!(r[2].oferta.as_ref().unwrap().codigo_box, "FB2");
    assert_eq!(r[2].pa, PaMatch::PorBox(0));
    assert_eq!(r[2].pa_codigo.as_deref(), Some("FB2"));
    // not offered: the rate row by name, with its elective mark
    assert!(r[3].oferta.is_none());
    assert_eq!(r[3].pa, PaMatch::PorNombre(0));
    assert_eq!(r[3].pa_codigo.as_deref(), Some("PAH"));
    assert_eq!(r[3].es_electivo, Some(true));
    // neither offered nor rated
    assert!(r[4].oferta.is_none());
    assert_eq!(r[4].pa, PaMatch::Ninguno);
    assert_eq!(r[4].malla_nombre, "Arte");
}

#[test]
fn join_of_nothing_is_empty() {
    let r = merge_malla_oferta_porcentajes(&[], &oferta(), &[], &[]);
    assert!(r.is_empty());
}

#[test]
fn every_course_gives_a_row() {
    let r = merge_malla_oferta_porcentajes(&malla(), &[], &[], &[]);
    assert_eq!(r.len(), 4);
    let codes: Vec<&str> = r.iter().map(|f| f.malla_codigo.as_str()).collect();
    assert_eq!(codes, vec!["2", "10", "A1", "B2"]);
}
