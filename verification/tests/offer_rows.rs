use quickshift::clique::{cumple_ventana_entre, seccion_time_ranges};
use quickshift::models::Seccion;
use quickshift::oferta_filas::{agrupar_filas_oferta, base_course_code, oferta_row, secciones_de_hojas};

fn s(v: &[&str]) -> Vec<String> {
    v.iter().map(|x| x.to_string()).collect()
}

fn sec(codigo: &str, seccion: &str, horario: &[&str], profesor: &str, codigo_box: &str) -> Seccion {
    Seccion {
        codigo: codigo.to_string(),
        nombre: "Curso".to_string(),
        seccion: seccion.to_string(),
        horario: s(horario),
        profesor: profesor.to_string(),
        codigo_box: codigo_box.to_string(),
    }
}

fn row(cells: &[(usize, &str)]) -> Vec<String> {
    let mut r = vec![String::new(); 19];
    for (k, v) in cells {
        r[*k] = v.to_string();
    }
    r
}

#[test]
fn time_ranges_of_a_timetable() {
    let r = seccion_time_ranges(&s(&["LU MA 08:30 - 09:50", "JU 14:30-15:50", "Sin horario", "VI 10:00"]));
    assert_eq!(
        r,
        vec![
            ("lu".to_string(), 510, 590),
            ("ma".to_string(), 510, 590),
            ("ju".to_string(), 870, 950),
        ]
    );
    assert!(seccion_time_ranges(&vec![]).is_empty());
}

#[test]
fn minimum_gap_between_sections() {
    let a = sec("A", "1", &["LU 08:30 - 09:50"], "", "A1");
    let b = sec("B", "1", &["LU 10:00 - 11:20"], "", "B1");
    let c = sec("C", "1", &["MA 10:00 - 11:20"], "", "C1");
    assert!(cumple_ventana_entre(&a, &b, 10));
    assert!(!cumple_ventana_entre(&a, &b, 15));
    assert!(!cumple_ventana_entre(&b, &a, 15));
    assert!(cumple_ventana_entre(&a, &c, 600));
    // overlapping classes are 0 minutes apart
    assert!(!cumple_ventana_entre(&a, &a, 1));
    assert!(cumple_ventana_entre(&a, &a, 0));
}

#[test]
fn base_code_drops_event_suffix() {
    assert_eq!(base_course_code("CBF1000_LA01"), "CBF1000");
    assert_eq!(base_course_code("  CIT2107-  "), "CIT2107");
    assert_eq!(base_course_code("MAT1"), "MAT1");
    assert_eq!(base_course_code("   "), "");
    assert_eq!(base_course_code("_X"), "");
}

#[test]
fn workbook_row_is_trimmed_and_split() {
    let r = oferta_row(
        &row(&[(1, " CBF1000_LA01 "), (2, " Física "), (3, "2"), (7, "LU 08:30 - 09:50; JU 10:00 - 11:20,, "), (9, " Pérez ")]),
        false,
    )
    .unwrap();
    assert_eq!(r.codigo, "CBF1000_LA01");
    assert_eq!(r.nombre, "Física");
    assert_eq!(r.seccion, "2");
    assert_eq!(r.horario, s(&["LU 08:30 - 09:50", "JU 10:00 - 11:20"]));
    assert_eq!(r.profesor, "Pérez");
    assert_eq!(r.codigo_box, "CBF1000_LA01");
    let empty = oferta_row(&row(&[(1, "X1")]), false).unwrap();
    assert_eq!(empty.horario, s(&["Sin horario"]));
    assert!(oferta_row(&row(&[(2, "Sin código")]), false).is_none());
    assert!(oferta_row(&vec![], false).is_none());
}

#[test]
fn xml_row_uses_defaults_for_missing_cells() {
    let r = oferta_row(&s(&["", "MAT1"]), true).unwrap();
    assert_eq!(r.nombre, "Sin nombre");
    assert_eq!(r.seccion, "1");
    assert_eq!(r.horario, s(&["Sin horario"]));
    assert_eq!(r.profesor, "Sin asignar");
    assert_eq!(r.codigo_box, "MAT1");
    assert!(oferta_row(&s(&["  ", " "]), true).is_none());
}

#[test]
fn rows_grouped_by_base_code_section_and_box() {
    let rows = vec![
        sec("CBF1000_LA01", "1", &["LU 08:30 - 09:50"], "", "B1"),
        sec("CBF1000_CA01", "1", &["MA 08:30 - 09:50", "LU 08:30 - 09:50"], "Soto", "B1"),
        sec("CBF1000", "2", &[], "Rojas", "B2"),
        sec("CBF1000_TA01", "1", &["JU 10:00 - 11:20"], "Lara", "B1"),
    ];
    let g = agrupar_filas_oferta(&rows);
    assert_eq!(g.len(), 2);
    assert_eq!(g[0].codigo, "CBF1000");
    assert_eq!(g[0].seccion, "1");
    assert_eq!(g[0].horario, s(&["LU 08:30 - 09:50", "MA 08:30 - 09:50", "JU 10:00 - 11:20"]));
    assert_eq!(g[0].profesor, "Soto");
    assert_eq!(g[1].seccion, "2");
    assert_eq!(g[1].horario, s(&["Sin horario"]));
}

#[test]
fn first_sheet_with_rows_is_read() {
    let header = s(&["n", "codigo", "nombre", "seccion"]);
    let sheets = vec![
        vec![header.clone()],
        vec![header.clone(), row(&[(1, "MAT1"), (3, "1")]), row(&[(1, "MAT1"), (3, "1"), (9, "Vera")])],
        vec![header, row(&[(1, "FIS1")])],
    ];
    let r = secciones_de_hojas(&sheets, false).unwrap();
    assert_eq!(r.len(), 1);
    assert_eq!(r[0].codigo, "MAT1");
    assert_eq!(r[0].profesor, "Vera");
    assert!(secciones_de_hojas(&vec![vec![s(&["h"])]], false).is_none());
}
