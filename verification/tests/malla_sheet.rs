use quickshift::malla::{asignar_codigos_oferta, detect_malla_columns, malla_desde_hojas, malla_ramos, MallaColumns};
use quickshift::malla_electivos::malla_con_electivos;

fn row(cells: &[&str]) -> Vec<String> {
    cells.iter().map(|c| c.to_string()).collect()
}

fn malla_rows() -> Vec<Vec<String>> {
    vec![
        row(&["ID", "Semestre", "Nombre Asignatura", "Requisitos"]),
        row(&["1", "1", "Cálculo I", "—"]),
        row(&["2", "2", "Cálculo II", "1"]),
        row(&["3", " 2 ", "Física", "1.2"]),
        row(&["x", "", "Cálculo I", ""]),
        row(&["9"]),
    ]
}

fn oferta_rows() -> Vec<Vec<String>> {
    vec![
        row(&["plan", "codigo", "nombre"]),
        row(&["X", "MAT101", "CALCULO II"]),
        row(&["X", "", "Física"]),
        row(&["X", "FIS100", "Fisica"]),
        row(&["X", "MAT999", "Calculo II"]),
        row(&["X", "Y"]),
    ]
}

#[test]
fn header_columns_are_detected() {
    let c = detect_malla_columns(&malla_rows());
    assert_eq!(c.header_row, Some(0));
    assert_eq!(c.name_col, 2);
    assert_eq!(c.id_col, 0);
    assert_eq!(c.sem_col, Some(1));
    assert_eq!(c.req_col, Some(3));
    let none = detect_malla_columns(&vec![row(&["a", "b", "c"])]);
    assert_eq!(none.header_row, None);
    assert_eq!(none.name_col, 2);
    assert_eq!(none.id_col, 0);
}

#[test]
fn courses_keyed_by_normalised_name() {
    let c = MallaColumns { header_row: Some(0), name_col: 2, id_col: 0, sem_col: Some(1), req_col: Some(3) };
    let r = malla_ramos(&malla_rows(), &c);
    let keys: Vec<&str> = r.iter().map(|(k, _)| k.as_str()).collect();
    assert_eq!(keys, vec!["calculo i", "calculo ii", "fisica"]);
    // the later row with the same name replaces the first one
    assert_eq!(r[0].1.id, 0);
    assert_eq!(r[0].1.semestre, None);
    assert!(r[0].1.requisitos_ids.is_empty());
    assert_eq!(r[1].1.id, 2);
    assert_eq!(r[1].1.numb_correlativo, 2);
    assert_eq!(r[1].1.requisitos_ids, vec![1]);
    assert_eq!(r[2].1.semestre, Some(2));
    assert_eq!(r[2].1.requisitos_ids, vec![1, 2]);
    assert_eq!(r[2].1.nombre, "Física");
    assert_eq!(r[2].1.codigo, "");
}

#[test]
fn offer_codes_by_name() {
    let c = detect_malla_columns(&malla_rows());
    let mut r = malla_ramos(&malla_rows(), &c);
    asignar_codigos_oferta(&mut r, &oferta_rows());
    assert_eq!(r[0].1.codigo, "");
    assert_eq!(r[1].1.codigo, "MAT101");
    assert_eq!(r[2].1.codigo, "FIS100");
    let all = malla_desde_hojas(&malla_rows(), &oferta_rows());
    let codes: Vec<&str> = all.iter().map(|(_, r)| r.codigo.as_str()).collect();
    assert_eq!(codes, vec!["", "MAT101", "FIS100"]);
}

#[test]
fn rows_before_a_missing_header_are_skipped() {
    let rows = vec![row(&["a", "b", "Uno"]), row(&["x", "y", "Dos"]), row(&["3", "z", "Tres"])];
    let r = malla_desde_hojas(&rows, &vec![]);
    assert_eq!(r.len(), 1);
    assert_eq!(r[0].0, "tres");
    assert_eq!(r[0].1.id, 3);
}

fn srow(cells: &[&str]) -> Vec<String> {
    cells.iter().map(|c| c.to_string()).collect()
}

#[test]
fn electives_take_the_easiest_codes_in_order() {
    let rows = vec![
        srow(&["Nombre", "ID", "Creditos", "Requisitos", "Semestre", "Electivo"]),
        srow(&["Calculo I", "1", "6", "", "1", "false"]),
        srow(&["Calculo II", "2", "6", "", "2", "no"]),
        srow(&["Electivo Profesional", "44", "5", "", "8", "TRUE"]),
        srow(&["Electivo Profesional", "46", "5", "", "8", "Sí"]),
        srow(&["Electivo Profesional", "50", "5", "", "9", "1"]),
        srow(&["", "7", "5", "", "9", "0"]),
        srow(&["Fisica", "0", "5", "", "9", "0"]),
    ];
    let sems = vec![None, Some(1), Some(2), Some(8), Some(8), Some(9), Some(9), Some(9)];
    let electivos = vec!["CIT3501".to_string(), "CII2002".to_string()];
    let por_nombre = vec![("calculo i".to_string(), "CBM1000".to_string(), false)];
    let r = malla_con_electivos(&rows, &sems, &electivos, &por_nombre);
    let keys: Vec<&str> = r.iter().map(|(k, _)| k.as_str()).collect();
    assert_eq!(keys.len(), 5);
    let get = |k: &str| r.iter().find(|(kk, _)| kk == k).map(|(_, v)| v.clone()).unwrap();
    let e44 = get("electivo_profesional_44");
    assert_eq!(e44.codigo, "CIT3501");
    assert!(e44.electivo);
    assert_eq!(get("electivo_profesional_46").codigo, "CII2002");
    // More elective slots than codes: the identifier stands for the code.
    assert_eq!(get("electivo_profesional_50").codigo, "50");
    // Courses are linked to the course of the previous sequence number.
    assert_eq!(get("electivo_profesional_44").requisitos_ids, Vec::<i32>::new());
    let c2 = r.iter().find(|(_, v)| v.id == 2).unwrap().1.clone();
    assert_eq!(c2.requisitos_ids, vec![1]);
    assert_eq!(c2.codigo, "");
    assert_eq!(c2.semestre, Some(2));
    let c1 = r.iter().find(|(_, v)| v.id == 1).unwrap().1.clone();
    assert_eq!(c1.codigo, "CBM1000");
    assert_eq!(c1.requisitos_ids, Vec::<i32>::new());
}
