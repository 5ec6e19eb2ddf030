use quickshift::porcentajes::{columnas_porcentajes, fila_cabecera_porcentajes, filas_porcentajes, ColumnasPorcentaje};

fn sheet(rows: &[&[&str]]) -> Vec<Vec<String>> {
    rows.iter().map(|r| r.iter().map(|c| c.to_string()).collect()).collect()
}

fn rates() -> Vec<Vec<String>> {
    sheet(&[
        &["Reporte"],
        &["Código Ramo", "Denominación", "Aprobados", "Total", "Electivo"],
        &["CIT1", " Cálculo I ", "10,5", "20", "Sí"],
        &["", "x", "1", "2", ""],
        &["CIT2", "", "3", "4", "no"],
    ])
}

#[test]
fn header_and_columns() {
    let rows = rates();
    assert_eq!(fila_cabecera_porcentajes(&rows), Some(1));
    let c = columnas_porcentajes(&rows[1]);
    assert_eq!(
        c,
        ColumnasPorcentaje { codigo: 0, aprobados: Some(2), total: Some(3), porcentaje: None, nombre: Some(1), electivo: Some(4) }
    );
    let pct = columnas_porcentajes(&vec!["Asignatura".to_string(), "% Aprobación".to_string()]);
    assert_eq!(pct.codigo, 0);
    assert_eq!(pct.nombre, Some(0));
    assert_eq!(pct.porcentaje, Some(1));
    assert_eq!(pct.aprobados, Some(1));
    assert_eq!(pct.total, None);
}

#[test]
fn course_rows_with_rate_texts() {
    let rows = rates();
    let c = columnas_porcentajes(&rows[1]);
    let f = filas_porcentajes(&rows, 1, c);
    assert_eq!(f.len(), 2);
    assert_eq!(f[0].codigo, "CIT1");
    assert_eq!(f[0].aprobados.as_deref(), Some("10.5"));
    assert_eq!(f[0].total.as_deref(), Some("20"));
    assert_eq!(f[0].porcentaje, None);
    assert_eq!(f[0].nombre_clave.as_deref(), Some("calculo i"));
    assert!(f[0].es_electivo);
    assert_eq!(f[1].codigo, "CIT2");
    assert_eq!(f[1].nombre_clave, None);
    assert!(!f[1].es_electivo);
}

#[test]
fn percentage_text_without_sign() {
    let rows = sheet(&[&["codigo", "porcentaje"], &["X1", "87,5%"]]);
    let c = columnas_porcentajes(&rows[0]);
    let f = filas_porcentajes(&rows, 0, c);
    assert_eq!(f[0].porcentaje.as_deref(), Some("87.5"));
    assert_eq!(f[0].aprobados, None);
}

#[test]
fn no_header_in_the_first_eight_rows() {
    let mut rows = vec![vec!["x".to_string()]; 8];
    rows.push(vec!["codigo".to_string()]);
    assert_eq!(fila_cabecera_porcentajes(&rows), None);
    assert_eq!(fila_cabecera_porcentajes(&vec![]), None);
}
