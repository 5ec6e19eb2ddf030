use quickshift::prereqs::prerequisitos_de_hojas;

fn sheet(rows: &[&[&str]]) -> Vec<Vec<String>> {
    rows.iter().map(|r| r.iter().map(|c| c.to_string()).collect()).collect()
}

fn workbook() -> Vec<Vec<Vec<String>>> {
    vec![
        sheet(&[&["Código", "Nombre"], &["X", "Y"]]),
        sheet(&[
            &["ID Ramo", "Requisitos"],
            &["MAT2", "MAT1, FIS1;"],
            &["QUI2", ""],
            &["MAT2", "ALG1"],
            &["FIS2", " ; "],
            &["", "ALG1"],
        ]),
    ]
}

#[test]
fn prerequisites_from_later_sheets() {
    let r = prerequisitos_de_hojas("Malla2024.xlsx", &workbook());
    assert_eq!(r, vec![("MAT2".to_string(), vec!["MAT1".to_string(), "FIS1".to_string(), "ALG1".to_string()])]);
}

#[test]
fn historical_curricula_use_the_first_sheet() {
    let r = prerequisitos_de_hojas("MALLA2020.xlsx", &workbook());
    assert_eq!(r, vec![("X".to_string(), vec!["Y".to_string()])]);
}

#[test]
fn no_sheets_no_prerequisites() {
    assert!(prerequisitos_de_hojas("Malla2024.xlsx", &vec![]).is_empty());
    let one = vec![workbook().remove(0)];
    assert!(prerequisitos_de_hojas("Malla2024.xlsx", &one).is_empty());
}

#[test]
fn prerequisite_column_found_by_header() {
    let wb = vec![
        vec![],
        sheet(&[&["Requerimientos", "Nombre", "Codigo"], &["A, B", "Algebra", "C1"], &["D", "x", ""]]),
    ];
    let r = prerequisitos_de_hojas("otra.xlsx", &wb);
    assert_eq!(r, vec![("C1".to_string(), vec!["A".to_string(), "B".to_string()])]);
}
