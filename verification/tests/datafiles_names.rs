use quickshift::datafiles::{
    aplicar_equivalencias, base_course_key, build_normalized_index, column_letters_to_index,
    equivalencias_de_filas, find_best_name_match, latest_file_for_keywords, latest_pa_file, list_datafiles, malla_file_for_year, normalize_codigo_nombre,
    normalize_header, normalize_name,
};

fn s(v: &[&str]) -> Vec<String> {
    v.iter().map(|x| x.to_string()).collect()
}

#[test]
fn header_is_lower_cased_without_spaces() {
    assert_eq!(normalize_header(" Código Asignatura "), "códigoasignatura");
    assert_eq!(normalize_header("NOMBRE\tRAMO"), "nombreramo");
}

#[test]
fn column_letters() {
    assert_eq!(column_letters_to_index("A"), 1);
    assert_eq!(column_letters_to_index("Z"), 26);
    assert_eq!(column_letters_to_index("AB"), 28);
    assert_eq!(column_letters_to_index("a"), 1);
    assert_eq!(column_letters_to_index("A1B"), 28);
    assert_eq!(column_letters_to_index(""), 0);
}

#[test]
fn codigo_nombre_swapped_when_reversed() {
    assert_eq!(
        normalize_codigo_nombre("Cálculo", "101"),
        ("101".to_string(), "Cálculo".to_string())
    );
    assert_eq!(
        normalize_codigo_nombre("101", "Cálculo"),
        ("101".to_string(), "Cálculo".to_string())
    );
    assert_eq!(
        normalize_codigo_nombre("CIT1000", "Programación"),
        ("CIT1000".to_string(), "Programación".to_string())
    );
}

#[test]
fn names_match_across_accents_and_case() {
    assert_eq!(normalize_name("Mecánica"), normalize_name("MECÁNICA"));
    assert_eq!(normalize_name("  Mecánica! "), "mecanica");
    assert_eq!(
        find_best_name_match("Calculo I", &s(&["Fisica", "CÁLCULO I"])),
        Some("CÁLCULO I".to_string())
    );
    assert_eq!(find_best_name_match("Quimica", &s(&["Fisica"])), None);
}

#[test]
fn normalized_index_keeps_the_last_name() {
    let idx = build_normalized_index(&s(&["Física", "Química", "FISICA"]));
    assert_eq!(idx.len(), 2);
    assert!(idx.contains(&("fisica".to_string(), "FISICA".to_string())));
    assert!(idx.contains(&("quimica".to_string(), "Química".to_string())));
}

#[test]
fn equivalences_replace_and_keep_the_rest() {
    let eq = vec![
        ("CIT1000".to_string(), "CIT2000".to_string()),
        ("MAT1".to_string(), "MAT9".to_string()),
        ("MAT1".to_string(), "MAT2".to_string()),
    ];
    assert_eq!(
        aplicar_equivalencias(&s(&["cit1000", "mat1", "fis1"]), &eq),
        s(&["CIT2000", "MAT2", "fis1"])
    );
}

#[test]
fn base_course_key_drops_lab_words() {
    assert_eq!(base_course_key("Física Laboratorio"), "fisica");
    assert_eq!(base_course_key("Física"), "fisica");
    assert_eq!(base_course_key("Taller de Química"), "de quimica");
}

#[test]
fn data_files_are_classified_by_name() {
    let (m, o, p) = list_datafiles(&s(&[
        "Malla2020.xlsx",
        "OA20251.xlsx",
        "PA2025-1.xlsx",
        "~tmp.xlsx",
        "notes.txt",
        "porcentajes.xlsx",
        "MC2018.xlsx",
        ".hidden_malla.xlsx",
    ]));
    assert_eq!(m, s(&["Malla2020.xlsx", "MC2018.xlsx"]));
    assert_eq!(o, s(&["OA20251.xlsx"]));
    assert_eq!(p, s(&["PA2025-1.xlsx", "porcentajes.xlsx"]));
}

#[test]
fn latest_file_prefers_greatest_term() {
    let files = vec![
        ("OA2024.xlsx".to_string(), 5u128),
        ("OA20251.xlsx".to_string(), 1u128),
        ("OA_TEST.xlsx".to_string(), 9u128),
        (".OA2030.xlsx".to_string(), 10u128),
    ];
    assert_eq!(latest_file_for_keywords(&files, &["oa"]), Some("OA20251.xlsx".to_string()));
}

#[test]
fn latest_file_falls_back_to_most_recent_test_file() {
    let files = vec![
        ("OA_TEST1.xlsx".to_string(), 3u128),
        ("OA_TEST2.xlsx".to_string(), 7u128),
        ("OA_TEST3.xlsx".to_string(), 7u128),
    ];
    assert_eq!(latest_file_for_keywords(&files, &["OA"]), Some("OA_TEST2.xlsx".to_string()));
    assert_eq!(latest_file_for_keywords(&files, &["malla"]), None);
}

#[test]
fn latest_file_same_term_takes_the_most_recent() {
    let files = vec![
        ("porcentajes_a.xlsx".to_string(), 1u128),
        ("porcentajes_b.xlsx".to_string(), 2u128),
        ("porcentajes_c.xlsx".to_string(), 2u128),
    ];
    // No name has a term number: the most recently modified wins, the first listed on a tie.
    assert_eq!(latest_file_for_keywords(&files, &["porcentaje"]), Some("porcentajes_b.xlsx".to_string()));
}

#[test]
fn latest_rate_file_of_a_term() {
    let files = vec![
        ("PA2025-1.xlsx".to_string(), 10u128),
        ("pa2024-2.xlsx".to_string(), 20u128),
        ("Paris.xlsx".to_string(), 30u128),
        ("pa2023.xlsx".to_string(), 20u128),
    ];
    assert_eq!(latest_pa_file(&files), Some("pa2024-2.xlsx".to_string()));
    assert_eq!(latest_pa_file(&files[2..3]), None);
}

#[test]
fn curriculum_file_of_a_year() {
    let files = vec![
        ("Malla2020.xlsx".to_string(), 5u128),
        ("MC2020.xlsx".to_string(), 9u128),
        ("malla2018.xlsx".to_string(), 50u128),
        ("Oferta2020.xlsx".to_string(), 99u128),
        ("malla-5.xlsx".to_string(), 1u128),
    ];
    assert_eq!(malla_file_for_year(&files, 2020), Some("MC2020.xlsx".to_string()));
    assert_eq!(malla_file_for_year(&files, 2018), Some("malla2018.xlsx".to_string()));
    assert_eq!(malla_file_for_year(&files, 2019), None);
    assert_eq!(malla_file_for_year(&files, -5), Some("malla-5.xlsx".to_string()));
}

#[test]
fn equivalence_sheet_rows() {
    let rows: Vec<Vec<Option<String>>> = vec![
        vec![Some("Antiguo".to_string()), Some("Nuevo".to_string())],
        vec![Some(" cit1000 ".to_string()), Some("cit2000".to_string())],
        vec![Some("X1".to_string()), None],
        vec![Some("MAT1".to_string())],
        vec![Some("cit1000".to_string()), Some("CIT3000 ".to_string())],
    ];
    let eq = equivalencias_de_filas(&rows);
    assert_eq!(
        eq,
        vec![("CIT1000".to_string(), "CIT2000".to_string()), ("CIT1000".to_string(), "CIT3000".to_string())]
    );
    assert_eq!(aplicar_equivalencias(&s(&["cit1000", "mat1"]), &eq), s(&["CIT3000", "mat1"]));
    assert!(equivalencias_de_filas(&vec![]).is_empty());
}
