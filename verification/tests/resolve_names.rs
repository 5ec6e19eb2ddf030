use quickshift::datafiles::resolve_ramos_with_resolver;
use quickshift::plan_pool::PlanParams;

fn strings(v: &serde_json::Value, key: &str) -> Vec<String> {
    v[key].as_array().unwrap().iter().map(|x| x.as_str().unwrap().to_string()).collect()
}

#[test]
fn test_parse_and_resolve_ramos_with_mock() {
    let json_data = r#"
    {
        "email": "juan.perez@example.com",
        "ramos_pasados": ["Algebra y Geometría", "Calculo 1", "Programación"],
        "ramos_prioritarios": ["Programación Avanzada", "Calculo 2"],
        "horarios_preferidos": ["08:00-10:00"],
        "malla": "MallaCurricularTest.xlsx"
    }
    "#;
    let v: serde_json::Value = serde_json::from_str(json_data).unwrap();
    let params = PlanParams {
        ramos_pasados: strings(&v, "ramos_pasados"),
        ramos_prioritarios: strings(&v, "ramos_prioritarios"),
        optimizations: vec![],
        filtros: None,
    };
    let resolver = |_path: String, name: String| -> Option<String> {
        let lower = name.to_lowercase();
        if lower.contains("programación avanzada") {
            return Some("CIT9999".to_string());
        }
        if lower.contains("programación") {
            return Some("CIT1001".to_string());
        }
        if lower.contains("algebra") {
            return Some("MAT1000".to_string());
        }
        None
    };
    let params = resolve_ramos_with_resolver(params, "MallaCurricularTest.xlsx", Some("."), &resolver);
    assert!(params.ramos_pasados.contains(&"MAT1000".to_string()));
    assert!(params.ramos_pasados.contains(&"CIT1001".to_string()));
    assert!(params.ramos_prioritarios.contains(&"CIT9999".to_string()));
    assert!(params.ramos_pasados.contains(&"Calculo 1".to_string()));
}

#[test]
fn codes_are_kept_and_unknown_names_stay() {
    let params = PlanParams {
        ramos_pasados: vec!["CIT3313".to_string(), "Historia".to_string()],
        ramos_prioritarios: vec![],
        optimizations: vec![],
        filtros: None,
    };
    let resolver = |_path: String, name: String| -> Option<String> { if name == "CIT3313" { Some("X".to_string()) } else { None } };
    let r = resolve_ramos_with_resolver(params, "Malla.xlsx", None, &resolver);
    assert_eq!(r.ramos_pasados, vec!["CIT3313".to_string(), "Historia".to_string()]);
}

#[test]
fn the_resolver_gets_the_malla_path() {
    let params = PlanParams {
        ramos_pasados: vec!["Historia".to_string()],
        ramos_prioritarios: vec![],
        optimizations: vec![],
        filtros: None,
    };
    let resolver = |path: String, _name: String| -> Option<String> { Some(path) };
    let r = resolve_ramos_with_resolver(params, "Malla2020.xlsx", Some("datafiles"), &resolver);
    let expected = std::path::Path::new("datafiles").join("Malla2020.xlsx").to_string_lossy().into_owned();
    assert_eq!(r.ramos_pasados, vec![expected]);
}
