use quickshift::courses::{cursos_por_semestre, cursos_todos, elegibles_desde_malla, ramo_to_dto};
use quickshift::disponibles::{cursos_disponibles, profesores_disponibles};
use quickshift::models::{RamoDisponible, Seccion};

fn ramo(id: i32, nombre: &str, codigo: &str, sem: Option<i32>, numb: i32, reqs: Vec<i32>) -> RamoDisponible {
    RamoDisponible {
        id,
        nombre: nombre.to_string(),
        codigo: codigo.to_string(),
        holgura: 0,
        numb_correlativo: numb,
        critico: false,
        requisitos_ids: reqs,
        electivo: false,
        semestre: sem,
    }
}

fn sec(codigo: &str, nombre: &str, seccion: &str, profesor: &str) -> Seccion {
    Seccion {
        codigo: codigo.to_string(),
        nombre: nombre.to_string(),
        seccion: seccion.to_string(),
        horario: vec!["LU 08:30 - 09:50".to_string()],
        profesor: profesor.to_string(),
        codigo_box: String::new(),
    }
}

fn s(v: &[&str]) -> Vec<String> {
    v.iter().map(|x| x.to_string()).collect()
}

fn malla() -> Vec<RamoDisponible> {
    vec![
        ramo(1, "Calculo I", "MAT1", Some(1), 1, vec![]),
        ramo(2, "Calculo II", "MAT2", Some(2), 3, vec![1]),
        ramo(3, "Fisica", "FIS1", Some(1), 2, vec![0]),
        ramo(4, "Topologia", "MAT9", Some(6), 9, vec![]),
        ramo(5, "Quimica", "QUI1", Some(2), 5, vec![3]),
        ramo(6, "Algebra", "", None, 4, vec![]),
    ]
}

fn oferta() -> Vec<Seccion> {
    vec![
        sec("MAT2", "Calculo II", "1", "Perez"),
        sec("FIS1", "Física", "1", "Gomez"),
        sec("MAT9", "Topologia", "1", "Ruiz"),
        sec("ELE1", "Robotica", "1", "Diaz"),
        sec("mat1", "Calculo I", "2", "Perez"),
    ]
}

fn cfg() -> Vec<Seccion> {
    vec![sec("CFG10", "Arte", "1", "Soto"), sec("ING1", "Inglés I", "1", "Lee")]
}

#[test]
fn dto_copies_every_field() {
    let r = ramo(7, "Redes", "INF7", Some(4), 12, vec![3, 5]);
    let d = ramo_to_dto(&r);
    assert_eq!(d.id, 7);
    assert_eq!(d.nombre, "Redes");
    assert_eq!(d.codigo, "INF7");
    assert_eq!(d.semestre, Some(4));
    assert_eq!(d.requisitos_ids, vec![3, 5]);
    assert_eq!(d.numb_correlativo, 12);
}

#[test]
fn eligible_courses_follow_prerequisites_and_order() {
    let r = elegibles_desde_malla(&malla(), &s(&["  mat1 ", ""]));
    let ids: Vec<i32> = r.iter().map(|c| c.id).collect();
    // Fisica (sem 1, seq 2), Calculo II (sem 2, seq 3), Topologia (sem 6), Algebra (no semester)
    assert_eq!(ids, vec![3, 2, 4, 6]);
}

#[test]
fn eligible_courses_by_name_and_nothing_passed() {
    let r = elegibles_desde_malla(&malla(), &s(&["FÍSICA"]));
    let ids: Vec<i32> = r.iter().map(|c| c.id).collect();
    // Fisica passed by name: Quimica opens; Calculo II still needs Calculo I.
    assert_eq!(ids, vec![1, 5, 4, 6]);
    let none = elegibles_desde_malla(&malla(), &[]);
    let ids: Vec<i32> = none.iter().map(|c| c.id).collect();
    assert_eq!(ids, vec![1, 3, 4, 6]);
}

#[test]
fn available_courses_by_kind() {
    let r = cursos_disponibles(&malla(), &oferta(), &cfg(), &s(&["MAT1"]));
    assert_eq!(r.cfgs_aprobados, 0);
    assert_eq!(r.electivos_aprobados, 0);
    assert!(r.mostrar_cfgs);
    assert!(r.mostrar_electivos);
    let got: Vec<(i32, String, bool, bool)> =
        r.cursos.iter().map(|c| (c.id, c.codigo.clone(), c.is_cfg, c.is_electivo)).collect();
    assert_eq!(
        got,
        vec![
            (3, "FIS1".to_string(), false, false),
            (2, "MAT2".to_string(), false, false),
            (1000, "CFG10".to_string(), true, false),
            (2000, "ELE1".to_string(), false, true),
            (2001, "ING1".to_string(), false, true),
        ]
    );
    assert_eq!(r.cursos[4].nombre, "Inglés 1");
    assert_eq!(r.cursos[1].semestre, Some(2));
    assert_eq!(r.cursos[1].requisitos_ids, vec![1]);
    assert_eq!(r.cursos[2].semestre, None);
}

#[test]
fn available_courses_hide_cfgs_and_electives_when_complete() {
    let pasados = s(&["CFG1", "cfg2", "CFG3", "CFG4", "X1", "X2", "X3"]);
    let r = cursos_disponibles(&malla(), &oferta(), &cfg(), &pasados);
    assert_eq!(r.cfgs_aprobados, 4);
    assert_eq!(r.electivos_aprobados, 3);
    assert!(!r.mostrar_cfgs);
    assert!(!r.mostrar_electivos);
    let codes: Vec<String> = r.cursos.iter().map(|c| c.codigo.clone()).collect();
    // nothing passed in the curriculum: the latest passed semester is 0, so up to semester 2
    assert_eq!(codes, vec!["FIS1".to_string(), "MAT1".to_string()]);
}

#[test]
fn teachers_of_the_available_sections() {
    let r = profesores_disponibles(&malla(), &oferta(), &cfg(), &s(&["MAT1"]));
    let got: Vec<(String, String, bool, bool)> =
        r.iter().map(|p| (p.profesor.clone(), p.curso_codigo.clone(), p.is_cfg, p.is_electivo)).collect();
    assert_eq!(
        got,
        vec![
            ("Diaz".to_string(), "ELE1".to_string(), false, true),
            ("Gomez".to_string(), "FIS1".to_string(), false, false),
            ("Lee".to_string(), "ING1".to_string(), false, true),
            ("Perez".to_string(), "MAT2".to_string(), false, false),
            ("Soto".to_string(), "CFG10".to_string(), true, false),
        ]
    );
    assert_eq!(r[2].curso_nombre, "Inglés 1");
    assert_eq!(r[0].horario, vec!["LU 08:30 - 09:50".to_string()]);
}

#[test]
fn courses_of_a_semester_in_order() {
    let map = vec![
        ramo(5, "Fisica", "FIS1", Some(2), 3, vec![]),
        ramo(2, "Calculo", "MAT1", Some(1), 2, vec![]),
        ramo(4, "Quimica", "QUI1", Some(2), 1, vec![]),
        ramo(1, "Algebra", "MAT0", Some(2), 3, vec![]),
        ramo(9, "Libre", "LIB1", None, 0, vec![]),
    ];
    let ids: Vec<i32> = cursos_por_semestre(&map, 2).iter().map(|c| c.id).collect();
    assert_eq!(ids, vec![4, 1, 5]);
    assert!(cursos_por_semestre(&map, 7).is_empty());
    let all: Vec<i32> = cursos_todos(&map).iter().map(|c| c.id).collect();
    assert_eq!(all, vec![2, 4, 1, 5, 9]);
    assert_eq!(cursos_todos(&map)[0].codigo, "MAT1");
}
