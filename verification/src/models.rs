//! Data model shared by the planner: course sections, curriculum courses, PERT nodes
//! and the user's optional filters.
use vstd::prelude::*;

verus! {

/// A course section offered in a term, with its weekly timetable entries.
#[derive(Debug, Clone)]
pub struct Seccion {
    pub codigo: String,
    pub nombre: String,
    pub seccion: String,
    pub horario: Vec<String>,
    pub profesor: String,
    pub codigo_box: String,
}

/// The characters of each string of a sequence.
pub open spec fn str_views(v: Seq<String>) -> Seq<Seq<char>> {
    v.map_values(|s: String| s@)
}

/// A copy of a vector of strings.
pub fn copy_strings(v: &Vec<String>) -> (r: Vec<String>)
    ensures
        r@ == v@,
{
    let mut r: Vec<String> = Vec::new();
    let mut i: usize = 0;
    while i < v.len()
        invariant
            i <= v.len(),
            r@ == v@.subrange(0, i as int),
        decreases v.len() - i,
    {
        r.push(v[i].clone());
        i = i + 1;
        assert(r@ =~= v@.subrange(0, i as int));
    }
    assert(v@.subrange(0, v.len() as int) =~= v@);
    r
}

impl Seccion {
    /// A field-by-field copy of this section.
    pub fn duplicate(&self) -> (r: Seccion)
        ensures
            r.codigo == self.codigo,
            r.nombre == self.nombre,
            r.seccion == self.seccion,
            r.horario@ == self.horario@,
            r.profesor == self.profesor,
            r.codigo_box == self.codigo_box,
    {
        Seccion {
            codigo: self.codigo.clone(),
            nombre: self.nombre.clone(),
            seccion: self.seccion.clone(),
            horario: copy_strings(&self.horario),
            profesor: self.profesor.clone(),
            codigo_box: self.codigo_box.clone(),
        }
    }
}

/// Filter 3: free days and forbidden time blocks.
#[derive(Debug, Clone)]
pub struct DiaHorariosLibres {
    pub habilitado: bool,
    pub dias_libres_preferidos: Option<Vec<String>>,
    pub minimizar_ventanas: Option<bool>,
    pub ventana_ideal_minutos: Option<i32>,
    /// Forbidden blocks such as `"LU 08:30-10:00"`.
    pub franjas_prohibidas: Option<Vec<String>>,
    /// When true, sections without a timetable are avoided.
    pub no_sin_horario: Option<bool>,
}

/// Filter 4: minimum gap between activities.
#[derive(Debug, Clone)]
pub struct VentanaEntreActividades {
    pub habilitado: bool,
    pub minutos_entre_clases: Option<i32>,
}

/// Filter 5: preferred and avoided teachers.
#[derive(Debug, Clone)]
pub struct PreferenciasProfesores {
    pub habilitado: bool,
    pub profesores_preferidos: Option<Vec<String>>,
    pub profesores_evitar: Option<Vec<String>>,
}

/// The user's optional filters; each applies only when present and enabled.
#[derive(Debug, Clone)]
pub struct UserFilters {
    pub dias_horarios_libres: Option<DiaHorariosLibres>,
    pub ventana_entre_actividades: Option<VentanaEntreActividades>,
    pub preferencias_profesores: Option<PreferenciasProfesores>,
}

/// A course of the curriculum with its critical-path data.
#[derive(Debug, Clone)]
pub struct RamoDisponible {
    /// Identifier within the curriculum, used for prerequisite links.
    pub id: i32,
    pub nombre: String,
    /// Code of the course in the academic offer, e.g. `"CIT2107"`.
    pub codigo: String,
    pub holgura: i32,
    pub numb_correlativo: i32,
    pub critico: bool,
    /// Identifiers of the prerequisite courses.
    pub requisitos_ids: Vec<i32>,
    pub electivo: bool,
    /// Curricular semester (1 = first).
    pub semestre: Option<i32>,
}

/// A node of the PERT graph: earliest/latest start and finish, and slack.
#[derive(Debug, Clone)]
pub struct PertNode {
    pub codigo: String,
    pub nombre: String,
    pub es: Option<i32>,
    pub ef: Option<i32>,
    pub ls: Option<i32>,
    pub lf: Option<i32>,
    pub h: Option<i32>,
}

/// A section chosen for a recommended path.
#[derive(Debug, Clone)]
pub struct SectionChoice {
    pub codigo: String,
    pub seccion: String,
    pub horario: Vec<String>,
    pub profesor: Option<String>,
}

/// Request for the recommended courses of a curriculum.
#[derive(Debug, Clone)]
pub struct CursosRecomendadosRequest {
    pub malla_id: String,
    pub ramos_aprobados: Vec<String>,
    pub sheet: Option<String>,
}

/// Request for the teachers available to a student.
#[derive(Debug, Clone)]
pub struct ProfesoresDisponiblesRequest {
    pub malla: String,
    pub ramos_pasados: Vec<String>,
}

/// Request for the courses available to a student.
#[derive(Debug, Clone)]
pub struct CursosDisponiblesRequest {
    pub malla: String,
    pub ramos_pasados: Vec<String>,
}

} // verus!
