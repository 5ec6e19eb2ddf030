//! Course-schedule planning: parsing of timetable strings, conflict detection
//! between course sections, maximum-weight clique search, section selection and
//! critical-path (PERT) analysis of a curriculum.
pub mod text;
pub mod horario;
pub mod models;
pub mod conflict;
pub mod bitset;
pub mod clique_bk;
pub mod clique;
pub mod clique_all;
pub mod exhaustive;
pub mod plan_pool;
pub mod plan_score;
pub mod selector;
pub mod pert;
pub mod datafiles;
pub mod oferta;
pub mod oferta_filas;
pub mod malla;
pub mod malla_electivos;
pub mod filters;
pub mod scoring;
pub mod critical;
pub mod ruta;
pub mod courses;
pub mod disponibles;
pub mod merge;
pub mod prereqs;
pub mod porcentajes;
pub mod rutacritica;
