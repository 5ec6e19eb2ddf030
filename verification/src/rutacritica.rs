//! The critical-route planner built from the curriculum and the academic offer.
pub mod clique;
