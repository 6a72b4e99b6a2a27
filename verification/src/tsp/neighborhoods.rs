pub mod edges_transition;
pub mod inter_cycle_transition;
pub mod neighborhood;
pub mod vertex_transition;
pub mod transition;
