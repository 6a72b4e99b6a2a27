pub mod def;
pub mod dummy_solver;
pub mod local_solvers;
pub mod memory_solver;
pub mod neighborhoods;
pub mod partial_path;
pub mod picker;
pub mod pickers;
pub mod random_solver;
pub mod similarities;
pub mod similarity;
pub mod solver;
