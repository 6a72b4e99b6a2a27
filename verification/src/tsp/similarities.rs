pub mod edge_similarity;
pub mod vertex_similarity;
