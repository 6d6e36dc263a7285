pub mod graph;

pub use graph::clone_respects_equality;
pub use graph::eq_reflects_equality;
pub use graph::Graph;
