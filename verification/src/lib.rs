pub mod body;
pub mod laws;
pub mod math;
pub mod partition;
pub mod quadtree;
pub mod simulation;
