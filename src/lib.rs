pub mod find;
pub mod graph;
pub mod laws;
pub mod search;
