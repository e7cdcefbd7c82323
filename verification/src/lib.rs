pub mod laws;
pub mod merge;
pub mod model;
