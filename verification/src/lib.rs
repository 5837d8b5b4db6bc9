pub mod laws;
pub mod puzzle;
