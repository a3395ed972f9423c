pub mod eval;
pub mod fixtures;
pub mod params;
