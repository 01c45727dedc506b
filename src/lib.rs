pub mod date;
pub mod laws;
pub mod model;
pub mod parser;
pub mod roster;
pub mod text;
pub mod types;
