pub mod grid;
pub mod position;
pub mod renderer;
pub mod rules;
