pub mod cell_value;
pub mod grid;
pub mod solver;
pub mod text;
pub mod units;
