pub mod grid;
pub mod model;
pub mod moves;
pub mod replay;
pub mod search;
