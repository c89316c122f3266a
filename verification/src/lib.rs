pub mod grid;
pub mod layout;
pub mod position;
