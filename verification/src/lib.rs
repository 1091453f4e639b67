pub mod board;
pub mod moves;
pub mod order;
pub mod search;
