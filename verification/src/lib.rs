pub mod insertion;
pub mod selection;
pub mod order;
