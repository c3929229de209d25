pub mod models;
pub mod order;
