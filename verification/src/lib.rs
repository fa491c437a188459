pub mod logistics;
pub mod types;
