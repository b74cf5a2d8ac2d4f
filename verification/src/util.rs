pub mod mem;
pub mod types;
