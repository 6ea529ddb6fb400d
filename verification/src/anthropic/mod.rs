pub mod cache;
pub mod hashing;
pub mod json;
pub mod laws;
pub mod store;
pub mod types;
