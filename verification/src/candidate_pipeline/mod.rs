pub mod candidate;
pub mod filter;
pub mod query;
