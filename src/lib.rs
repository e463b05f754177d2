pub mod error;
pub mod json;
pub mod responses;
