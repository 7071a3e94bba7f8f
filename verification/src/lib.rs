pub mod error;
pub mod sink;
pub mod parser;
