pub mod lexical;
pub mod reader;
pub mod types;
pub mod laws;
