pub mod interpreter;
pub mod parser;
