pub mod lexer;
pub mod model;
pub mod parser;
