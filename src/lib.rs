pub mod executor;
pub mod lexer;
pub mod parser;
mod text;
