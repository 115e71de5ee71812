pub mod balance;
pub mod compiler;
pub mod lexer;
pub mod parser;
pub mod properties;
pub mod utils;
pub mod vm;
