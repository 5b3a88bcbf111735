pub mod hvm;
pub mod lexer;
