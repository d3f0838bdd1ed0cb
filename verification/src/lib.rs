pub mod ast;
pub mod checker;
pub mod unification;
pub mod stream;
pub mod lexer;
pub mod parser;
pub mod soundness;
