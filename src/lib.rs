pub mod token;
pub mod lexer;
pub mod errors;
pub mod names;
pub mod expr;
pub mod types;
pub mod context;
pub mod using;
pub mod inline_asm;
pub mod array;
pub mod statements;
pub mod laws;
