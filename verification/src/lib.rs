//! A JSON front end: a tokenizer that cuts text into tokens, and a parser that
//! builds a tree from them. Every function comes with a contract that says
//! what it returns, stated over the mathematical views of the data.

pub mod chars;
pub mod grammar;
pub mod lexer;
pub mod nesting;
pub mod number;
pub mod order;
pub mod parser;
pub mod token;
pub mod value;
