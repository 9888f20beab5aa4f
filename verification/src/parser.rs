//! Reading constraints `lhs ?= rhs` over declared variables: the tokenizer
//! and the recursive-descent parser.
pub mod parser;
pub mod tokenize;
