//! A library that turns Bruno `.bru` request documents into curl command
//! lines: a recursive-descent parser for the brace-delimited block format,
//! environment-variable substitution, and shell-quoted command generation.

pub mod ast;
pub mod curl;
pub mod environment;
pub mod parser;
pub mod scan;
