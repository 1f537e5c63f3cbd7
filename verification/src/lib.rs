//! Grammar model and LL(1) analyses: nullable symbols and FIRST sets.

pub mod collections;
pub mod grammar;
pub mod grammar_parser;
pub mod listing;
pub mod ll1;
pub mod text;
