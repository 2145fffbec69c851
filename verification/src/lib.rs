//! A small line-search library: given a query string and a file's contents,
//! it returns every line containing the query, case-sensitively or
//! case-insensitively, together with the argument-to-configuration step of
//! the surrounding command-line tool.

pub mod config;
pub mod search;
