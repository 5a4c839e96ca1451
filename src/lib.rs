//! A parser for a small TOML-like configuration format.
//!
//! Text is lexed one token per character (`token`), read through a cursor
//! that tracks line and column, and parsed by recursive descent (`parser`)
//! into a tree of `value::Value`s. Bare literals are classified by `scalar`,
//! and tables are built by `table`, which keeps each table's keys unique.
//! Failures are `error::ParseError` values; nothing here panics.

use vstd::prelude::*;

pub mod error;
pub mod parser;
pub mod scalar;
pub mod table;
pub mod token;
pub mod value;

verus! {

} // verus!
