//! Path and query lookups in JSON documents.
//!
//! An expression such as `friends.#(age<50)#.first` is split into tokens by
//! [`lexer`], and [`get`] walks a [`json::Json`] document along those tokens,
//! filtering arrays with the queries of [`query`].

pub mod json;
pub mod numeric;
pub mod token;
pub mod query;
pub mod lexer;
pub mod get;
pub mod laws;
pub mod filters;
pub mod paths;
pub mod meanings;
