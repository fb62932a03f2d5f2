//! A verified currency conversion library.
//!
//! The library holds the logic of a small command-line currency converter:
//! validating the request, looking a rate up in a decoded rate table,
//! multiplying exactly, and rendering the output lines. Fetching the two
//! JSON documents over HTTP is left to the surrounding program, which hands
//! the decoded documents in as plain values.

pub mod convert;
pub mod decimal;
pub mod errors;
pub mod json;
pub mod list;
pub mod text;
