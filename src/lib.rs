//! A small pattern matcher: patterns made of literal text, one-of groups
//! `(a|b|c)` and single-character wildcards `.` are compiled once into tokens,
//! and candidate strings are then matched against them in one forward pass.
pub mod laws;
pub mod matcher;
pub mod model;

pub use matcher::{Matcher, MatcherToken};
