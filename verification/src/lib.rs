//! Helpers in the manner of lodash, verified: case conversion of identifiers,
//! paths into nested values, and the usual functions on lists, objects and
//! numbers.

pub mod arrays;
pub mod case_laws;
pub mod numbers;
pub mod objects;
pub mod path;
pub mod strings;
pub mod strings_helpers;
pub mod value;
