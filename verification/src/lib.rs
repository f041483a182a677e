//! Renames an identifier throughout a text, whatever naming convention each
//! occurrence is written in: every occurrence is found by its surface form
//! and replaced by the new identifier in the same convention.

use vstd::prelude::*;

pub mod casing;
pub mod chars;
pub mod error;
pub mod record;
pub mod task;
pub mod token;

pub use error::{Error, Result};

verus! {

/// The character that marks a word boundary inside a token.
pub const SEPARATOR: char = ',';

} // verus!
