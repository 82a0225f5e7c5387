//! The text protocol by which an engine is driven: reading its commands and
//! writing its answers.
pub mod parse;
pub mod patterns;
pub mod respond;

use vstd::prelude::*;

verus! {

/// The protocol.
pub struct Uci;

} // verus!
