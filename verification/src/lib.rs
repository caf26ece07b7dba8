//! A Document Narrative Model (DNM): a linear plaintext projection of an
//! XML-like document tree together with a node-to-range index, so that
//! plaintext offsets can be mapped back to the originating nodes.
//!
//! Offsets throughout this crate are character positions (not byte
//! positions) into the plaintext.

pub mod chars;
pub mod dnm;
pub mod fold;
pub mod range;
pub mod rules;
pub mod tree;

use vstd::prelude::*;

verus! {

} // verus!
