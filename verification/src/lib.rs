//! Source map decoding, querying, and re-encoding.
//!
//! A source map relates positions in a generated (compiled or minified) text
//! to positions in the original source text.  This crate decodes the compact
//! base64 VLQ mapping encoding into a dual-sorted index, answers bias-aware
//! position-translation queries over it, and serializes accumulated mappings
//! back to the compact encoding.

pub mod array_set;
pub mod base64;
pub mod binary_search;
pub mod compare;
pub mod consumer;
pub mod base64_vlq;
pub mod errors;
pub mod generator;
pub mod mapping;
pub mod mapping_index;
pub mod mapping_list;
pub mod source_map;
pub mod util;
pub mod sort;
pub mod strings;

use vstd::prelude::*;

verus! {

} // verus!
