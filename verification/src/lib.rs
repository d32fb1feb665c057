//! An immutable string built for heavy concatenation and slicing.
//!
//! A [`DynamicString`] is a persistent tree: leaves own (or share) buffers of
//! code units, inner nodes express concatenation and sub-range views. Every
//! operation returns a new value and shares storage with its inputs. All
//! functions are stated over the sequence of 16-bit code units that a string
//! stands for, its view.

use vstd::prelude::*;

pub mod convert;
pub mod equal;
pub mod indexed;
pub mod iterator;
pub mod laws;
pub mod methods;
pub mod order;
pub mod pattern;
pub mod string;
pub mod units;

pub use indexed::Chunk;
pub use indexed::IndexedString;
pub use iterator::StringIterator;
pub use pattern::KMPPatternFinder;
pub use pattern::PatternFinder;

pub use string::DynamicString;

verus! {

/// A slice or a concatenation shorter than this is stored as one contiguous leaf.
pub const MIN_SLICE_LENGTH: usize = 16;

} // verus!
