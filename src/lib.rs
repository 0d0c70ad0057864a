//! A zero-allocation string made of borrowed string slices.
//!
//! A [`MagicString`] is a window over a borrowed sequence of string slices; it can be
//! split, trimmed, searched and joined to other such strings with [`Concat`] without
//! copying any text.
use vstd::prelude::*;

pub mod concat;
pub mod iters;
pub mod laws;
pub mod magic;
pub mod offset;
pub mod pattern;
pub mod text;
pub mod traits;
pub mod width;

pub use concat::Concat;
pub use iters::{Bytes, CharIndices, Chars};
pub use magic::{FromRange, MagicIter, MagicString, SplitError};
pub use pattern::CharPattern;
pub use traits::{Contains, Find, MagicStringTrait};

verus! {

} // verus!
