//! A word-granularity text diff engine.
//!
//! Two text buffers are compared word by word: a tokenizer splits each
//! buffer into words at character-class boundaries, and the diff engine
//! aligns the two word sequences around their longest common contiguous
//! fragment, recursing on what is left on either side.  The result is an
//! ordered list of chunks, each classified as same, changed, deleted or
//! inserted, whose old sides concatenated give back the old buffer and
//! whose new sides give back the new one.

use vstd::prelude::*;

pub mod chars;
pub mod tokenizer;
pub mod wordseq;
pub mod fragments;
pub mod chunk;
pub mod diff;
pub mod notation;

verus! {

/// The sample greeting used by the demonstration program.
pub fn hello() -> (r: String)
    ensures
        r@ == "Hello World!"@,
{
    "Hello World!".to_owned()
}

} // verus!
