//! Diff chunks: one aligned (old, new) region of a comparison.
//!
//! Classification is a derived predicate, not stored state: a chunk is
//! *same* when the two sides hold the same words, *deleted* when only the
//! old side has words, *inserted* when only the new side has, and
//! *changed* when both sides have words and they differ.

use vstd::prelude::*;

use crate::wordseq::words_eq;

verus! {

/// A pair of word sequences, as a chunk's mathematical value.
pub type ChunkPair = (Seq<Seq<char>>, Seq<Seq<char>>);

/// Both sides hold the same words.
pub open spec fn pair_same(p: ChunkPair) -> bool {
    p.0 == p.1
}

/// Both sides hold words, and they differ.
pub open spec fn pair_changed(p: ChunkPair) -> bool {
    p.0.len() > 0 && p.1.len() > 0 && p.0 != p.1
}

/// Only the old side holds words.
pub open spec fn pair_deleted(p: ChunkPair) -> bool {
    p.0.len() > 0 && p.1.len() == 0
}

/// Only the new side holds words.
pub open spec fn pair_inserted(p: ChunkPair) -> bool {
    p.0.len() == 0 && p.1.len() > 0
}

/// One aligned region of a comparison: the words it covers on the old
/// side and on the new side.
#[derive(Debug)]
pub struct DiffChunk {
    pub old_words: Vec<String>,
    pub new_words: Vec<String>,
}

impl DiffChunk {
    /// The chunk as a pair of word sequences.
    pub open spec fn view_pair(self) -> ChunkPair {
        (self.old_words.deep_view(), self.new_words.deep_view())
    }

    /// Whether the region is unchanged: both sides hold the same words.
    pub fn is_same(&self) -> (r: bool)
        ensures
            r == pair_same(self.view_pair()),
    {
        words_eq(&self.old_words, &self.new_words)
    }

    /// Whether the region changed: both sides hold words and they differ.
    pub fn is_diff(&self) -> (r: bool)
        ensures
            r == pair_changed(self.view_pair()),
    {
        !self.old_words.is_empty() && !self.new_words.is_empty() && !words_eq(
            &self.old_words,
            &self.new_words,
        )
    }

    /// Whether the region was deleted: only the old side holds words.
    pub fn is_del(&self) -> (r: bool)
        ensures
            r == pair_deleted(self.view_pair()),
    {
        !self.old_words.is_empty() && self.new_words.is_empty()
    }

    /// Whether the region was inserted: only the new side holds words.
    pub fn is_add(&self) -> (r: bool)
        ensures
            r == pair_inserted(self.view_pair()),
    {
        self.old_words.is_empty() && !self.new_words.is_empty()
    }
}

impl PartialEq for DiffChunk {
    /// Two chunks are equal when their word content matches on both
    /// sides.
    fn eq(&self, other: &Self) -> (r: bool) {
        words_eq(&self.old_words, &other.old_words) && words_eq(&self.new_words, &other.new_words)
    }
}

impl vstd::std_specs::cmp::PartialEqSpecImpl for DiffChunk {
    open spec fn obeys_eq_spec() -> bool {
        true
    }

    open spec fn eq_spec(&self, other: &Self) -> bool {
        self.view_pair() == other.view_pair()
    }
}

/// The chunks of a diff result, as pairs of word sequences.
pub open spec fn chunks_view(cs: Seq<DiffChunk>) -> Seq<ChunkPair> {
    cs.map_values(|c: DiffChunk| c.view_pair())
}

/// `chunks_view` distributes over concatenation.
pub proof fn lemma_chunks_view_concat(a: Seq<DiffChunk>, b: Seq<DiffChunk>)
    ensures
        chunks_view(a + b) == chunks_view(a) + chunks_view(b),
{
    assert(chunks_view(a + b) =~= chunks_view(a) + chunks_view(b));
}

} // verus!
