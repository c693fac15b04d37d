//! Fragment enumeration.
//!
//! A fragment is a contiguous sub-range of a word sequence.  For a
//! sequence of `n` words there are `n * (n + 1) / 2` fragments, and the
//! diff engine wants them from the largest size down to single words, and
//! within one size from the leftmost offset to the rightmost.
//! `SizedFragments` walks the fragments of one fixed size; `Fragments`
//! chains the sizes together, largest first.

use vstd::prelude::*;

use crate::wordseq::subvec;

verus! {

/// A cursor over the fragments of one fixed size, from the leftmost
/// offset to the rightmost.
pub struct SizedFragments {
    src: Vec<String>,
    size: usize,
    curr_pos: usize,
}

impl SizedFragments {
    /// The word sequence the fragments are drawn from.
    pub closed spec fn words(self) -> Seq<Seq<char>> {
        self.src.deep_view()
    }

    /// The size of every fragment this cursor yields.
    pub closed spec fn frag_size(self) -> nat {
        self.size as nat
    }

    /// The offset the next fragment would start at.
    pub closed spec fn position(self) -> nat {
        self.curr_pos as nat
    }

    pub fn new(words: &Vec<String>, size: usize) -> (r: SizedFragments)
        ensures
            r.words() == words.deep_view(),
            r.frag_size() == size as nat,
            r.position() == 0,
    {
        SizedFragments { src: crate::wordseq::clone_words(words), size, curr_pos: 0 }
    }

    /// Yields the fragment at the current offset and moves one offset to
    /// the right, or `None` once no window of this size fits any more.
    /// Sizes below one yield nothing.
    pub fn next(&mut self) -> (r: Option<Vec<String>>)
        ensures
            final(self).words() == old(self).words(),
            final(self).frag_size() == old(self).frag_size(),
            match r {
                Some(f) => {
                    &&& 1 <= old(self).frag_size()
                    &&& old(self).position() + old(self).frag_size() <= old(self).words().len()
                    &&& f.deep_view() == old(self).words().subrange(
                        old(self).position() as int,
                        (old(self).position() + old(self).frag_size()) as int,
                    )
                    &&& final(self).position() == old(self).position() + 1
                },
                None => {
                    &&& old(self).frag_size() < 1 || old(self).position() + old(self).frag_size()
                        > old(self).words().len()
                    &&& *final(self) == *old(self)
                },
            },
    {
        if self.size < 1 {
            return None;
        }
        let len = self.src.len();
        if self.curr_pos > len || self.size > len - self.curr_pos {
            return None;
        }
        let frag = subvec(&self.src, self.curr_pos, self.curr_pos + self.size);
        self.curr_pos = self.curr_pos + 1;
        Some(frag)
    }
}

/// The (size, offset) of the next fragment a cursor standing at
/// `size`/`pos` yields: the window at `pos` if one of this size still
/// fits, otherwise the first window of the next smaller size, down to
/// size one.
pub open spec fn next_fragment(len: nat, size: nat, pos: nat) -> Option<(nat, nat)>
    decreases size,
{
    if size < 1 {
        None
    } else if pos + size <= len {
        Some((size, pos))
    } else if size > 1 {
        next_fragment(len, (size - 1) as nat, 0)
    } else {
        None
    }
}

/// A cursor over every fragment of a word sequence, ordered by
/// decreasing size and, within one size, by increasing offset.
pub struct Fragments {
    curr: SizedFragments,
}

impl Fragments {
    /// The word sequence the fragments are drawn from.
    pub closed spec fn words(self) -> Seq<Seq<char>> {
        self.curr.words()
    }

    /// The size the cursor currently walks.
    pub closed spec fn cur_size(self) -> nat {
        self.curr.frag_size()
    }

    /// The offset the cursor currently stands at.
    pub closed spec fn cur_pos(self) -> nat {
        self.curr.position()
    }

    pub fn new(words: &Vec<String>) -> (r: Fragments)
        ensures
            r.words() == words.deep_view(),
            r.cur_size() == words.deep_view().len(),
            r.cur_pos() == 0,
    {
        let n = words.len();
        Fragments { curr: SizedFragments::new(words, n) }
    }

    /// Yields the next fragment in size-descending, offset-ascending
    /// order, or `None` once all sizes down to one are exhausted.
    pub fn next(&mut self) -> (r: Option<Vec<String>>)
        ensures
            final(self).words() == old(self).words(),
            match next_fragment(old(self).words().len(), old(self).cur_size(), old(self).cur_pos()) {
                Some(sp) => {
                    &&& r matches Some(f) && f.deep_view() == old(self).words().subrange(
                        sp.1 as int,
                        (sp.1 + sp.0) as int,
                    )
                    &&& final(self).cur_size() == sp.0
                    &&& final(self).cur_pos() == sp.1 + 1
                },
                None => {
                    &&& r is None
                    &&& next_fragment(
                        old(self).words().len(),
                        final(self).cur_size(),
                        final(self).cur_pos(),
                    ) is None
                },
            },
    {
        let ghost w = self.curr.words();
        let ghost s0 = self.curr.frag_size();
        let ghost p0 = self.curr.position();
        loop
            invariant
                w == old(self).words(),
                s0 == old(self).cur_size(),
                p0 == old(self).cur_pos(),
                self.curr.words() == w,
                next_fragment(w.len(), s0, p0) == next_fragment(
                    w.len(),
                    self.curr.frag_size(),
                    self.curr.position(),
                ),
            decreases self.curr.frag_size(),
        {
            let ghost sz_before = self.curr.frag_size();
            let ghost pos_before = self.curr.position();
            match self.curr.next() {
                Some(f) => {
                    proof {
                        assert(next_fragment(w.len(), sz_before, pos_before) == Some(
                            (sz_before, pos_before),
                        ));
                    }
                    return Some(f);
                },
                None => {
                    let sz = self.curr.size;
                    if sz > 1 {
                        proof {
                            assert(next_fragment(w.len(), sz_before, pos_before) == next_fragment(
                                w.len(),
                                (sz_before - 1) as nat,
                                0,
                            ));
                        }
                        self.curr = SizedFragments::new(&self.curr.src, sz - 1);
                    } else {
                        proof {
                            assert(next_fragment(w.len(), sz_before, pos_before) is None);
                        }
                        return None;
                    }
                },
            }
        }
    }
}

} // verus!
