//! The diff engine.
//!
//! Given two word sequences, the engine finds the longest common
//! contiguous fragment — searching fragments of the shorter sequence
//! (the needle) inside the longer (the haystack), largest size first,
//! ties broken by leftmost needle offset and then leftmost haystack
//! position — splits both sequences around it, and recurses on the parts
//! before and after.  With no common word at all, the old words become
//! one deleted chunk and the new words one inserted chunk.
//!
//! The cost is steep for adversarial inputs — fragment search is
//! quadratic in the needle length and each containment probe is linear,
//! repeated recursively, so the worst case grows like the fourth power
//! of the word count — which suits editor-scale texts, not large files.

use vstd::prelude::*;

use crate::chunk::{chunks_view, lemma_chunks_view_concat, ChunkPair, DiffChunk};
use crate::tokenizer::{concat_words, split_into_words, word_seq};
use crate::wordseq::{clone_words, subvec};

verus! {

/// The leftmost position at or after `i` where `small` occurs as a
/// contiguous run inside `big`, if any.
pub open spec fn match_from(small: Seq<Seq<char>>, big: Seq<Seq<char>>, i: nat) -> Option<nat>
    decreases big.len() - i
        when i <= big.len()
{
    if i + small.len() > big.len() {
        None
    } else if big.subrange(i as int, (i + small.len()) as int) == small {
        Some(i)
    } else {
        proof {
            if small.len() == 0 {
                assert(big.subrange(i as int, (i + small.len()) as int) =~= small);
            }
        }
        match_from(small, big, i + 1)
    }
}

pub proof fn lemma_match_from_ok(small: Seq<Seq<char>>, big: Seq<Seq<char>>, i: nat)
    requires
        i <= big.len(),
    ensures
        match match_from(small, big, i) {
            Some(p) => {
                &&& i <= p
                &&& p + small.len() <= big.len()
                &&& big.subrange(p as int, (p + small.len()) as int) == small
            },
            None => true,
        },
    decreases big.len() - i,
{
    if i + small.len() > big.len() {
    } else if big.subrange(i as int, (i + small.len()) as int) == small {
    } else {
        assert(small.len() > 0) by {
            if small.len() == 0 {
                assert(big.subrange(i as int, (i + small.len()) as int) =~= small);
            }
        }
        lemma_match_from_ok(small, big, i + 1);
    }
}

/// A failed containment search is conclusive: `small` occurs nowhere in
/// `big` at or after position `i`.
pub proof fn lemma_match_from_complete(small: Seq<Seq<char>>, big: Seq<Seq<char>>, i: nat)
    requires
        i <= big.len(),
        match_from(small, big, i) is None,
    ensures
        forall|p: int|
            i <= p && p + small.len() <= big.len() ==> #[trigger] big.subrange(
                p,
                p + small.len() as int,
            ) != small,
    decreases big.len() - i,
{
    if i + small.len() > big.len() {
    } else if big.subrange(i as int, (i + small.len()) as int) == small {
        assert(false);
    } else {
        assert(small.len() > 0) by {
            if small.len() == 0 {
                assert(big.subrange(i as int, (i + small.len()) as int) =~= small);
            }
        }
        lemma_match_from_complete(small, big, i + 1);
        assert forall|p: int|
            i <= p && p + small.len() <= big.len() implies #[trigger] big.subrange(
            p,
            p + small.len() as int,
        ) != small by {
            if p == i {
                assert(big.subrange(i as int, (i + small.len()) as int) != small);
            }
        }
    }
}

/// The best common fragment between `needle` and `hay`, searching sizes
/// from `size` down to one and, within the given size, needle offsets
/// from `off` rightwards: the first find is the largest common
/// contiguous fragment, ties broken by leftmost needle offset, then by
/// leftmost haystack position.  The result is (size, needle offset,
/// haystack position).
pub open spec fn best_common(
    needle: Seq<Seq<char>>,
    hay: Seq<Seq<char>>,
    size: nat,
    off: nat,
) -> Option<(nat, nat, nat)>
    decreases size, needle.len() - off
        when off <= needle.len() && size <= needle.len()
{
    if size < 1 {
        None
    } else if off + size > needle.len() {
        best_common(needle, hay, (size - 1) as nat, 0)
    } else {
        match match_from(needle.subrange(off as int, (off + size) as int), hay, 0) {
            Some(p) => Some((size, off, p)),
            None => best_common(needle, hay, size, off + 1),
        }
    }
}

pub proof fn lemma_best_common_ok(needle: Seq<Seq<char>>, hay: Seq<Seq<char>>, size: nat, off: nat)
    requires
        off <= needle.len(),
        size <= needle.len(),
    ensures
        match best_common(needle, hay, size, off) {
            Some(m) => {
                &&& 1 <= m.0 <= size
                &&& m.1 + m.0 <= needle.len()
                &&& m.2 + m.0 <= hay.len()
                &&& needle.subrange(m.1 as int, (m.1 + m.0) as int) == hay.subrange(
                    m.2 as int,
                    (m.2 + m.0) as int,
                )
            },
            None => true,
        },
    decreases size, needle.len() - off,
{
    if size < 1 {
    } else if off + size > needle.len() {
        lemma_best_common_ok(needle, hay, (size - 1) as nat, 0);
    } else {
        let small = needle.subrange(off as int, (off + size) as int);
        lemma_match_from_ok(small, hay, 0);
        match match_from(small, hay, 0) {
            Some(p) => {
                assert(small.len() == size);
            },
            None => {
                lemma_best_common_ok(needle, hay, size, off + 1);
            },
        }
    }
}

/// A failed fragment search is conclusive: when `best_common` over the
/// whole needle finds nothing, no fragment of the needle of any size —
/// not even a single word — occurs anywhere in the haystack.
proof fn lemma_best_common_complete(
    needle: Seq<Seq<char>>,
    hay: Seq<Seq<char>>,
    size: nat,
    off: nat,
)
    requires
        off <= needle.len(),
        size <= needle.len(),
        best_common(needle, hay, size, off) is None,
    ensures
        forall|k: int, no: int, hp: int|
            #![trigger needle.subrange(no, no + k), hay.subrange(hp, hp + k)]
            1 <= k && 0 <= no && 0 <= hp && no + k <= needle.len() && hp + k <= hay.len() && (k
                < size || (k == size && off <= no)) ==> needle.subrange(no, no + k)
                != hay.subrange(hp, hp + k),
    decreases size, needle.len() - off,
{
    if size < 1 {
    } else if off + size > needle.len() {
        lemma_best_common_complete(needle, hay, (size - 1) as nat, 0);
        assert forall|k: int, no: int, hp: int|
            #![trigger needle.subrange(no, no + k), hay.subrange(hp, hp + k)]
            1 <= k && 0 <= no && 0 <= hp && no + k <= needle.len() && hp + k <= hay.len() && (k
                < size || (k == size && off <= no)) implies needle.subrange(no, no + k)
            != hay.subrange(hp, hp + k) by {
            if k == size && off <= no {
                assert(no + k > needle.len());
            }
        }
    } else {
        let small = needle.subrange(off as int, (off + size) as int);
        match match_from(small, hay, 0) {
            Some(p) => {
                assert(false);
            },
            None => {
                lemma_match_from_complete(small, hay, 0);
                lemma_best_common_complete(needle, hay, size, off + 1);
                assert forall|k: int, no: int, hp: int|
                    #![trigger needle.subrange(no, no + k), hay.subrange(hp, hp + k)]
                    1 <= k && 0 <= no && 0 <= hp && no + k <= needle.len() && hp + k <= hay.len()
                        && (k < size || (k == size && off <= no)) implies needle.subrange(
                    no,
                    no + k,
                ) != hay.subrange(hp, hp + k) by {
                    if k == size && no == off {
                        assert(small.len() == size);
                        assert(hay.subrange(hp, hp + small.len() as int) != small);
                    }
                }
            },
        }
    }
}

/// A failed whole-needle search is conclusive: the two word sequences
/// share no contiguous fragment at all, not even a single word, so the
/// first fragment the size-descending search accepts really is the
/// largest common one.
pub proof fn lemma_search_exhaustive(needle: Seq<Seq<char>>, hay: Seq<Seq<char>>)
    requires
        best_common(needle, hay, needle.len(), 0) is None,
    ensures
        forall|k: int, no: int, hp: int|
            #![trigger needle.subrange(no, no + k), hay.subrange(hp, hp + k)]
            1 <= k && 0 <= no && 0 <= hp && no + k <= needle.len() && hp + k <= hay.len()
                ==> needle.subrange(no, no + k) != hay.subrange(hp, hp + k),
{
    lemma_best_common_complete(needle, hay, needle.len(), 0);
}

/// The diff of two word sequences, as the engine computes it: one chunk
/// when either side is empty, otherwise a recursive split around the
/// best common fragment, and a deleted-then-inserted pair when the two
/// sequences share no word at all.
pub open spec fn diff_spec(o: Seq<Seq<char>>, n: Seq<Seq<char>>) -> Seq<ChunkPair>
    decreases o.len() + n.len(),
{
    if o.len() == 0 && n.len() == 0 {
        Seq::empty()
    } else if o.len() == 0 || n.len() == 0 {
        seq![(o, n)]
    } else {
        let old_is_needle = o.len() <= n.len();
        let needle = if old_is_needle {
            o
        } else {
            n
        };
        let hay = if old_is_needle {
            n
        } else {
            o
        };
        match best_common(needle, hay, needle.len(), 0) {
            None => seq![(o, Seq::<Seq<char>>::empty()), (Seq::<Seq<char>>::empty(), n)],
            Some(m) => {
                proof {
                    lemma_best_common_ok(needle, hay, needle.len(), 0);
                }
                let mid = needle.subrange(m.1 as int, (m.1 + m.0) as int);
                let nb = needle.subrange(0, m.1 as int);
                let na = needle.subrange((m.1 + m.0) as int, needle.len() as int);
                let hb = hay.subrange(0, m.2 as int);
                let ha = hay.subrange((m.2 + m.0) as int, hay.len() as int);
                if old_is_needle {
                    diff_spec(nb, hb) + seq![(mid, mid)] + diff_spec(na, ha)
                } else {
                    diff_spec(hb, nb) + seq![(mid, mid)] + diff_spec(ha, na)
                }
            },
        }
    }
}

/// Word-by-word equality of the window of `a` at `ai` and the window of
/// `b` at `bi`, both of length `k`.
fn window_eq(a: &Vec<String>, ai: usize, b: &Vec<String>, bi: usize, k: usize) -> (r: bool)
    requires
        ai + k <= a@.len(),
        bi + k <= b@.len(),
    ensures
        r == (a.deep_view().subrange(ai as int, (ai + k) as int) == b.deep_view().subrange(
            bi as int,
            (bi + k) as int,
        )),
{
    let ghost wa = a.deep_view().subrange(ai as int, (ai + k) as int);
    let ghost wb = b.deep_view().subrange(bi as int, (bi + k) as int);
    let alen = a.len();
    let blen = b.len();
    let mut j: usize = 0;
    while j < k
        invariant
            j <= k,
            alen == a@.len(),
            blen == b@.len(),
            ai + k <= alen,
            bi + k <= blen,
            wa == a.deep_view().subrange(ai as int, (ai + k) as int),
            wb == b.deep_view().subrange(bi as int, (bi + k) as int),
            forall|t: int| 0 <= t < j ==> #[trigger] wa[t] == wb[t],
        decreases k - j,
    {
        if !(a[ai + j] == b[bi + j]) {
            proof {
                assert(wa[j as int] == a.deep_view()[ai + j]);
                assert(wb[j as int] == b.deep_view()[bi + j]);
            }
            return false;
        }
        proof {
            assert(wa[j as int] == a.deep_view()[ai + j]);
            assert(wb[j as int] == b.deep_view()[bi + j]);
        }
        j = j + 1;
    }
    proof {
        assert(wa =~= wb);
    }
    true
}

/// The leftmost position in `hay` where the needle fragment
/// `needle[off .. off + k]` occurs as a contiguous run.
fn find_at(needle: &Vec<String>, off: usize, k: usize, hay: &Vec<String>) -> (r: Option<usize>)
    requires
        1 <= k,
        off + k <= needle@.len(),
        k <= hay@.len(),
    ensures
        ({
            let frag = needle.deep_view().subrange(off as int, (off + k) as int);
            match r {
                Some(p) => p + k <= hay@.len() && match_from(frag, hay.deep_view(), 0) == Some(
                    p as nat,
                ),
                None => match_from(frag, hay.deep_view(), 0) is None,
            }
        }),
{
    let ghost frag = needle.deep_view().subrange(off as int, (off + k) as int);
    let ghost hd = hay.deep_view();
    let hlen = hay.len();
    let mut p: usize = 0;
    while p <= hlen - k
        invariant
            1 <= k,
            hlen == hay@.len(),
            p <= hay@.len() - k + 1,
            k <= hay@.len(),
            off + k <= needle@.len(),
            frag == needle.deep_view().subrange(off as int, (off + k) as int),
            hd == hay.deep_view(),
            frag.len() == k,
            hd.len() == hay@.len(),
            match_from(frag, hd, 0) == match_from(frag, hd, p as nat),
        decreases hay@.len() - p,
    {
        if window_eq(needle, off, hay, p, k) {
            proof {
                assert(match_from(frag, hd, p as nat) == Some(p as nat));
            }
            return Some(p);
        }
        proof {
            assert(p + k <= hd.len());
            assert(hd.subrange(p as int, (p + k) as int) != frag);
            assert(match_from(frag, hd, p as nat) == match_from(frag, hd, (p + 1) as nat));
        }
        p = p + 1;
    }
    proof {
        assert(p + k > hd.len());
        assert(match_from(frag, hd, p as nat) is None);
    }
    None
}

/// The best common fragment between `needle` and `hay`: the largest
/// size, ties broken by leftmost needle offset and then leftmost
/// haystack position, as (size, needle offset, haystack position).
fn find_best(needle: &Vec<String>, hay: &Vec<String>) -> (r: Option<(usize, usize, usize)>)
    requires
        needle@.len() <= hay@.len(),
    ensures
        ({
            let bc = best_common(needle.deep_view(), hay.deep_view(), needle.deep_view().len(), 0);
            match r {
                Some(m) => bc == Some((m.0 as nat, m.1 as nat, m.2 as nat)),
                None => bc is None,
            }
        }),
{
    let ghost nd = needle.deep_view();
    let ghost hd = hay.deep_view();
    let n = needle.len();
    let mut k = n;
    while k >= 1
        invariant
            k <= n,
            n == nd.len(),
            nd == needle.deep_view(),
            hd == hay.deep_view(),
            nd.len() <= hd.len(),
            n == needle@.len(),
            best_common(nd, hd, nd.len(), 0) == best_common(nd, hd, k as nat, 0),
        decreases k,
    {
        let mut off: usize = 0;
        while off <= n - k
            invariant
                1 <= k <= n,
                off <= n - k + 1,
                n == nd.len(),
                nd == needle.deep_view(),
                hd == hay.deep_view(),
                nd.len() <= hd.len(),
                n == needle@.len(),
                best_common(nd, hd, nd.len(), 0) == best_common(nd, hd, k as nat, off as nat),
            decreases n - off,
        {
            match find_at(needle, off, k, hay) {
                Some(p) => {
                    proof {
                        assert(best_common(nd, hd, k as nat, off as nat) == Some(
                            (k as nat, off as nat, p as nat),
                        ));
                    }
                    return Some((k, off, p));
                },
                None => {
                    proof {
                        assert(best_common(nd, hd, k as nat, off as nat) == best_common(
                            nd,
                            hd,
                            k as nat,
                            (off + 1) as nat,
                        ));
                    }
                    off = off + 1;
                },
            }
        }
        proof {
            assert(best_common(nd, hd, k as nat, off as nat) == best_common(
                nd,
                hd,
                (k - 1) as nat,
                0,
            ));
        }
        k = k - 1;
    }
    proof {
        assert(best_common(nd, hd, 0, 0) is None);
    }
    None
}

/// Whether `small` occurs as a contiguous run inside `big`.  The
/// leftmost occurrence splits `big` into the part before, the matched
/// run and the part after.
pub fn contains(small: &Vec<String>, big: &Vec<String>) -> (r: Option<
    (Vec<String>, Vec<String>, Vec<String>),
>)
    requires
        small@.len() <= big@.len(),
    ensures
        match match_from(small.deep_view(), big.deep_view(), 0) {
            Some(p) => {
                &&& r matches Some(t)
                &&& t.0.deep_view() == big.deep_view().subrange(0, p as int)
                &&& t.1.deep_view() == big.deep_view().subrange(
                    p as int,
                    (p + small.deep_view().len()) as int,
                )
                &&& t.2.deep_view() == big.deep_view().subrange(
                    (p + small.deep_view().len()) as int,
                    big.deep_view().len() as int,
                )
            },
            None => r is None,
        },
{
    let k = small.len();
    let ghost sd = small.deep_view();
    let ghost bd = big.deep_view();
    if k == 0 {
        proof {
            assert(bd.subrange(0, 0) =~= sd);
            assert(match_from(sd, bd, 0) == Some(0nat));
        }
        let before: Vec<String> = Vec::new();
        let mid: Vec<String> = Vec::new();
        let after = clone_words(big);
        proof {
            assert(before.deep_view() =~= bd.subrange(0, 0));
            assert(mid.deep_view() =~= bd.subrange(0, 0));
            assert(after.deep_view() =~= bd.subrange(0, bd.len() as int));
        }
        return Some((before, mid, after));
    }
    proof {
        assert(small.deep_view().subrange(0, k as int) =~= sd);
    }
    match find_at(small, 0, k, big) {
        Some(p) => {
            let blen = big.len();
            proof {
                lemma_match_from_ok(sd, bd, 0);
                assert(p + k <= blen);
            }
            let before = subvec(big, 0, p);
            let mid = subvec(big, p, p + k);
            let after = subvec(big, p + k, blen);
            Some((before, mid, after))
        },
        None => None,
    }
}

/// The diff of two word sequences: the chunks `diff_spec` prescribes,
/// computed by recursive splitting around the best common fragment.
pub fn diff_sequences(old_words: &Vec<String>, new_words: &Vec<String>) -> (r: Vec<DiffChunk>)
    ensures
        chunks_view(r@) == diff_spec(old_words.deep_view(), new_words.deep_view()),
    decreases old_words@.len() + new_words@.len(),
{
    let ghost o = old_words.deep_view();
    let ghost n = new_words.deep_view();
    if old_words.is_empty() && new_words.is_empty() {
        let r: Vec<DiffChunk> = Vec::new();
        proof {
            assert(chunks_view(r@) =~= diff_spec(o, n));
        }
        return r;
    }
    if old_words.is_empty() || new_words.is_empty() {
        let chunk = DiffChunk {
            old_words: clone_words(old_words),
            new_words: clone_words(new_words),
        };
        let mut r: Vec<DiffChunk> = Vec::new();
        r.push(chunk);
        proof {
            assert(chunks_view(r@) =~= seq![(o, n)]);
        }
        return r;
    }
    let old_is_needle = old_words.len() <= new_words.len();
    let (needle, hay) = if old_is_needle {
        (old_words, new_words)
    } else {
        (new_words, old_words)
    };
    let ghost nd = needle.deep_view();
    let ghost hd = hay.deep_view();
    match find_best(needle, hay) {
        None => {
            let ghost e = Seq::<Seq<char>>::empty();
            let mut r: Vec<DiffChunk> = Vec::new();
            r.push(DiffChunk { old_words: clone_words(old_words), new_words: Vec::new() });
            r.push(DiffChunk { old_words: Vec::new(), new_words: clone_words(new_words) });
            proof {
                assert(r@[0].view_pair().1 =~= e);
                assert(r@[1].view_pair().0 =~= e);
                assert(chunks_view(r@) =~= seq![(o, e), (e, n)]);
            }
            r
        },
        Some((k, off, pos)) => {
            proof {
                lemma_best_common_ok(nd, hd, nd.len(), 0);
            }
            let nlen = needle.len();
            let hlen = hay.len();
            let ghost mid = nd.subrange(off as int, (off + k) as int);
            let nb = subvec(needle, 0, off);
            let na = subvec(needle, off + k, nlen);
            let hb = subvec(hay, 0, pos);
            let ha = subvec(hay, pos + k, hlen);
            let mid_needle = subvec(needle, off, off + k);
            let mid_hay = subvec(hay, pos, pos + k);
            proof {
                assert(nb@.len() == nb.deep_view().len());
                assert(na@.len() == na.deep_view().len());
                assert(hb@.len() == hb.deep_view().len());
                assert(ha@.len() == ha.deep_view().len());
                assert(nb@.len() + hb@.len() < old_words@.len() + new_words@.len());
                assert(na@.len() + ha@.len() < old_words@.len() + new_words@.len());
            }
            let (mut r, chunk, mut after) = if old_is_needle {
                let before = diff_sequences(&nb, &hb);
                let c = DiffChunk { old_words: mid_needle, new_words: mid_hay };
                let rest = diff_sequences(&na, &ha);
                (before, c, rest)
            } else {
                let before = diff_sequences(&hb, &nb);
                let c = DiffChunk { old_words: mid_hay, new_words: mid_needle };
                let rest = diff_sequences(&ha, &na);
                (before, c, rest)
            };
            let ghost rb = r@;
            let ghost av = after@;
            r.push(chunk);
            r.append(&mut after);
            proof {
                assert(r@ =~= rb + seq![chunk] + av);
                lemma_chunks_view_concat(rb + seq![chunk], av);
                lemma_chunks_view_concat(rb, seq![chunk]);
                assert(chunks_view(seq![chunk]) =~= seq![chunk.view_pair()]);
                assert(chunk.view_pair() == (mid, mid));
                assert(chunks_view(r@) == diff_spec(o, n));
            }
            r
        },
    }
}

/// The word-level diff of two text buffers: tokenize both, then diff the
/// word sequences.
pub fn diff(old_text: &str, new_text: &str) -> (r: Vec<DiffChunk>)
    ensures
        chunks_view(r@) == diff_spec(word_seq(old_text@), word_seq(new_text@)),
{
    let old_words = split_into_words(old_text);
    let new_words = split_into_words(new_text);
    diff_sequences(&old_words, &new_words)
}

/// The old sides of a chunk list, concatenated in order.
pub open spec fn chunk_olds(cs: Seq<ChunkPair>) -> Seq<Seq<char>>
    decreases cs.len(),
{
    if cs.len() == 0 {
        Seq::empty()
    } else {
        cs[0].0 + chunk_olds(cs.skip(1))
    }
}

/// The new sides of a chunk list, concatenated in order.
pub open spec fn chunk_news(cs: Seq<ChunkPair>) -> Seq<Seq<char>>
    decreases cs.len(),
{
    if cs.len() == 0 {
        Seq::empty()
    } else {
        cs[0].1 + chunk_news(cs.skip(1))
    }
}

pub proof fn lemma_chunk_sides_concat(a: Seq<ChunkPair>, b: Seq<ChunkPair>)
    ensures
        chunk_olds(a + b) == chunk_olds(a) + chunk_olds(b),
        chunk_news(a + b) == chunk_news(a) + chunk_news(b),
    decreases a.len(),
{
    if a.len() == 0 {
        assert(a + b =~= b);
        assert(chunk_olds(a) + chunk_olds(b) =~= chunk_olds(b));
        assert(chunk_news(a) + chunk_news(b) =~= chunk_news(b));
    } else {
        assert((a + b).len() > 0);
        assert((a + b)[0] == a[0]);
        assert((a + b).skip(1) =~= a.skip(1) + b);
        lemma_chunk_sides_concat(a.skip(1), b);
        assert(a[0].0 + (chunk_olds(a.skip(1)) + chunk_olds(b)) =~= (a[0].0 + chunk_olds(
            a.skip(1),
        )) + chunk_olds(b));
        assert(a[0].1 + (chunk_news(a.skip(1)) + chunk_news(b)) =~= (a[0].1 + chunk_news(
            a.skip(1),
        )) + chunk_news(b));
    }
}

/// Reconstruction at the word level: the old sides of `diff_spec(o, n)`
/// concatenate to exactly `o`, and the new sides to exactly `n`.
pub proof fn lemma_diff_spec_reconstructs(o: Seq<Seq<char>>, n: Seq<Seq<char>>)
    ensures
        chunk_olds(diff_spec(o, n)) == o,
        chunk_news(diff_spec(o, n)) == n,
    decreases o.len() + n.len(),
{
    let e = Seq::<Seq<char>>::empty();
    assert(chunk_olds(Seq::<ChunkPair>::empty()) == e);
    assert(chunk_news(Seq::<ChunkPair>::empty()) == e);
    if o.len() == 0 && n.len() == 0 {
        assert(chunk_olds(diff_spec(o, n)) =~= o);
        assert(chunk_news(diff_spec(o, n)) =~= n);
    } else if o.len() == 0 || n.len() == 0 {
        let cs = seq![(o, n)];
        assert(cs.skip(1) =~= Seq::<ChunkPair>::empty());
        assert(chunk_olds(cs.skip(1)) == e);
        assert(chunk_news(cs.skip(1)) == e);
        assert(chunk_olds(cs) =~= o);
        assert(chunk_news(cs) =~= n);
    } else {
        let old_is_needle = o.len() <= n.len();
        let needle = if old_is_needle {
            o
        } else {
            n
        };
        let hay = if old_is_needle {
            n
        } else {
            o
        };
        lemma_best_common_ok(needle, hay, needle.len(), 0);
        match best_common(needle, hay, needle.len(), 0) {
            None => {
                let cs = seq![(o, e), (e, n)];
                let cs1 = seq![(e, n)];
                assert(cs.skip(1) =~= cs1);
                assert(cs1.skip(1) =~= Seq::<ChunkPair>::empty());
                assert(chunk_olds(cs1.skip(1)) == e);
                assert(chunk_news(cs1.skip(1)) == e);
                assert(chunk_olds(cs1) =~= e);
                assert(chunk_news(cs1) =~= n);
                assert(chunk_olds(cs) =~= o);
                assert(chunk_news(cs) =~= n);
            },
            Some(m) => {
                let mid = needle.subrange(m.1 as int, (m.1 + m.0) as int);
                let nb = needle.subrange(0, m.1 as int);
                let na = needle.subrange((m.1 + m.0) as int, needle.len() as int);
                let hb = hay.subrange(0, m.2 as int);
                let ha = hay.subrange((m.2 + m.0) as int, hay.len() as int);
                let midcs = seq![(mid, mid)];
                assert(midcs.skip(1) =~= Seq::<ChunkPair>::empty());
                assert(chunk_olds(midcs.skip(1)) == e);
                assert(chunk_news(midcs.skip(1)) == e);
                assert(chunk_olds(midcs) =~= mid);
                assert(chunk_news(midcs) =~= mid);
                assert(nb + mid + na =~= needle);
                assert(hb + mid + ha =~= hay);
                if old_is_needle {
                    lemma_diff_spec_reconstructs(nb, hb);
                    lemma_diff_spec_reconstructs(na, ha);
                    lemma_chunk_sides_concat(diff_spec(nb, hb) + midcs, diff_spec(na, ha));
                    lemma_chunk_sides_concat(diff_spec(nb, hb), midcs);
                } else {
                    lemma_diff_spec_reconstructs(hb, nb);
                    lemma_diff_spec_reconstructs(ha, na);
                    lemma_chunk_sides_concat(diff_spec(hb, nb) + midcs, diff_spec(ha, na));
                    lemma_chunk_sides_concat(diff_spec(hb, nb), midcs);
                }
            },
        }
    }
}

/// Reconstruction at the text level: concatenating the old sides of
/// `diff_spec(word_seq(old), word_seq(new))` and flattening the words
/// gives back the old text exactly, and likewise for the new sides.
pub proof fn lemma_diff_reconstructs_text(old_text: Seq<char>, new_text: Seq<char>)
    ensures
        concat_words(chunk_olds(diff_spec(word_seq(old_text), word_seq(new_text)))) == old_text,
        concat_words(chunk_news(diff_spec(word_seq(old_text), word_seq(new_text)))) == new_text,
{
    lemma_diff_spec_reconstructs(word_seq(old_text), word_seq(new_text));
    crate::tokenizer::lemma_word_seq_reconstructs(old_text);
    crate::tokenizer::lemma_word_seq_reconstructs(new_text);
}

/// Identity: diffing a non-empty word sequence against itself yields
/// exactly one chunk, classified *same*, covering the whole sequence.
pub proof fn lemma_diff_spec_identity(w: Seq<Seq<char>>)
    requires
        w.len() > 0,
    ensures
        diff_spec(w, w) == seq![(w, w)],
        crate::chunk::pair_same((w, w)),
{
    let full = w.subrange(0, w.len() as int);
    assert(full =~= w);
    assert(match_from(w, w, 0) == Some(0nat));
    assert(best_common(w, w, w.len() as nat, 0) == Some((w.len() as nat, 0nat, 0nat)));
    let nb = w.subrange(0, 0);
    let na = w.subrange(w.len() as int, w.len() as int);
    assert(nb.len() == 0);
    assert(na.len() == 0);
    assert(diff_spec(nb, nb) == Seq::<ChunkPair>::empty());
    assert(diff_spec(na, na) == Seq::<ChunkPair>::empty());
    assert(diff_spec(w, w) =~= seq![(w, w)]);
}

/// Totality of emptiness: diffing two empty sequences yields no chunks.
pub proof fn lemma_diff_spec_empty()
    ensures
        diff_spec(Seq::<Seq<char>>::empty(), Seq::<Seq<char>>::empty()) == Seq::<ChunkPair>::empty(),
{
}

/// Pure deletion: diffing a non-empty sequence against the empty one
/// yields a single chunk, classified *deleted*, equal to the sequence.
pub proof fn lemma_diff_spec_delete(w: Seq<Seq<char>>)
    requires
        w.len() > 0,
    ensures
        diff_spec(w, Seq::<Seq<char>>::empty()) == seq![(w, Seq::<Seq<char>>::empty())],
        crate::chunk::pair_deleted((w, Seq::<Seq<char>>::empty())),
{
}

/// Pure insertion: diffing the empty sequence against a non-empty one
/// yields a single chunk, classified *inserted*, equal to the sequence.
pub proof fn lemma_diff_spec_insert(w: Seq<Seq<char>>)
    requires
        w.len() > 0,
    ensures
        diff_spec(Seq::<Seq<char>>::empty(), w) == seq![(Seq::<Seq<char>>::empty(), w)],
        crate::chunk::pair_inserted((Seq::<Seq<char>>::empty(), w)),
{
}

/// No chunk of a diff is empty on both sides.
pub proof fn lemma_diff_spec_no_empty_chunk(o: Seq<Seq<char>>, n: Seq<Seq<char>>)
    ensures
        forall|i: int|
            0 <= i < diff_spec(o, n).len() ==> (#[trigger] diff_spec(o, n)[i]).0.len() > 0 || diff_spec(
                o,
                n,
            )[i].1.len() > 0,
    decreases o.len() + n.len(),
{
    if o.len() == 0 && n.len() == 0 {
    } else if o.len() == 0 || n.len() == 0 {
    } else {
        let old_is_needle = o.len() <= n.len();
        let needle = if old_is_needle {
            o
        } else {
            n
        };
        let hay = if old_is_needle {
            n
        } else {
            o
        };
        lemma_best_common_ok(needle, hay, needle.len(), 0);
        match best_common(needle, hay, needle.len(), 0) {
            None => {},
            Some(m) => {
                let mid = needle.subrange(m.1 as int, (m.1 + m.0) as int);
                let nb = needle.subrange(0, m.1 as int);
                let na = needle.subrange((m.1 + m.0) as int, needle.len() as int);
                let hb = hay.subrange(0, m.2 as int);
                let ha = hay.subrange((m.2 + m.0) as int, hay.len() as int);
                let midcs = seq![(mid, mid)];
                let (before, rest) = if old_is_needle {
                    (diff_spec(nb, hb), diff_spec(na, ha))
                } else {
                    (diff_spec(hb, nb), diff_spec(ha, na))
                };
                if old_is_needle {
                    lemma_diff_spec_no_empty_chunk(nb, hb);
                    lemma_diff_spec_no_empty_chunk(na, ha);
                } else {
                    lemma_diff_spec_no_empty_chunk(hb, nb);
                    lemma_diff_spec_no_empty_chunk(ha, na);
                }
                assert(diff_spec(o, n) == before + midcs + rest);
                assert forall|i: int| 0 <= i < diff_spec(o, n).len() implies (#[trigger] diff_spec(
                    o,
                    n,
                )[i]).0.len() > 0 || diff_spec(o, n)[i].1.len() > 0 by {
                    if i < before.len() {
                        assert(diff_spec(o, n)[i] == before[i]);
                    } else if i == before.len() {
                        assert(diff_spec(o, n)[i] == (mid, mid));
                    } else {
                        assert(diff_spec(o, n)[i] == rest[i - before.len() - 1]);
                    }
                }
            },
        }
    }
}

} // verus!
