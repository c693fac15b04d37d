//! A compact notation for writing chunk lists by hand: segments
//! separated by `|`, each segment either `old>new` (the words before the
//! `>` against the words after it) or a run of words unchanged on both
//! sides.  Handy for stating expected diff results in tests.

use vstd::prelude::*;
use vstd::string::StrSliceExecFns;

use crate::chunk::{chunks_view, ChunkPair, DiffChunk};
use crate::tokenizer::{split_into_words, word_seq};

verus! {

/// The leftmost occurrence of `ch` in `s` at or after `i`.
pub open spec fn find_char_from(s: Seq<char>, ch: char, i: nat) -> Option<nat>
    decreases s.len() - i
        when i <= s.len()
{
    if i >= s.len() {
        None
    } else if s[i as int] == ch {
        Some(i)
    } else {
        find_char_from(s, ch, i + 1)
    }
}

pub proof fn lemma_find_char_from_ok(s: Seq<char>, ch: char, i: nat)
    requires
        i <= s.len(),
    ensures
        match find_char_from(s, ch, i) {
            Some(p) => i <= p < s.len() && s[p as int] == ch,
            None => true,
        },
    decreases s.len() - i,
{
    if i >= s.len() {
    } else if s[i as int] == ch {
    } else {
        lemma_find_char_from_ok(s, ch, i + 1);
    }
}

/// The segments of `s` between occurrences of the separator: the empty
/// text yields one empty segment, and a trailing separator yields a
/// trailing empty segment.
pub open spec fn split_on(s: Seq<char>, sep: char) -> Seq<Seq<char>>
    decreases s.len(),
{
    match find_char_from(s, sep, 0) {
        None => seq![s],
        Some(p) => {
            proof {
                lemma_find_char_from_ok(s, sep, 0);
            }
            seq![s.take(p as int)] + split_on(s.skip((p + 1) as int), sep)
        },
    }
}

/// The leftmost occurrence of `ch` in `s` at or after `from`.
fn find_char(s: &str, from: usize, ch: char) -> (r: Option<usize>)
    requires
        from <= s@.len(),
    ensures
        ({
            let f = find_char_from(s@, ch, from as nat);
            match r {
                Some(q) => from <= q < s@.len() && f == Some(q as nat),
                None => f is None,
            }
        }),
{
    let n = s.unicode_len();
    let mut i = from;
    while i < n
        invariant
            from <= i <= n,
            n == s@.len(),
            find_char_from(s@, ch, from as nat) == find_char_from(s@, ch, i as nat),
        decreases n - i,
    {
        let c = s.get_char(i);
        if c == ch {
            return Some(i);
        }
        i = i + 1;
    }
    None
}

/// The segments of `s` between occurrences of `sep`, as owned strings.
fn split_str(s: &str, sep: char) -> (r: Vec<String>)
    ensures
        r.deep_view() == split_on(s@, sep),
    decreases s@.len(),
{
    let n = s.unicode_len();
    match find_char(s, 0, sep) {
        None => {
            let mut out: Vec<String> = Vec::new();
            out.push(s.to_owned());
            proof {
                assert(out.deep_view() =~= seq![s@]);
            }
            out
        },
        Some(p) => {
            let head = s.substring_char(0, p).to_owned();
            let tail = s.substring_char(p + 1, n);
            let mut rest = split_str(tail, sep);
            let mut out: Vec<String> = Vec::new();
            out.push(head);
            out.append(&mut rest);
            proof {
                assert(head@ == s@.take(p as int));
                assert(tail@ == s@.skip((p + 1) as int));
                assert(out.deep_view() =~= seq![s@.take(p as int)] + split_on(
                    s@.skip((p + 1) as int),
                    sep,
                ));
            }
            out
        },
    }
}

/// The chunk one segment of the notation describes.
pub open spec fn chunk_of_segment(seg: Seq<char>) -> ChunkPair {
    let parts = split_on(seg, '>');
    if parts.len() >= 2 {
        (word_seq(parts[0]), word_seq(parts[1]))
    } else {
        (word_seq(parts[0]), word_seq(parts[0]))
    }
}

/// The chunks the whole notation describes: one per `|`-separated
/// segment.
pub open spec fn build_spec(s: Seq<char>) -> Seq<ChunkPair> {
    split_on(s, '|').map_values(|seg: Seq<char>| chunk_of_segment(seg))
}

/// Builds the chunk list a piece of notation describes.
pub fn build_test_diff(s: &str) -> (r: Vec<DiffChunk>)
    ensures
        chunks_view(r@) == build_spec(s@),
{
    let segs = split_str(s, '|');
    let mut out: Vec<DiffChunk> = Vec::new();
    let mut i: usize = 0;
    proof {
        assert(chunks_view(out@) =~= build_spec(s@).take(0));
    }
    while i < segs.len()
        invariant
            i <= segs@.len(),
            segs.deep_view() == split_on(s@, '|'),
            chunks_view(out@) == build_spec(s@).take(i as int),
        decreases segs@.len() - i,
    {
        let ghost prev = out@;
        let ghost seg = segs.deep_view()[i as int];
        let parts = split_str(segs[i].as_str(), '>');
        proof {
            assert(parts.deep_view() == split_on(seg, '>'));
            assert(split_on(seg, '>').len() >= 1);
            assert(build_spec(s@).len() == segs@.len());
            assert(chunks_view(prev).len() == prev.len());
            assert(prev.len() == i as int);
        }
        let chunk = if parts.len() >= 2 {
            DiffChunk {
                old_words: split_into_words(parts[0].as_str()),
                new_words: split_into_words(parts[1].as_str()),
            }
        } else {
            DiffChunk {
                old_words: split_into_words(parts[0].as_str()),
                new_words: split_into_words(parts[0].as_str()),
            }
        };
        proof {
            assert(chunk.view_pair() == chunk_of_segment(seg));
        }
        out.push(chunk);
        proof {
            assert(build_spec(s@)[i as int] == chunk_of_segment(seg));
            assert forall|j: int| 0 <= j < i + 1 implies #[trigger] chunks_view(out@)[j]
                == build_spec(s@).take(i + 1)[j] by {
                if j < i {
                    assert(out@[j] == prev[j]);
                    assert(chunks_view(prev)[j] == build_spec(s@).take(i as int)[j]);
                } else {
                    assert(out@[j] == chunk);
                }
            }
            assert(chunks_view(out@) =~= build_spec(s@).take(i + 1));
        }
        i = i + 1;
    }
    proof {
        assert(build_spec(s@).take(segs@.len() as int) =~= build_spec(s@));
    }
    out
}

} // verus!
