//! The word tokenizer.
//!
//! A word is a maximal run of same-class characters (identifier or
//! whitespace), or a single `Other` character: `Other` characters never
//! merge with anything, not even with each other.  The spec functions here
//! give the mathematical model of that rule; `Words` is a cursor that
//! yields the words one at a time, and `split_into_words` collects them.

use vstd::prelude::*;
use vstd::string::StrSliceExecFns;

use crate::chars::{char_class, get_char_type, CharType};
use crate::wordseq::lemma_deep_view_push;

verus! {

/// How many characters of `s` continue a word of class `t`: the length of
/// the longest prefix of `s` whose characters all have class `t`, or zero
/// when `t` is `Other`, since an `Other` word never extends.
pub open spec fn run_ext(s: Seq<char>, t: CharType) -> nat
    decreases s.len(),
{
    if s.len() == 0 || char_class(s[0]) != t || t == CharType::Other {
        0
    } else {
        1 + run_ext(s.skip(1), t)
    }
}

/// The length of the first word of `s`: its first character plus however
/// far that character's class extends.  Zero only for empty `s`.
pub open spec fn first_word_len(s: Seq<char>) -> nat {
    if s.len() == 0 {
        0
    } else {
        1 + run_ext(s.skip(1), char_class(s[0]))
    }
}

pub proof fn lemma_run_ext_le(s: Seq<char>, t: CharType)
    ensures
        run_ext(s, t) <= s.len(),
    decreases s.len(),
{
    if !(s.len() == 0 || char_class(s[0]) != t || t == CharType::Other) {
        lemma_run_ext_le(s.skip(1), t);
    }
}

pub proof fn lemma_first_word_len_bounds(s: Seq<char>)
    requires
        s.len() > 0,
    ensures
        1 <= first_word_len(s) <= s.len(),
{
    lemma_run_ext_le(s.skip(1), char_class(s[0]));
}

/// `run_ext` is exactly the length of the maximal same-class prefix: if the
/// first `k` characters of `s` have class `t` and either `s` ends there or
/// the next character does not, then `run_ext(s, t) == k`.
pub proof fn lemma_run_ext_exact(s: Seq<char>, t: CharType, k: nat)
    requires
        t != CharType::Other,
        k <= s.len(),
        forall|i: int| 0 <= i < k ==> char_class(#[trigger] s[i]) == t,
        k == s.len() || char_class(s[k as int]) != t,
    ensures
        run_ext(s, t) == k,
    decreases s.len(),
{
    if k == 0 {
    } else {
        assert(char_class(s[0]) == t);
        assert forall|i: int| 0 <= i < k - 1 implies char_class(#[trigger] s.skip(1)[i]) == t by {
            assert(s.skip(1)[i] == s[i + 1]);
        }
        if k < s.len() {
            assert(s.skip(1)[k - 1] == s[k as int]);
        }
        lemma_run_ext_exact(s.skip(1), t, (k - 1) as nat);
    }
}

/// The words of `s`, in source order: the first word, then the words of
/// what follows it.
pub open spec fn word_seq(s: Seq<char>) -> Seq<Seq<char>>
    decreases s.len(),
{
    if s.len() == 0 {
        Seq::empty()
    } else {
        proof {
            lemma_first_word_len_bounds(s);
        }
        seq![s.take(first_word_len(s) as int)] + word_seq(s.skip(first_word_len(s) as int))
    }
}

/// All the words of `s`, concatenated back together.
pub open spec fn concat_words(ws: Seq<Seq<char>>) -> Seq<char>
    decreases ws.len(),
{
    if ws.len() == 0 {
        Seq::empty()
    } else {
        ws[0] + concat_words(ws.skip(1))
    }
}

/// Tokenization is a lossless partition: concatenating the words of `s`, in
/// order, gives back `s` exactly.
pub proof fn lemma_word_seq_reconstructs(s: Seq<char>)
    ensures
        concat_words(word_seq(s)) == s,
    decreases s.len(),
{
    if s.len() == 0 {
        assert(concat_words(word_seq(s)) =~= s);
    } else {
        lemma_first_word_len_bounds(s);
        let l = first_word_len(s) as int;
        lemma_word_seq_reconstructs(s.skip(l));
        let ws = word_seq(s);
        assert(ws == seq![s.take(l)] + word_seq(s.skip(l)));
        assert(ws.skip(1) =~= word_seq(s.skip(l)));
        assert(concat_words(ws) == s.take(l) + concat_words(word_seq(s.skip(l))));
        assert(s.take(l) + s.skip(l) =~= s);
    }
}

/// Every word the tokenizer yields is non-empty.
pub proof fn lemma_word_seq_words_nonempty(s: Seq<char>)
    ensures
        forall|i: int| 0 <= i < word_seq(s).len() ==> #[trigger] word_seq(s)[i].len() > 0,
    decreases s.len(),
{
    if s.len() > 0 {
        lemma_first_word_len_bounds(s);
        let l = first_word_len(s) as int;
        lemma_word_seq_words_nonempty(s.skip(l));
        assert forall|i: int| 0 <= i < word_seq(s).len() implies #[trigger] word_seq(s)[i].len()
            > 0 by {
            if i > 0 {
                assert(word_seq(s)[i] == word_seq(s.skip(l))[i - 1]);
            }
        }
    }
}

/// Whether the character `next` continues the word `curr`: `curr` is still
/// empty, or its first character's class is not `Other` and matches the
/// class of `next`.
pub open spec fn same_word_spec(curr: Seq<char>, next: char) -> bool {
    if curr.len() == 0 {
        true
    } else {
        char_class(curr[0]) != CharType::Other && char_class(curr[0]) == char_class(next)
    }
}

/// The boundary rule as a predicate on the word built so far and the
/// character about to be read.
pub fn is_same_word(curr: &str, next: char) -> (r: bool)
    ensures
        r == same_word_spec(curr@, next),
{
    let n = curr.unicode_len();
    if n == 0 {
        return true;
    }
    let t = get_char_type(curr.get_char(0));
    let tn = get_char_type(next);
    t != CharType::Other && t == tn
}

/// A cursor over the words of one text buffer.  Each call of `next` yields
/// the next word; a fresh cursor over the same text yields the same words
/// again.
pub struct Words {
    src: String,
    pos: usize,
}

impl Words {
    #[verifier::type_invariant]
    spec fn wf(self) -> bool {
        self.pos <= self.src@.len()
    }

    /// The text the cursor has not yet consumed.
    pub closed spec fn remaining(self) -> Seq<char> {
        self.src@.skip(self.pos as int)
    }

    pub fn new(s: &str) -> (w: Words)
        ensures
            w.remaining() == s@,
    {
        let w = Words { src: s.to_owned(), pos: 0 };
        proof {
            assert(w.remaining() =~= s@);
        }
        w
    }

    /// Yields the first word of the remaining text and steps past it, or
    /// `None` once the text is exhausted.
    pub fn next(&mut self) -> (r: Option<String>)
        ensures
            match r {
                Some(w) => {
                    &&& old(self).remaining().len() > 0
                    &&& w@ == old(self).remaining().take(
                        first_word_len(old(self).remaining()) as int,
                    )
                    &&& final(self).remaining() == old(self).remaining().skip(
                        first_word_len(old(self).remaining()) as int,
                    )
                },
                None => {
                    &&& old(self).remaining().len() == 0
                    &&& *final(self) == *old(self)
                },
            },
    {
        proof {
            use_type_invariant(&*self);
        }
        let n = self.src.as_str().unicode_len();
        if self.pos >= n {
            return None;
        }
        let start = self.pos;
        let ghost rem = self.src@.skip(start as int);
        let c0 = self.src.as_str().get_char(start);
        let t0 = get_char_type(c0);
        let mut end = start + 1;
        if t0 != CharType::Other {
            loop
                invariant
                    start < end <= n,
                    n == self.src@.len(),
                    start < n,
                    t0 == char_class(self.src@[start as int]),
                    t0 != CharType::Other,
                    forall|i: int| start < i < end ==> char_class(#[trigger] self.src@[i]) == t0,
                ensures
                    start < end <= n,
                    forall|i: int| start < i < end ==> char_class(#[trigger] self.src@[i]) == t0,
                    end == n || char_class(self.src@[end as int]) != t0,
                decreases n - end,
            {
                if end >= n {
                    break;
                }
                let c = self.src.as_str().get_char(end);
                if get_char_type(c) != t0 {
                    break;
                }
                end = end + 1;
            }
        }
        proof {
            assert(rem[0] == self.src@[start as int]);
            if t0 == CharType::Other {
                assert(run_ext(rem.skip(1), t0) == 0);
            } else {
                assert forall|i: int| 0 <= i < end - start - 1 implies char_class(
                    #[trigger] rem.skip(1)[i],
                ) == t0 by {
                    assert(rem.skip(1)[i] == self.src@[start + 1 + i]);
                }
                if end < n {
                    assert(rem.skip(1)[end - start - 1] == self.src@[end as int]);
                }
                lemma_run_ext_exact(rem.skip(1), t0, (end - start - 1) as nat);
            }
            assert(first_word_len(rem) == end - start);
        }
        let word = self.src.as_str().substring_char(start, end).to_owned();
        self.pos = end;
        proof {
            assert(word@ =~= rem.take((end - start) as int));
            assert(self.remaining() =~= rem.skip((end - start) as int));
        }
        Some(word)
    }
}

/// The words of a text buffer, in order.
pub fn split_into_words(s: &str) -> (r: Vec<String>)
    ensures
        r.deep_view() == word_seq(s@),
{
    let mut words = Words::new(s);
    let mut out: Vec<String> = Vec::new();
    proof {
        assert(out.deep_view() =~= Seq::<Seq<char>>::empty());
    }
    loop
        invariant
            out.deep_view() + word_seq(words.remaining()) == word_seq(s@),
        decreases words.remaining().len(),
    {
        let ghost prev_rem = words.remaining();
        let ghost prev_out = out;
        match words.next() {
            Some(w) => {
                proof {
                    lemma_first_word_len_bounds(prev_rem);
                }
                let ghost wv = w@;
                out.push(w);
                proof {
                    lemma_deep_view_push(prev_out, out, w);
                    assert(word_seq(prev_rem) == seq![prev_rem.take(
                        first_word_len(prev_rem) as int,
                    )] + word_seq(words.remaining()));
                    assert(out.deep_view() + word_seq(words.remaining()) =~= prev_out.deep_view()
                        + word_seq(prev_rem));
                }
            },
            None => {
                proof {
                    assert(word_seq(words.remaining()) =~= Seq::<Seq<char>>::empty());
                    assert(out.deep_view() =~= out.deep_view() + word_seq(words.remaining()));
                }
                return out;
            },
        }
    }
}

} // verus!
