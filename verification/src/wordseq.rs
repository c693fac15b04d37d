//! Small verified helpers on word sequences (`Vec<String>`): copying a
//! contiguous range and comparing two sequences word by word.

use vstd::prelude::*;

verus! {

/// A pushed word extends the deep view of a word vector by that word's
/// characters.
pub proof fn lemma_deep_view_push(v1: Vec<String>, v2: Vec<String>, w: String)
    requires
        v2@ == v1@.push(w),
    ensures
        v2.deep_view() == v1.deep_view().push(w@),
{
    assert forall|i: int| 0 <= i < v2@.len() implies #[trigger] v2.deep_view()[i]
        == v1.deep_view().push(w@)[i] by {
        assert(v2@[i] == v1@.push(w)[i]);
    }
    assert(v2.deep_view() =~= v1.deep_view().push(w@));
}

/// An owned copy of the words `v[from..to]`.
pub fn subvec(v: &Vec<String>, from: usize, to: usize) -> (r: Vec<String>)
    requires
        from <= to <= v@.len(),
    ensures
        r.deep_view() == v.deep_view().subrange(from as int, to as int),
{
    let mut out: Vec<String> = Vec::new();
    let mut i = from;
    proof {
        assert(out.deep_view() =~= v.deep_view().subrange(from as int, from as int));
    }
    while i < to
        invariant
            from <= i <= to <= v@.len(),
            out.deep_view() == v.deep_view().subrange(from as int, i as int),
        decreases to - i,
    {
        let ghost prev = out;
        let w = v[i].clone();
        out.push(w);
        proof {
            lemma_deep_view_push(prev, out, w);
            assert(w@ == v.deep_view()[i as int]);
            assert(v.deep_view().subrange(from as int, i as int).push(v.deep_view()[i as int])
                =~= v.deep_view().subrange(from as int, i + 1));
        }
        i = i + 1;
    }
    out
}

/// An owned copy of a whole word sequence.
pub fn clone_words(v: &Vec<String>) -> (r: Vec<String>)
    ensures
        r.deep_view() == v.deep_view(),
{
    let r = subvec(v, 0, v.len());
    proof {
        assert(v.deep_view().subrange(0, v@.len() as int) =~= v.deep_view());
    }
    r
}

/// Word-by-word equality of two word sequences.
pub fn words_eq(a: &Vec<String>, b: &Vec<String>) -> (r: bool)
    ensures
        r == (a.deep_view() == b.deep_view()),
{
    if a.len() != b.len() {
        proof {
            assert(a.deep_view().len() == a@.len());
            assert(b.deep_view().len() == b@.len());
        }
        return false;
    }
    let mut i: usize = 0;
    while i < a.len()
        invariant
            i <= a@.len(),
            a@.len() == b@.len(),
            forall|j: int| 0 <= j < i ==> #[trigger] a.deep_view()[j] == b.deep_view()[j],
        decreases a@.len() - i,
    {
        if !(a[i] == b[i]) {
            proof {
                assert(a.deep_view()[i as int] != b.deep_view()[i as int]);
            }
            return false;
        }
        i = i + 1;
    }
    proof {
        assert(a.deep_view() =~= b.deep_view());
    }
    true
}

} // verus!
