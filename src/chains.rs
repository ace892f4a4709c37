//! Chains laid end to end: the order in which a table's entries are visited,
//! and where each entry of each chain stands in it.
use vstd::prelude::*;

verus! {

/// The chains concatenated in order.
pub open spec fn flatten<T>(s: Seq<Seq<T>>) -> Seq<T>
    decreases s.len(),
{
    if s.len() == 0 {
        Seq::empty()
    } else {
        flatten(s.drop_last()) + s.last()
    }
}

/// The first `m + 1` chains are the first `m` followed by chain `m`.
pub proof fn lemma_flatten_step<T>(s: Seq<Seq<T>>, m: int)
    requires
        0 <= m < s.len(),
    ensures
        flatten(s.take(m + 1)) == flatten(s.take(m)) + s[m],
{
    assert(s.take(m + 1).drop_last() =~= s.take(m));
}

/// The concatenation of the first `m` chains is a prefix of the whole.
pub proof fn lemma_flatten_prefix<T>(s: Seq<Seq<T>>, m: int)
    requires
        0 <= m <= s.len(),
    ensures
        flatten(s.take(m)).len() <= flatten(s).len(),
        forall|i: int| 0 <= i < flatten(s.take(m)).len() ==> flatten(s)[i] == flatten(s.take(m))[i],
    decreases s.len(),
{
    if m == s.len() {
        assert(s.take(m) =~= s);
    } else {
        lemma_flatten_prefix(s.drop_last(), m);
        assert(s.drop_last().take(m) =~= s.take(m));
    }
}

/// Element `p` of chain `b` stands just after the first `b` chains.
pub proof fn lemma_flatten_at<T>(s: Seq<Seq<T>>, b: int, p: int)
    requires
        0 <= b < s.len(),
        0 <= p < s[b].len(),
    ensures
        flatten(s.take(b)).len() + p < flatten(s).len(),
        flatten(s)[flatten(s.take(b)).len() + p] == s[b][p],
{
    lemma_flatten_step(s, b);
    lemma_flatten_prefix(s, b + 1);
}

/// Every element of the concatenation is an element of some chain, at the
/// place `lemma_flatten_at` gives.
pub proof fn lemma_flatten_index<T>(s: Seq<Seq<T>>, i: int) -> (bp: (int, int))
    requires
        0 <= i < flatten(s).len(),
    ensures
        0 <= bp.0 < s.len(),
        0 <= bp.1 < s[bp.0].len(),
        i == flatten(s.take(bp.0)).len() + bp.1,
        flatten(s)[i] == s[bp.0][bp.1],
    decreases s.len(),
{
    let last = s.len() - 1;
    let before = flatten(s.drop_last()).len();
    assert(s.take(last) =~= s.drop_last());
    if i >= before {
        (last, i - before)
    } else {
        let (b, p) = lemma_flatten_index(s.drop_last(), i);
        assert(s.drop_last().take(b) =~= s.take(b));
        (b, p)
    }
}

} // verus!
