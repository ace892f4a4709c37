//! Keys that a table can hold: a deterministic hash and an equality, both
//! stated over the key's view.
use vstd::prelude::*;

verus! {

/// The capability a key type needs: equal views hash alike and compare equal.
pub trait HashKey: View + Sized {
    /// The hash of a key, as a function of its view alone.
    spec fn spec_hash(k: Self::V) -> u64;

    fn hash_key(&self) -> (r: u64)
        ensures
            r == Self::spec_hash(self@),
    ;

    fn key_eq(&self, other: &Self) -> (r: bool)
        ensures
            r == (self@ == other@),
    ;

    fn clone_key(&self) -> (r: Self)
        ensures
            r@ == self@,
    ;
}

/// The multiplier of the polynomial string hash.
pub const HASH_MULTIPLIER: u64 = 31;

/// Polynomial accumulation over code points: multiply the running value by
/// the multiplier and add the next code point, wrapping at 2^64.
pub open spec fn poly_hash(s: Seq<char>) -> u64
    decreases s.len(),
{
    if s.len() == 0 {
        0
    } else {
        vstd::wrapping::u64_specs::wrapping_add(
            vstd::wrapping::u64_specs::wrapping_mul(poly_hash(s.drop_last()), HASH_MULTIPLIER),
            s.last() as u64,
        )
    }
}

impl HashKey for String {
    open spec fn spec_hash(k: Seq<char>) -> u64 {
        poly_hash(k)
    }

    fn hash_key(&self) -> (r: u64) {
        broadcast use vstd::string::axiom_spec_iter;
        let mut h: u64 = 0;
        let ghost mut n: int = 0;
        for c in it: self.as_str().chars()
            invariant
                it.seq() == self@,
                n == it.index(),
                h == poly_hash(self@.take(n)),
        {
            assert(self@.take(n + 1).drop_last() == self@.take(n));
            h = h.wrapping_mul(HASH_MULTIPLIER).wrapping_add(c as u64);
            proof {
                n = n + 1;
            }
        }
        assert(self@.take(n) == self@);
        h
    }

    fn key_eq(&self, other: &Self) -> (r: bool) {
        *self == *other
    }

    fn clone_key(&self) -> (r: Self) {
        self.clone()
    }
}

} // verus!
