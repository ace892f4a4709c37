//! The chained hash table: a fixed array of buckets, each holding the chain
//! of entries whose keys hash to it, in insertion order.
use vstd::prelude::*;
use std::collections::hash_map::DefaultHasher;
use crate::key::HashKey;
use crate::chains::{flatten, lemma_flatten_at, lemma_flatten_index, lemma_flatten_prefix, lemma_flatten_step};

verus! {

/// The bucket a hash lands in, for a table of `n` buckets.
pub open spec fn bucket_of(h: u64, n: nat) -> int {
    h as int % n as int
}

/// One entry of a chain: a key and the value stored under it.
pub struct HashMapItem<K, V> {
    pub key: K,
    pub value: V,
}

impl<K, V> HashMapItem<K, V> {
    pub fn new(key: K, value: V) -> (r: HashMapItem<K, V>)
        ensures
            r.key == key,
            r.value == value,
    {
        HashMapItem { key, value }
    }
}

/// A read-only cursor over a table's entries: a bucket and a position in
/// its chain.
pub struct HashMapIterator<'a, K: HashKey, V> {
    hashmap: &'a HashMap<K, V>,
    bucket_idx: usize,
    pos: usize,
}

/// A hash table with separate chaining. Its contents are modelled as a map
/// from key views to values.
pub struct HashMap<K: HashKey, V> {
    size: usize,
    buckets: Vec<Vec<HashMapItem<K, V>>>,
    keys: Ghost<Set<K::V>>,
}

impl<K: HashKey, V> View for HashMap<K, V> {
    type V = Map<K::V, V>;

    closed spec fn view(&self) -> Map<K::V, V> {
        self.keys@.mk_map(|k: K::V| self.value_of(k))
    }
}

impl<K: HashKey, V> HashMap<K, V> {
    /// The number of buckets.
    pub closed spec fn bucket_count(&self) -> nat {
        self.buckets@.len()
    }

    /// The bucket that key `k` belongs to.
    pub open spec fn bucket_for(&self, k: K::V) -> int {
        bucket_of(K::spec_hash(k), self.bucket_count())
    }

    /// The chains, bucket by bucket.
    pub closed spec fn chains(&self) -> Seq<Seq<HashMapItem<K, V>>> {
        self.buckets@.map_values(|c: Vec<HashMapItem<K, V>>| c@)
    }

    /// The entries in iteration order: by ascending bucket, each chain from
    /// its oldest entry.
    pub closed spec fn entries(&self) -> Seq<HashMapItem<K, V>> {
        flatten(self.chains())
    }

    /// The chain of the bucket that key `k` belongs to.
    closed spec fn chain_of(&self, k: K::V) -> Seq<HashMapItem<K, V>> {
        self.buckets@[self.bucket_for(k)]@
    }

    /// The value of the entry of key `k` in its chain.
    closed spec fn value_of(&self, k: K::V) -> V {
        let c = self.chain_of(k);
        c[choose|i: int| 0 <= i < c.len() && c[i].key@ == k].value
    }

    /// Every entry sits in the bucket its key hashes to, keys within a chain
    /// are distinct, the chains hold exactly the keys of the model, and the
    /// size counts them.
    pub closed spec fn wf(&self) -> bool {
        let n = self.buckets@.len();
        &&& n > 0
        &&& self.keys@.finite()
        &&& self.size == self.keys@.len()
        &&& forall|b: int, i: int|
            0 <= b < n && 0 <= i < self.buckets@[b]@.len() ==> {
                let e = #[trigger] self.buckets@[b]@[i];
                &&& bucket_of(K::spec_hash(e.key@), n) == b
                &&& self.keys@.contains(e.key@)
            }
        &&& forall|b: int, i: int, j: int|
            0 <= b < n && 0 <= i < self.buckets@[b]@.len() && 0 <= j < self.buckets@[b]@.len()
                && i != j ==> #[trigger] self.buckets@[b]@[i].key@
                != #[trigger] self.buckets@[b]@[j].key@
        &&& forall|k: K::V|
            #[trigger] self.keys@.contains(k) ==> exists|i: int|
                0 <= i < self.buckets@[bucket_of(K::spec_hash(k), n)]@.len()
                    && #[trigger] self.buckets@[bucket_of(K::spec_hash(k), n)]@[i].key@ == k
    }

    /// Each entry of a well-formed table is the model's entry for its key.
    proof fn lemma_entry_value(&self, b: int, i: int)
        requires
            self.wf(),
            0 <= b < self.buckets@.len(),
            0 <= i < self.buckets@[b]@.len(),
        ensures
            self@.contains_key(self.buckets@[b]@[i].key@),
            self@[self.buckets@[b]@[i].key@] == self.buckets@[b]@[i].value,
            self.bucket_for(self.buckets@[b]@[i].key@) == b,
    {
        let k = self.buckets@[b]@[i].key@;
        let c = self.chain_of(k);
        assert(self.buckets@[b]@[i] == self.buckets@[b]@[i]);
        assert(c[i].key@ == k);
        let j = choose|j: int| 0 <= j < c.len() && c[j].key@ == k;
        assert(self.buckets@[b]@[j] == self.buckets@[b]@[j]);
        assert(j == i);
    }

    /// The keys of the model are those of the entries, each in its bucket.
    proof fn lemma_key_present(&self, k: K::V) -> (i: int)
        requires
            self.wf(),
            self@.contains_key(k),
        ensures
            0 <= self.bucket_for(k) < self.buckets@.len(),
            0 <= i < self.buckets@[self.bucket_for(k)]@.len(),
            self.buckets@[self.bucket_for(k)]@[i].key@ == k,
    {
        assert(self.keys@.contains(k));
        let c = self.bucket_for(k);
        choose|i: int| 0 <= i < self.buckets@[c]@.len() && #[trigger] self.buckets@[c]@[i].key@ == k
    }

    /// Storing under one key changes one chain: its entries keep their keys
    /// but for one entry of that key, which now holds the stored value.
    proof fn lemma_after_store(&self, pre: Self, b: int, k: K::V, v: V)
        requires
            pre.wf(),
            b == pre.bucket_for(k),
            self.buckets@.len() == pre.buckets@.len(),
            forall|c: int| 0 <= c < self.buckets@.len() && c != b ==> self.buckets@[c] == pre.buckets@[c],
            pre.buckets@[b]@.len() <= self.buckets@[b]@.len() <= pre.buckets@[b]@.len() + 1,
            forall|i: int| 0 <= i < pre.buckets@[b]@.len() ==> (#[trigger] self.buckets@[b]@[i]).key@ == pre.buckets@[b]@[i].key@,
            forall|i: int| 0 <= i < pre.buckets@[b]@.len() && (#[trigger] self.buckets@[b]@[i]).key@ != k ==> self.buckets@[b]@[i] == pre.buckets@[b]@[i],
            forall|i: int| 0 <= i < self.buckets@[b]@.len() && (#[trigger] self.buckets@[b]@[i]).key@ == k ==> self.buckets@[b]@[i].value == v,
            exists|i: int| 0 <= i < self.buckets@[b]@.len() && (#[trigger] self.buckets@[b]@[i]).key@ == k,
            self.buckets@[b]@.len() == pre.buckets@[b]@.len() + 1 ==> !pre.keys@.contains(k),
            self.keys@ =~= pre.keys@.insert(k),
            self.size == self.keys@.len(),
        ensures
            self.wf(),
            self@ == pre@.insert(k, v),
    {
        let n = self.buckets@.len();
        assert forall|c: int, i: int, j: int|
            0 <= c < n && 0 <= i < self.buckets@[c]@.len() && 0 <= j < self.buckets@[c]@.len()
                && i != j implies #[trigger] self.buckets@[c]@[i].key@
                != #[trigger] self.buckets@[c]@[j].key@ by {
            if c == b {
                if i >= pre.buckets@[b]@.len() {
                    assert(self.buckets@[b]@[i].key@ == k);
                    assert(pre.keys@.contains(pre.buckets@[b]@[j].key@));
                } else if j >= pre.buckets@[b]@.len() {
                    assert(pre.keys@.contains(pre.buckets@[b]@[i].key@));
                } else {
                    assert(pre.buckets@[b]@[i].key@ != pre.buckets@[b]@[j].key@);
                }
            }
        }
        assert forall|c: int, i: int|
            0 <= c < n && 0 <= i < self.buckets@[c]@.len() implies {
                let e = #[trigger] self.buckets@[c]@[i];
                &&& bucket_of(K::spec_hash(e.key@), n) == c
                &&& self.keys@.contains(e.key@)
            } by {
            if c == b && i < pre.buckets@[b]@.len() {
                assert(pre.buckets@[b]@[i].key@ == self.buckets@[b]@[i].key@);
            } else if c != b {
                assert(pre.buckets@[c] == self.buckets@[c]);
                assert(pre.buckets@[c]@[i] == self.buckets@[c]@[i]);
            }
        }
        assert forall|kk: K::V| #[trigger] self.keys@.contains(kk) implies exists|i: int|
                0 <= i < self.buckets@[bucket_of(K::spec_hash(kk), n)]@.len()
                    && #[trigger] self.buckets@[bucket_of(K::spec_hash(kk), n)]@[i].key@ == kk by {
            if kk != k {
                assert(pre.keys@.contains(kk));
                let c = bucket_of(K::spec_hash(kk), n);
                let i = choose|i: int| 0 <= i < pre.buckets@[c]@.len() && #[trigger] pre.buckets@[c]@[i].key@ == kk;
                if c == b {
                    assert(self.buckets@[c]@[i].key@ == kk);
                } else {
                    assert(self.buckets@[c]@[i] == pre.buckets@[c]@[i]);
                }
            }
        }
        assert(self.wf());
        assert forall|kk: K::V| #[trigger] self@.contains_key(kk) implies self@[kk] == pre@.insert(k, v)[kk] by {
            let c = self.bucket_for(kk);
            let i = self.lemma_key_present(kk);
            self.lemma_entry_value(c, i);
            if kk != k {
                assert(pre.keys@.contains(kk));
                let j = pre.lemma_key_present(kk);
                pre.lemma_entry_value(c, j);
                assert(self.buckets@[c]@[j] == pre.buckets@[c]@[j]);
                self.lemma_entry_value(c, j);
            }
        }
        assert(self@ =~= pre@.insert(k, v));
    }

    /// Excising the entry at position `p` of the chain of `k` keeps every
    /// other entry in its bucket and in the same relative order.
    proof fn lemma_after_excise(&self, pre: Self, b: int, p: int, k: K::V)
        requires
            pre.wf(),
            b == pre.bucket_for(k),
            0 <= p < pre.buckets@[b]@.len(),
            pre.buckets@[b]@[p].key@ == k,
            self.buckets@.len() == pre.buckets@.len(),
            forall|c: int| 0 <= c < self.buckets@.len() && c != b ==> self.buckets@[c] == pre.buckets@[c],
            self.buckets@[b]@ == pre.buckets@[b]@.remove(p),
            self.keys@ == pre.keys@.remove(k),
            self.size == self.keys@.len(),
        ensures
            self.wf(),
            self@ == pre@.remove(k),
    {
        let n = self.buckets@.len();
        assert forall|c: int, i: int|
            0 <= c < n && 0 <= i < self.buckets@[c]@.len() implies {
                let e = #[trigger] self.buckets@[c]@[i];
                &&& bucket_of(K::spec_hash(e.key@), n) == c
                &&& self.keys@.contains(e.key@)
            } by {
            if c == b {
                let q = if i < p { i } else { i + 1 };
                assert(self.buckets@[b]@[i] == pre.buckets@[b]@[q]);
                assert(pre.buckets@[b]@[q].key@ != pre.buckets@[b]@[p].key@);
            } else {
                assert(pre.buckets@[c]@[i] == self.buckets@[c]@[i]);
                if pre.buckets@[c]@[i].key@ == k {
                    assert(bucket_of(K::spec_hash(k), n) == b);
                }
            }
        }
        assert forall|c: int, i: int, j: int|
            0 <= c < n && 0 <= i < self.buckets@[c]@.len() && 0 <= j < self.buckets@[c]@.len()
                && i != j implies #[trigger] self.buckets@[c]@[i].key@
                != #[trigger] self.buckets@[c]@[j].key@ by {
            if c == b {
                let qi = if i < p { i } else { i + 1 };
                let qj = if j < p { j } else { j + 1 };
                assert(self.buckets@[b]@[i] == pre.buckets@[b]@[qi]);
                assert(self.buckets@[b]@[j] == pre.buckets@[b]@[qj]);
                assert(pre.buckets@[b]@[qi].key@ != pre.buckets@[b]@[qj].key@);
            } else {
                assert(pre.buckets@[c]@[i] == self.buckets@[c]@[i]);
                assert(pre.buckets@[c]@[j] == self.buckets@[c]@[j]);
            }
        }
        assert forall|kk: K::V| #[trigger] self.keys@.contains(kk) implies exists|i: int|
                0 <= i < self.buckets@[bucket_of(K::spec_hash(kk), n)]@.len()
                    && #[trigger] self.buckets@[bucket_of(K::spec_hash(kk), n)]@[i].key@ == kk by {
            assert(pre.keys@.contains(kk));
            let c = bucket_of(K::spec_hash(kk), n);
            let i = choose|i: int| 0 <= i < pre.buckets@[c]@.len() && #[trigger] pre.buckets@[c]@[i].key@ == kk;
            if c == b {
                assert(i != p);
                let q = if i < p { i } else { i - 1 };
                assert(self.buckets@[c]@[q] == pre.buckets@[c]@[i]);
            } else {
                assert(self.buckets@[c]@[i] == pre.buckets@[c]@[i]);
            }
        }
        assert(self.wf());
        assert forall|kk: K::V| #[trigger] self@.contains_key(kk) implies self@[kk] == pre@[kk] by {
            let c = self.bucket_for(kk);
            let i = self.lemma_key_present(kk);
            self.lemma_entry_value(c, i);
            let q = if c == b && i >= p { i + 1 } else { i };
            assert(self.buckets@[c]@[i] == pre.buckets@[c]@[q]);
            pre.lemma_entry_value(c, q);
        }
        assert(self@ =~= pre@.remove(k));
    }

    /// An empty table with `size` buckets.
    pub fn new(size: usize) -> (r: HashMap<K, V>)
        requires
            size > 0,
        ensures
            r.wf(),
            r@ == Map::<K::V, V>::empty(),
            r.bucket_count() == size,
    {
        let mut buckets: Vec<Vec<HashMapItem<K, V>>> = Vec::new();
        let mut i: usize = 0;
        while i < size
            invariant
                i <= size,
                buckets@.len() == i,
                forall|b: int| 0 <= b < i ==> (#[trigger] buckets@[b])@.len() == 0,
            decreases size - i,
        {
            buckets.push(Vec::new());
            i = i + 1;
        }
        let r = HashMap { size: 0, buckets, keys: Ghost(Set::empty()) };
        assert(r@ =~= Map::<K::V, V>::empty());
        r
    }

    /// The number of live entries.
    pub fn len(&self) -> (r: usize)
        requires
            self.wf(),
        ensures
            r == self@.len(),
    {
        self.size
    }

    /// The bucket index of `key`.
    fn hash(&self, key: &K) -> (r: usize)
        requires
            self.buckets@.len() > 0,
        ensures
            r == self.bucket_for(key@),
            r < self.buckets@.len(),
    {
        let n = self.buckets.len();
        (key.hash_key() % (n as u64)) as usize
    }

    /// Walks the chain of `key`'s bucket: the bucket index, and the position
    /// of the entry with that key, or `None` where the chain has none.
    fn finger(&self, key: &K) -> (r: (usize, Option<usize>))
        requires
            self.wf(),
        ensures
            r.0 == self.bucket_for(key@),
            r.0 < self.buckets@.len(),
            match r.1 {
                Some(p) => {
                    &&& p < self.buckets@[r.0 as int]@.len()
                    &&& self.buckets@[r.0 as int]@[p as int].key@ == key@
                    &&& self@.contains_key(key@)
                    &&& self@[key@] == self.buckets@[r.0 as int]@[p as int].value
                },
                None => !self@.contains_key(key@),
            },
    {
        let b = self.hash(key);
        let chain = &self.buckets[b];
        let mut i: usize = 0;
        while i < chain.len()
            invariant
                self.wf(),
                b == self.bucket_for(key@),
                b < self.buckets@.len(),
                chain == self.buckets@[b as int],
                i <= chain@.len(),
                forall|j: int| 0 <= j < i ==> (#[trigger] chain@[j]).key@ != key@,
            decreases chain@.len() - i,
        {
            if chain[i].key.key_eq(key) {
                proof {
                    self.lemma_entry_value(b as int, i as int);
                }
                return (b, Some(i));
            }
            i = i + 1;
        }
        proof {
            if self@.contains_key(key@) {
                let j = self.lemma_key_present(key@);
                assert(chain@[j].key@ == key@);
            }
        }
        (b, None)
    }

    /// The value stored under `key`, if any.
    pub fn get(&self, key: &K) -> (r: Option<&V>)
        requires
            self.wf(),
        ensures
            self@.contains_key(key@) ==> r == Some(&self@[key@]),
            !self@.contains_key(key@) ==> r is None,
    {
        let (b, found) = self.finger(key);
        match found {
            Some(p) => Some(&self.buckets[b][p].value),
            None => None,
        }
    }

    /// A mutable reference to the value stored under `key`, if any; what is
    /// written through it becomes the key's value.
    pub fn get_mut(&mut self, key: &K) -> (r: Option<&mut V>)
        requires
            old(self).wf(),
        ensures
            old(self)@.contains_key(key@) <==> r is Some,
            r is Some ==> {
                &&& *r->0 == old(self)@[key@]
                &&& final(self).wf()
                &&& final(self)@ == old(self)@.insert(key@, *final(r->0))
                &&& final(self).bucket_count() == old(self).bucket_count()
            },
            r is None ==> *final(self) == *old(self),
    {
        let ghost pre = *self;
        let (b, found) = self.finger(key);
        match found {
            None => None,
            Some(p) => {
                proof {
                    let bi = b as int;
                    let pi = p as int;
                    let item = pre.buckets@[bi]@[pi];
                    assert forall|s: Self|
                        #![trigger s.wf()]
                        #![trigger s.view()]
                        s.size == pre.size && s.keys == pre.keys
                            && s.buckets@.len() == pre.buckets@.len()
                            && (forall|c: int| 0 <= c < s.buckets@.len() && c != bi ==> s.buckets@[c] == pre.buckets@[c])
                            && s.buckets@[bi]@ == pre.buckets@[bi]@.update(pi, HashMapItem { key: item.key, value: s.buckets@[bi]@[pi].value })
                        implies s.wf() && s@ == pre@.insert(key@, s.buckets@[bi]@[pi].value) by {
                        assert(s.buckets@[bi]@[pi].key@ == key@);
                        s.lemma_after_store(pre, bi, key@, s.buckets@[bi]@[pi].value);
                    }
                }
                let slot = &mut self.buckets[b][p].value;
                Some(slot)
            },
        }
    }

    /// Inserts `value` under `key`, or overwrites the value already there.
    pub fn set(&mut self, key: &K, value: V)
        requires
            old(self).wf(),
            old(self)@.contains_key(key@) || old(self)@.len() < usize::MAX,
        ensures
            final(self).wf(),
            final(self)@ == old(self)@.insert(key@, value),
            final(self).bucket_count() == old(self).bucket_count(),
    {
        let ghost v = value;
        let ghost pre = *self;
        let (b, found) = self.finger(key);
        match found {
            Some(p) => {
                self.buckets[b][p].value = value;
            },
            None => {
                self.buckets[b].push(HashMapItem::new(key.clone_key(), value));
                self.size = self.size + 1;
                self.keys = Ghost(self.keys@.insert(key@));
                proof {
                    assert(self.buckets@[b as int]@[pre.buckets@[b as int]@.len() as int].key@ == key@);
                }
            },
        }
        proof {
            assert(self.buckets@.len() == pre.buckets@.len());
            assert(forall|c: int| 0 <= c < self.buckets@.len() && c != b ==> self.buckets@[c] == pre.buckets@[c]);
            self.lemma_after_store(pre, b as int, key@, v);
        }
    }

    /// Deletes the entry of `key`, handing back its value: the chain is
    /// closed over the excised entry, its predecessor now leading to its
    /// successor. An absent key leaves the table as it was.
    pub fn remove(&mut self, key: &K) -> (r: Option<V>)
        requires
            old(self).wf(),
        ensures
            final(self).wf(),
            final(self).bucket_count() == old(self).bucket_count(),
            old(self)@.contains_key(key@) ==> r == Some(old(self)@[key@]) && final(self)@
                == old(self)@.remove(key@),
            !old(self)@.contains_key(key@) ==> r is None && *final(self) == *old(self),
    {
        let ghost pre = *self;
        let (b, found) = self.finger(key);
        match found {
            None => None,
            Some(p) => {
                let item = self.buckets[b].remove(p);
                self.size = self.size - 1;
                self.keys = Ghost(self.keys@.remove(key@));
                proof {
                    assert(self.buckets@.len() == pre.buckets@.len());
                    assert(forall|c: int| 0 <= c < self.buckets@.len() && c != b ==> self.buckets@[c] == pre.buckets@[c]);
                    self.lemma_after_excise(pre, b as int, p as int, key@);
                }
                Some(item.value)
            },
        }
    }

    /// Rebuilds the bucket array: every entry is re-inserted, chain by chain
    /// and in chain order, into a fresh array of the same length. The contents
    /// stay as they were. Keys hash through `HashKey`, so the hasher passed
    /// in is not consulted.
    pub fn rehash(&mut self, _hasher: DefaultHasher)
        requires
            old(self).wf(),
        ensures
            final(self).wf(),
            final(self)@ == old(self)@,
            final(self).bucket_count() == old(self).bucket_count(),
    {
        broadcast use vstd::std_specs::vec::axiom_spec_into_iter;

        let n = self.buckets.len();
        let mut previous: HashMap<K, V> = HashMap::new(n);
        core::mem::swap(self, &mut previous);
        let ghost pre = previous;
        let ghost mut bi: int = 0;
        for chain in it: previous.buckets.into_iter()
            invariant
                pre.wf(),
                n == pre.buckets@.len(),
                it.seq() == pre.buckets@,
                bi == it.index(),
                self.wf(),
                self.bucket_count() == n,
                forall|k: K::V| #[trigger] self@.contains_key(k) <==> pre@.contains_key(k) && pre.bucket_for(k) < bi,
                forall|k: K::V| #[trigger] self@.contains_key(k) ==> self@[k] == pre@[k],
        {
            assert(chain == pre.buckets@[bi]);
            let ghost mut j: int = 0;
            for item in it2: chain.into_iter()
                invariant
                    pre.wf(),
                    n == pre.buckets@.len(),
                    0 <= bi < n,
                    it2.seq() == pre.buckets@[bi]@,
                    j == it2.index(),
                    self.wf(),
                    self.bucket_count() == n,
                    forall|k: K::V| #[trigger] self@.contains_key(k) <==> pre@.contains_key(k) && (pre.bucket_for(k) < bi
                        || exists|t: int| 0 <= t < j && (#[trigger] pre.buckets@[bi]@[t]).key@ == k),
                    forall|k: K::V| #[trigger] self@.contains_key(k) ==> self@[k] == pre@[k],
            {
                let ghost k = item.key@;
                proof {
                    assert(item == pre.buckets@[bi]@[j]);
                    pre.lemma_entry_value(bi, j);
                    if self@.contains_key(k) {
                        let t = choose|t: int| 0 <= t < j && (#[trigger] pre.buckets@[bi]@[t]).key@ == k;
                        assert(pre.buckets@[bi]@[t].key@ != pre.buckets@[bi]@[j].key@);
                    }
                    assert(self@.dom().subset_of(pre@.dom().remove(k)));
                    vstd::set_lib::lemma_len_subset(self@.dom(), pre@.dom().remove(k));
                    assert(pre@.dom() =~= pre.keys@);
                }
                self.set(&item.key, item.value);
                proof {
                    assert forall|kk: K::V| #[trigger] self@.contains_key(kk) <==> pre@.contains_key(kk) && (pre.bucket_for(kk) < bi
                        || exists|t: int| 0 <= t < j + 1 && (#[trigger] pre.buckets@[bi]@[t]).key@ == kk) by {
                        if kk == k {
                            assert(pre.buckets@[bi]@[j].key@ == kk);
                        }
                    }
                    j = j + 1;
                }
            }
            proof {
                assert forall|k: K::V| #[trigger] self@.contains_key(k) <==> pre@.contains_key(k) && pre.bucket_for(k) < bi + 1 by {
                    if pre@.contains_key(k) && pre.bucket_for(k) == bi {
                        let t = pre.lemma_key_present(k);
                        assert(pre.buckets@[bi]@[t].key@ == k);
                    }
                }
                bi = bi + 1;
            }
        }
        proof {
            assert forall|k: K::V| pre@.contains_key(k) implies pre.bucket_for(k) < bi by {
                let t = pre.lemma_key_present(k);
            }
        }
        assert(self@ =~= pre@);
    }

    /// A well-formed table holds finitely many keys.
    pub proof fn lemma_view_finite(&self)
        requires
            self.wf(),
        ensures
            self@.dom().finite(),
    {
        assert(self@.dom() =~= self.keys@);
    }

    /// Iteration visits each live key exactly once, with its value: the
    /// entries in iteration order have pairwise distinct keys, each holds
    /// the value the table stores under its key, every key of the table is
    /// among them, and there are as many as the table has keys.
    pub proof fn lemma_entries_complete(&self)
        requires
            self.wf(),
        ensures
            self.entries().len() == self@.len(),
            forall|i: int, j: int|
                0 <= i < j < self.entries().len() ==> (#[trigger] self.entries()[i]).key@
                    != (#[trigger] self.entries()[j]).key@,
            forall|i: int|
                0 <= i < self.entries().len() ==> self@.contains_key(
                    (#[trigger] self.entries()[i]).key@,
                ) && self@[self.entries()[i].key@] == self.entries()[i].value,
            forall|k: K::V|
                #[trigger] self@.contains_key(k) ==> exists|i: int|
                    0 <= i < self.entries().len() && (#[trigger] self.entries()[i]).key@ == k,
    {
        let s = self.chains();
        let es = self.entries();
        assert forall|i: int| 0 <= i < es.len() implies self@.contains_key(
            (#[trigger] es[i]).key@,
        ) && self@[es[i].key@] == es[i].value by {
            let (b, p) = lemma_flatten_index(s, i);
            self.lemma_entry_value(b, p);
        }
        assert forall|i: int, j: int| 0 <= i < j < es.len() implies (#[trigger] es[i]).key@
            != (#[trigger] es[j]).key@ by {
            let (b1, p1) = lemma_flatten_index(s, i);
            let (b2, p2) = lemma_flatten_index(s, j);
            self.lemma_entry_value(b1, p1);
            self.lemma_entry_value(b2, p2);
            if es[i].key@ == es[j].key@ {
                assert(b1 == b2);
                assert(p1 != p2);
                assert(self.buckets@[b1]@[p1].key@ != self.buckets@[b1]@[p2].key@);
            }
        }
        assert forall|k: K::V| #[trigger] self@.contains_key(k) implies exists|i: int|
            0 <= i < es.len() && (#[trigger] es[i]).key@ == k by {
            let p = self.lemma_key_present(k);
            let b = self.bucket_for(k);
            lemma_flatten_at(s, b, p);
            let i = flatten(s.take(b)).len() + p;
            assert(es[i].key@ == k);
        }
        let ks = es.map_values(|e: HashMapItem<K, V>| e.key@);
        assert forall|i: int, j: int| 0 <= i < ks.len() && 0 <= j < ks.len() && i != j implies ks[i]
            != ks[j] by {
            if i < j {
                assert(es[i].key@ != es[j].key@);
            } else {
                assert(es[j].key@ != es[i].key@);
            }
        }
        assert(ks.no_duplicates());
        ks.unique_seq_to_set();
        assert forall|k: K::V| ks.to_set().contains(k) <==> self.keys@.contains(k) by {
            if self.keys@.contains(k) {
                assert(self@.contains_key(k));
                let i = choose|i: int| 0 <= i < es.len() && (#[trigger] es[i]).key@ == k;
                assert(ks[i] == k);
            }
            if ks.contains(k) {
                let i = choose|i: int| 0 <= i < ks.len() && ks[i] == k;
                assert(self@.contains_key(es[i].key@));
            }
        }
        assert(ks.to_set() =~= self.keys@);
        assert(self@.dom() =~= self.keys@);
    }

    /// A fresh traversal of the entries, from the first.
    pub fn iter(&self) -> (r: HashMapIterator<'_, K, V>)
        requires
            self.wf(),
        ensures
            r.wf(),
            r.table() == *self,
            r.index() == 0,
            r.index() <= r.table().entries().len(),
    {
        let mut r = HashMapIterator { hashmap: self, bucket_idx: 0, pos: 0 };
        assert(self.chains().take(0) =~= Seq::<Seq<HashMapItem<K, V>>>::empty());
        r.settle();
        proof {
            r.lemma_index_bounded();
        }
        r
    }
}

impl<'a, K: HashKey, V> HashMapIterator<'a, K, V> {
    /// The table traversed.
    pub closed spec fn table(&self) -> HashMap<K, V> {
        *self.hashmap
    }

    /// How many entries, in iteration order, lie before the cursor.
    pub closed spec fn index(&self) -> int {
        flatten(self.hashmap.chains().take(self.bucket_idx as int)).len() + self.pos
    }

    /// The cursor stands within the bucket array, and within its chain.
    pub closed spec fn wf(&self) -> bool {
        let n = self.hashmap.buckets@.len();
        &&& self.hashmap.wf()
        &&& self.bucket_idx <= n
        &&& self.bucket_idx < n ==> self.pos <= self.hashmap.buckets@[self.bucket_idx as int]@.len()
        &&& self.bucket_idx == n ==> self.pos == 0
    }

    /// The cursor never stands past the last entry.
    pub proof fn lemma_index_bounded(&self)
        requires
            self.wf(),
        ensures
            0 <= self.index() <= self.table().entries().len(),
    {
        let s = self.hashmap.chains();
        let b = self.bucket_idx as int;
        if b < s.len() {
            lemma_flatten_step(s, b);
            lemma_flatten_prefix(s, b + 1);
        } else {
            assert(s.take(b) =~= s);
        }
    }

    /// Moves past exhausted chains to the next entry, if there is one.
    fn settle(&mut self)
        requires
            old(self).wf(),
        ensures
            final(self).wf(),
            final(self).table() == old(self).table(),
            final(self).index() == old(self).index(),
            final(self).bucket_idx < final(self).hashmap.buckets@.len() ==> final(self).pos
                < final(self).hashmap.buckets@[final(self).bucket_idx as int]@.len(),
    {
        let n = self.hashmap.buckets.len();
        while self.bucket_idx < n && self.pos >= self.hashmap.buckets[self.bucket_idx].len()
            invariant
                self.wf(),
                self.hashmap == old(self).hashmap,
                self.index() == old(self).index(),
                n == self.hashmap.buckets@.len(),
            decreases n - self.bucket_idx,
        {
            proof {
                lemma_flatten_step(self.hashmap.chains(), self.bucket_idx as int);
            }
            self.bucket_idx = self.bucket_idx + 1;
            self.pos = 0;
        }
    }

    /// The entry at the cursor, after which the cursor moves on by one;
    /// `None` once every entry has been visited.
    pub fn next(&mut self) -> (r: Option<(&'a K, &'a V)>)
        requires
            old(self).wf(),
        ensures
            final(self).wf(),
            final(self).table() == old(self).table(),
            final(self).index() <= final(self).table().entries().len(),
            ({
                let es = old(self).table().entries();
                let i = old(self).index();
                if 0 <= i < es.len() {
                    &&& r == Some((&es[i].key, &es[i].value))
                    &&& final(self).index() == i + 1
                } else {
                    &&& r is None
                    &&& final(self).index() == i
                }
            }),
    {
        self.settle();
        let n = self.hashmap.buckets.len();
        if self.bucket_idx >= n {
            assert(self.hashmap.chains().take(n as int) =~= self.hashmap.chains());
            proof {
                self.lemma_index_bounded();
            }
            return None;
        }
        let table: &'a HashMap<K, V> = self.hashmap;
        let chain = &table.buckets[self.bucket_idx];
        let item = &chain[self.pos];
        assert(self.pos < chain.len());
        proof {
            lemma_flatten_at(table.chains(), self.bucket_idx as int, self.pos as int);
        }
        self.pos = self.pos + 1;
        proof {
            self.lemma_index_bounded();
        }
        Some((&item.key, &item.value))
    }
}

} // verus!
