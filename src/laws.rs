//! Laws that relate the table's operations, stated over its model: `set`
//! maps the model `m` to `m.insert(k, v)`, `remove` to `m.remove(k)`, `get`
//! reads `m[k]` and `len` reports `m.len()`.
use vstd::prelude::*;
use crate::hashmap::HashMap;
use crate::key::HashKey;

verus! {

/// The count of entries follows the keys: setting an absent key adds one,
/// setting a present key adds none, removing a present key takes one away
/// and removing an absent key changes nothing.
pub proof fn lemma_size_accounting<K: HashKey, V>(t: &HashMap<K, V>, k: K::V, v: V)
    requires
        t.wf(),
    ensures
        t@.insert(k, v).len() == if t@.contains_key(k) {
            t@.len()
        } else {
            t@.len() + 1
        },
        t@.remove(k).len() == if t@.contains_key(k) {
            t@.len() - 1
        } else {
            t@.len() as int
        },
{
    t.lemma_view_finite();
    if t@.contains_key(k) {
        assert(t@.insert(k, v).dom() =~= t@.dom());
    } else {
        assert(t@.remove(k) =~= t@);
    }
}

/// After `set(k, v)`, `get(k)` finds `v`, whatever the table held before.
pub proof fn lemma_set_then_get<K: HashKey, V>(t: &HashMap<K, V>, k: K::V, v: V)
    requires
        t.wf(),
    ensures
        t@.insert(k, v).contains_key(k),
        t@.insert(k, v)[k] == v,
{
}

/// Setting a key twice keeps the count of the first `set` and leaves the
/// second value.
pub proof fn lemma_set_twice<K: HashKey, V>(t: &HashMap<K, V>, k: K::V, v1: V, v2: V)
    requires
        t.wf(),
    ensures
        t@.insert(k, v1).insert(k, v2).len() == t@.insert(k, v1).len(),
        t@.insert(k, v1).insert(k, v2)[k] == v2,
{
    t.lemma_view_finite();
    assert(t@.insert(k, v1).insert(k, v2).dom() =~= t@.insert(k, v1).dom());
}

/// After a successful `remove(k)`, `get(k)` finds nothing and every other
/// key keeps its value.
pub proof fn lemma_remove_then_get<K: HashKey, V>(t: &HashMap<K, V>, k: K::V)
    requires
        t.wf(),
        t@.contains_key(k),
    ensures
        !t@.remove(k).contains_key(k),
        forall|k2: K::V|
            k2 != k && #[trigger] t@.contains_key(k2) ==> t@.remove(k).contains_key(k2)
                && t@.remove(k)[k2] == t@[k2],
{
}

/// One mutating call on a table, as it acts on the model: `Insert` stands
/// for `set`, `Remove` for `remove`.
pub enum Call<K, V> {
    Insert(K, V),
    Remove(K),
}

/// What one call does to the model: `set` inserts, `remove` deletes.
pub open spec fn apply_call<K, V>(m: Map<K, V>, c: Call<K, V>) -> Map<K, V> {
    match c {
        Call::Insert(k, v) => m.insert(k, v),
        Call::Remove(k) => m.remove(k),
    }
}

/// The model after the calls, in order.
pub open spec fn run_calls<K, V>(m: Map<K, V>, cs: Seq<Call<K, V>>) -> Map<K, V>
    decreases cs.len(),
{
    if cs.len() == 0 {
        m
    } else {
        apply_call(run_calls(m, cs.drop_last()), cs.last())
    }
}

/// The keys that some `set` among the calls names.
pub open spec fn keys_set<K, V>(cs: Seq<Call<K, V>>) -> Set<K>
    decreases cs.len(),
{
    if cs.len() == 0 {
        Set::empty()
    } else {
        let s = keys_set(cs.drop_last());
        match cs.last() {
            Call::Insert(k, _) => s.insert(k),
            Call::Remove(_) => s,
        }
    }
}

/// The keys that some `remove` among the calls found present, starting from
/// an empty table.
pub open spec fn keys_removed<K, V>(cs: Seq<Call<K, V>>) -> Set<K>
    decreases cs.len(),
{
    if cs.len() == 0 {
        Set::empty()
    } else {
        let r = keys_removed(cs.drop_last());
        match cs.last() {
            Call::Remove(k) => if run_calls(Map::empty(), cs.drop_last()).contains_key(k) {
                r.insert(k)
            } else {
                r
            },
            Call::Insert(_, _) => r,
        }
    }
}

/// No key is set again once a `remove` has taken it out.
pub open spec fn no_set_after_removal<K, V>(cs: Seq<Call<K, V>>) -> bool
    decreases cs.len(),
{
    if cs.len() == 0 {
        true
    } else {
        &&& no_set_after_removal(cs.drop_last())
        &&& match cs.last() {
            Call::Insert(k, _) => !keys_removed(cs.drop_last()).contains(k),
            Call::Remove(_) => true,
        }
    }
}

/// From an empty table, after any sequence of `set` and `remove` calls, the
/// number of entries is the number of distinct keys ever set less the number
/// of distinct keys removed while present; this counting needs that no key
/// is set again after its removal.
pub proof fn lemma_size_after_calls<K, V>(cs: Seq<Call<K, V>>)
    requires
        no_set_after_removal(cs),
    ensures
        run_calls(Map::empty(), cs).dom().finite(),
        run_calls(Map::empty(), cs).len() == keys_set(cs).len() - keys_removed(cs).len(),
        run_calls(Map::empty(), cs).dom() == keys_set(cs).difference(keys_removed(cs)),
        keys_removed(cs).subset_of(keys_set(cs)),
        keys_set(cs).finite(),
        keys_removed(cs).finite(),
    decreases cs.len(),
{
    let m = run_calls(Map::<K, V>::empty(), cs);
    if cs.len() == 0 {
        assert(m.dom() =~= keys_set(cs).difference(keys_removed(cs)));
    } else {
        let prev = cs.drop_last();
        lemma_size_after_calls(prev);
        let pm = run_calls(Map::<K, V>::empty(), prev);
        let s = keys_set(prev);
        let r = keys_removed(prev);
        match cs.last() {
            Call::Insert(k, v) => {
                assert(!r.contains(k));
                assert(m.dom() =~= keys_set(cs).difference(keys_removed(cs)));
                if s.contains(k) {
                    assert(pm.contains_key(k));
                    assert(m.dom() =~= pm.dom());
                    assert(keys_set(cs) =~= s);
                } else {
                    assert(!pm.contains_key(k));
                }
            },
            Call::Remove(k) => {
                if pm.contains_key(k) {
                    assert(!r.contains(k));
                    assert(m.dom() =~= keys_set(cs).difference(keys_removed(cs)));
                } else {
                    assert(m =~= pm);
                    assert(m.dom() =~= keys_set(cs).difference(keys_removed(cs)));
                }
            },
        }
    }
}

} // verus!
