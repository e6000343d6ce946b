use vstd::prelude::*;

verus! {

// A registry is a sequence of (surrogate identity, natural key) entries.
// Players, events, sites and games all register rows through the same
// transition: look the key up, and only when it is absent append a row
// under the next identity. The transition is modelled here once, over the
// plain entry view, so that every table proves the same laws.

/// Does some entry of `t` carry the natural key `k`?
pub open spec fn has_key<K>(t: Seq<(u64, K)>, k: K) -> bool {
    exists|i: int| 0 <= i < t.len() && t[i].1 == k
}

/// Natural keys never repeat within the registry.
pub open spec fn keys_distinct<K>(t: Seq<(u64, K)>) -> bool {
    forall|i: int, j: int| 0 <= i < j < t.len() ==> t[i].1 != t[j].1
}

/// The identity stored for key `k`; meaningful when `has_key(t, k)` holds
/// and keys are distinct.
pub open spec fn id_of<K>(t: Seq<(u64, K)>, k: K) -> u64 {
    let i = choose|i: int| 0 <= i < t.len() && t[i].1 == k;
    t[i].0
}

/// How many entries of `t` carry the key `k`.
pub open spec fn count_key<K>(t: Seq<(u64, K)>, k: K) -> nat
    decreases t.len(),
{
    if t.len() == 0 {
        0
    } else {
        count_key(t.drop_last(), k) + (if t.last().1 == k {
            1nat
        } else {
            0nat
        })
    }
}

/// The get-or-create transition: an existing key leaves the registry
/// untouched and resolves to the stored identity; a new key is appended
/// under the next identity, one past the current length.
pub open spec fn register_spec<K>(t: Seq<(u64, K)>, k: K) -> (Seq<(u64, K)>, u64) {
    if has_key(t, k) {
        (t, id_of(t, k))
    } else {
        ((t.push(((t.len() + 1) as u64, k))), (t.len() + 1) as u64)
    }
}

proof fn lemma_count_key_zero<K>(t: Seq<(u64, K)>, k: K)
    requires
        !has_key(t, k),
    ensures
        count_key(t, k) == 0,
    decreases t.len(),
{
    if t.len() > 0 {
        assert(!has_key(t.drop_last(), k)) by {
            assert(forall|i: int| 0 <= i < t.len() - 1 ==> t.drop_last()[i] == t[i]);
        }
        lemma_count_key_zero(t.drop_last(), k);
        assert(t.last().1 != k) by {
            assert(t[t.len() - 1] == t.last());
        }
    }
}

proof fn lemma_count_key_one<K>(t: Seq<(u64, K)>, k: K)
    requires
        keys_distinct(t),
        has_key(t, k),
    ensures
        count_key(t, k) == 1,
    decreases t.len(),
{
    let w = choose|i: int| 0 <= i < t.len() && t[i].1 == k;
    if w == t.len() - 1 {
        assert(!has_key(t.drop_last(), k)) by {
            assert(forall|i: int| 0 <= i < t.len() - 1 ==> t.drop_last()[i] == t[i]);
        }
        lemma_count_key_zero(t.drop_last(), k);
    } else {
        assert(keys_distinct(t.drop_last()) && has_key(t.drop_last(), k)) by {
            assert(forall|i: int| 0 <= i < t.len() - 1 ==> t.drop_last()[i] == t[i]);
        }
        lemma_count_key_one(t.drop_last(), k);
        assert(t.last().1 != k) by {
            assert(t[t.len() - 1] == t.last());
        }
    }
}

/// Registering a key is idempotent: once a key is present — whether it was
/// just created or existed all along — every further registration returns
/// the same identity and leaves the registry unchanged, and exactly one
/// entry carries the key. Callers are serialized by the store, so racing
/// registrations of one key apply this transition in some order: all of
/// them resolve to the identity of the single surviving row.
pub proof fn lemma_register_idempotent<K>(t: Seq<(u64, K)>, k: K)
    requires
        keys_distinct(t),
    ensures
        ({
            let (t1, id1) = register_spec(t, k);
            &&& keys_distinct(t1)
            &&& register_spec(t1, k) == (t1, id1)
            &&& count_key(t1, k) == 1
        }),
{
    let (t1, id1) = register_spec(t, k);
    if has_key(t, k) {
        let i = choose|i: int| 0 <= i < t.len() && t[i].1 == k;
        lemma_count_key_one(t, k);
    } else {
        let fresh = ((t.len() + 1) as u64, k);
        assert(t1 == t.push(fresh));
        assert(t1[t.len() as int].1 == k);
        assert(has_key(t1, k));
        assert(keys_distinct(t1)) by {
            assert(forall|i: int| 0 <= i < t.len() ==> t1[i] == t[i] && t[i].1 != k);
        }
        let w = choose|i: int| 0 <= i < t1.len() && t1[i].1 == k;
        assert(w == t.len()) by {
            if w < t.len() {
                assert(t[w].1 == k);
            }
        }
        assert(id_of(t1, k) == id1);
        lemma_count_key_one(t1, k);
    }
}

} // verus!
