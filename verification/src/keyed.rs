//! Sequences of records that carry their own key, used as finite maps:
//! lookup by key, and how lookups change when a record is replaced or added.
use vstd::prelude::*;

verus! {

/// A record stored under a key of its own.
pub trait Keyed {
    type Key;

    spec fn key(&self) -> Self::Key;
}

/// No key occurs twice in `s`.
pub open spec fn unique_keys<T: Keyed>(s: Seq<T>) -> bool {
    forall|i: int, j: int|
        0 <= i < s.len() && 0 <= j < s.len() && (#[trigger] s[i]).key() == (#[trigger] s[j]).key()
            ==> i == j
}

/// Some record of `s` has key `k`.
pub open spec fn has_key<T: Keyed>(s: Seq<T>, k: T::Key) -> bool {
    exists|i: int| 0 <= i < s.len() && (#[trigger] s[i]).key() == k
}

/// The position of a record of `s` with key `k`.
pub open spec fn key_index<T: Keyed>(s: Seq<T>, k: T::Key) -> int {
    choose|i: int| 0 <= i < s.len() && (#[trigger] s[i]).key() == k
}

/// The record of `s` with key `k`, if any.
pub open spec fn lookup<T: Keyed>(s: Seq<T>, k: T::Key) -> Option<T> {
    if has_key(s, k) {
        Some(s[key_index(s, k)])
    } else {
        None
    }
}

/// In a sequence with unique keys, the record at `i` is the one found
/// under its key.
pub proof fn lemma_key_index<T: Keyed>(s: Seq<T>, i: int)
    requires
        unique_keys(s),
        0 <= i < s.len(),
    ensures
        has_key(s, s[i].key()),
        key_index(s, s[i].key()) == i,
        lookup(s, s[i].key()) == Some(s[i]),
{
    assert(has_key(s, s[i].key()));
    let j = key_index(s, s[i].key());
    assert(s[j].key() == s[i].key());
}

/// Replacing a record by one with the same key changes the lookup of that
/// key only.
pub proof fn lemma_lookup_update<T: Keyed>(s: Seq<T>, i: int, x: T)
    requires
        unique_keys(s),
        0 <= i < s.len(),
        x.key() == s[i].key(),
    ensures
        unique_keys(s.update(i, x)),
        forall|k: T::Key|
            #![trigger lookup(s.update(i, x), k)]
            lookup(s.update(i, x), k) == if k == x.key() {
                Some(x)
            } else {
                lookup(s, k)
            },
{
    let t = s.update(i, x);
    assert forall|a: int, b: int|
        0 <= a < t.len() && 0 <= b < t.len() && (#[trigger] t[a]).key() == (#[trigger] t[b]).key()
        implies a == b by {
        assert(t[a].key() == s[a].key());
        assert(t[b].key() == s[b].key());
    }
    assert forall|k: T::Key| #![trigger lookup(t, k)]
        lookup(t, k) == if k == x.key() {
            Some(x)
        } else {
            lookup(s, k)
        } by {
        if k == x.key() {
            lemma_key_index(t, i);
        } else {
            if has_key(s, k) {
                let j = key_index(s, k);
                assert(t[j].key() == k);
                lemma_key_index(t, j);
                lemma_key_index(s, j);
            }
            if has_key(t, k) {
                let j = key_index(t, k);
                assert(s[j].key() == k);
            }
        }
    }
}

/// Adding a record under a new key changes the lookup of that key only.
pub proof fn lemma_lookup_push<T: Keyed>(s: Seq<T>, x: T)
    requires
        unique_keys(s),
        !has_key(s, x.key()),
    ensures
        unique_keys(s.push(x)),
        forall|k: T::Key|
            #![trigger lookup(s.push(x), k)]
            lookup(s.push(x), k) == if k == x.key() {
                Some(x)
            } else {
                lookup(s, k)
            },
{
    let t = s.push(x);
    assert forall|a: int, b: int|
        0 <= a < t.len() && 0 <= b < t.len() && (#[trigger] t[a]).key() == (#[trigger] t[b]).key()
        implies a == b by {
        if a < s.len() {
            assert(t[a] == s[a]);
        }
        if b < s.len() {
            assert(t[b] == s[b]);
        }
    }
    assert forall|k: T::Key| #![trigger lookup(t, k)]
        lookup(t, k) == if k == x.key() {
            Some(x)
        } else {
            lookup(s, k)
        } by {
        if k == x.key() {
            lemma_key_index(t, s.len() as int);
        } else {
            if has_key(s, k) {
                let j = key_index(s, k);
                assert(t[j] == s[j]);
                lemma_key_index(t, j);
                lemma_key_index(s, j);
            }
            if has_key(t, k) {
                let j = key_index(t, k);
                assert(j < s.len());
                assert(s[j] == t[j]);
            }
        }
    }
}

/// Two sequences with the same key at every position find every key at the
/// same position.
pub proof fn lemma_same_keys<T: Keyed>(s: Seq<T>, t: Seq<T>)
    requires
        unique_keys(s),
        t.len() == s.len(),
        forall|i: int| 0 <= i < s.len() ==> (#[trigger] t[i]).key() == s[i].key(),
    ensures
        unique_keys(t),
        forall|k: T::Key| #[trigger] has_key(t, k) == has_key(s, k),
        forall|k: T::Key|
            #![trigger lookup(t, k)]
            lookup(t, k) == if has_key(s, k) {
                Some(t[key_index(s, k)])
            } else {
                None
            },
{
    assert forall|a: int, b: int|
        0 <= a < t.len() && 0 <= b < t.len() && (#[trigger] t[a]).key() == (#[trigger] t[b]).key()
        implies a == b by {
        assert(s[a].key() == t[a].key());
        assert(s[b].key() == t[b].key());
    }
    assert forall|k: T::Key| #[trigger] has_key(t, k) == has_key(s, k) by {
        if has_key(t, k) {
            let j = key_index(t, k);
            assert(s[j].key() == k);
        }
        if has_key(s, k) {
            let j = key_index(s, k);
            assert(t[j].key() == k);
        }
    }
    assert forall|k: T::Key| #![trigger lookup(t, k)]
        lookup(t, k) == if has_key(s, k) {
            Some(t[key_index(s, k)])
        } else {
            None
        } by {
        if has_key(s, k) {
            let j = key_index(s, k);
            assert(t[j].key() == k);
            lemma_key_index(t, j);
        }
    }
}

} // verus!
