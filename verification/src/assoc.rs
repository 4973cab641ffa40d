//! Association sequences: ordered key/value entries looked up by first
//! match. They model the score and cause tallies, whose entry order is the
//! order of first contribution.

use vstd::prelude::*;

verus! {

/// Index of the first entry whose key equals `key`.
pub open spec fn assoc_find<K>(entries: Seq<(K, int)>, key: K) -> Option<int>
    decreases entries.len(),
{
    if entries.len() == 0 {
        None
    } else if entries[0].0 == key {
        Some(0int)
    } else {
        match assoc_find(entries.drop_first(), key) {
            None => None,
            Some(j) => Some(j + 1),
        }
    }
}

/// The value stored for `key`, if any.
pub open spec fn assoc_get<K>(entries: Seq<(K, int)>, key: K) -> Option<int> {
    match assoc_find(entries, key) {
        None => None,
        Some(j) => Some(entries[j].1),
    }
}

/// Add `delta` to the entry for `key`; a missing key is appended with
/// value `delta` itself.
pub open spec fn assoc_bump<K>(entries: Seq<(K, int)>, key: K, delta: int) -> Seq<(K, int)> {
    match assoc_find(entries, key) {
        None => entries.push((key, delta)),
        Some(j) => entries.update(j, (key, entries[j].1 + delta)),
    }
}

pub proof fn lemma_assoc_find_props<K>(entries: Seq<(K, int)>, key: K)
    ensures
        match assoc_find(entries, key) {
            None => forall|i: int| 0 <= i < entries.len() ==> (#[trigger] entries[i]).0 != key,
            Some(j) => 0 <= j < entries.len() && entries[j].0 == key && forall|i: int|
                0 <= i < j ==> (#[trigger] entries[i]).0 != key,
        },
    decreases entries.len(),
{
    if entries.len() > 0 && entries[0].0 != key {
        lemma_assoc_find_props(entries.drop_first(), key);
        match assoc_find(entries.drop_first(), key) {
            None => {
                assert forall|i: int| 0 <= i < entries.len() implies (#[trigger] entries[i]).0
                    != key by {
                    if i > 0 {
                        assert(entries.drop_first()[i - 1] == entries[i]);
                    }
                }
            },
            Some(j) => {
                assert(entries.drop_first()[j] == entries[j + 1]);
                assert forall|i: int| 0 <= i < j + 1 implies (#[trigger] entries[i]).0 != key by {
                    if i > 0 {
                        assert(entries.drop_first()[i - 1] == entries[i]);
                    }
                }
            },
        }
    }
}

/// The first match stands at `i` when everything before `i` mismatches.
pub proof fn lemma_assoc_find_at<K>(entries: Seq<(K, int)>, key: K, i: int)
    requires
        0 <= i <= entries.len(),
        forall|k: int| 0 <= k < i ==> (#[trigger] entries[k]).0 != key,
        i < entries.len() ==> entries[i].0 == key,
    ensures
        assoc_find(entries, key) == (if i < entries.len() {
            Some(i)
        } else {
            None::<int>
        }),
    decreases i,
{
    if i == 0 {
    } else {
        assert(entries[0].0 != key);
        assert forall|k: int| 0 <= k < i - 1 implies (#[trigger] entries.drop_first()[k]).0
            != key by {
            assert(entries.drop_first()[k] == entries[k + 1]);
        }
        if i < entries.len() {
            assert(entries.drop_first()[i - 1] == entries[i]);
        }
        lemma_assoc_find_at(entries.drop_first(), key, i - 1);
    }
}

/// Lookup depends on the keys alone.
proof fn lemma_assoc_same_keys_find<K>(e1: Seq<(K, int)>, e2: Seq<(K, int)>, key: K)
    requires
        e1.len() == e2.len(),
        forall|i: int| 0 <= i < e1.len() ==> (#[trigger] e1[i]).0 == e2[i].0,
    ensures
        assoc_find(e1, key) == assoc_find(e2, key),
    decreases e1.len(),
{
    if e1.len() > 0 {
        assert(e1[0].0 == e2[0].0);
        assert forall|i: int| 0 <= i < e1.drop_first().len() implies (#[trigger] e1.drop_first()[
            i
        ]).0 == e2.drop_first()[i].0 by {
            assert(e1.drop_first()[i] == e1[i + 1]);
            assert(e2.drop_first()[i] == e2[i + 1]);
        }
        lemma_assoc_same_keys_find(e1.drop_first(), e2.drop_first(), key);
    }
}

proof fn lemma_assoc_find_push<K>(entries: Seq<(K, int)>, x: (K, int), key: K)
    ensures
        assoc_find(entries.push(x), key) == (match assoc_find(entries, key) {
            Some(j) => Some(j),
            None => if x.0 == key {
                Some(entries.len() as int)
            } else {
                None::<int>
            },
        }),
    decreases entries.len(),
{
    if entries.len() == 0 {
        assert(entries.push(x)[0] == x);
        assert(entries.push(x).drop_first() =~= Seq::<(K, int)>::empty());
        assert(assoc_find(Seq::<(K, int)>::empty(), key) is None);
        assert(assoc_find(entries, key) is None);
        if x.0 == key {
            assert(assoc_find(entries.push(x), key) == Some(0int));
        } else {
            assert(assoc_find(entries.push(x), key) is None);
        }
    } else {
        assert(entries.push(x)[0] == entries[0]);
        assert(entries.push(x).drop_first() =~= entries.drop_first().push(x));
        lemma_assoc_find_push(entries.drop_first(), x, key);
        if entries[0].0 == key {
            assert(assoc_find(entries.push(x), key) == Some(0int));
        } else {
            match assoc_find(entries.drop_first(), key) {
                Some(j) => {
                    assert(assoc_find(entries.drop_first().push(x), key) == Some(j));
                    assert(assoc_find(entries, key) == Some(j + 1));
                    assert(assoc_find(entries.push(x), key) == Some(j + 1));
                },
                None => {
                    if x.0 == key {
                        assert(assoc_find(entries.drop_first().push(x), key) == Some(
                            entries.drop_first().len() as int,
                        ));
                        assert(assoc_find(entries.push(x), key) == Some(entries.len() as int));
                    } else {
                        assert(assoc_find(entries.push(x), key) is None);
                    }
                },
            }
        }
    }
}

/// After a bump, the bumped key reads its old value (zero when absent)
/// plus the delta.
pub proof fn lemma_assoc_bump_get_same<K>(entries: Seq<(K, int)>, key: K, delta: int)
    ensures
        assoc_get(assoc_bump(entries, key, delta), key) == Some(
            (match assoc_get(entries, key) {
                None => 0int,
                Some(v) => v,
            }) + delta,
        ),
{
    lemma_assoc_find_props(entries, key);
    match assoc_find(entries, key) {
        Some(j) => {
            let updated = entries.update(j, (key, entries[j].1 + delta));
            lemma_assoc_same_keys_find(entries, updated, key);
        },
        None => {
            lemma_assoc_find_push(entries, (key, delta), key);
            assert(entries.push((key, delta))[entries.len() as int] == (key, delta));
        },
    }
}

/// A bump leaves every other key's value unchanged.
pub proof fn lemma_assoc_bump_get_other<K>(entries: Seq<(K, int)>, key: K, delta: int, q: K)
    requires
        q != key,
    ensures
        assoc_get(assoc_bump(entries, key, delta), q) == assoc_get(entries, q),
{
    lemma_assoc_find_props(entries, key);
    lemma_assoc_find_props(entries, q);
    match assoc_find(entries, key) {
        Some(j) => {
            let updated = entries.update(j, (key, entries[j].1 + delta));
            lemma_assoc_same_keys_find(entries, updated, q);
            match assoc_find(entries, q) {
                Some(jq) => {
                    assert(entries[j].0 == key);
                    assert(entries[jq].0 == q);
                    assert(j != jq);
                    assert(updated[jq] == entries[jq]);
                },
                None => {},
            }
        },
        None => {
            lemma_assoc_find_push(entries, (key, delta), q);
            match assoc_find(entries, q) {
                Some(jq) => {
                    assert(entries.push((key, delta))[jq] == entries[jq]);
                },
                None => {},
            }
        },
    }
}

} // verus!
