use vstd::prelude::*;
use crate::storage::{models, EntryModel, StoredEntry};

verus! {

/// A candidate reported by the graph index: a slot and its distance unit.
#[derive(Clone, Copy, Debug, PartialEq, Eq, Structural)]
pub struct Neighbor {
    pub index: usize,
    pub distance: u32,
}

/// A ranking key: distance unit first, slot second.
pub type Key = (u32, usize);

/// The order of ranking: by distance, ties by slot ascending.
pub open spec fn key_lt(a: Key, b: Key) -> bool {
    a.0 < b.0 || (a.0 == b.0 && a.1 < b.1)
}

/// Which slots hold entries that are not tombstoned.
pub open spec fn live_mask(es: Seq<EntryModel>) -> Seq<bool> {
    es.map_values(|e: EntryModel| !e.deleted)
}

/// `key` is reported by the index for a slot that is live.
pub open spec fn is_candidate(live: Seq<bool>, found: Seq<Neighbor>, key: Key) -> bool {
    &&& key.1 < live.len()
    &&& live[key.1 as int]
    &&& exists|j: int|
        0 <= j < found.len() && #[trigger] found[j] == Neighbor { index: key.1, distance: key.0 }
}

/// `keys` are the first `n` candidates in ranking order, or all of them
/// where there are fewer.
pub open spec fn is_top(live: Seq<bool>, found: Seq<Neighbor>, n: int, keys: Seq<Key>) -> bool {
    &&& keys.len() <= n
    &&& forall|i: int, j: int| 0 <= i < j < keys.len() ==> key_lt(keys[i], keys[j])
    &&& forall|i: int| 0 <= i < keys.len() ==> is_candidate(live, found, #[trigger] keys[i])
    &&& forall|key: Key|
        is_candidate(live, found, key) && !keys.contains(key) ==> keys.len() == n && (n == 0
            || key_lt(keys.last(), key))
}

fn less(a: Key, b: Key) -> (r: bool)
    ensures
        r == key_lt(a, b),
{
    a.0 < b.0 || (a.0 == b.0 && a.1 < b.1)
}

/// The first `n` live candidates of `found` in ranking order; a candidate
/// reported twice counts once.
pub fn top_keys(entries: &Vec<StoredEntry>, found: &[Neighbor], n: usize) -> (r: Vec<Key>)
    ensures
        is_top(live_mask(models(entries@)), found@, n as int, r@),
{
    let ghost live = live_mask(models(entries@));
    let mut keys: Vec<Key> = Vec::new();
    loop
        invariant
            live == live_mask(models(entries@)),
            live.len() == entries@.len(),
            keys@.len() <= n,
            forall|i: int, j: int| 0 <= i < j < keys@.len() ==> key_lt(keys@[i], keys@[j]),
            forall|i: int| 0 <= i < keys@.len() ==> is_candidate(live, found@, #[trigger] keys@[i]),
            forall|key: Key|
                is_candidate(live, found@, key) && !keys@.contains(key) ==> keys@.len() == 0
                    || key_lt(keys@.last(), key),
        decreases n - keys@.len(),
    {
        if keys.len() >= n {
            return keys;
        }
        let mut best: Option<Key> = None;
        let mut j: usize = 0;
        while j < found.len()
            invariant
                live == live_mask(models(entries@)),
                live.len() == entries@.len(),
                j <= found@.len(),
                match best {
                    Some(b) => {
                        &&& is_candidate(live, found@, b)
                        &&& (keys@.len() == 0 || key_lt(keys@.last(), b))
                        &&& forall|i: int|
                            0 <= i < j && #[trigger] found@[i].index < live.len()
                                && live[found@[i].index as int] && (keys@.len() == 0 || key_lt(
                                keys@.last(),
                                (found@[i].distance, found@[i].index),
                            )) ==> !key_lt((found@[i].distance, found@[i].index), b)
                    },
                    None => forall|i: int|
                        0 <= i < j && #[trigger] found@[i].index < live.len()
                            && live[found@[i].index as int] ==> !(keys@.len() == 0 || key_lt(
                            keys@.last(),
                            (found@[i].distance, found@[i].index),
                        )),
                },
            decreases found@.len() - j,
        {
            let c = found[j];
            let key: Key = (c.distance, c.index);
            if c.index < entries.len() && !entries[c.index].deleted && (keys.len() == 0 || less(
                keys[keys.len() - 1],
                key,
            )) {
                proof {
                    assert(found@[j as int] == Neighbor { index: key.1, distance: key.0 });
                    assert(live[c.index as int] == !entries@[c.index as int]@.deleted);
                }
                match best {
                    None => {
                        best = Some(key);
                    },
                    Some(b) => {
                        if less(key, b) {
                            best = Some(key);
                        }
                    },
                }
            } else {
                proof {
                    if c.index < entries.len() {
                        assert(live[c.index as int] == !entries@[c.index as int]@.deleted);
                    }
                }
            }
            j = j + 1;
        }
        match best {
            None => {
                proof {
                    assert forall|key: Key|
                        is_candidate(live, found@, key) && !keys@.contains(key) implies keys@.len()
                        == n && (n == 0 || key_lt(keys@.last(), key)) by {
                        let i = choose|i: int|
                            0 <= i < found@.len() && #[trigger] found@[i] == Neighbor {
                                index: key.1,
                                distance: key.0,
                            };
                        assert(found@[i].index < live.len());
                    }
                }
                return keys;
            },
            Some(b) => {
                let ghost old_keys = keys@;
                keys.push(b);
                proof {
                    assert(keys@.last() == b);
                    assert forall|i: int, j: int| 0 <= i < j < keys@.len() implies key_lt(
                        keys@[i],
                        keys@[j],
                    ) by {
                        if j == old_keys.len() {
                            if i < old_keys.len() - 1 {
                                assert(key_lt(old_keys[i], old_keys.last()));
                            }
                        } else {
                            assert(keys@[i] == old_keys[i] && keys@[j] == old_keys[j]);
                        }
                    }
                    assert forall|key: Key|
                        is_candidate(live, found@, key) && !keys@.contains(key) implies keys@.len()
                        == 0 || key_lt(keys@.last(), key) by {
                        assert(!old_keys.contains(key)) by {
                            if old_keys.contains(key) {
                                let i = choose|i: int| 0 <= i < old_keys.len() && old_keys[i] == key;
                                assert(keys@[i] == key);
                            }
                        }
                        assert(key != b) by {
                            assert(keys@[old_keys.len() as int] == b);
                        }
                        let i = choose|i: int|
                            0 <= i < found@.len() && #[trigger] found@[i] == Neighbor {
                                index: key.1,
                                distance: key.0,
                            };
                        assert(found@[i].index < live.len());
                    }
                    assert forall|i: int| 0 <= i < keys@.len() implies is_candidate(
                        live,
                        found@,
                        #[trigger] keys@[i],
                    ) by {
                        if i < old_keys.len() {
                            assert(keys@[i] == old_keys[i]);
                        }
                    }
                }
            },
        }
    }
}

/// Two lists that both rank the same candidates are the same list.
pub proof fn lemma_top_unique(
    live: Seq<bool>,
    found: Seq<Neighbor>,
    n: int,
    a: Seq<Key>,
    b: Seq<Key>,
)
    requires
        is_top(live, found, n, a),
        is_top(live, found, n, b),
    ensures
        a == b,
    decreases a.len() + b.len(),
{
    lemma_top_prefix(live, found, n, a, b, 0);
}

proof fn lemma_top_prefix(
    live: Seq<bool>,
    found: Seq<Neighbor>,
    n: int,
    a: Seq<Key>,
    b: Seq<Key>,
    k: int,
)
    requires
        is_top(live, found, n, a),
        is_top(live, found, n, b),
        0 <= k,
        k <= a.len(),
        k <= b.len(),
        forall|i: int| 0 <= i < k ==> a[i] == b[i],
    ensures
        a == b,
    decreases n - k,
{
    if k == a.len() && k == b.len() {
        assert(a =~= b);
    } else if k < a.len() && k < b.len() && a[k] == b[k] {
        lemma_top_prefix(live, found, n, a, b, k + 1);
    } else {
        lemma_top_step(live, found, n, a, b, k);
        lemma_top_step(live, found, n, b, a, k);
    }
}

/// Where `a` and `b` agree before `k`, `a` has no element at `k` smaller
/// than `b`'s or missing from `b`.
proof fn lemma_top_step(
    live: Seq<bool>,
    found: Seq<Neighbor>,
    n: int,
    a: Seq<Key>,
    b: Seq<Key>,
    k: int,
)
    requires
        is_top(live, found, n, a),
        is_top(live, found, n, b),
        0 <= k,
        k <= a.len(),
        k <= b.len(),
        forall|i: int| 0 <= i < k ==> a[i] == b[i],
        !(k == a.len() && k == b.len()),
        !(k < a.len() && k < b.len() && a[k] == b[k]),
    ensures
        k < a.len() ==> k < b.len() && !key_lt(a[k], b[k]),
{
    if k < a.len() {
        let x = a[k];
        assert(is_candidate(live, found, x));
        if b.contains(x) {
            let j = choose|j: int| 0 <= j < b.len() && b[j] == x;
            if j < k {
                assert(a[j] == x);
                assert(key_lt(a[j], a[k]));
            } else if j > k {
                assert(key_lt(b[k], b[j]));
                if k < b.len() && key_lt(x, b[k]) {
                    assert(key_lt(x, x));
                }
            }
        } else {
            assert(b.len() == n);
            assert(b.len() > 0);
            if k < b.len() {
                if key_lt(a[k], b[k]) {
                    if k < b.len() - 1 {
                        assert(key_lt(b[k], b[b.len() - 1]));
                    }
                    assert(key_lt(b.last(), x));
                }
            } else {
                assert(a.len() <= n);
            }
        }
    }
}

} // verus!
