//! Amounts added up by key.

use vstd::prelude::*;
use vstd::std_specs::cmp::PartialEqSpec;

verus! {

/// What the events add up to for `key`.
pub open spec fn tally_of<K>(events: Seq<(K, i128)>, key: K) -> int
    decreases events.len(),
{
    if events.len() == 0 {
        0
    } else {
        tally_of(events.drop_last(), key) + (if events.last().0 == key {
            events.last().1 as int
        } else {
            0
        })
    }
}

/// The keys of the events, each once, in the order in which they first occur.
pub open spec fn keys_of<K>(events: Seq<(K, i128)>) -> Seq<K>
    decreases events.len(),
{
    if events.len() == 0 {
        Seq::empty()
    } else {
        let earlier = keys_of(events.drop_last());
        if earlier.contains(events.last().0) {
            earlier
        } else {
            earlier.push(events.last().0)
        }
    }
}

/// The keys of a tally in their order.
pub open spec fn listed_keys<K>(entries: Seq<(K, i128)>) -> Seq<K> {
    Seq::new(entries.len(), |j: int| entries[j].0)
}

/// `entries` is the tally of `events`: one entry for each key, in the
/// order in which the keys first occur, with what the events add up to
/// for that key.
pub open spec fn is_tally<K>(events: Seq<(K, i128)>, entries: Seq<(K, i128)>) -> bool {
    &&& listed_keys(entries) == keys_of(events)
    &&& forall|j: int|
        0 <= j < entries.len() ==> (#[trigger] entries[j]).1 == tally_of(events, entries[j].0)
}

/// Adding the events up in their order leaves the range of 128 bits at
/// some point, for some key.
pub open spec fn tally_overflows<K>(events: Seq<(K, i128)>) -> bool {
    exists|n: int, key: K|
        0 <= n <= events.len() && !(i128::MIN <= #[trigger] tally_of(events.take(n), key) <= i128::MAX)
}

/// The keys compare in executable code as they do in specifications.
pub open spec fn plain_equality<K: PartialEq>() -> bool {
    &&& K::obeys_eq_spec()
    &&& forall|a: K, b: K| #[trigger] a.eq_spec(&b) <==> a == b
}

/// Adds the amounts of the events up by key. `None` where a sum leaves
/// the range of 128 bits on the way.
pub fn tally<K: PartialEq + Copy>(events: &Vec<(K, i128)>) -> (entries: Option<Vec<(K, i128)>>)
    requires
        plain_equality::<K>(),
    ensures
        match entries {
            Some(e) => is_tally(events@, e@) && !tally_overflows(events@),
            None => tally_overflows(events@),
        },
{
    let mut entries: Vec<(K, i128)> = Vec::new();
    let mut i: usize = 0;
    assert(events@.take(0) =~= Seq::<(K, i128)>::empty());
    assert(listed_keys(entries@) =~= keys_of(events@.take(0)));
    while i < events.len()
        invariant
            i <= events.len(),
            plain_equality::<K>(),
            is_tally(events@.take(i as int), entries@),
            forall|n: int, key: K|
                0 <= n <= i ==> i128::MIN <= #[trigger] tally_of(events@.take(n), key) <= i128::MAX,
        decreases events.len() - i,
    {
        let ghost seen = events@.take(i as int);
        let ghost next = events@.take(i + 1);
        let ghost before = entries@;
        let (key, amount) = events[i];
        proof {
            assert(next.drop_last() =~= seen);
            assert(next.last() == events@[i as int]);
        }
        let mut at: usize = 0;
        while at < entries.len() && !(entries[at].0 == key)
            invariant
                at <= entries@.len(),
                plain_equality::<K>(),
                forall|j: int| 0 <= j < at ==> (#[trigger] entries@[j]).0 != key,
            decreases entries@.len() - at,
        {
            at = at + 1;
        }
        if at < entries.len() {
            let sum = match entries[at].1.checked_add(amount) {
                None => {
                    proof {
                        assert(entries@[at as int].1 == tally_of(seen, key));
                        assert(!(i128::MIN <= tally_of(events@.take(i + 1), key) <= i128::MAX));
                    }
                    return None;
                },
                Some(sum) => sum,
            };
            entries.set(at, (key, sum));
            proof {
                assert(listed_keys(before)[at as int] == key);
                assert(keys_of(seen).contains(key));
                assert(listed_keys(entries@) =~= listed_keys(before));
                lemma_keys_once(seen);
                assert forall|j: int| 0 <= j < entries@.len() implies (#[trigger] entries@[j]).1
                    == tally_of(next, entries@[j].0) by {
                    if j != at {
                        assert(entries@[j] == before[j]);
                        assert(listed_keys(before)[j] == before[j].0);
                        assert(keys_of(seen)[j] != keys_of(seen)[at as int]);
                    }
                }
            }
        } else {
            entries.push((key, amount));
            proof {
                if keys_of(seen).contains(key) {
                    let j = choose|j: int| 0 <= j < keys_of(seen).len() && keys_of(seen)[j] == key;
                    assert(listed_keys(before)[j] == key);
                    assert(before[j].0 == key);
                }
                lemma_unseen_key(seen, key);
                assert(listed_keys(entries@) =~= listed_keys(before).push(key));
                assert forall|j: int| 0 <= j < entries@.len() implies (#[trigger] entries@[j]).1
                    == tally_of(next, entries@[j].0) by {
                    if j < before.len() {
                        assert(entries@[j] == before[j]);
                        assert(listed_keys(before)[j] == before[j].0);
                    }
                }
            }
        }
        proof {
            assert forall|n: int, other: K| 0 <= n <= i + 1 implies i128::MIN <= #[trigger] tally_of(
                events@.take(n),
                other,
            ) <= i128::MAX by {
                if n == i + 1 {
                    if other == key {
                    } else {
                        assert(tally_of(next, other) == tally_of(seen, other));
                    }
                }
            }
        }
        i = i + 1;
    }
    assert(events@.take(events@.len() as int) =~= events@);
    proof {
        if tally_overflows(events@) {
            let (n, key) = choose|n: int, key: K|
                0 <= n <= events@.len() && !(i128::MIN <= #[trigger] tally_of(events@.take(n), key)
                    <= i128::MAX);
            assert(i128::MIN <= tally_of(events@.take(n), key) <= i128::MAX);
        }
    }
    Some(entries)
}

/// No key is listed twice.
pub proof fn lemma_keys_once<K>(events: Seq<(K, i128)>)
    ensures
        forall|j1: int, j2: int|
            0 <= j1 < j2 < keys_of(events).len() ==> keys_of(events)[j1] != keys_of(events)[j2],
    decreases events.len(),
{
    if events.len() > 0 {
        lemma_keys_once(events.drop_last());
        let earlier = keys_of(events.drop_last());
        if !earlier.contains(events.last().0) {
            assert forall|j1: int, j2: int| 0 <= j1 < j2 < keys_of(events).len() implies keys_of(
                events,
            )[j1] != keys_of(events)[j2] by {
                if j2 == earlier.len() {
                    assert(earlier[j1] != events.last().0);
                }
            }
        }
    }
}

/// A key that no event has adds up to nothing.
pub proof fn lemma_unseen_key<K>(events: Seq<(K, i128)>, key: K)
    requires
        !keys_of(events).contains(key),
    ensures
        tally_of(events, key) == 0,
    decreases events.len(),
{
    if events.len() > 0 {
        let earlier = keys_of(events.drop_last());
        if earlier.contains(events.last().0) {
        } else {
            assert(keys_of(events) == earlier.push(events.last().0));
            assert(keys_of(events)[earlier.len() as int] == events.last().0);
            if earlier.contains(key) {
                let j = choose|j: int| 0 <= j < earlier.len() && earlier[j] == key;
                assert(keys_of(events)[j] == key);
            }
        }
        lemma_unseen_key(events.drop_last(), key);
    }
}

} // verus!
