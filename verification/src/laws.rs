//! What holds of every map, stated over the model of its table.
//!
//! The functions of the map say in their contracts what one call does to the
//! table. The laws here follow a table through more than one call: through a
//! growth, through a run of puts, through a put or a get that is repeated.

use crate::buckets::{
    buckets_wf, distinct_keys, get_buckets, lemma_flatten_distinct, lemma_flatten_empty,
    lemma_get_buckets, lemma_model_push, lemma_put_buckets, lemma_rehash, model, put_buckets,
    stored,
};
use crate::key::Key;
use crate::{due_for_growth, grown, grown_capacity, threshold_for};
use vstd::prelude::*;

verus! {

/// Growth keeps what a table holds: the grown table is well formed, stands
/// for the same map and has as many entries. It has more buckets exactly if
/// the table was due for growth, and then the grown capacity; it never has
/// fewer.
pub proof fn lemma_grown<K: Key, V>(buckets: Seq<Seq<(K, V)>>)
    requires
        buckets_wf(buckets),
    ensures
        buckets_wf(grown(buckets)),
        model(grown(buckets).flatten()) == model(buckets.flatten()),
        grown(buckets).flatten().len() == buckets.flatten().len(),
        grown(buckets).len() >= buckets.len(),
        grown(buckets).len() > 0,
        due_for_growth(buckets) ==> grown(buckets).len() == grown_capacity(buckets.len()),
        !due_for_growth(buckets) ==> grown(buckets) == buckets,
{
    if due_for_growth(buckets) {
        lemma_flatten_distinct(buckets);
        lemma_rehash(buckets.flatten(), grown_capacity(buckets.len()));
    }
}

/// The table after `entries` were put into `buckets` one after the other, the
/// table being grown before each put for which it is due.
pub open spec fn put_all<K: Key, V>(buckets: Seq<Seq<(K, V)>>, entries: Seq<(K, V)>) -> Seq<
    Seq<(K, V)>,
>
    decreases entries.len(),
{
    if entries.len() == 0 {
        buckets
    } else {
        put_buckets(
            grown(put_all(buckets, entries.drop_last())),
            entries.last().0,
            entries.last().1,
        )
    }
}

/// The number of buckets of a map that was new and then had `count` different
/// keys put into it.
pub open spec fn capacity_after(count: nat) -> nat
    decreases count,
{
    if count == 0 {
        0
    } else {
        let prior = capacity_after((count - 1) as nat);
        if prior == 0 || (count - 1 >= threshold_for(prior as int) && 2 * prior <= usize::MAX) {
            grown_capacity(prior)
        } else {
            prior
        }
    }
}

/// Putting entries with different keys into a new map gives a well-formed
/// table that holds exactly these entries. Its number of buckets depends on
/// nothing but the number of entries.
pub proof fn lemma_put_all<K: Key, V>(entries: Seq<(K, V)>)
    requires
        distinct_keys(entries),
    ensures
        ({
            let table = put_all(Seq::<Seq<(K, V)>>::empty(), entries);
            &&& buckets_wf(table)
            &&& table.flatten().len() == entries.len()
            &&& model(table.flatten()) == model(entries)
            &&& table.len() == capacity_after(entries.len())
        }),
    decreases entries.len(),
{
    let new = Seq::<Seq<(K, V)>>::empty();
    if entries.len() == 0 {
        lemma_flatten_empty(new);
        assert(new.flatten() =~= entries);
        assert(forall|i: int, j: int| !stored(new, i, j));
    } else {
        let shorter = entries.drop_last();
        let entry = entries.last();
        let prior = put_all(new, shorter);
        assert(shorter.push(entry) =~= entries);
        lemma_model_push(shorter, entry);
        lemma_put_all(shorter);
        lemma_grown(prior);
        lemma_put_buckets(grown(prior), entry.0, entry.1);
    }
}

/// The growth of a new map with the default capacity of 8 and the load factor
/// of three quarters: the first six keys find 8 buckets, the seventh makes
/// them 16, the thirteenth 32.
pub proof fn lemma_capacity_after(count: nat)
    ensures
        count == 0 ==> capacity_after(count) == 0,
        1 <= count <= 6 ==> capacity_after(count) == 8,
        7 <= count <= 12 ==> capacity_after(count) == 16,
        13 <= count <= 24 ==> capacity_after(count) == 32,
    decreases count,
{
    if count > 0 {
        lemma_capacity_after((count - 1) as nat);
    }
}

/// Keys stay unique: putting a key that the map already has finds the value
/// that was put before and leaves the number of entries as it is, and only
/// the value that was put last stays.
pub proof fn lemma_put_again<K: Key, V>(
    buckets: Seq<Seq<(K, V)>>,
    key: K,
    first: V,
    again: K,
    second: V,
)
    requires
        buckets_wf(buckets),
        again@ == key@,
    ensures
        ({
            let once = put_buckets(grown(buckets), key, first);
            let twice = put_buckets(grown(once), again, second);
            &&& model(once.flatten()).get(again@) == Some(first)
            &&& twice.flatten().len() == once.flatten().len()
            &&& model(twice.flatten()) == model(buckets.flatten()).insert(key@, second)
            &&& distinct_keys(twice.flatten())
        }),
{
    let once = put_buckets(grown(buckets), key, first);
    let twice = put_buckets(grown(once), again, second);
    lemma_grown(buckets);
    lemma_put_buckets(grown(buckets), key, first);
    lemma_grown(once);
    lemma_put_buckets(grown(once), again, second);
    lemma_flatten_distinct(twice);
    assert(model(buckets.flatten()).insert(key@, first).insert(key@, second) =~= model(
        buckets.flatten(),
    ).insert(key@, second));
}

/// A get takes the key out: a second get right after finds nothing and
/// leaves the number of entries as it is. A get that finds the key leaves
/// one entry less, a get that does not leaves as many; the number of buckets
/// stays either way.
pub proof fn lemma_get_again<K: Key, V>(buckets: Seq<Seq<(K, V)>>, key: K::V)
    requires
        buckets_wf(buckets),
    ensures
        ({
            let once = get_buckets(buckets, key);
            let twice = get_buckets(once, key);
            &&& model(once.flatten()).get(key) is None
            &&& twice.flatten().len() == once.flatten().len()
            &&& model(twice.flatten()) == model(once.flatten())
            &&& once.flatten().len() == buckets.flatten().len() - (if model(
                buckets.flatten(),
            ).contains_key(key) {
                1int
            } else {
                0int
            })
            &&& once.len() == buckets.len()
            &&& twice.len() == buckets.len()
        }),
{
    let once = get_buckets(buckets, key);
    lemma_get_buckets(buckets, key);
    lemma_get_buckets(once, key);
    assert(model(once.flatten()).remove(key) =~= model(once.flatten()));
}

} // verus!
