//! The mathematical model of a table of chains.
//!
//! A table is a sequence of buckets, a bucket a sequence of entries (its chain,
//! front first). The entries of a table are its buckets laid end to end, and
//! the map that a table stands for takes each key among them to its value.

use crate::key::Key;
use vstd::prelude::*;
use vstd::seq_lib::lemma_flatten_concat;

verus! {

/// The bucket that a key belongs to in a table of `capacity` buckets.
pub open spec fn bucket_index<K: Key>(key: K::V, capacity: int) -> int {
    (K::hash_spec(key) as usize) as int % capacity
}

/// `entries[i]` exists and has the key `key`.
pub open spec fn keyed<K: Key, V>(entries: Seq<(K, V)>, key: K::V, i: int) -> bool {
    0 <= i < entries.len() && entries[i].0@ == key
}

/// Some entry has the key `key`.
pub open spec fn has_key<K: Key, V>(entries: Seq<(K, V)>, key: K::V) -> bool {
    exists|i: int| keyed(entries, key, i)
}

/// The place of an entry with the key `key`, where there is one.
pub open spec fn position<K: Key, V>(entries: Seq<(K, V)>, key: K::V) -> int {
    choose|i: int| keyed(entries, key, i)
}

/// No two entries have the same key.
pub open spec fn distinct_keys<K: Key, V>(entries: Seq<(K, V)>) -> bool {
    forall|i: int, j: int|
        0 <= i < j < entries.len() ==> (#[trigger] entries[i]).0@ != (#[trigger] entries[j]).0@
}

/// The map that a sequence of entries stands for.
pub open spec fn model<K: Key, V>(entries: Seq<(K, V)>) -> Map<K::V, V> {
    Map::new(
        |key: K::V| has_key(entries, key),
        |key: K::V| entries[position(entries, key)].1,
    )
}

/// The number of entries in the buckets before bucket `i`.
pub open spec fn offset<A>(buckets: Seq<Seq<A>>, i: int) -> int {
    buckets.take(i).flatten().len() as int
}

/// Bucket `i` exists and has an entry at place `j`.
pub open spec fn stored<A>(buckets: Seq<Seq<A>>, i: int, j: int) -> bool {
    0 <= i < buckets.len() && 0 <= j < buckets[i].len()
}

/// The entries of a table are those before bucket `i`, those of bucket `i` and
/// those behind it.
pub(crate) proof fn lemma_flatten_split<A>(buckets: Seq<Seq<A>>, i: int)
    requires
        0 <= i < buckets.len(),
    ensures
        buckets.flatten() == buckets.take(i).flatten() + buckets[i] + buckets.skip(
            i + 1,
        ).flatten(),
{
    let before = buckets.take(i);
    let behind = buckets.skip(i + 1);
    assert(buckets =~= before + seq![buckets[i]] + behind);
    lemma_flatten_concat(before + seq![buckets[i]], behind);
    lemma_flatten_concat(before, seq![buckets[i]]);
    seq![buckets[i]].lemma_flatten_one_element();
}

/// Entry `j` of bucket `i` stands in the table's entries at `offset + j`.
pub(crate) proof fn lemma_flatten_stored<A>(buckets: Seq<Seq<A>>, i: int, j: int)
    requires
        stored(buckets, i, j),
    ensures
        0 <= offset(buckets, i) + j < buckets.flatten().len(),
        buckets.flatten()[offset(buckets, i) + j] == buckets[i][j],
{
    lemma_flatten_split(buckets, i);
}

/// Every entry of the table is an entry of one of its buckets.
pub(crate) proof fn lemma_flatten_origin<A>(buckets: Seq<Seq<A>>, p: int) -> (at: (int, int))
    requires
        0 <= p < buckets.flatten().len(),
    ensures
        stored(buckets, at.0, at.1),
        p == offset(buckets, at.0) + at.1,
        buckets.flatten()[p] == buckets[at.0][at.1],
    decreases buckets.len(),
{
    let last = buckets.len() - 1;
    lemma_flatten_split(buckets, last);
    assert(buckets.skip(last + 1) =~= Seq::<Seq<A>>::empty());
    if p >= offset(buckets, last) {
        (last, p - offset(buckets, last))
    } else {
        let front = buckets.take(last);
        let at = lemma_flatten_origin(front, p);
        assert(front.take(at.0) =~= buckets.take(at.0));
        lemma_flatten_stored(buckets, at.0, at.1);
        at
    }
}

/// Replacing one bucket changes the number of entries by the difference of
/// the two buckets' lengths, and leaves the entries before it in place.
pub(crate) proof fn lemma_flatten_update<A>(buckets: Seq<Seq<A>>, i: int, bucket: Seq<A>)
    requires
        0 <= i < buckets.len(),
    ensures
        buckets.update(i, bucket).flatten() == buckets.take(i).flatten() + bucket + buckets.skip(
            i + 1,
        ).flatten(),
        buckets.update(i, bucket).flatten().len() == buckets.flatten().len() - buckets[i].len()
            + bucket.len(),
{
    let updated = buckets.update(i, bucket);
    lemma_flatten_split(buckets, i);
    lemma_flatten_split(updated, i);
    assert(updated.take(i) =~= buckets.take(i));
    assert(updated.skip(i + 1) =~= buckets.skip(i + 1));
}

/// Every entry stands in the bucket that its key belongs to, and no bucket
/// holds a key twice.
pub open spec fn buckets_wf<K: Key, V>(buckets: Seq<Seq<(K, V)>>) -> bool {
    &&& forall|i: int, j: int| #[trigger]
        stored(buckets, i, j) ==> bucket_index::<K>(buckets[i][j].0@, buckets.len() as int) == i
    &&& forall|i: int| 0 <= i < buckets.len() ==> distinct_keys(#[trigger] buckets[i])
}

/// In a sequence without repeated keys, an entry with a given key is the one
/// that `position` finds.
pub(crate) proof fn lemma_position<K: Key, V>(entries: Seq<(K, V)>, key: K::V, i: int)
    requires
        distinct_keys(entries),
        keyed(entries, key, i),
    ensures
        has_key(entries, key),
        position(entries, key) == i,
{
    let p = position(entries, key);
    assert(keyed(entries, key, p));
    if p < i {
        assert(entries[p].0@ != entries[i].0@);
    } else if i < p {
        assert(entries[i].0@ != entries[p].0@);
    }
}

/// The entries of a well-formed table hold no key twice.
pub proof fn lemma_flatten_distinct<K: Key, V>(buckets: Seq<Seq<(K, V)>>)
    requires
        buckets_wf(buckets),
    ensures
        distinct_keys(buckets.flatten()),
{
    let entries = buckets.flatten();
    assert forall|p: int, q: int| 0 <= p < q < entries.len() implies (#[trigger] entries[p]).0@
        != (#[trigger] entries[q]).0@ by {
        let a = lemma_flatten_origin(buckets, p);
        let b = lemma_flatten_origin(buckets, q);
        if entries[p].0@ == entries[q].0@ {
            assert(stored(buckets, a.0, a.1));
            assert(stored(buckets, b.0, b.1));
            assert(a.0 == b.0);
            let bucket = buckets[a.0];
            assert(distinct_keys(bucket));
            if a.1 < b.1 {
                assert(bucket[a.1].0@ != bucket[b.1].0@);
            } else if b.1 < a.1 {
                assert(bucket[b.1].0@ != bucket[a.1].0@);
            }
            assert(false);
        }
    }
}

/// In a well-formed table a key is looked up in the one bucket that it
/// belongs to: the table has the key exactly if that bucket has it, and with
/// the same value.
pub proof fn lemma_model_by_bucket<K: Key, V>(buckets: Seq<Seq<(K, V)>>, key: K::V)
    requires
        buckets_wf(buckets),
        buckets.len() > 0,
    ensures
        0 <= bucket_index::<K>(key, buckets.len() as int) < buckets.len(),
        ({
            let bucket = buckets[bucket_index::<K>(key, buckets.len() as int)];
            &&& model(buckets.flatten()).contains_key(key) == has_key(bucket, key)
            &&& has_key(bucket, key) ==> model(buckets.flatten())[key] == bucket[position(
                bucket,
                key,
            )].1
        }),
{
    let entries = buckets.flatten();
    let home = bucket_index::<K>(key, buckets.len() as int);
    let bucket = buckets[home];
    lemma_flatten_distinct(buckets);
    if has_key(bucket, key) {
        let j = position(bucket, key);
        assert(keyed(bucket, key, j));
        lemma_flatten_stored(buckets, home, j);
        let p = offset(buckets, home) + j;
        assert(keyed(entries, key, p));
        lemma_position(entries, key, p);
    }
    if has_key(entries, key) {
        let p = position(entries, key);
        assert(keyed(entries, key, p));
        let at = lemma_flatten_origin(buckets, p);
        assert(stored(buckets, at.0, at.1));
        assert(at.0 == home);
        assert(keyed(bucket, key, at.1));
    }
}

/// A bucket after `key` was put with `value`: where the bucket has the key,
/// that entry keeps its place and its key and takes the new value; where it
/// has not, the new entry stands in front of the others.
pub open spec fn put_chain<K: Key, V>(chain: Seq<(K, V)>, key: K, value: V) -> Seq<(K, V)> {
    if has_key(chain, key@) {
        let at = position(chain, key@);
        chain.update(at, (chain[at].0, value))
    } else {
        seq![(key, value)] + chain
    }
}

/// A table after `key` was put with `value`: the bucket that the key belongs
/// to is changed as `put_chain` says, the others stay.
pub open spec fn put_buckets<K: Key, V>(buckets: Seq<Seq<(K, V)>>, key: K, value: V) -> Seq<
    Seq<(K, V)>,
> {
    let home = bucket_index::<K>(key@, buckets.len() as int);
    buckets.update(home, put_chain(buckets[home], key, value))
}

/// What a put does to one bucket, key by key.
pub(crate) proof fn lemma_put_chain<K: Key, V>(chain: Seq<(K, V)>, key: K, value: V, other: K::V)
    requires
        distinct_keys(chain),
    ensures
        distinct_keys(put_chain(chain, key, value)),
        put_chain(chain, key, value).len() == chain.len() + (if has_key(chain, key@) {
            0int
        } else {
            1int
        }),
        has_key(put_chain(chain, key, value), other) == (other == key@ || has_key(chain, other)),
        has_key(put_chain(chain, key, value), key@),
        put_chain(chain, key, value)[position(put_chain(chain, key, value), key@)].1 == value,
        other != key@ && has_key(chain, other) ==> put_chain(chain, key, value)[position(
            put_chain(chain, key, value),
            other,
        )].1 == chain[position(chain, other)].1,
        forall|j: int|
            0 <= j < put_chain(chain, key, value).len() ==> (#[trigger] put_chain(
                chain,
                key,
                value,
            )[j]).0@ == key@ || has_key(chain, put_chain(chain, key, value)[j].0@),
{
    let after = put_chain(chain, key, value);
    if has_key(chain, key@) {
        let at = position(chain, key@);
        assert(keyed(chain, key@, at));
        assert forall|i: int, j: int| 0 <= i < j < after.len() implies (#[trigger] after[i]).0@ != (
        #[trigger] after[j]).0@ by {
            assert(chain[i].0@ != chain[j].0@);
        }
        assert(keyed(after, key@, at));
        lemma_position(after, key@, at);
        assert forall|j: int| 0 <= j < after.len() implies (#[trigger] after[j]).0@ == key@
            || has_key(chain, after[j].0@) by {
            assert(keyed(chain, after[j].0@, j));
        }
        if has_key(chain, other) {
            let q = position(chain, other);
            assert(keyed(chain, other, q));
            assert(keyed(after, other, q));
            lemma_position(after, other, q);
        }
        if has_key(after, other) {
            let q = position(after, other);
            assert(keyed(after, other, q));
            assert(keyed(chain, other, q));
        }
    } else {
        assert forall|i: int, j: int| 0 <= i < j < after.len() implies (#[trigger] after[i]).0@ != (
        #[trigger] after[j]).0@ by {
            if i == 0 {
                assert(!keyed(chain, key@, j - 1));
            } else {
                assert(chain[i - 1].0@ != chain[j - 1].0@);
            }
        }
        assert(keyed(after, key@, 0));
        lemma_position(after, key@, 0);
        assert forall|j: int| 0 <= j < after.len() implies (#[trigger] after[j]).0@ == key@
            || has_key(chain, after[j].0@) by {
            if j > 0 {
                assert(keyed(chain, after[j].0@, j - 1));
            }
        }
        if has_key(chain, other) {
            let q = position(chain, other);
            assert(keyed(chain, other, q));
            assert(keyed(after, other, q + 1));
            lemma_position(after, other, q + 1);
        }
        if has_key(after, other) && other != key@ {
            let q = position(after, other);
            assert(keyed(after, other, q));
            assert(keyed(chain, other, q - 1));
        }
    }
}

/// What a put does to a well-formed table: the table stays well formed, the
/// map that it stands for gets the key with the new value, and the number of
/// entries grows by one exactly if the key is new.
pub proof fn lemma_put_buckets<K: Key, V>(buckets: Seq<Seq<(K, V)>>, key: K, value: V)
    requires
        buckets_wf(buckets),
        buckets.len() > 0,
    ensures
        buckets_wf(put_buckets(buckets, key, value)),
        put_buckets(buckets, key, value).len() == buckets.len(),
        model(put_buckets(buckets, key, value).flatten()) == model(buckets.flatten()).insert(
            key@,
            value,
        ),
        put_buckets(buckets, key, value).flatten().len() == buckets.flatten().len() + (if model(
            buckets.flatten(),
        ).contains_key(key@) {
            0int
        } else {
            1int
        }),
{
    let capacity = buckets.len() as int;
    let home = bucket_index::<K>(key@, capacity);
    let chain = buckets[home];
    let after = put_buckets(buckets, key, value);
    lemma_model_by_bucket(buckets, key@);
    lemma_put_chain(chain, key, value, key@);
    lemma_flatten_update(buckets, home, put_chain(chain, key, value));
    assert forall|i: int, j: int| #[trigger] stored(after, i, j) implies bucket_index::<K>(
        after[i][j].0@,
        capacity,
    ) == i by {
        if i == home {
            let found = after[i][j].0@;
            if found != key@ {
                assert(has_key(chain, found));
                let q = position(chain, found);
                assert(keyed(chain, found, q));
                assert(stored(buckets, home, q));
            }
        } else {
            assert(stored(buckets, i, j));
        }
    }
    assert forall|i: int| 0 <= i < after.len() implies distinct_keys(#[trigger] after[i]) by {
        if i != home {
            assert(distinct_keys(buckets[i]));
        }
    }
    let before_map = model(buckets.flatten());
    let after_map = model(after.flatten());
    let expected = before_map.insert(key@, value);
    assert forall|other: K::V|
        (#[trigger] after_map.dom().contains(other)) == expected.dom().contains(other) && (
        after_map.dom().contains(other) ==> after_map[other] == expected[other]) by {
        lemma_model_by_bucket(buckets, other);
        lemma_model_by_bucket(after, other);
        if bucket_index::<K>(other, capacity) == home {
            lemma_put_chain(chain, key, value, other);
        }
    }
    assert(after_map =~= expected);
}

/// The test that an entry has another key than `key`.
pub open spec fn other_key<K: Key, V>(key: K::V) -> spec_fn((K, V)) -> bool {
    |entry: (K, V)| entry.0@ != key
}

/// A bucket after `key` was taken out of it: the entries with other keys, in
/// reverse order.
pub open spec fn get_chain<K: Key, V>(chain: Seq<(K, V)>, key: K::V) -> Seq<(K, V)> {
    chain.filter(other_key(key)).reverse()
}

/// A table after `key` was taken out of it: the bucket that the key belongs
/// to is changed as `get_chain` says, the others stay. A table without buckets
/// stays as it is.
pub open spec fn get_buckets<K: Key, V>(buckets: Seq<Seq<(K, V)>>, key: K::V) -> Seq<
    Seq<(K, V)>,
> {
    if buckets.len() == 0 {
        buckets
    } else {
        let home = bucket_index::<K>(key, buckets.len() as int);
        buckets.update(home, get_chain(buckets[home], key))
    }
}

/// A filter that every element passes keeps the sequence as it is.
pub(crate) proof fn lemma_filter_keeps_all<A>(s: Seq<A>, pred: spec_fn(A) -> bool)
    requires
        forall|i: int| 0 <= i < s.len() ==> pred(#[trigger] s[i]),
    ensures
        s.filter(pred) == s,
    decreases s.len(),
{
    reveal(Seq::filter);
    if s.len() > 0 {
        lemma_filter_keeps_all(s.drop_last(), pred);
        assert(s.drop_last().push(s.last()) =~= s);
    }
}

/// Without repeated keys, filtering a key out removes the one entry that has
/// it, if there is one.
pub(crate) proof fn lemma_filter_other_key<K: Key, V>(chain: Seq<(K, V)>, key: K::V)
    requires
        distinct_keys(chain),
    ensures
        chain.filter(other_key(key)) == (if has_key(chain, key) {
            chain.remove(position(chain, key))
        } else {
            chain
        }),
{
    let pred = other_key::<K, V>(key);
    if has_key(chain, key) {
        let at = position(chain, key);
        assert(keyed(chain, key, at));
        let before = chain.take(at);
        let behind = chain.skip(at + 1);
        assert(chain =~= before + seq![chain[at]] + behind);
        assert forall|i: int| 0 <= i < before.len() implies pred(#[trigger] before[i]) by {
            assert(chain[i].0@ != chain[at].0@);
        }
        assert forall|i: int| 0 <= i < behind.len() implies pred(#[trigger] behind[i]) by {
            assert(chain[at].0@ != chain[at + 1 + i].0@);
        }
        lemma_filter_keeps_all(before, pred);
        lemma_filter_keeps_all(behind, pred);
        Seq::filter_distributes_over_add(before + seq![chain[at]], behind, pred);
        Seq::filter_distributes_over_add(before, seq![chain[at]], pred);
        assert(seq![chain[at]].filter(pred) =~= Seq::<(K, V)>::empty()) by {
            Seq::<(K, V)>::empty().lemma_filter_push(chain[at], pred);
            assert(Seq::<(K, V)>::empty().push(chain[at]) =~= seq![chain[at]]);
            reveal(Seq::filter);
        }
        assert(chain.remove(at) =~= before + behind);
    } else {
        assert forall|i: int| 0 <= i < chain.len() implies pred(#[trigger] chain[i]) by {
            assert(!keyed(chain, key, i));
        }
        lemma_filter_keeps_all(chain, pred);
    }
}

/// What taking a key out does to one bucket, key by key.
pub(crate) proof fn lemma_get_chain<K: Key, V>(chain: Seq<(K, V)>, key: K::V, other: K::V)
    requires
        distinct_keys(chain),
    ensures
        distinct_keys(get_chain(chain, key)),
        get_chain(chain, key).len() == chain.len() - (if has_key(chain, key) {
            1int
        } else {
            0int
        }),
        has_key(get_chain(chain, key), other) == (other != key && has_key(chain, other)),
        other != key && has_key(chain, other) ==> get_chain(chain, key)[position(
            get_chain(chain, key),
            other,
        )].1 == chain[position(chain, other)].1,
        forall|j: int|
            0 <= j < get_chain(chain, key).len() ==> has_key(
                chain,
                (#[trigger] get_chain(chain, key)[j]).0@,
            ),
{
    lemma_filter_other_key(chain, key);
    let kept = chain.filter(other_key(key));
    let after = get_chain(chain, key);
    let n = kept.len() as int;
    // where an entry of the bucket stands among those that are kept
    let removed = if has_key(chain, key) {
        position(chain, key)
    } else {
        chain.len() as int
    };
    if has_key(chain, key) {
        assert(keyed(chain, key, removed));
    }
    assert forall|i: int| 0 <= i < n implies #[trigger] kept[i] == chain[if i < removed {
        i
    } else {
        i + 1
    }] by {}
    assert forall|i: int, j: int| 0 <= i < j < after.len() implies (#[trigger] after[i]).0@ != (
    #[trigger] after[j]).0@ by {
        let a = n - 1 - j;
        let b = n - 1 - i;
        assert(after[j] == kept[a]);
        assert(after[i] == kept[b]);
        let ca = if a < removed { a } else { a + 1 };
        let cb = if b < removed { b } else { b + 1 };
        assert(chain[ca].0@ != chain[cb].0@);
    }
    assert forall|j: int| 0 <= j < after.len() implies has_key(chain, (#[trigger] after[j]).0@) by {
        let a = n - 1 - j;
        assert(after[j] == kept[a]);
        let ca = if a < removed { a } else { a + 1 };
        assert(keyed(chain, after[j].0@, ca));
    }
    if other != key && has_key(chain, other) {
        let q = position(chain, other);
        assert(keyed(chain, other, q));
        let a = if q < removed { q } else { q - 1 };
        assert(kept[a] == chain[q]);
        assert(after[n - 1 - a] == kept[a]);
        assert(keyed(after, other, n - 1 - a));
        lemma_position(after, other, n - 1 - a);
    }
    if has_key(after, other) {
        let j = position(after, other);
        assert(keyed(after, other, j));
        let a = n - 1 - j;
        assert(after[j] == kept[a]);
        let ca = if a < removed { a } else { a + 1 };
        assert(keyed(chain, other, ca));
        if other == key {
            lemma_position(chain, key, ca);
        }
    }
}

/// What taking a key out does to a well-formed table: the table stays well
/// formed, the map that it stands for loses the key, and the number of
/// entries falls by one exactly if the key was there.
pub proof fn lemma_get_buckets<K: Key, V>(buckets: Seq<Seq<(K, V)>>, key: K::V)
    requires
        buckets_wf(buckets),
    ensures
        buckets_wf(get_buckets(buckets, key)),
        get_buckets(buckets, key).len() == buckets.len(),
        model(get_buckets(buckets, key).flatten()) == model(buckets.flatten()).remove(key),
        get_buckets(buckets, key).flatten().len() == buckets.flatten().len() - (if model(
            buckets.flatten(),
        ).contains_key(key) {
            1int
        } else {
            0int
        }),
{
    let before_map = model(buckets.flatten());
    let expected = before_map.remove(key);
    if buckets.len() == 0 {
        assert(buckets.flatten() =~= Seq::<(K, V)>::empty());
        assert(!before_map.contains_key(key)) by {
            if has_key(buckets.flatten(), key) {
                assert(keyed(buckets.flatten(), key, position(buckets.flatten(), key)));
            }
        }
        assert(before_map =~= expected);
    } else {
        let capacity = buckets.len() as int;
        let home = bucket_index::<K>(key, capacity);
        let chain = buckets[home];
        let after = get_buckets(buckets, key);
        lemma_model_by_bucket(buckets, key);
        lemma_get_chain(chain, key, key);
        lemma_flatten_update(buckets, home, get_chain(chain, key));
        assert forall|i: int, j: int| #[trigger] stored(after, i, j) implies bucket_index::<K>(
            after[i][j].0@,
            capacity,
        ) == i by {
            if i == home {
                let found = after[i][j].0@;
                assert(has_key(chain, found));
                let q = position(chain, found);
                assert(keyed(chain, found, q));
                assert(stored(buckets, home, q));
            } else {
                assert(stored(buckets, i, j));
            }
        }
        assert forall|i: int| 0 <= i < after.len() implies distinct_keys(#[trigger] after[i]) by {
            if i != home {
                assert(distinct_keys(buckets[i]));
            }
        }
        let after_map = model(after.flatten());
        assert forall|other: K::V|
            (#[trigger] after_map.dom().contains(other)) == expected.dom().contains(other) && (
            after_map.dom().contains(other) ==> after_map[other] == expected[other]) by {
            lemma_model_by_bucket(buckets, other);
            lemma_model_by_bucket(after, other);
            if bucket_index::<K>(other, capacity) == home {
                lemma_get_chain(chain, key, other);
            }
        }
        assert(after_map =~= expected);
    }
}

/// Adding an entry with a new key at the end adds the key, with its value, to
/// the map that the entries stand for.
pub(crate) proof fn lemma_model_push<K: Key, V>(entries: Seq<(K, V)>, entry: (K, V))
    requires
        distinct_keys(entries.push(entry)),
    ensures
        distinct_keys(entries),
        !has_key(entries, entry.0@),
        model(entries.push(entry)) == model(entries).insert(entry.0@, entry.1),
{
    let longer = entries.push(entry);
    let last = entries.len() as int;
    assert forall|i: int, j: int| 0 <= i < j < entries.len() implies (#[trigger] entries[i]).0@ != (
    #[trigger] entries[j]).0@ by {
        assert(longer[i].0@ != longer[j].0@);
    }
    if has_key(entries, entry.0@) {
        let q = position(entries, entry.0@);
        assert(keyed(entries, entry.0@, q));
        assert(longer[q].0@ != longer[last].0@);
    }
    let expected = model(entries).insert(entry.0@, entry.1);
    assert forall|key: K::V|
        (#[trigger] model(longer).dom().contains(key)) == expected.dom().contains(key) && (model(
            longer,
        ).dom().contains(key) ==> model(longer)[key] == expected[key]) by {
        if key == entry.0@ {
            assert(keyed(longer, key, last));
            lemma_position(longer, key, last);
        } else {
            if has_key(entries, key) {
                let q = position(entries, key);
                assert(keyed(entries, key, q));
                assert(keyed(longer, key, q));
                lemma_position(longer, key, q);
            }
            if has_key(longer, key) {
                let q = position(longer, key);
                assert(keyed(longer, key, q));
                assert(keyed(entries, key, q));
            }
        }
    }
    assert(model(longer) =~= expected);
}

/// Entries without repeated keys stand for a finite map with as many keys as
/// there are entries.
pub proof fn lemma_model_len<K: Key, V>(entries: Seq<(K, V)>)
    requires
        distinct_keys(entries),
    ensures
        model(entries).dom().finite(),
        model(entries).len() == entries.len(),
    decreases entries.len(),
{
    if entries.len() == 0 {
        assert(model(entries) =~= Map::<K::V, V>::empty()) by {
            assert forall|key: K::V| !has_key(entries, key) by {
                if has_key(entries, key) {
                    assert(keyed(entries, key, position(entries, key)));
                }
            }
        }
    } else {
        let shorter = entries.drop_last();
        assert(shorter.push(entries.last()) =~= entries);
        lemma_model_push(shorter, entries.last());
        lemma_model_len(shorter);
    }
}

/// Every entry is in the map that the entries stand for, with its own value,
/// and every key of that map is the key of an entry.
pub proof fn lemma_model_entries<K: Key, V>(entries: Seq<(K, V)>)
    requires
        distinct_keys(entries),
    ensures
        forall|i: int|
            0 <= i < entries.len() ==> model(entries).contains_pair(
                (#[trigger] entries[i]).0@,
                entries[i].1,
            ),
        forall|key: K::V| #[trigger]
            model(entries).contains_key(key) ==> keyed(entries, key, position(entries, key)),
{
    assert forall|i: int| 0 <= i < entries.len() implies model(entries).contains_pair(
        (#[trigger] entries[i]).0@,
        entries[i].1,
    ) by {
        assert(keyed(entries, entries[i].0@, i));
        lemma_position(entries, entries[i].0@, i);
    }
}

/// The test that an entry belongs to bucket `i` of a table of `capacity`
/// buckets.
pub open spec fn lands_in<K: Key, V>(capacity: int, i: int) -> spec_fn((K, V)) -> bool {
    |entry: (K, V)| bucket_index::<K>(entry.0@, capacity) == i
}

/// The table of `capacity` buckets that holds `entries` after they were put
/// into it one after the other: each bucket holds the entries that belong to
/// it, the last one put in front.
pub open spec fn rehash<K: Key, V>(entries: Seq<(K, V)>, capacity: nat) -> Seq<Seq<(K, V)>> {
    Seq::new(capacity, |i: int| entries.filter(lands_in::<K, V>(capacity as int, i)).reverse())
}

/// Rehashing one more entry puts it in front of the bucket that it belongs
/// to.
pub(crate) proof fn lemma_rehash_push<K: Key, V>(entries: Seq<(K, V)>, entry: (K, V), capacity: nat)
    requires
        capacity > 0,
    ensures
        ({
            let home = bucket_index::<K>(entry.0@, capacity as int);
            let before = rehash(entries, capacity);
            &&& 0 <= home < capacity
            &&& rehash(entries.push(entry), capacity) == before.update(
                home,
                seq![entry] + before[home],
            )
        }),
{
    let home = bucket_index::<K>(entry.0@, capacity as int);
    let before = rehash(entries, capacity);
    let after = rehash(entries.push(entry), capacity);
    let expected = before.update(home, seq![entry] + before[home]);
    assert forall|i: int| 0 <= i < capacity implies #[trigger] after[i] == expected[i] by {
        let pred = lands_in::<K, V>(capacity as int, i);
        entries.lemma_filter_push(entry, pred);
        if i == home {
            let kept = entries.filter(pred);
            assert(kept.push(entry).reverse() =~= seq![entry] + kept.reverse());
        }
    }
    assert(after =~= expected);
}

/// A table of empty buckets has no entries.
pub(crate) proof fn lemma_flatten_empty<A>(buckets: Seq<Seq<A>>)
    requires
        forall|i: int| 0 <= i < buckets.len() ==> (#[trigger] buckets[i]).len() == 0,
    ensures
        buckets.flatten().len() == 0,
{
    if buckets.flatten().len() > 0 {
        let at = lemma_flatten_origin(buckets, 0);
        assert(buckets[at.0].len() == 0);
    }
}

/// Rehashing entries without repeated keys gives a well-formed table that
/// stands for the same map and has as many entries.
pub proof fn lemma_rehash<K: Key, V>(entries: Seq<(K, V)>, capacity: nat)
    requires
        distinct_keys(entries),
        capacity > 0,
    ensures
        rehash(entries, capacity).len() == capacity,
        buckets_wf(rehash(entries, capacity)),
        model(rehash(entries, capacity).flatten()) == model(entries),
        rehash(entries, capacity).flatten().len() == entries.len(),
    decreases entries.len(),
{
    let table = rehash(entries, capacity);
    if entries.len() == 0 {
        reveal(Seq::filter);
        assert forall|i: int| 0 <= i < table.len() implies (#[trigger] table[i]).len() == 0 by {}
        lemma_flatten_empty(table);
        assert(table.flatten() =~= entries);
        assert forall|i: int, j: int| #[trigger] stored(table, i, j) implies bucket_index::<K>(
            table[i][j].0@,
            table.len() as int,
        ) == i by {}
    } else {
        let shorter = entries.drop_last();
        let entry = entries.last();
        assert(shorter.push(entry) =~= entries);
        lemma_model_push(shorter, entry);
        lemma_rehash(shorter, capacity);
        lemma_rehash_push(shorter, entry, capacity);
        let before = rehash(shorter, capacity);
        lemma_model_by_bucket(before, entry.0@);
        lemma_put_buckets(before, entry.0, entry.1);
    }
}

/// The entries before bucket `i + 1` are those before bucket `i` and those of
/// bucket `i`; all of the table's entries stand before its end.
pub(crate) proof fn lemma_offset_next<A>(buckets: Seq<Seq<A>>, i: int)
    requires
        0 <= i < buckets.len(),
    ensures
        offset(buckets, i + 1) == offset(buckets, i) + buckets[i].len(),
        offset(buckets, 0) == 0,
        offset(buckets, buckets.len() as int) == buckets.flatten().len(),
{
    let upto = buckets.take(i + 1);
    lemma_flatten_split(upto, i);
    assert(upto.take(i) =~= buckets.take(i));
    assert(upto.skip(i + 1) =~= Seq::<Seq<A>>::empty());
    assert(buckets.take(0) =~= Seq::<Seq<A>>::empty());
    assert(buckets.take(buckets.len() as int) =~= buckets);
}

/// One step of a rehash: the table of the first `done` entries is well
/// formed, and putting the next entry into it gives the table of the first
/// `done + 1` entries.
pub(crate) proof fn lemma_rehash_step<K: Key, V>(entries: Seq<(K, V)>, done: int, capacity: nat)
    requires
        distinct_keys(entries),
        0 <= done < entries.len(),
        capacity > 0,
    ensures
        rehash(entries.take(done), capacity).len() == capacity,
        buckets_wf(rehash(entries.take(done), capacity)),
        rehash(entries.take(done), capacity).flatten().len() == done,
        put_buckets(rehash(entries.take(done), capacity), entries[done].0, entries[done].1)
            == rehash(entries.take(done + 1), capacity),
{
    let seen = entries.take(done);
    let entry = entries[done];
    assert(seen.push(entry) =~= entries.take(done + 1));
    assert(distinct_keys(entries.take(done + 1))) by {
        assert forall|i: int, j: int| 0 <= i < j < done + 1 implies (#[trigger] entries.take(
            done + 1,
        )[i]).0@ != (#[trigger] entries.take(done + 1)[j]).0@ by {
            assert(entries[i].0@ != entries[j].0@);
        }
    }
    lemma_model_push(seen, entry);
    lemma_rehash(seen, capacity);
    lemma_rehash_push(seen, entry, capacity);
    lemma_model_by_bucket(rehash(seen, capacity), entry.0@);
}

/// The entries from bucket `i` on are those of bucket `i` and those from
/// bucket `i + 1` on; behind the last bucket there are none.
pub(crate) proof fn lemma_flatten_skip<A>(buckets: Seq<Seq<A>>, i: int)
    requires
        0 <= i <= buckets.len(),
    ensures
        i < buckets.len() ==> buckets.skip(i).flatten() == buckets[i] + buckets.skip(
            i + 1,
        ).flatten(),
        i == buckets.len() ==> buckets.skip(i).flatten() == Seq::<A>::empty(),
        buckets.skip(0) == buckets,
{
    assert(buckets.skip(0) =~= buckets);
    if i < buckets.len() {
        assert(buckets.skip(i).drop_first() =~= buckets.skip(i + 1));
    }
}

} // verus!
