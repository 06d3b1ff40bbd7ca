//! A hash map with separate chaining: an array of buckets, each a linked chain
//! of entries, that doubles and rehashes when it gets too dense.
//!
//! The map is modelled by its table, the sequence of its buckets' entries
//! (see [`buckets`]). Its view is the mathematical map that the table stands
//! for. A lookup is destructive: [`HashMap::get`] takes the entry out.

use vstd::prelude::*;

pub mod buckets;
pub mod key;
pub mod laws;
pub mod linked_list;
pub mod trusted;

use crate::buckets::{
    bucket_index, buckets_wf, distinct_keys, get_buckets, get_chain, has_key, keyed,
    lemma_flatten_distinct, lemma_flatten_empty, lemma_flatten_skip, lemma_flatten_split,
    lemma_flatten_stored, lemma_get_buckets, lemma_get_chain, lemma_model_by_bucket,
    lemma_model_entries, lemma_model_len, lemma_offset_next, lemma_position, lemma_put_buckets,
    lemma_rehash, lemma_rehash_step, model, offset, other_key, position, put_buckets, put_chain,
    rehash, stored,
};
use crate::key::Key;
use crate::linked_list::{IntoIter as IntoIterLL, Iter as IterLL, LinkedList};
use core::mem;

verus! {

/// The number of buckets of a map's first table.
pub const DEFAULT_CAPACITY: usize = 8;

/// The load factor is `LOAD_FACTOR_NUMERATOR / LOAD_FACTOR_DENOMINATOR`.
pub const LOAD_FACTOR_NUMERATOR: usize = 3;

/// See [`LOAD_FACTOR_NUMERATOR`].
pub const LOAD_FACTOR_DENOMINATOR: usize = 4;

/// The number of entries from which on a table of `capacity` buckets is too
/// dense: the capacity times the load factor, rounded down.
pub open spec fn threshold_for(capacity: int) -> int {
    capacity * LOAD_FACTOR_NUMERATOR as int / LOAD_FACTOR_DENOMINATOR as int
}

/// What each chain of a table holds.
spec fn contents<T>(table: Seq<LinkedList<T>>) -> Seq<Seq<T>> {
    Seq::new(table.len(), |i: int| table[i]@)
}

/// Every chain of a table is well formed.
spec fn chains_wf<T>(table: Seq<LinkedList<T>>) -> bool {
    forall|i: int| 0 <= i < table.len() ==> (#[trigger] table[i]).wf()
}

/// A table is due for growth before the next entry is put: it has no buckets
/// yet, or it is too dense and twice its capacity is still a `usize`.
pub open spec fn due_for_growth<K: Key, V>(buckets: Seq<Seq<(K, V)>>) -> bool {
    ||| buckets.len() == 0
    ||| buckets.flatten().len() >= threshold_for(buckets.len() as int) && 2 * buckets.len()
        <= usize::MAX
}

/// The capacity that a table is grown to: the default for a table without
/// buckets, else twice what it has.
pub open spec fn grown_capacity(capacity: nat) -> nat {
    if capacity == 0 {
        DEFAULT_CAPACITY as nat
    } else {
        2 * capacity
    }
}

/// The table before the next entry is put: where it is due for growth, its
/// entries rehashed into a table of the grown capacity; else the table as it
/// is.
pub open spec fn grown<K: Key, V>(buckets: Seq<Seq<(K, V)>>) -> Seq<Seq<(K, V)>> {
    if due_for_growth(buckets) {
        rehash(buckets.flatten(), grown_capacity(buckets.len()))
    } else {
        buckets
    }
}

/// A map from keys to values, kept in an array of chained buckets.
#[derive(Debug)]
pub struct HashMap<K, V> {
    table: Vec<LinkedList<(K, V)>>,
    // the number of entries
    size: usize,
    capacity: usize,
    // the size from which on the next put grows the table
    threshold: usize,
}

impl<K: Key, V> View for HashMap<K, V> {
    type V = Map<K::V, V>;

    /// The map that the entries stand for.
    open spec fn view(&self) -> Map<K::V, V> {
        model(self.entries())
    }
}

impl<K: Key, V> HashMap<K, V> {
    /// The table: for each bucket the entries of its chain, front first.
    pub closed spec fn buckets(&self) -> Seq<Seq<(K, V)>> {
        contents(self.table@)
    }

    /// The entries in the order of a traversal: bucket by bucket, each chain
    /// front to back.
    pub open spec fn entries(&self) -> Seq<(K, V)> {
        self.buckets().flatten()
    }

    /// The capacity: the number of buckets that the table has or, as long as
    /// it has none, will be made with.
    pub open spec fn spec_capacity(&self) -> nat {
        if self.buckets().len() == 0 {
            DEFAULT_CAPACITY as nat
        } else {
            self.buckets().len()
        }
    }

    /// The map's invariant: the table is well formed, the count is the number
    /// of entries, and capacity and threshold go with the table.
    pub closed spec fn wf(&self) -> bool {
        &&& chains_wf(self.table@)
        &&& buckets_wf(self.buckets())
        &&& self.size == self.entries().len()
        &&& self.capacity == self.spec_capacity()
        &&& self.threshold == threshold_for(self.capacity as int)
    }

    /// An empty map. Its table is made when the first entry is put.
    pub fn new() -> (map: Self)
        ensures
            map.wf(),
            map.buckets() == Seq::<Seq<(K, V)>>::empty(),
            map@ == Map::<K::V, V>::empty(),
            map.spec_capacity() == DEFAULT_CAPACITY,
    {
        let map = Self {
            table: Vec::new(),
            size: 0,
            capacity: DEFAULT_CAPACITY,
            threshold: Self::threshold_of(DEFAULT_CAPACITY),
        };
        proof {
            assert(map.buckets() =~= Seq::<Seq<(K, V)>>::empty());
            lemma_flatten_empty(map.buckets());
            assert(forall|i: int, j: int| !stored(map.buckets(), i, j));
            lemma_model_len(map.entries());
            assert(map@ =~= Map::<K::V, V>::empty());
        }
        map
    }

    /// The threshold of a table of `capacity` buckets.
    fn threshold_of(capacity: usize) -> (threshold: usize)
        ensures
            threshold == threshold_for(capacity as int),
    {
        capacity / LOAD_FACTOR_DENOMINATOR * LOAD_FACTOR_NUMERATOR + capacity
            % LOAD_FACTOR_DENOMINATOR * LOAD_FACTOR_NUMERATOR / LOAD_FACTOR_DENOMINATOR
    }

    /// The number of entries.
    pub fn size(&self) -> (n: usize)
        requires
            self.wf(),
        ensures
            n == self@.len(),
            n == self.entries().len(),
    {
        proof {
            lemma_flatten_distinct(self.buckets());
            lemma_model_len(self.entries());
        }
        self.size
    }

    /// The capacity: the number of buckets that the table has or, as long as
    /// it has none, will be made with.
    pub fn capacity(&self) -> (n: usize)
        requires
            self.wf(),
        ensures
            n == self.spec_capacity(),
    {
        self.capacity
    }

    /// No key occurs twice among the entries of a map, and every entry stands
    /// in the bucket that its key belongs to.
    pub proof fn lemma_keys_unique(&self)
        requires
            self.wf(),
        ensures
            buckets_wf(self.buckets()),
            distinct_keys(self.entries()),
    {
        lemma_flatten_distinct(self.buckets());
    }

    /// A traversal is complete: the entries are as many as the map has keys,
    /// each entry is in the map with its own value, and each key of the map is
    /// the key of exactly one entry.
    pub proof fn lemma_entries_complete(&self)
        requires
            self.wf(),
        ensures
            self@.dom().finite(),
            self.entries().len() == self@.len(),
            distinct_keys(self.entries()),
            forall|i: int|
                0 <= i < self.entries().len() ==> self@.contains_pair(
                    (#[trigger] self.entries()[i]).0@,
                    self.entries()[i].1,
                ),
            forall|key: K::V| #[trigger]
                self@.contains_key(key) ==> keyed(
                    self.entries(),
                    key,
                    position(self.entries(), key),
                ),
    {
        lemma_flatten_distinct(self.buckets());
        lemma_model_len(self.entries());
        lemma_model_entries(self.entries());
    }

    /// The bucket that `key` belongs to in a table of `capacity` buckets.
    fn index_for(capacity: usize, key: &K) -> (index: usize)
        requires
            capacity > 0,
        ensures
            index == bucket_index::<K>(key@, capacity as int),
            index < capacity,
    {
        let hash = key.hash_code();
        #[verifier::truncate]
        (hash as usize) % capacity
    }

    /// A table of `capacity` empty chains.
    fn empty_table(capacity: usize) -> (table: Vec<LinkedList<(K, V)>>)
        ensures
            table.len() == capacity,
            chains_wf(table@),
            contents(table@) == rehash(Seq::<(K, V)>::empty(), capacity as nat),
    {
        let mut table: Vec<LinkedList<(K, V)>> = Vec::new();
        let mut made: usize = 0;
        while made < capacity
            invariant
                made <= capacity,
                table.len() == made,
                chains_wf(table@),
                forall|i: int| 0 <= i < table.len() ==> (#[trigger] table[i])@.len() == 0,
            decreases capacity - made,
        {
            table.push(LinkedList::new());
            made += 1;
        }
        proof {
            reveal(Seq::filter);
            let empty = rehash(Seq::<(K, V)>::empty(), capacity as nat);
            assert forall|i: int| 0 <= i < capacity implies #[trigger] contents(table@)[i]
                == empty[i] by {
                assert(table[i]@ =~= empty[i]);
            }
            assert(contents(table@) =~= empty);
        }
        table
    }

    /// Puts an entry into the bucket that its key belongs to: where the bucket
    /// has the key, the entry's value is replaced and the old one returned;
    /// where it has not, the new entry goes in front.
    fn place(table: &mut Vec<LinkedList<(K, V)>>, new_key: K, new_value: V) -> (old_value: Option<
        V,
    >)
        requires
            old(table).len() > 0,
            chains_wf(old(table)@),
            buckets_wf(contents(old(table)@)),
            contents(old(table)@).flatten().len() < usize::MAX,
        ensures
            final(table).len() == old(table).len(),
            chains_wf(final(table)@),
            contents(final(table)@) == put_buckets(contents(old(table)@), new_key, new_value),
            old_value == model(contents(old(table)@).flatten()).get(new_key@),
    {
        let index = Self::index_for(table.len(), &new_key);
        let ghost before = contents(table@);
        let ghost start = table[index as int]@;
        proof {
            lemma_model_by_bucket(before, new_key@);
            lemma_flatten_split(before, index as int);
            assert(distinct_keys(before[index as int]));
        }
        let mut it = table[index].iter_mut();
        let ghost mut done: int = 0;
        loop
            invariant
                0 <= done <= start.len(),
                index < old(table).len(),
                before == contents(old(table)@),
                start == before[index as int],
                index == bucket_index::<K>(new_key@, before.len() as int),
                distinct_keys(start),
                it@ == start.skip(done),
                forall|q: int| 0 <= q < done ==> !keyed(start, new_key@, q),
                after_borrow(table).len() == old(table).len(),
                forall|i: int|
                    0 <= i < old(table).len() && i != index ==> after_borrow(table)[i]
                        == old(table)[i],
                after_borrow(table)[index as int]@.len() == start.len()
                    ==> after_borrow(table)[index as int].wf(),
                match it.cursor() {
                    None => after_borrow(table)[index as int]@ == start,
                    Some(rest) => after_borrow(table)[index as int]@
                        == start.take(done) + final(rest).elements(),
                },
                chains_wf(old(table)@),
                model(before.flatten()).contains_key(new_key@) == has_key(start, new_key@),
                has_key(start, new_key@) ==> model(before.flatten())[new_key@] == start[position(
                    start,
                    new_key@,
                )].1,
            ensures
                done == start.len(),
                it.cursor() is None,
            decreases start.len() - done,
        {
            proof {
                it.lemma_cursor();
            }
            match it.next() {
                None => {
                    break ;
                },
                Some(pair) => {
                    if pair.0.same(&new_key) {
                        let old_value = mem::replace(&mut pair.1, new_value);
                        proof {
                            it.lemma_given_up();
                            it.lemma_cursor();
                            assert(keyed(start, new_key@, done));
                            lemma_position(start, new_key@, done);
                            assert(after_borrow(table)[index as int]@ =~= put_chain(
                                start,
                                new_key,
                                new_value,
                            ));
                            let placed = put_buckets(before, new_key, new_value);
                            assert forall|i: int| 0 <= i < placed.len() implies #[trigger] contents(
                                after_borrow(table)@,
                            )[i] == placed[i] by {
                                if i != index {
                                    assert(after_borrow(table)[i] == old(table)[i]);
                                }
                            }
                            assert(contents(after_borrow(table)@) =~= placed);
                        }
                        return Some(old_value);
                    }
                    proof {
                        done = done + 1;
                    }
                },
            }
        }
        proof {
            assert(!has_key(start, new_key@)) by {
                if has_key(start, new_key@) {
                    assert(keyed(start, new_key@, position(start, new_key@)));
                }
            }
        }
        table[index].push((new_key, new_value));
        proof {
            assert(contents(table@) =~= put_buckets(before, new_key, new_value));
        }
        None
    }

    /// Makes the first table, or moves every entry into a table of twice the
    /// capacity: each entry goes, in the order of a traversal, into the
    /// bucket that its key belongs to under the new capacity.
    fn resize(&mut self)
        requires
            old(self).wf(),
            old(self).table.len() == 0 || 2 * old(self).table.len() <= usize::MAX,
        ensures
            final(self).wf(),
            final(self).buckets() == rehash(
                old(self).entries(),
                grown_capacity(old(self).buckets().len()),
            ),
            final(self)@ == old(self)@,
            final(self).entries().len() == old(self).entries().len(),
    {
        let ghost before = self.buckets();
        let ghost flat = self.entries();
        proof {
            lemma_flatten_distinct(before);
        }
        let n = self.table.len();
        if n == 0 {
            // first use: make the table
            self.table = Self::empty_table(DEFAULT_CAPACITY);
            proof {
                assert(before =~= Seq::<Seq<(K, V)>>::empty());
                lemma_flatten_empty(before);
                assert(flat =~= Seq::<(K, V)>::empty());
                lemma_rehash(flat, DEFAULT_CAPACITY as nat);
            }
        } else {
            // too dense: double the table
            let doubled = n * 2;
            self.threshold = Self::threshold_of(doubled);
            self.capacity = doubled;
            // put an empty table of twice the size in place of the old one
            let mut temp = mem::replace(&mut self.table, Self::empty_table(doubled));
            let ghost mut done: int = 0;
            proof {
                lemma_offset_next(before, 0);
                assert(flat.take(0) =~= Seq::<(K, V)>::empty());
            }
            // move the old table's entries over, bucket by bucket
            for i in 0..n
                invariant
                    n == before.len(),
                    n > 0,
                    doubled == 2 * n,
                    flat == before.flatten(),
                    distinct_keys(flat),
                    flat.len() <= usize::MAX,
                    temp.len() == n,
                    forall|k: int|
                        i <= k < n ==> (#[trigger] temp[k])@ == before[k] && temp[k].wf(),
                    done == offset(before, i as int),
                    0 <= done <= flat.len(),
                    chains_wf(self.table@),
                    self.table.len() == doubled,
                    contents(self.table@) == rehash(flat.take(done), doubled as nat),
                    self.size == old(self).size,
                    self.capacity == doubled,
                    self.threshold == threshold_for(doubled as int),
            {
                let chain = mem::replace(&mut temp[i], LinkedList::new());
                let mut it = chain.into_iter();
                let ghost mut moved: int = 0;
                proof {
                    lemma_offset_next(before, i as int);
                    lemma_flatten_split(before, i as int);
                }
                loop
                    invariant
                        0 <= i < n,
                        n == before.len(),
                        n > 0,
                        doubled == 2 * n,
                        flat == before.flatten(),
                        distinct_keys(flat),
                        flat.len() <= usize::MAX,
                        it.wf(),
                        0 <= moved <= before[i as int].len(),
                        it@ == before[i as int].skip(moved),
                        done == offset(before, i as int) + moved,
                        offset(before, i as int) + before[i as int].len() <= flat.len(),
                        chains_wf(self.table@),
                        self.table.len() == doubled,
                        contents(self.table@) == rehash(flat.take(done), doubled as nat),
                        self.size == old(self).size,
                        self.capacity == doubled,
                        self.threshold == threshold_for(doubled as int),
                    ensures
                        moved == before[i as int].len(),
                    decreases before[i as int].len() - moved,
                {
                    match it.next() {
                        None => {
                            break ;
                        },
                        Some(pair) => {
                            proof {
                                lemma_flatten_stored(before, i as int, moved);
                                lemma_rehash_step(flat, done, doubled as nat);
                            }
                            Self::place(&mut self.table, pair.0, pair.1);
                            proof {
                                moved = moved + 1;
                                done = done + 1;
                            }
                        },
                    }
                }
            }
            proof {
                lemma_offset_next::<(K, V)>(before, 0);
                assert(flat.take(done) =~= flat);
                lemma_rehash(flat, doubled as nat);
            }
        }
    }

    /// Puts `new_value` under `new_key`. The table is grown first if it is
    /// due for growth. Where the map has the key, its value is replaced and the
    /// old one returned; where it has not, a new entry goes in front of the
    /// bucket that the key belongs to.
    pub fn put(&mut self, new_key: K, new_value: V) -> (old_value: Option<V>)
        requires
            old(self).wf(),
            old(self)@.len() < usize::MAX,
        ensures
            final(self).wf(),
            final(self).buckets() == put_buckets(grown(old(self).buckets()), new_key, new_value),
            old_value == old(self)@.get(new_key@),
            final(self)@ == old(self)@.insert(new_key@, new_value),
            final(self)@.len() == old(self)@.len() + (if old(self)@.contains_key(new_key@) {
                0int
            } else {
                1int
            }),
            final(self).spec_capacity() == (if due_for_growth(old(self).buckets()) {
                grown_capacity(old(self).buckets().len())
            } else {
                old(self).spec_capacity()
            }),
            final(self).spec_capacity() == old(self).spec_capacity()
                || final(self).spec_capacity() == 2 * old(self).spec_capacity(),
    {
        proof {
            lemma_flatten_distinct(self.buckets());
            lemma_model_len(self.entries());
        }
        if self.table.len() == 0 || (self.size >= self.threshold && self.table.len() <= usize::MAX
            / 2) {
            self.resize();
        }
        proof {
            lemma_put_buckets(self.buckets(), new_key, new_value);
        }
        let old_value = Self::place(&mut self.table, new_key, new_value);
        if old_value.is_none() {
            self.size += 1;
        }
        proof {
            lemma_flatten_distinct(self.buckets());
            lemma_model_len(self.entries());
        }
        old_value
    }

    /// Takes the entry of `key` out of the map and returns its value, if the
    /// map has the key. The other entries of the key's bucket come to stand in
    /// reverse order.
    pub fn get(&mut self, key: K) -> (value: Option<V>)
        requires
            old(self).wf(),
        ensures
            final(self).wf(),
            final(self).buckets() == get_buckets(old(self).buckets(), key@),
            value == old(self)@.get(key@),
            final(self)@ == old(self)@.remove(key@),
            final(self)@.len() == old(self)@.len() - (if old(self)@.contains_key(key@) {
                1int
            } else {
                0int
            }),
            final(self).spec_capacity() == old(self).spec_capacity(),
    {
        let ghost before = self.buckets();
        proof {
            lemma_flatten_distinct(before);
            lemma_model_len(self.entries());
            lemma_get_buckets(before, key@);
            lemma_flatten_distinct(get_buckets(before, key@));
            lemma_model_len(get_buckets(before, key@).flatten());
        }
        if self.table.len() == 0 {
            return None;
        }
        let mut res = None;
        let index = Self::index_for(self.table.len(), &key);
        let ghost chain = before[index as int];
        proof {
            lemma_model_by_bucket(before, key@);
            lemma_flatten_split(before, index as int);
            lemma_get_chain(chain, key@, key@);
        }
        let mut new_list = LinkedList::new();
        let temp = mem::replace(&mut self.table[index], LinkedList::new());
        let mut it = temp.into_iter();
        let ghost mut seen: int = 0;
        loop
            invariant
                0 <= seen <= chain.len(),
                chain.len() <= usize::MAX,
                chain.len() <= old(self).size,
                distinct_keys(chain),
                it.wf(),
                it@ == chain.skip(seen),
                new_list.wf(),
                new_list@ == chain.take(seen).filter(other_key(key@)).reverse(),
                has_key(chain.take(seen), key@) ==> res == Some(chain[position(chain, key@)].1)
                    && self.size == old(self).size - 1,
                !has_key(chain.take(seen), key@) ==> res is None && self.size == old(self).size,
                self.table.len() == old(self).table.len(),
                index < self.table.len(),
                forall|i: int|
                    0 <= i < self.table.len() && i != index ==> self.table[i] == old(self).table[i],
                self.table[index as int].wf(),
                self.table[index as int]@ == Seq::<(K, V)>::empty(),
                self.capacity == old(self).capacity,
                self.threshold == old(self).threshold,
            ensures
                seen == chain.len(),
            decreases chain.len() - seen,
        {
            match it.next() {
                None => {
                    break ;
                },
                Some((k, v)) => {
                    proof {
                        let shorter = chain.take(seen);
                        let longer = chain.take(seen + 1);
                        assert(shorter.push(chain[seen]) =~= longer);
                        shorter.lemma_filter_push(chain[seen], other_key(key@));
                        shorter.lemma_filter_len(other_key(key@));
                        let kept = shorter.filter(other_key(key@));
                        assert(kept.push(chain[seen]).reverse() =~= seq![chain[seen]]
                            + kept.reverse());
                        if has_key(shorter, key@) {
                            let q = position(shorter, key@);
                            assert(keyed(shorter, key@, q));
                            assert(keyed(longer, key@, q));
                            assert(keyed(chain, key@, q));
                            if k@ == key@ {
                                assert(chain[q].0@ != chain[seen].0@);
                            }
                        }
                        if k@ == key@ {
                            assert(keyed(longer, key@, seen));
                            assert(keyed(chain, key@, seen));
                            lemma_position(chain, key@, seen);
                        } else if has_key(longer, key@) {
                            let q = position(longer, key@);
                            assert(keyed(longer, key@, q));
                            assert(keyed(shorter, key@, q));
                        }
                    }
                    if k.same(&key) {
                        self.size -= 1;
                        res = Some(v);
                    } else {
                        new_list.push((k, v));
                    }
                    proof {
                        seen = seen + 1;
                    }
                },
            }
        }
        proof {
            assert(chain.take(seen) =~= chain);
        }
        if new_list.size() > 0 {
            self.table[index] = new_list;
        }
        proof {
            assert(self.table[index as int]@ =~= get_chain(chain, key@));
            let after = get_buckets(before, key@);
            assert forall|i: int| 0 <= i < after.len() implies #[trigger] self.buckets()[i]
                == after[i] by {
                if i != index {
                    assert(self.table[i] == old(self).table[i]);
                }
            }
            assert(self.buckets() =~= after);
            if has_key(chain, key@) {
                assert(keyed(chain, key@, position(chain, key@)));
            }
        }
        res
    }

    /// A traversal of all entries by shared reference: bucket by bucket, each
    /// chain front to back. It can be started as often as wanted.
    pub fn iter(&self) -> (it: Iter<'_, K, V>)
        requires
            self.wf(),
        ensures
            it.wf(),
            it@ == self.entries(),
    {
        let mut iter: Option<IterLL<'_, (K, V)>> = None;
        let mut index: usize = 0;
        // find the first chain that has an entry
        loop
            invariant_except_break
                iter is None,
                forall|k: int| 0 <= k < index ==> (#[trigger] self.buckets()[k]).len() == 0,
            invariant
                self.wf(),
                index <= self.table.len(),
            ensures
                index <= self.table.len(),
                match iter {
                    None => self.entries() == Seq::<(K, V)>::empty(),
                    Some(chain) => self.entries() == chain@ + self.buckets().skip(
                        index as int,
                    ).flatten(),
                },
            decreases self.table.len() - index,
        {
            if index == self.table.len() {
                proof {
                    lemma_flatten_empty(self.buckets());
                }
                break ;
            }
            if self.table[index].size() == 0 {
                index += 1;
            } else {
                // the traversal starts on this chain
                iter = Some(self.table[index].iter());
                proof {
                    lemma_flatten_split(self.buckets(), index as int);
                    lemma_flatten_empty(self.buckets().take(index as int));
                }
                index += 1;
                break ;
            }
        }
        Iter { index, table: &self.table, iter }
    }

    /// A traversal that takes the map over and hands its entries out by
    /// value, in the order of [`HashMap::iter`].
    pub fn into_iter(self) -> (it: IntoIter<K, V>)
        requires
            self.wf(),
        ensures
            it.wf(),
            it@ == self.entries(),
    {
        let it = IntoIter { index: 0, table: self.table, chain: LinkedList::new().into_iter() };
        proof {
            lemma_flatten_skip(contents(it.table@), 0);
            assert(it@ =~= self.entries());
        }
        it
    }
}

/// A borrowing traversal of a map: the chain that is being walked and the
/// place of the bucket that comes after it.
pub struct Iter<'a, K, V> {
    index: usize,
    table: &'a Vec<LinkedList<(K, V)>>,
    iter: Option<IterLL<'a, (K, V)>>,
}

impl<'a, K, V> View for Iter<'a, K, V> {
    type V = Seq<(K, V)>;

    /// The entries still to come, next one first.
    closed spec fn view(&self) -> Seq<(K, V)> {
        match self.iter {
            None => Seq::empty(),
            Some(chain) => chain@ + contents(self.table@).skip(self.index as int).flatten(),
        }
    }
}

impl<'a, K, V> Iter<'a, K, V> {
    /// The next bucket is in the table or just behind it, and the chains are
    /// well formed.
    pub closed spec fn wf(&self) -> bool {
        &&& self.index <= self.table.len()
        &&& chains_wf(self.table@)
    }

    /// Hands out the next entry, or nothing once all buckets are walked.
    pub fn next(&mut self) -> (item: Option<&'a (K, V)>)
        requires
            old(self).wf(),
        ensures
            final(self).wf(),
            old(self)@.len() == 0 ==> item is None && final(self)@ == old(self)@,
            old(self)@.len() > 0 ==> item == Some(&old(self)@[0])
                && final(self)@ == old(self)@.skip(1),
    {
        // there is no chain to walk if the map had no entry at the start
        match &mut self.iter {
            None => None,
            Some(iter) => {
                match iter.next() {
                    // the chain has another entry
                    Some(pair) => Some(pair),
                    // the chain is walked: find the next one that has an entry
                    None => {
                        let ghost table = contents(self.table@);
                        let ghost remaining = old(self)@;
                        proof {
                            assert(remaining =~= table.skip(self.index as int).flatten());
                        }
                        loop
                            invariant
                                self.wf(),
                                self.table == old(self).table,
                                table == contents(self.table@),
                                remaining == old(self)@,
                                remaining == table.skip(self.index as int).flatten(),
                                self.iter matches Some(chain) && chain@.len() == 0,
                            decreases self.table.len() - self.index,
                        {
                            let ghost index = self.index as int;
                            proof {
                                lemma_flatten_skip(table, index);
                            }
                            // no bucket is left
                            if self.index == self.table.len() {
                                proof {
                                    assert(self@ =~= remaining);
                                }
                                return None;
                            }
                            if self.table[self.index].size() == 0 {
                                // nothing to walk here
                                proof {
                                    assert(remaining =~= table.skip(index + 1).flatten());
                                }
                                self.index += 1;
                            } else {
                                // walk this chain from now on
                                let mut chain = self.table[self.index].iter();
                                let first = chain.next();
                                self.iter = Some(chain);
                                self.index += 1;
                                proof {
                                    let behind = table.skip(index + 1).flatten();
                                    assert(remaining == table[index] + behind);
                                    assert(self@ == table[index].skip(1) + behind);
                                    assert(self@ =~= remaining.skip(1));
                                }
                                return first;
                            }
                        }
                    },
                }
            },
        }
    }
}

/// A consuming traversal of a map: what is left of the chain that is being
/// drained, and the buckets that come after it.
pub struct IntoIter<K, V> {
    index: usize,
    table: Vec<LinkedList<(K, V)>>,
    chain: IntoIterLL<(K, V)>,
}

impl<K, V> View for IntoIter<K, V> {
    type V = Seq<(K, V)>;

    /// The entries still to come, next one first.
    closed spec fn view(&self) -> Seq<(K, V)> {
        self.chain@ + contents(self.table@).skip(self.index as int).flatten()
    }
}

impl<K, V> IntoIter<K, V> {
    /// The next bucket is in the table or just behind it, and the chains are
    /// well formed.
    pub closed spec fn wf(&self) -> bool {
        &&& self.index <= self.table.len()
        &&& chains_wf(self.table@)
        &&& self.chain.wf()
    }

    /// Hands out the next entry, or nothing once all buckets are drained.
    pub fn next(&mut self) -> (item: Option<(K, V)>)
        requires
            old(self).wf(),
        ensures
            final(self).wf(),
            old(self)@.len() == 0 ==> item is None && final(self)@ == old(self)@,
            old(self)@.len() > 0 ==> item == Some(old(self)@[0])
                && final(self)@ == old(self)@.skip(1),
    {
        let ghost remaining = self@;
        loop
            invariant
                self.wf(),
                self@ == remaining,
                remaining == old(self)@,
            decreases self.table.len() - self.index, self.chain@.len(),
        {
            let ghost behind = contents(self.table@).skip(self.index as int).flatten();
            match self.chain.next() {
                Some(entry) => {
                    proof {
                        assert(self@ =~= remaining.skip(1));
                    }
                    return Some(entry);
                },
                None => {},
            }
            proof {
                lemma_flatten_skip(contents(self.table@), self.index as int);
                assert(remaining =~= behind);
            }
            if self.index == self.table.len() {
                proof {
                    assert(self@ =~= remaining);
                }
                return None;
            }
            let ghost table = contents(self.table@);
            let chain = mem::replace(&mut self.table[self.index], LinkedList::new());
            self.chain = chain.into_iter();
            self.index += 1;
            proof {
                assert(contents(self.table@).skip(self.index as int) =~= table.skip(
                    self.index as int,
                ));
                assert(self@ =~= remaining);
            }
        }
    }
}

} // verus!
