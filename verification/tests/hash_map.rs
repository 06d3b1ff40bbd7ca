use chained_hash_map::key::Key;
use chained_hash_map::{HashMap, DEFAULT_CAPACITY};

#[test]
fn lib_basic() {
    let mut map: HashMap<i32, i32> = HashMap::new();
    map.put(1, 555);
    assert_eq!(map.size(), 1);
    //default capacity
    assert_eq!(map.capacity(), DEFAULT_CAPACITY);
}

#[test]
fn put() {
    let mut map: HashMap<String, String> = HashMap::new();
    assert_eq!(map.size(), 0);

    map.put("key_1".to_string(), "value_1".to_string());
    map.put("key_2".to_string(), "value_2".to_string());
    assert_eq!(map.size(), 2);

    let old_value = map.put("key_1".to_string(), "value_2".to_string());
    assert_eq!(old_value, Some("value_1".to_string()));
    assert_eq!(map.size(), 2);
}

#[test]
fn get() {
    let mut map = HashMap::new();

    map.put("key_1".to_string(), "value_1".to_string());
    assert_eq!(map.size(), 1);

    let v = map.get("key_1".to_string());
    let n = map.get("empty".to_string());
    assert_eq!(v, Some("value_1".to_string()));
    assert_eq!(n, None);
    assert_eq!(map.size(), 0);
}

#[test]
fn resize() {
    let mut map = HashMap::new();
    map.put(1, 1);
    assert_eq!(map.size(), 1);
    assert_eq!(map.capacity(), DEFAULT_CAPACITY);
    map.get(1);
    assert_eq!(map.size(), 0);
    assert_eq!(map.capacity(), DEFAULT_CAPACITY);
    for i in 0..7 {
        map.put(i, i);
    }
    assert_eq!(map.size(), 7);
    assert_eq!(map.capacity(), DEFAULT_CAPACITY * 2);
    for i in 7..16 {
        map.put(i, i);
    }
    assert_eq!(map.size(), 16);
    assert_eq!(map.capacity(), DEFAULT_CAPACITY * 4);
}

#[test]
fn iter() {
    let mut map = HashMap::new();

    let mut pairs_count = 0;

    let mut it = map.iter();
    while let Some((_k, _v)) = it.next() {
        pairs_count += 1;
    }

    assert_eq!(pairs_count, 0);

    map.put("a", 17);
    map.put("b", 78);
    map.put("c", 777);

    let mut it = map.iter();
    while let Some((k, v)) = it.next() {
        match k {
            &"a" => assert_eq!(*v, 17),
            &"b" => assert_eq!(*v, 78),
            &"c" => assert_eq!(*v, 777),
            _ => unreachable!(),
        }
        pairs_count += 1;
    }

    assert_eq!(pairs_count, 3);
}

// The order that a traversal must show, worked out from the hashes alone: a
// table as plain vectors, filled by the same rules.
struct Model {
    buckets: Vec<Vec<(i32, i32)>>,
}

impl Model {
    fn new() -> Self {
        Model { buckets: Vec::new() }
    }

    fn len(&self) -> usize {
        self.buckets.iter().map(|b| b.len()).sum()
    }

    fn home(key: i32, capacity: usize) -> usize {
        (Key::hash_code(&key) as usize) % capacity
    }

    fn put(&mut self, key: i32, value: i32) {
        let capacity = self.buckets.len();
        if capacity == 0 || self.len() >= capacity * 3 / 4 {
            let grown = if capacity == 0 { 8 } else { capacity * 2 };
            let entries: Vec<(i32, i32)> = self.buckets.concat();
            self.buckets = vec![Vec::new(); grown];
            for (k, v) in entries {
                self.buckets[Self::home(k, grown)].insert(0, (k, v));
            }
        }
        let capacity = self.buckets.len();
        let bucket = &mut self.buckets[Self::home(key, capacity)];
        match bucket.iter_mut().find(|(k, _)| *k == key) {
            Some(entry) => entry.1 = value,
            None => bucket.insert(0, (key, value)),
        }
    }

    fn get(&mut self, key: i32) {
        let capacity = self.buckets.len();
        if capacity == 0 {
            return;
        }
        let bucket = &mut self.buckets[Self::home(key, capacity)];
        bucket.retain(|(k, _)| *k != key);
        bucket.reverse();
    }

    fn entries(&self) -> Vec<(i32, i32)> {
        self.buckets.concat()
    }
}

fn traversal(map: &HashMap<i32, i32>) -> Vec<(i32, i32)> {
    let mut seen = Vec::new();
    let mut it = map.iter();
    while let Some(pair) = it.next() {
        seen.push(*pair);
    }
    seen
}

#[test]
fn new_map_is_empty_with_default_capacity() {
    let map: HashMap<u64, u64> = HashMap::new();
    assert_eq!(map.size(), 0);
    assert_eq!(map.capacity(), 8);
    assert_eq!(DEFAULT_CAPACITY, 8);
    let mut it = map.iter();
    assert!(it.next().is_none());
    assert!(it.next().is_none());
}

#[test]
fn get_on_a_map_without_table_finds_nothing() {
    let mut map: HashMap<u64, u64> = HashMap::new();
    assert_eq!(map.get(3), None);
    assert_eq!(map.size(), 0);
    assert_eq!(map.capacity(), 8);
}

#[test]
fn keys_stay_unique() {
    let mut map: HashMap<u64, &str> = HashMap::new();
    assert_eq!(map.put(5, "one"), None);
    assert_eq!(map.put(5, "two"), Some("one"));
    assert_eq!(map.put(5, "three"), Some("two"));
    assert_eq!(map.size(), 1);

    let mut it = map.iter();
    assert_eq!(it.next(), Some(&(5, "three")));
    assert_eq!(it.next(), None);
}

#[test]
fn get_takes_the_entry_out() {
    let mut map: HashMap<u64, u64> = HashMap::new();
    map.put(1, 10);
    map.put(2, 20);
    assert_eq!(map.size(), 2);

    assert_eq!(map.get(3), None);
    assert_eq!(map.size(), 2);

    assert_eq!(map.get(1), Some(10));
    assert_eq!(map.size(), 1);
    assert_eq!(map.get(1), None);
    assert_eq!(map.size(), 1);

    assert_eq!(map.get(2), Some(20));
    assert_eq!(map.size(), 0);
    assert_eq!(map.capacity(), 8);
}

#[test]
fn scenario_three_entries() {
    let mut map = HashMap::new();
    map.put("a", 17);
    map.put("b", 78);
    map.put("c", 777);
    assert_eq!(map.size(), 3);

    let mut seen = Vec::new();
    let mut it = map.iter();
    while let Some((k, v)) = it.next() {
        seen.push((*k, *v));
    }
    seen.sort();
    assert_eq!(seen, vec![("a", 17), ("b", 78), ("c", 777)]);

    assert_eq!(map.get("a"), Some(17));
    assert_eq!(map.size(), 2);
    assert_eq!(map.get("a"), None);
    assert_eq!(map.size(), 2);
}

#[test]
fn scenario_sixteen_keys() {
    let mut map: HashMap<i32, i32> = HashMap::new();
    assert_eq!(map.capacity(), 8);
    for i in 0..16 {
        assert_eq!(map.put(i, i), None);
        assert_eq!(map.size(), (i + 1) as usize);
        let expected = if i + 1 <= 6 {
            8
        } else if i + 1 <= 12 {
            16
        } else {
            32
        };
        assert_eq!(map.capacity(), expected);
    }
    assert_eq!(map.size(), 16);
    assert_eq!(map.capacity(), 32);

    let mut keys: Vec<i32> = traversal(&map).into_iter().map(|(k, _)| k).collect();
    keys.sort();
    assert_eq!(keys, (0..16).collect::<Vec<i32>>());
}

#[test]
fn capacity_doubles_and_never_shrinks() {
    let mut map: HashMap<u64, u64> = HashMap::new();
    let mut capacity = map.capacity();
    for i in 0..200u64 {
        map.put(i, i);
        let now = map.capacity();
        assert!(now == capacity || now == 2 * capacity);
        capacity = now;
    }
    assert_eq!(capacity, 512);
    for i in 0..200u64 {
        map.get(i);
        assert_eq!(map.capacity(), 512);
    }
    assert_eq!(map.size(), 0);
}

#[test]
fn entries_survive_growth() {
    let mut map: HashMap<u64, String> = HashMap::new();
    for i in 0..100u64 {
        map.put(i, format!("v{}", i));
    }
    assert_eq!(map.size(), 100);
    assert_eq!(map.capacity(), 256);
    for i in 0..100u64 {
        assert_eq!(map.get(i), Some(format!("v{}", i)));
    }
    assert_eq!(map.size(), 0);
}

#[test]
fn traversal_is_complete() {
    let mut map: HashMap<u64, u64> = HashMap::new();
    for i in 0..50u64 {
        map.put(i, i);
    }
    for i in 0..50u64 {
        map.put(i, i * 2);
    }
    for i in 0..10u64 {
        map.get(i);
    }

    let mut seen = Vec::new();
    let mut it = map.iter();
    while let Some(pair) = it.next() {
        seen.push(*pair);
    }
    assert_eq!(seen.len(), map.size());
    assert_eq!(seen.len(), 40);
    seen.sort();
    let expected: Vec<(u64, u64)> = (10..50u64).map(|i| (i, i * 2)).collect();
    assert_eq!(seen, expected);
}

#[test]
fn traversal_goes_bucket_by_bucket_newest_first() {
    let mut map: HashMap<i32, i32> = HashMap::new();
    let mut model = Model::new();
    for i in 0..6 {
        map.put(i, i * 100);
        model.put(i, i * 100);
        assert_eq!(traversal(&map), model.entries());
    }
    assert_eq!(map.capacity(), 8);
}

#[test]
fn put_of_a_present_key_keeps_its_place() {
    let mut map: HashMap<i32, i32> = HashMap::new();
    let mut model = Model::new();
    for i in 0..6 {
        map.put(i, i);
        model.put(i, i);
    }
    for i in 0..6 {
        assert_eq!(map.put(i, -i), Some(i));
        model.put(i, -i);
        assert_eq!(traversal(&map), model.entries());
    }
}

#[test]
fn growth_moves_entries_in_traversal_order() {
    let mut map: HashMap<i32, i32> = HashMap::new();
    let mut model = Model::new();
    for i in 0..40 {
        map.put(i * 7, i);
        model.put(i * 7, i);
        assert_eq!(traversal(&map), model.entries());
        assert_eq!(map.capacity(), model.buckets.len());
    }
    assert_eq!(map.capacity(), 64);
}

#[test]
fn get_reverses_the_bucket_of_its_key() {
    let mut map: HashMap<i32, i32> = HashMap::new();
    let mut model = Model::new();
    for i in 0..90 {
        map.put(i, i);
        model.put(i, i);
    }
    assert_eq!(traversal(&map), model.entries());
    // a hit
    assert_eq!(map.get(17), Some(17));
    model.get(17);
    assert_eq!(traversal(&map), model.entries());
    // a miss
    assert_eq!(map.get(1000), None);
    model.get(1000);
    assert_eq!(traversal(&map), model.entries());
    for i in 0..90 {
        map.get(i);
        model.get(i);
        assert_eq!(traversal(&map), model.entries());
    }
    assert_eq!(map.size(), 0);
}

#[test]
fn iter_can_be_started_again() {
    let mut map: HashMap<i32, i32> = HashMap::new();
    for i in 0..20 {
        map.put(i, i);
    }
    let first = traversal(&map);
    let second = traversal(&map);
    assert_eq!(first.len(), 20);
    assert_eq!(first, second);
    assert_eq!(map.size(), 20);
}

#[test]
fn into_iter_hands_the_entries_out_in_traversal_order() {
    let mut map: HashMap<i32, i32> = HashMap::new();
    for i in 0..30 {
        map.put(i, i + 1);
    }
    let expected = traversal(&map);
    let mut drained = Vec::new();
    let mut it = map.into_iter();
    while let Some(pair) = it.next() {
        drained.push(pair);
    }
    assert_eq!(drained, expected);
    assert_eq!(it.next(), None);
}

#[test]
fn into_iter_of_a_new_map_is_empty() {
    let map: HashMap<String, i32> = HashMap::new();
    let mut it = map.into_iter();
    assert_eq!(it.next(), None);
}
