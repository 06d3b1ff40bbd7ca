use chained_hash_map::key::Key;
use std::collections::hash_map::DefaultHasher;
use std::hash::{Hash, Hasher};

fn std_hash<T: Hash + ?Sized>(key: &T) -> u64 {
    let mut hasher = DefaultHasher::new();
    key.hash(&mut hasher);
    hasher.finish()
}

#[test]
fn i32_keys_hash_as_the_standard_library_does() {
    for key in [0i32, 1, -1, 7, i32::MAX, i32::MIN] {
        assert_eq!(Key::hash_code(&key), std_hash(&key));
    }
    assert_ne!(Key::hash_code(&1i32), Key::hash_code(&2i32));
    assert_ne!(Key::hash_code(&1i32), DefaultHasher::new().finish());
}

#[test]
fn u64_keys_hash_as_the_standard_library_does() {
    for key in [0u64, 1, 7, u64::MAX] {
        assert_eq!(Key::hash_code(&key), std_hash(&key));
    }
    assert_ne!(Key::hash_code(&1u64), Key::hash_code(&2u64));
    assert_ne!(Key::hash_code(&1u64), DefaultHasher::new().finish());
}

#[test]
fn string_keys_hash_as_the_standard_library_does() {
    for key in ["", "a", "key_1", "grüße"] {
        assert_eq!(Key::hash_code(&key), std_hash(key));
        assert_eq!(Key::hash_code(&key.to_string()), std_hash(&key.to_string()));
        assert_eq!(Key::hash_code(&key), Key::hash_code(&key.to_string()));
    }
    assert_ne!(Key::hash_code(&"a"), Key::hash_code(&"b"));
    assert_ne!(Key::hash_code(&"a"), DefaultHasher::new().finish());
}

#[test]
fn same_compares_by_value() {
    assert!(Key::same(&3i32, &3i32));
    assert!(!Key::same(&3i32, &4i32));
    assert!(Key::same(&3u64, &3u64));
    assert!(!Key::same(&3u64, &4u64));
    assert!(Key::same(&"ab", &"ab"));
    assert!(!Key::same(&"ab", &"abc"));
    let left = "ab".to_string();
    let mut right = "a".to_string();
    assert!(!Key::same(&left, &right));
    right.push('b');
    assert!(Key::same(&left, &right));
}
