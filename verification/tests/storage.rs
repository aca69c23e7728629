//! The typed storage: at most one value per key, lookup by key, destructive
//! removal.

use shaku::TypeMap;

#[test]
fn get_returns_what_insert_stored() {
    let mut map: TypeMap<String> = TypeMap::new();
    assert!(!map.contains(1));
    map.insert(1, "one".to_string());
    map.insert(2, "two".to_string());
    assert!(map.contains(1));
    assert_eq!(map.get(1).unwrap().as_str(), "one");
    assert_eq!(map.get(2).unwrap().as_str(), "two");
    assert!(map.get(3).is_none());
}

#[test]
fn insert_replaces_the_previous_value() {
    let mut map: TypeMap<String> = TypeMap::new();
    map.insert(1, "first".to_string());
    map.insert(1, "second".to_string());
    assert_eq!(map.get(1).unwrap().as_str(), "second");
}

#[test]
fn remove_is_destructive() {
    let mut map: TypeMap<String> = TypeMap::new();
    map.insert(1, "kept".to_string());
    map.insert(2, "taken".to_string());
    assert_eq!(map.remove(2), Some("taken".to_string()));
    assert_eq!(map.remove(2), None);
    assert!(map.get(2).is_none());
    assert_eq!(map.get(1).unwrap().as_str(), "kept");
}
