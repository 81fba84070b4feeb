use libgefs::engine::graphics::name_map::{contains_name, NameMap};

#[test]
fn name_map_insert_and_get() {
    let mut m: NameMap<u32> = NameMap::new();
    assert_eq!(m.len(), 0);
    assert_eq!(m.insert("a".to_string(), 1), None);
    assert_eq!(m.insert("b".to_string(), 2), None);
    assert_eq!(m.get(&"a".to_string()), Some(&1));
    assert_eq!(m.get(&"b".to_string()), Some(&2));
    assert_eq!(m.get(&"c".to_string()), None);
    assert!(m.contains_key(&"b".to_string()));
    assert!(!m.contains_key(&"c".to_string()));
}

#[test]
fn name_map_replacing_keeps_position() {
    let mut m: NameMap<u32> = NameMap::new();
    m.insert("a".to_string(), 1);
    m.insert("b".to_string(), 2);
    assert_eq!(m.insert("a".to_string(), 10), Some(1));
    assert_eq!(m.len(), 2);
    assert_eq!(m.name_at(0), "a");
    assert_eq!(m.name_at(1), "b");
    assert_eq!(m.get(&"a".to_string()), Some(&10));
}

#[test]
fn name_map_remove() {
    let mut m: NameMap<u32> = NameMap::new();
    m.insert("a".to_string(), 1);
    m.insert("b".to_string(), 2);
    m.insert("c".to_string(), 3);
    assert_eq!(m.remove(&"b".to_string()), Some(2));
    assert_eq!(m.remove(&"b".to_string()), None);
    assert_eq!(m.len(), 2);
    assert_eq!(m.name_at(0), "a");
    assert_eq!(m.name_at(1), "c");
    assert_eq!(m.get(&"c".to_string()), Some(&3));
}

#[test]
fn contains_name_compares_characters() {
    let v = vec!["x".to_string(), "yz".to_string()];
    assert!(contains_name(&v, &"yz".to_string()));
    assert!(!contains_name(&v, &"y".to_string()));
    assert!(!contains_name(&Vec::new(), &"x".to_string()));
}
