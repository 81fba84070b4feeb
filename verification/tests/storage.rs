use std::any::{Any, TypeId};

use libgefs::engine::storage::GameStorage;

#[test]
fn test_storage() {
    let mut g: GameStorage<TypeId, Box<dyn Any>> = GameStorage::new();
    g.add(TypeId::of::<String>(), Box::new("shit".to_owned()));
    g.add(TypeId::of::<String>(), Box::new("fucking gay".to_owned()));
    let _ = g.retain(TypeId::of::<String>(), |x: &Box<dyn Any>| {
        *x.downcast_ref::<String>().unwrap() == "shit".to_owned()
    });
    let v = g.resources.get(&TypeId::of::<String>()).unwrap();
    assert!(v.len() == 1);
    g.add(TypeId::of::<u32>(), Box::new(1u32));
    g.add(TypeId::of::<u32>(), Box::new(2u32));
    g.add(TypeId::of::<u32>(), Box::new(3u32));
    g.add(TypeId::of::<u32>(), Box::new(4u32));
    g.add(TypeId::of::<u32>(), Box::new(5u32));
    g.add(TypeId::of::<u32>(), Box::new(6u32));
    g.add(TypeId::of::<u32>(), Box::new(7u32));
    g.add(TypeId::of::<u32>(), Box::new(8u32));
    let _ = g.retain(TypeId::of::<u32>(), |x: &Box<dyn Any>| *x.downcast_ref::<u32>().unwrap() > 4);
    let v = g.resources.get(&TypeId::of::<u32>()).unwrap();
    assert!(v.len() == 4);
}

#[test]
fn add_starts_a_list_then_appends_in_order() {
    let mut g: GameStorage<u64, i32> = GameStorage::new();
    assert!(g.resources.is_empty());
    g.add(7, 10);
    assert_eq!(g.resources.get(&7).unwrap(), &vec![10]);
    g.add(7, 20);
    g.add(9, 30);
    assert_eq!(g.resources.get(&7).unwrap(), &vec![10, 20]);
    assert_eq!(g.resources.get(&9).unwrap(), &vec![30]);
    assert_eq!(g.resources.len(), 2);
}

#[test]
fn retain_keeps_matching_in_order() {
    let mut g: GameStorage<u64, i32> = GameStorage::new();
    for x in [5, -1, 8, 3, -7, 9] {
        g.add(1, x);
    }
    g.add(2, -4);
    assert_eq!(g.retain(1, |x: &i32| *x > 0), Ok(()));
    assert_eq!(g.resources.get(&1).unwrap(), &vec![5, 8, 3, 9]);
    // other kinds are untouched
    assert_eq!(g.resources.get(&2).unwrap(), &vec![-4]);
}

#[test]
fn retain_on_missing_kind_fails_and_changes_nothing() {
    let mut g: GameStorage<u64, i32> = GameStorage::new();
    g.add(1, 3);
    assert_eq!(g.retain(5, |_x: &i32| true), Err(()));
    assert_eq!(g.resources.len(), 1);
    assert_eq!(g.resources.get(&1).unwrap(), &vec![3]);
    assert!(g.resources.get(&5).is_none());
}

#[test]
fn retain_everything_filtered_out_leaves_empty_list() {
    let mut g: GameStorage<u64, i32> = GameStorage::new();
    g.add(1, 3);
    g.add(1, 4);
    assert_eq!(g.retain(1, |_x: &i32| false), Ok(()));
    assert_eq!(g.resources.get(&1).unwrap(), &Vec::<i32>::new());
}

#[test]
fn retaining_twice_is_retaining_once() {
    let mut g: GameStorage<u64, i32> = GameStorage::new();
    for x in [4, 11, 6, 13, 2, 20] {
        g.add(3, x);
    }
    let _ = g.retain(3, |x: &i32| x % 2 == 0);
    let once = g.resources.get(&3).unwrap().clone();
    let _ = g.retain(3, |x: &i32| x % 2 == 0);
    assert_eq!(g.resources.get(&3).unwrap(), &once);
    assert_eq!(once, vec![4, 6, 2, 20]);
}

#[test]
fn select_by_typeid_returns_matching_references_in_order() {
    let mut g: GameStorage<u64, String> = GameStorage::new();
    g.add(1, "apple".to_owned());
    g.add(1, "banana".to_owned());
    g.add(1, "avocado".to_owned());
    let selected = g.select_by_typeid(&1, |s: &String| s.starts_with('a')).unwrap();
    let selected: Vec<&str> = selected.iter().map(|s| s.as_str()).collect();
    assert_eq!(selected, vec!["apple", "avocado"]);
    // the storage itself is unchanged
    assert_eq!(g.resources.get(&1).unwrap().len(), 3);
}

#[test]
fn select_by_typeid_on_missing_kind_is_none() {
    let mut g: GameStorage<u64, String> = GameStorage::new();
    g.add(1, "apple".to_owned());
    assert!(g.select_by_typeid(&2, |_s: &String| true).is_none());
}

#[test]
fn select_by_typeid_mut_writes_through_to_the_list() {
    let mut g: GameStorage<u64, i32> = GameStorage::new();
    for x in [1, 20, 3, 40] {
        g.add(5, x);
    }
    g.add(6, 50);
    {
        let selected = g.select_by_typeid_mut(&5, |x: &i32| *x >= 10).unwrap();
        assert_eq!(selected.len(), 2);
        for r in selected {
            *r += 1;
        }
    }
    assert_eq!(g.resources.get(&5).unwrap(), &vec![1, 21, 3, 41]);
    assert_eq!(g.resources.get(&6).unwrap(), &vec![50]);
}

#[test]
fn select_by_typeid_mut_on_missing_kind_is_none() {
    let mut g: GameStorage<u64, i32> = GameStorage::new();
    g.add(5, 1);
    assert!(g.select_by_typeid_mut(&7, |_x: &i32| true).is_none());
    assert_eq!(g.resources.len(), 1);
}

#[test]
fn select_by_typeid_mut_with_any_objects() {
    let mut g: GameStorage<TypeId, Box<dyn Any>> = GameStorage::new();
    g.add(TypeId::of::<u32>(), Box::new(3u32));
    g.add(TypeId::of::<u32>(), Box::new(8u32));
    for b in g
        .select_by_typeid_mut(&TypeId::of::<u32>(), |x: &Box<dyn Any>| *x.downcast_ref::<u32>().unwrap() > 4)
        .unwrap()
    {
        *b = Box::new(0u32);
    }
    let v = g.resources.get(&TypeId::of::<u32>()).unwrap();
    assert_eq!(*v[0].downcast_ref::<u32>().unwrap(), 3);
    assert_eq!(*v[1].downcast_ref::<u32>().unwrap(), 0);
}
