use libgefs::engine::graphics::resource_manager::GPUResourceManager;

#[test]
fn layouts_are_found_by_name() {
    let mut m: GPUResourceManager<&str, u8, u16> = GPUResourceManager::init(());
    m.add_bind_group_layout("cube".to_string(), "cube layout");
    m.add_bind_group_layout("sky".to_string(), "sky layout");
    let names = vec!["sky".to_string(), "cube".to_string()];
    let found = m.layouts_for(&names).unwrap();
    assert_eq!(found.len(), 2);
    assert_eq!(**found[0], "sky layout");
    assert_eq!(**found[1], "cube layout");
    assert!(m.layouts_for(&vec!["cube".to_string(), "none".to_string()]).is_none());
    assert_eq!(m.layouts_for(&Vec::new()).unwrap().len(), 0);
}

#[test]
fn bind_groups_are_kept_per_name_and_index() {
    let mut m: GPUResourceManager<&str, u8, u16> = GPUResourceManager::init(());
    m.add_bind_group("cube".to_string(), 1, 0);
    m.add_bind_group("cube".to_string(), 2, 3);
    m.add_bind_group("cube".to_string(), 5, 0);
    m.add_bind_group("sky".to_string(), 9, 1);
    let cube = m.bind_groups.get(&"cube".to_string()).unwrap();
    assert_eq!(cube.len(), 2);
    assert_eq!(**cube.get(&0).unwrap(), 5);
    assert_eq!(**cube.get(&3).unwrap(), 2);
    let sky = m.bind_groups.get(&"sky".to_string()).unwrap();
    assert_eq!(**sky.get(&1).unwrap(), 9);
    assert_eq!(m.bind_groups.len(), 2);
}

#[test]
fn a_taken_layout_name_is_visible_before_adding() {
    let mut m: GPUResourceManager<&str, u8, u16> = GPUResourceManager::init(());
    assert!(!m.bind_group_layouts.contains_key(&"cube".to_string()));
    m.add_bind_group_layout("cube".to_string(), "a");
    assert!(m.bind_group_layouts.contains_key(&"cube".to_string()));
    assert!(m.bind_groups.get(&"cube".to_string()).is_none());
}
