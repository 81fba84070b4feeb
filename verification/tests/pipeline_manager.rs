use libgefs::engine::graphics::dependency::DependencyError;
use libgefs::engine::graphics::pipeline_manager::{
    order_from_resolutions, CommandQueueItem, PipelineManager,
};

fn s(x: &str) -> String {
    x.to_string()
}

fn position(order: &[String], name: &str) -> usize {
    order.iter().position(|n| n == name).unwrap()
}

fn item(name: &str, buffer: u32) -> CommandQueueItem<u32> {
    CommandQueueItem { name: s(name), buffer }
}

#[test]
fn new_manager_has_no_order() {
    let m: PipelineManager<u32> = PipelineManager::new();
    assert!(m.submission_order().is_empty());
    assert_eq!(m.pipelines.len(), 0);
}

#[test]
fn single_pipeline_then_ui() {
    let mut m: PipelineManager<u32> = PipelineManager::new();
    m.add_pipeline(s("triangle"), 1, vec![]);
    assert_eq!(m.submission_order(), &vec![s("triangle"), s("UI")]);
    assert_eq!(m.pipelines.get(&s("triangle")), Some(&1));
}

#[test]
fn dependencies_come_first() {
    let mut m: PipelineManager<u32> = PipelineManager::new();
    m.add_pipeline(s("shadow"), 1, vec![]);
    m.add_pipeline(s("main"), 2, vec![s("shadow"), s("depth")]);
    m.add_pipeline(s("post"), 3, vec![s("main")]);
    let order = m.submission_order().clone();
    assert_eq!(order.len(), 5);
    assert_eq!(order.last().unwrap(), "UI");
    assert!(position(&order, "shadow") < position(&order, "main"));
    assert!(position(&order, "depth") < position(&order, "main"));
    assert!(position(&order, "main") < position(&order, "post"));
    // each name once
    for n in ["shadow", "depth", "main", "post"] {
        assert_eq!(order.iter().filter(|x| *x == n).count(), 1);
    }
}

#[test]
fn re_adding_replaces_pipeline_and_keeps_dependencies() {
    let mut m: PipelineManager<u32> = PipelineManager::new();
    m.add_pipeline(s("a"), 1, vec![s("b")]);
    m.add_pipeline(s("a"), 9, vec![]);
    assert_eq!(m.pipelines.get(&s("a")), Some(&9));
    assert_eq!(m.pipelines.len(), 1);
    assert_eq!(m.submission_order(), &vec![s("b"), s("a"), s("UI")]);
}

#[test]
fn checked_add_refuses_a_cycle_and_changes_nothing() {
    let mut m: PipelineManager<u32> = PipelineManager::new();
    assert_eq!(m.add_pipeline_checked(s("a"), 1, vec![s("b")]), Ok(()));
    let before = m.submission_order().clone();
    assert_eq!(before, vec![s("b"), s("a"), s("UI")]);
    assert_eq!(
        m.add_pipeline_checked(s("b"), 2, vec![s("a")]),
        Err(DependencyError::CycleDetected)
    );
    assert_eq!(m.submission_order(), &before);
    assert!(m.pipelines.get(&s("b")).is_none());
    // the graph did not change either: b can still be added without dependencies
    assert_eq!(m.add_pipeline_checked(s("b"), 2, vec![]), Ok(()));
    assert_eq!(m.submission_order(), &vec![s("b"), s("a"), s("UI")]);
}

#[test]
fn checked_add_refuses_self_dependency() {
    let mut m: PipelineManager<u32> = PipelineManager::new();
    assert_eq!(
        m.add_pipeline_checked(s("a"), 1, vec![s("a")]),
        Err(DependencyError::CycleDetected)
    );
    assert_eq!(m.pipelines.len(), 0);
}

#[test]
fn order_from_resolutions_merges_and_appends_ui() {
    let lists = vec![
        vec![s("b"), s("a")],
        vec![s("b"), s("c")],
        vec![s("a"), s("d"), s("c")],
    ];
    assert_eq!(
        order_from_resolutions(&lists),
        vec![s("b"), s("a"), s("c"), s("d"), s("UI")]
    );
    assert_eq!(order_from_resolutions(&Vec::new()), vec![s("UI")]);
}

#[test]
fn collect_buffers_groups_by_order() {
    let mut m: PipelineManager<u32> = PipelineManager::new();
    m.add_pipeline(s("cube"), 0, vec![]);
    let mut queue = vec![item("cube", 1), item("other", 2), item("UI", 3), item("cube", 4)];
    let out = m.collect_buffers(&mut queue);
    // the queue is emptied from its end, so within a pass the last comes first
    assert_eq!(out, vec![4, 1, 3]);
    assert!(queue.is_empty());
}

#[test]
fn collect_buffers_of_scheduled_items_drops_nothing() {
    let mut m: PipelineManager<u32> = PipelineManager::new();
    m.add_pipeline(s("cube"), 0, vec![]);
    let mut queue = vec![item("cube", 7)];
    let out = m.collect_buffers(&mut queue);
    assert_eq!(out, vec![7]);
    let mut empty: Vec<CommandQueueItem<u32>> = Vec::new();
    assert!(m.collect_buffers(&mut empty).is_empty());
}

#[test]
fn collect_buffers_without_order_drops_everything() {
    let m: PipelineManager<u32> = PipelineManager::new();
    let mut queue = vec![item("cube", 1)];
    assert!(m.collect_buffers(&mut queue).is_empty());
    assert!(queue.is_empty());
}

#[test]
fn re_added_pipeline_stays_in_the_order_after_its_dependencies() {
    let mut m: PipelineManager<u32> = PipelineManager::new();
    m.add_pipeline(s("a"), 1, vec![]);
    m.add_pipeline(s("b"), 2, vec![]);
    m.add_pipeline(s("a"), 3, vec![s("c")]);
    let order = m.submission_order().clone();
    assert!(position(&order, "c") < position(&order, "a"));
    assert!(order.contains(&s("b")));
    assert_eq!(order.last().unwrap(), "UI");
    assert_eq!(m.pipelines.get(&s("a")), Some(&3));
}
