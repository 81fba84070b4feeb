use std::sync::Arc;

use libgefs::engine::graphics::shader_manager::{parse_shader_config, ShaderManager, ShaderStage};

#[test]
fn config_with_all_stages() {
    let text = r#"{"name": "triangle", "vertex": "tri.vert.spv", "fragment": "tri.frag.spv", "compute": "tri.comp.spv"}"#;
    let c = parse_shader_config(text).unwrap();
    assert_eq!(c.name, "triangle");
    assert_eq!(c.vertex.as_deref(), Some("tri.vert.spv"));
    assert_eq!(c.fragment.as_deref(), Some("tri.frag.spv"));
    assert_eq!(c.compute.as_deref(), Some("tri.comp.spv"));
    let r = c.requests();
    let labels: Vec<&str> = r.iter().map(|q| q.label.as_str()).collect();
    assert_eq!(labels, vec!["triangle.vert", "triangle.frag", "triangle.comp"]);
    let files: Vec<&str> = r.iter().map(|q| q.file.as_str()).collect();
    assert_eq!(files, vec!["tri.vert.spv", "tri.frag.spv", "tri.comp.spv"]);
    assert!(r.iter().all(|q| q.stage == ShaderStage::Vertex));
}

#[test]
fn config_with_some_stages() {
    let c = parse_shader_config(r#"{"fragment": "f.spv", "name": "cube"}"#).unwrap();
    assert_eq!(c.name, "cube");
    assert!(c.vertex.is_none());
    assert_eq!(c.fragment.as_deref(), Some("f.spv"));
    assert!(c.compute.is_none());
    let r = c.requests();
    assert_eq!(r.len(), 1);
    assert_eq!(r[0].label, "cube.frag");
}

#[test]
fn config_without_name_is_refused() {
    assert!(parse_shader_config(r#"{"vertex": "v.spv"}"#).is_none());
}

#[test]
fn config_that_is_not_an_object_of_strings_is_refused() {
    assert!(parse_shader_config("not json").is_none());
    assert!(parse_shader_config(r#"{"name": 3}"#).is_none());
    assert!(parse_shader_config(r#"["name", "x"]"#).is_none());
}

#[test]
fn duplicate_keys_keep_the_last_value() {
    let c = parse_shader_config(r#"{"name": "a", "name": "b"}"#).unwrap();
    assert_eq!(c.name, "b");
}

#[test]
fn later_shader_of_a_stage_wins() {
    let mut m: ShaderManager<&str> = ShaderManager::new();
    m.add_shaders(
        "triangle".to_string(),
        vec![
            (ShaderStage::Vertex, Arc::new("v1")),
            (ShaderStage::Fragment, Arc::new("f1")),
            (ShaderStage::Vertex, Arc::new("v2")),
        ],
    );
    let t = m.ShaderManager.get(&"triangle".to_string()).unwrap();
    assert_eq!(**t.get(ShaderStage::Vertex).unwrap(), "v2");
    assert_eq!(**t.get(ShaderStage::Fragment).unwrap(), "f1");
    assert!(t.get(ShaderStage::Compute).is_none());
    let (v, f) = m.render_stages(&"triangle".to_string()).unwrap();
    assert_eq!((**v, **f), ("v2", "f1"));
}

#[test]
fn render_stages_need_both_modules() {
    let mut m: ShaderManager<&str> = ShaderManager::new();
    m.add_shaders("v".to_string(), vec![(ShaderStage::Vertex, Arc::new("v1"))]);
    assert!(m.render_stages(&"v".to_string()).is_none());
    assert!(m.render_stages(&"missing".to_string()).is_none());
    // a shader with no modules is still registered
    m.add_shaders("empty".to_string(), vec![]);
    assert!(m.ShaderManager.contains_key(&"empty".to_string()));
}
