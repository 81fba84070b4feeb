pub mod dependency;
pub mod name_map;
pub mod pipeline_manager;
pub mod resource_manager;
pub mod shader_manager;
