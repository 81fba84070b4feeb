//! Core of a small game engine: resource storage, input state, frame timing,
//! and the bookkeeping behind the render pipelines (named GPU resources,
//! shader tables, pipeline ordering by dependencies and command buffer
//! collection).
pub mod application;
pub mod engine;
