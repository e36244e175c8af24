//! Retained source storage, component mount bookkeeping and native host
//! decision logic for a terminal UI runtime.
pub mod annotation;
pub mod shared;
pub mod chunk;
pub mod store;
pub mod input;
pub mod component;
pub mod ui_resources;
pub mod commit_plan;
pub mod host;
pub mod frame_flow;
pub mod laws;
pub mod runtime;
