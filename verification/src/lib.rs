//! Atlas core: task-DAG governance logic with machine-checked contracts.
pub mod text;
pub mod json;
pub mod dag;
pub mod error;
pub mod model;
pub mod lifecycle;
pub mod protocol;
pub mod ffi;
pub mod estimator;
pub mod tree;
pub mod promotion;
pub mod forge;
pub mod serve;
pub mod xavier;
pub mod wasm;
pub mod watch;
pub mod commands;
