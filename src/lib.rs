//! Workflow automation engine: placeholder substitution, the workflow model,
//! stage planning, and the decisions that drive task execution.

pub mod placeholders;
pub mod structure;
pub mod planner;
pub mod executor;
pub mod versions;
pub mod plugins;
pub mod config;
