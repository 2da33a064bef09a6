//! A verified core for a build orchestrator.

pub mod cli;
pub mod command;
pub mod config;
pub mod config_laws;
pub mod console;
pub mod console_laws;
pub mod cycle;
pub mod dag;
pub mod dag_laws;
pub mod error;
pub mod executor;
pub mod graph;
pub mod graph_laws;
pub mod kahn;
pub mod name_map;
pub mod order;
pub mod plan;
pub mod plan_laws;
pub mod repeat;
pub mod run;
pub mod run_laws;
pub mod select;
pub mod shell;
pub mod slots;
pub mod step_laws;
pub mod task;
pub mod task_set;
pub mod text;
pub mod text_laws;
pub mod time;
pub mod tomlx_error;
pub mod view_laws;
