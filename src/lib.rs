//! Rule-driven dependency scheduling for static site generation.

pub mod binding;
pub mod compiler;
pub mod configuration;
pub mod graph;
pub mod handle;
pub mod item;
pub mod job;
pub mod manager;
pub mod output;
pub mod pattern;
pub mod regexp;
pub mod router;
pub mod rule;
pub mod site;
