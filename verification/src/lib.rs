//! Triage of marker comments.

pub mod cli;
pub mod config;
pub mod context;
pub mod created;
pub mod draft;
pub mod editor;
pub mod forge;
pub mod highlight;
pub mod language;
pub mod matcher;
pub mod model;
pub mod order;
pub mod path;
pub mod port;
pub mod process;
pub mod remove;
pub mod render;
pub mod repo;
pub mod report;
pub mod run;
pub mod scan;
pub mod session;
pub mod text;
pub mod tui;
