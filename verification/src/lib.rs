//! Verified core of the crates-pro service: advisory version matching, cache
//! encodings, API response assembly, the dependency-graph walk, the registry
//! mirror's log replay, contributor analysis, GitHub paging and tallies,
//! analysis job planning, uploads, and the text handling they share.

pub mod text;
pub mod versions;
pub mod advisory;
pub mod api;
pub mod cache;
pub mod numbers;
pub mod github;
pub mod contributors;
pub mod mirror;
pub mod paths;
pub mod sync;
pub mod analysis;
pub mod walk;
pub mod github_sync;
pub mod general_model;
pub mod plugin_model;
pub mod crate_info;
pub mod tu_client;
pub mod core_controller;
pub mod upload;
pub mod git_commands;
pub mod load_plugin;
pub mod scripts;
pub mod graph_rows;
