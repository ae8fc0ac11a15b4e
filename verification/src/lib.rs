//! Architecture linter for Feature-Sliced Design projects.
pub mod text;
pub mod order;
pub mod path_utils;
pub mod diagnostic;
pub mod fsd;
pub mod bindings;
pub mod imports;
pub mod rules;
pub mod config;
pub mod engine;
pub mod baseline;
pub mod reporter;
