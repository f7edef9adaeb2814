//! Package and version diffing for Nix closures.
//!
//! The library splits version strings into components, orders them,
//! matches the versions of a package across two closures and classifies
//! each package change.
pub mod assignment;
pub mod cli;
pub mod closure;
pub mod command;
pub mod edit;
pub mod engine;
pub mod fallback;
pub mod json;
pub mod lines;
pub mod listing;
pub mod matching;
pub mod model;
pub mod package;
pub mod paths;
pub mod render;
pub mod report;
pub mod store_path;
pub mod text;
pub mod version;
