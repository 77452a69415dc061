pub mod config;
pub mod disk;
pub mod files;
pub mod json;
pub mod repo_structure;
pub mod writer;
