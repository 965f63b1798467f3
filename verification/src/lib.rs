//! Release automation logic: deciding the next semantic version from
//! conventional commit messages, keeping release rules, rendering the
//! changelog, and reading version tags.
pub mod analyzer;
pub mod changelog;
pub mod conventional;
pub mod text;
pub mod utils;
pub mod release;
pub mod github;
