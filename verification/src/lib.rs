//! Skillet: authoring skills in `.pan` files and compiling them to `SKILL.md`.
pub mod budget;
pub mod build_plan;
pub mod collections;
pub mod compile;
pub mod compiler;
pub mod config;
pub mod freshness;
pub mod hashing;
pub mod init;
pub mod lint;
pub mod lockfile;
pub mod parse;
pub mod patterns;
pub mod publish;
pub mod refs;
pub mod skillet_compiler;
pub mod text;
pub mod tokens;
pub mod workspace;
