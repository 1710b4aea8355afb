//! Individual lint rules.

pub mod duplication;
pub mod invalid_frontmatter;
pub mod oversized;
pub mod untyped_backtick;
pub mod unused_fragment;
