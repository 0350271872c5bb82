use vstd::prelude::*;

pub mod commands;
pub mod binary64;
pub mod compositor;
pub mod decode;
pub mod editor;
pub mod encode;
pub mod export;
pub mod mcp;
pub mod numtext;
pub mod probe;
pub mod project;
pub mod render;
pub mod store;
pub mod text;
pub mod timeline;

verus! {
} // verus!
