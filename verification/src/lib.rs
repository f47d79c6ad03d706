//! A system-information display library: a user-authored layout (a logo plus
//! named text components) is rendered into column-aligned terminal lines,
//! with inline `[color]` markup and `{placeholder}` substitution resolved
//! along the way.  The configuration can be stored in a compact binary
//! record format.

pub mod config;
pub mod module;
pub mod msgpack;
pub mod render;
pub mod resolve;
