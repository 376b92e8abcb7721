//! Lossless syntax trees: green trees built bottom-up by a builder, red views
//! over them with absolute offsets, token interning and text access.

pub mod builder;
pub mod derive;
pub mod display;
pub mod events;
pub mod green;
pub mod interning;
pub mod kind;
pub mod node_data;
pub mod syntax;
pub mod text;
pub mod tree_debug;
pub mod utf8;
pub mod util;

pub use kind::{RawSyntaxKind, Syntax};
