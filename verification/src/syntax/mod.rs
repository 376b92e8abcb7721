//! Red trees: views of green trees that know their position and offsets.

pub mod iter;
pub mod navigation;
pub mod replace;
pub mod node;
pub mod text;
pub mod token;
pub mod tokens;
pub mod zip;

pub use iter::{SyntaxElementChildren, SyntaxNodeChildren};
pub use node::SyntaxNode;
pub use text::{SyntaxData, SyntaxText, SyntaxTextRange};
pub use token::{SyntaxElement, SyntaxToken};
