pub mod options;
pub mod flat;
pub mod render;
pub mod tree;

pub use options::TrekOptions;
pub use render::{classify, render_line, EntryKind};
pub use tree::{render_tree, Node};
pub use flat::{render_flat, FlatEntry};
