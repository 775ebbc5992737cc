//! Taskigt: an outline/notes engine for plain-text documents built from
//! indentation and one-character bullet markers.
//!
//! A document is a tree of typed items. Each line of the text form carries a
//! marker (`?`, `*`, `#`, `-`, `|`), a separating space and free text; its
//! nesting depth is given by two-space indentation units. The crate offers
//! the item model (marker parsing and single-line formatting), an arena tree
//! store with structural edits (insert, leaf removal, subtree grafting), and
//! the document codec (whole-document parse and render, plus a fold-aware
//! render for display). The defining property, proved in `round_trip`, is
//! that rendering a tree and parsing the result rebuilds the same tree.

pub mod itemtree;
pub mod codec;
pub mod model;
pub mod round_trip;
