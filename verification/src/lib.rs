//! An immutable, persistent text representation (a rope).
//!
//! A `Text` value wraps a balanced tree of character blocks and supports
//! concatenation, slicing, insertion and removal without copying the
//! unaffected parts of the tree; unchanged subtrees are shared between
//! the old and the new value through reference counting.

pub mod node;
pub mod text;
