//! Cursor for variable-key B+Tree: range scans and iteration.

use vstd::prelude::*;

use crate::btree::cursor::{BTreeCursor, CursorEntry, CursorItem};

verus! {

/// A positioned cursor over the leaf entries of a variable-key tree.
pub type VarCursor = BTreeCursor<Vec<u8>>;

/// A key-value pair returned by the cursor.
pub type VarCursorEntry = CursorEntry<Vec<u8>>;

/// Item returned by `next_entry()`.
pub type VarCursorItem = CursorItem<Vec<u8>>;

} // verus!
