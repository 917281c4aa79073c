//! Nodes with variable-length byte keys.
//!
//! They are the generic nodes with `Vec<u8>` keys: each key has a 2-byte length
//! prefix and is padded to the tree's longest key, which the `config` field of
//! a node holds.

use vstd::prelude::*;

use crate::btree::key::VAR_KEY_LEN_PREFIX;
use crate::btree::node::{
    internal_cap, leaf_cap, InternalEntry, InternalNode, LeafEntry, LeafNode,
};

verus! {

/// An entry in a variable-key internal node.
pub type VarInternalEntry = InternalEntry<Vec<u8>>;

/// An entry in a variable-key leaf node.
pub type VarLeafEntry = LeafEntry<Vec<u8>>;

/// A variable-key B+Tree internal node.
pub type VarInternalNode = InternalNode<Vec<u8>>;

/// A variable-key B+Tree leaf node.
pub type VarLeafNode = LeafNode<Vec<u8>>;

/// Calculates maximum internal entries for a given max key size.
pub fn var_internal_max_keys(max_key_size: usize) -> (r: usize)
    requires
        max_key_size <= usize::MAX - 8,
    ensures
        r == 8152int / (max_key_size + 6),
        max_key_size <= u16::MAX ==> r == internal_cap::<Vec<u8>>(max_key_size as u16),
{
    8152 / (VAR_KEY_LEN_PREFIX + max_key_size + 4)
}

/// Calculates maximum leaf entries for a given max key size.
pub fn var_leaf_max_entries(max_key_size: usize) -> (r: usize)
    requires
        max_key_size <= usize::MAX - 8,
    ensures
        r == 8148int / (max_key_size + 8),
        max_key_size <= u16::MAX ==> r == leaf_cap::<Vec<u8>>(max_key_size as u16),
{
    8148 / (VAR_KEY_LEN_PREFIX + max_key_size + 6)
}

proof fn lemma_quotient(n: int, d: int)
    by (nonlinear_arith)
    requires
        n >= 0,
        d > 0,
    ensures
        0 <= n / d <= n,
{
}

/// Minimum keys before an internal node is considered underfull.
pub fn var_internal_min_keys(max_key_size: usize) -> (r: usize)
    requires
        max_key_size <= usize::MAX - 8,
    ensures
        r == (8152int / (max_key_size + 6)) * 40 / 100,
{
    proof {
        lemma_quotient(8152, max_key_size + 6);
    }
    var_internal_max_keys(max_key_size) * 40 / 100
}

/// Minimum entries before a leaf node is considered underfull.
pub fn var_leaf_min_entries(max_key_size: usize) -> (r: usize)
    requires
        max_key_size <= usize::MAX - 8,
    ensures
        r == (8148int / (max_key_size + 8)) * 40 / 100,
{
    proof {
        lemma_quotient(8148, max_key_size + 8);
    }
    var_leaf_max_entries(max_key_size) * 40 / 100
}

} // verus!
