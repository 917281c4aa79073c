//! Variable-key B+Tree: a B+Tree that supports variable-length byte keys.
//!
//! This is used for secondary indexes where keys are composite (encoded field
//! value + UUID).

use vstd::prelude::*;

use crate::btree::node::{config_ok, internal_cap, leaf_cap, Entry};
use crate::btree::{BTree, BTreeMeta};
use crate::error::Result;

verus! {

/// Metadata stored in page 1 of the index file.
pub type VarBTreeMeta = BTreeMeta<Vec<u8>>;

/// A B+Tree index with variable-length byte keys.
///
/// Keys are arbitrary byte slices up to `max_key_size` bytes.
pub type VarBTree = BTree<Vec<u8>>;

/// The longest key of which a page holds at least one.
pub const LONGEST_VAR_KEY: u16 = 8140;

/// Nodes have room exactly for keys up to [`LONGEST_VAR_KEY`].
pub proof fn lemma_var_config(max_key_size: u16)
    ensures
        config_ok::<Vec<u8>>(max_key_size) == (max_key_size <= LONGEST_VAR_KEY),
{
    let w = max_key_size as int;
    assert(leaf_cap::<Vec<u8>>(max_key_size) == (8148int / (w + 8)) as nat);
    assert(internal_cap::<Vec<u8>>(max_key_size) == (8152int / (w + 6)) as nat);
    assert((8148int / (w + 8) >= 1) == (w <= 8140)) by (nonlinear_arith)
        requires
            w >= 0,
    ;
    assert((8152int / (w + 6) >= 1) == (w <= 8146)) by (nonlinear_arith)
        requires
            w >= 0,
    ;
}

impl BTree<Vec<u8>> {
    /// Creates a new variable-key B+Tree.
    ///
    /// `max_key_size` determines the maximum key length and affects fan-out.
    pub fn create(max_key_size: u16) -> (r: Result<Self>)
        ensures
            r is Ok,
            r->Ok_0.filled(),
            r->Ok_0.tidy(),
            r->Ok_0.meta.config == max_key_size,
            r->Ok_0.meta.height == 1,
            r->Ok_0.pm.count() == 3,
            max_key_size <= LONGEST_VAR_KEY ==> r->Ok_0.wf() && r->Ok_0.entries() == Seq::<
                Entry,
            >::empty(),
    {
        proof {
            lemma_var_config(max_key_size);
        }
        BTree::create_with(max_key_size)
    }

    /// Returns the maximum key size.
    pub fn max_key_size(&self) -> (r: u16)
        ensures
            r == self.meta.config,
    {
        self.meta.config
    }
}

} // verus!
