//! Binding of an evaluation table to its vector commitment.

use vstd::prelude::*;
use vstd::arithmetic::power2::pow2;

use crate::merkletree::MerkleTree;
use crate::merkletree::new_merkle_tree;
use crate::merkletree::merkle_root_of;
use crate::merkletree::felt_leaf_digest;
use crate::merkletree::root_s;
use crate::polynomial::PolynomialPoints;
use crate::polynomial::smooth_int;

verus! {

/// An evaluation table together with the Merkle tree over its points in
/// ordinal order.
pub struct Commited {
    /// The committed table.
    pub data: PolynomialPoints,
    /// The tree whose leaf i is the hash of point i.
    pub ptree: MerkleTree,
}

/// The commitment binds the tree to the table: leaf i of the tree digests
/// point i, and the root is the Merkle root of the point list.
pub open spec fn commited_wf(c: &Commited) -> bool {
    &&& c.ptree.wf()
    &&& c.ptree.leaf_count() == c.data.evals@.len()
    &&& forall|i: int|
        0 <= i < c.data.evals@.len() ==> c.ptree.levels_s()[0][i] == felt_leaf_digest(
            #[trigger] c.data.evals@[i],
        )
    &&& root_s(c.ptree.levels_s()[0]) == merkle_root_of(c.data.evals@)
}

impl Commited {
    /// Pairs a table with a tree already built over it.
    pub fn new(ptree: MerkleTree, data: PolynomialPoints) -> (r: Commited)
        ensures
            r.ptree == ptree,
            r.data == data,
    {
        Commited { data, ptree }
    }
}

impl PolynomialPoints {
    /// Commits the table: hashes every point in ordinal order and builds
    /// the Merkle tree above the digests.
    pub fn commit(self) -> (r: Commited)
        requires
            self.evals@.len() >= 1,
            smooth_int(self.evals@.len() as int),
        ensures
            commited_wf(&r),
            r.data == self,
    {
        proof {
            let k = choose|k: nat| k <= 32 && self.evals@.len() as int == pow2(k);
            assert(k <= 32 && self.evals@.len() == pow2(k));
        }
        let ptree = new_merkle_tree(&self.evals);
        proof {
            assert(self.evals@.map(|i: int, v: u64| felt_leaf_digest(v)) =~= ptree.levels_s()[0]);
        }
        Commited { data: self, ptree }
    }
}

} // verus!
