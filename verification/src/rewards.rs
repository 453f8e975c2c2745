//! Assembly of the reward gadget: a tree depth, hash parameters and a tree,
//! each either chosen by the caller or taken from the defaults.

use crate::merkle::{MerkleAccumulator, MerkleError, TreeState, MAX_DEPTH};
use crate::poseidon::{default_hasher, default_params, Poseidon, PoseidonParams, HASH_WIDTH};
use vstd::prelude::*;

verus! {

/// The depth of a tree when none is chosen.
pub const DEFAULT_TREE_DEPTH: usize = 30;

/// A tree with the parameters it was built for.
pub struct RewardGadget {
    depth: usize,
    hash_params: Poseidon,
    tree: MerkleAccumulator,
}

/// The choices made so far for a `RewardGadget`.
pub struct RewardGadgetBuilder {
    depth: Option<usize>,
    hash_params: Option<Poseidon>,
    tree: Option<MerkleAccumulator>,
}

/// The depth that the builder settles on.
pub open spec fn chosen_depth(depth: Option<usize>) -> nat {
    match depth {
        Some(d) => d as nat,
        None => DEFAULT_TREE_DEPTH as nat,
    }
}

/// The hash parameters that the builder settles on.
pub open spec fn chosen_params(hash_params: Option<Poseidon>) -> PoseidonParams {
    match hash_params {
        Some(h) => h@,
        None => default_params(),
    }
}

impl RewardGadget {
    pub closed spec fn spec_depth(&self) -> nat {
        self.depth as nat
    }

    pub closed spec fn spec_hash_params(&self) -> PoseidonParams {
        self.hash_params@
    }

    pub closed spec fn spec_tree(&self) -> TreeState {
        self.tree@
    }

    /// The tree is well formed and the hash parameters can be used to hash.
    pub closed spec fn wf(&self) -> bool {
        self.tree.wf() && self.hash_params.wf() && self.hash_params.width == HASH_WIDTH
    }

    /// The depth the gadget was built with.
    pub fn depth(&self) -> (r: usize)
        ensures
            r == self.spec_depth(),
    {
        self.depth
    }

    /// The hash parameters the gadget was built with.
    pub fn hash_params(&self) -> (r: &Poseidon)
        ensures
            r@ == self.spec_hash_params(),
            self.wf() ==> r.wf() && r.width == HASH_WIDTH,
    {
        &self.hash_params
    }

    /// The tree of the gadget.
    pub fn tree(&self) -> (r: &MerkleAccumulator)
        ensures
            r@ == self.spec_tree(),
            self.wf() ==> r.wf(),
    {
        &self.tree
    }
}

impl RewardGadgetBuilder {
    pub closed spec fn spec_depth(&self) -> Option<usize> {
        self.depth
    }

    pub closed spec fn spec_hash_params(&self) -> Option<Poseidon> {
        self.hash_params
    }

    pub closed spec fn spec_tree(&self) -> Option<MerkleAccumulator> {
        self.tree
    }

    /// The choices can be built on: chosen hash parameters are well shaped
    /// and of the width of the hash, a chosen tree is well formed.
    pub open spec fn wf(&self) -> bool {
        &&& self.spec_hash_params() matches Some(h) ==> h.wf() && h.width == HASH_WIDTH
        &&& self.spec_tree() matches Some(t) ==> t.wf()
    }

    /// A builder with nothing chosen.
    pub fn new() -> (r: Self)
        ensures
            r.spec_depth().is_none(),
            r.spec_hash_params().is_none(),
            r.spec_tree().is_none(),
    {
        Self { depth: None, hash_params: None, tree: None }
    }

    /// Chooses the depth.
    pub fn depth(&mut self, depth: usize) -> (r: &mut Self)
        ensures
            r.spec_depth() == Some(depth),
            r.spec_hash_params() == old(self).spec_hash_params(),
            r.spec_tree() == old(self).spec_tree(),
            *final(self) == *final(r),
    {
        self.depth = Some(depth);
        self
    }

    /// Chooses the hash parameters.
    pub fn hash_params(&mut self, hash_params: Poseidon) -> (r: &mut Self)
        ensures
            r.spec_depth() == old(self).spec_depth(),
            r.spec_hash_params() == Some(hash_params),
            r.spec_tree() == old(self).spec_tree(),
            *final(self) == *final(r),
    {
        self.hash_params = Some(hash_params);
        self
    }

    /// Chooses the tree.
    pub fn merkle_tree(&mut self, tree: MerkleAccumulator) -> (r: &mut Self)
        ensures
            r.spec_depth() == old(self).spec_depth(),
            r.spec_hash_params() == old(self).spec_hash_params(),
            r.spec_tree() == Some(tree),
            *final(self) == *final(r),
    {
        self.tree = Some(tree);
        self
    }

    /// The gadget with the chosen depth, or `DEFAULT_TREE_DEPTH`; the chosen
    /// hash parameters, or the default ones; and the chosen tree, or an
    /// empty tree of that depth over those parameters. Without a chosen
    /// tree, a depth that no tree can have is refused.
    pub fn build(&self) -> (r: Result<RewardGadget, MerkleError>)
        requires
            self.wf(),
        ensures
            r.is_ok() <==> (self.spec_tree().is_some() || 1 <= chosen_depth(self.spec_depth())
                <= MAX_DEPTH),
            r matches Err(e) ==> e == MerkleError::InvalidTreeDepth,
            r matches Ok(gadget) ==> {
                &&& gadget.wf()
                &&& gadget.spec_depth() == chosen_depth(self.spec_depth())
                &&& gadget.spec_hash_params() == chosen_params(self.spec_hash_params())
                &&& gadget.spec_tree() == match self.spec_tree() {
                    Some(t) => t@,
                    None => (TreeState {
                        params: chosen_params(self.spec_hash_params()),
                        depth: chosen_depth(self.spec_depth()),
                        leaves: Seq::empty(),
                    }),
                }
            },
    {
        let depth = match self.depth {
            Some(d) => d,
            None => DEFAULT_TREE_DEPTH,
        };
        let hash_params = match &self.hash_params {
            Some(h) => h.clone(),
            None => default_hasher(),
        };
        let tree = match &self.tree {
            Some(t) => t.clone(),
            None => {
                match MerkleAccumulator::new(hash_params.clone(), depth) {
                    Ok(t) => t,
                    Err(e) => {
                        return Err(e);
                    },
                }
            },
        };
        Ok(RewardGadget { depth, hash_params, tree })
    }
}

} // verus!
