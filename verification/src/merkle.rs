//! A fixed-depth, append-only Merkle tree over the Poseidon 2-to-1 hash.
//!
//! The tree has `2^depth` leaf slots. The `k`-th appended leaf occupies slot
//! `k`; a slot that has not been filled holds the hash of a pair of zeros. A
//! node above the leaves is the hash of its two children, left child first.
//! An authentication path lists, from the leaf upwards, whether the node on
//! the path is a left child, and its sibling.

use crate::field::{group_order, le_value, FieldElement};
use crate::poseidon::{Poseidon, PoseidonParams, HASH_WIDTH};
use vstd::prelude::*;
use vstd::slice::slice_to_vec;

verus! {

/// The largest depth of a tree.
pub const MAX_DEPTH: usize = 32;

/// The number of leaf slots of a tree: `2^depth`.
pub open spec fn capacity(depth: nat) -> nat
    decreases depth,
{
    if depth == 0 {
        1
    } else {
        2 * capacity((depth - 1) as nat)
    }
}

/// The node that an unfilled leaf slot holds.
pub open spec fn empty_leaf(p: PoseidonParams) -> nat {
    p.hash2(0, 0)
}

/// The root of a subtree of height `level` none of whose slots is filled.
pub open spec fn empty_root(p: PoseidonParams, level: nat) -> nat
    decreases level,
{
    if level == 0 {
        empty_leaf(p)
    } else {
        let below = empty_root(p, (level - 1) as nat);
        p.hash2(below, below)
    }
}

/// The node at height `level` and position `index` of the tree over
/// `leaves`, the unfilled slots taken as empty leaves.
pub open spec fn node(p: PoseidonParams, leaves: Seq<nat>, level: nat, index: nat) -> nat
    decreases level,
{
    if level == 0 {
        if index < leaves.len() {
            leaves[index as int]
        } else {
            empty_leaf(p)
        }
    } else {
        p.hash2(
            node(p, leaves, (level - 1) as nat, 2 * index),
            node(p, leaves, (level - 1) as nat, 2 * index + 1),
        )
    }
}

/// The root of the tree of height `depth` over `leaves`.
pub open spec fn merkle_root(p: PoseidonParams, depth: nat, leaves: Seq<nat>) -> nat {
    node(p, leaves, depth, 0)
}

/// The position, at height `level`, of the node above leaf `index`.
pub open spec fn ancestor(index: nat, level: nat) -> nat
    decreases level,
{
    if level == 0 {
        index
    } else {
        ancestor(index, (level - 1) as nat) / 2
    }
}

/// The number of nodes at height `level` that have a filled slot below them,
/// when `count` leaves are filled.
pub open spec fn width_at(count: nat, level: nat) -> nat
    decreases level,
{
    if level == 0 {
        count
    } else {
        (width_at(count, (level - 1) as nat) + 1) / 2
    }
}

/// The position of the other child of the same parent.
pub open spec fn sibling(index: nat) -> nat {
    if index % 2 == 0 {
        index + 1
    } else {
        (index - 1) as nat
    }
}

/// The authentication path of leaf `position`, up to height `len`: for each
/// level, whether the node on the path is a left child, and its sibling.
pub open spec fn path_of(p: PoseidonParams, leaves: Seq<nat>, position: nat, len: nat) -> Seq<
    (bool, nat),
> {
    Seq::new(
        len,
        |l: int|
            (
                ancestor(position, l as nat) % 2 == 0,
                node(p, leaves, l as nat, sibling(ancestor(position, l as nat))),
            ),
    )
}

/// The root that a path leads to from `leaf`: at each step the node is
/// hashed with the sibling, the node first if it is a left child.
pub open spec fn path_root(p: PoseidonParams, leaf: nat, path: Seq<(bool, nat)>) -> nat
    decreases path.len(),
{
    if path.len() == 0 {
        leaf
    } else {
        let below = path_root(p, leaf, path.drop_last());
        let step = path.last();
        if step.0 {
            p.hash2(below, step.1)
        } else {
            p.hash2(step.1, below)
        }
    }
}

/// The pair of nodes hashed at step `level` of a path.
pub open spec fn path_pair(p: PoseidonParams, leaf: nat, path: Seq<(bool, nat)>, level: int) -> (
    nat,
    nat,
) {
    let below = path_root(p, leaf, path.take(level));
    if path[level].0 {
        (below, path[level].1)
    } else {
        (path[level].1, below)
    }
}

/// No step of the two paths hashes two different pairs to one node.
pub open spec fn no_collision(
    p: PoseidonParams,
    leaf: nat,
    path: Seq<(bool, nat)>,
    other: Seq<(bool, nat)>,
) -> bool {
    forall|l: int|
        #![trigger path_pair(p, leaf, path, l)]
        0 <= l < path.len() && path_pair(p, leaf, path, l) != path_pair(p, leaf, other, l)
            ==> p.hash2(path_pair(p, leaf, path, l).0, path_pair(p, leaf, path, l).1) != p.hash2(
            path_pair(p, leaf, other, l).0,
            path_pair(p, leaf, other, l).1,
        )
}

/// A subtree with no filled slot below it is an empty subtree.
pub proof fn lemma_node_empty(p: PoseidonParams, leaves: Seq<nat>, level: nat, index: nat)
    requires
        index >= width_at(leaves.len(), level),
    ensures
        node(p, leaves, level, index) == empty_root(p, level),
    decreases level,
{
    if level > 0 {
        lemma_node_empty(p, leaves, (level - 1) as nat, 2 * index);
        lemma_node_empty(p, leaves, (level - 1) as nat, 2 * index + 1);
    }
}

/// The node at height `level` and position `index`, computed with the
/// roots of the empty subtrees in place of the subtrees that have no
/// filled slot.
pub open spec fn padded_node(p: PoseidonParams, leaves: Seq<nat>, level: nat, index: nat) -> nat
    decreases level,
{
    if index >= width_at(leaves.len(), level) {
        empty_root(p, level)
    } else if level == 0 {
        leaves[index as int]
    } else {
        p.hash2(
            padded_node(p, leaves, (level - 1) as nat, 2 * index),
            padded_node(p, leaves, (level - 1) as nat, 2 * index + 1),
        )
    }
}

/// Padding with the roots of empty subtrees gives the nodes of the tree
/// whose unfilled slots hold empty leaves.
pub proof fn lemma_padded_node(p: PoseidonParams, leaves: Seq<nat>, level: nat, index: nat)
    ensures
        padded_node(p, leaves, level, index) == node(p, leaves, level, index),
    decreases level,
{
    if index >= width_at(leaves.len(), level) {
        lemma_node_empty(p, leaves, level, index);
    } else if level > 0 {
        lemma_padded_node(p, leaves, (level - 1) as nat, 2 * index);
        lemma_padded_node(p, leaves, (level - 1) as nat, 2 * index + 1);
    }
}

/// Appending a leaf changes no node but those above the new leaf.
pub proof fn lemma_node_push_other(
    p: PoseidonParams,
    leaves: Seq<nat>,
    leaf: nat,
    level: nat,
    index: nat,
)
    requires
        index != ancestor(leaves.len(), level),
    ensures
        node(p, leaves.push(leaf), level, index) == node(p, leaves, level, index),
    decreases level,
{
    if level > 0 {
        lemma_node_push_other(p, leaves, leaf, (level - 1) as nat, 2 * index);
        lemma_node_push_other(p, leaves, leaf, (level - 1) as nat, 2 * index + 1);
    }
}

/// The node above the next free slot is the last one with a filled slot, or
/// the one after it.
pub proof fn lemma_width_ancestor(count: nat, level: nat)
    ensures
        ancestor(count, level) <= width_at(count, level) <= ancestor(count, level) + 1,
        width_at(count + 1, level) == ancestor(count, level) + 1,
    decreases level,
{
    if level > 0 {
        lemma_width_ancestor(count, (level - 1) as nat);
    }
}

/// A position below the capacity has the root as its ancestor at the top.
pub proof fn lemma_ancestor_bound(index: nat, depth: nat, level: nat)
    requires
        index < capacity(depth),
        level <= depth,
    ensures
        ancestor(index, level) < capacity((depth - level) as nat),
    decreases level,
{
    if level > 0 {
        lemma_ancestor_bound(index, depth, (level - 1) as nat);
    }
}

/// An empty tree has no node with a filled slot below it.
pub proof fn lemma_width_zero(level: nat)
    ensures
        width_at(0, level) == 0,
    decreases level,
{
    if level > 0 {
        lemma_width_zero((level - 1) as nat);
    }
}

/// The root of a tree without leaves is the root of the empty tree of its
/// depth.
pub proof fn lemma_empty_tree_root(p: PoseidonParams, depth: nat)
    ensures
        merkle_root(p, depth, Seq::empty()) == empty_root(p, depth),
{
    lemma_width_zero(depth);
    lemma_node_empty(p, Seq::empty(), depth, 0);
}

/// The ancestor of a filled slot has a filled slot below it.
pub proof fn lemma_ancestor_in_width(position: nat, count: nat, level: nat)
    requires
        position < count,
    ensures
        ancestor(position, level) < width_at(count, level),
    decreases level,
{
    if level > 0 {
        lemma_ancestor_in_width(position, count, (level - 1) as nat);
    }
}

/// Following the generated path from the leaf leads, level by level, through
/// the nodes above the leaf.
pub proof fn lemma_path_reaches_ancestor(
    p: PoseidonParams,
    leaves: Seq<nat>,
    position: nat,
    level: nat,
)
    requires
        position < leaves.len(),
    ensures
        path_root(p, leaves[position as int], path_of(p, leaves, position, level)) == node(
            p,
            leaves,
            level,
            ancestor(position, level),
        ),
    decreases level,
{
    if level > 0 {
        let below = (level - 1) as nat;
        lemma_path_reaches_ancestor(p, leaves, position, below);
        let path = path_of(p, leaves, position, level);
        assert(path.drop_last() =~= path_of(p, leaves, position, below));
        let a = ancestor(position, below);
        assert(path.last() == (a % 2 == 0, node(p, leaves, below, sibling(a))));
        if a % 2 == 0 {
            assert(2 * (a / 2) == a);
        } else {
            assert(2 * (a / 2) + 1 == a);
        }
    }
}

/// The path that is generated for a filled slot leads from its leaf to the
/// root of the tree.
pub proof fn lemma_generated_path_verifies(
    p: PoseidonParams,
    depth: nat,
    leaves: Seq<nat>,
    position: nat,
)
    requires
        position < leaves.len() <= capacity(depth),
    ensures
        path_root(p, leaves[position as int], path_of(p, leaves, position, depth)) == merkle_root(
            p,
            depth,
            leaves,
        ),
{
    lemma_path_reaches_ancestor(p, leaves, position, depth);
    lemma_ancestor_bound(position, depth, depth);
}

/// A path that leads to a root is refused for every other root.
pub proof fn lemma_tampered_root_rejected(
    tree: TreeState,
    leaf: nat,
    path: Seq<(bool, nat)>,
    other: TreeState,
)
    requires
        path_verdict(tree, leaf, path) is Ok,
        other.params == tree.params,
        other.depth == tree.depth,
        other.root() != tree.root(),
    ensures
        path_verdict(other, leaf, path) == Err::<(), MerkleError>(
            MerkleError::InvalidMembershipProof,
        ),
{
}

/// A path whose length is not the depth of the tree is refused for its
/// length, whatever it holds.
pub proof fn lemma_wrong_length_rejected(tree: TreeState, leaf: nat, path: Seq<(bool, nat)>)
    requires
        path.len() != tree.depth,
    ensures
        path_verdict(tree, leaf, path) == Err::<(), MerkleError>(MerkleError::InvalidPathLength),
{
}

/// Two paths that agree up to `level` lead to the same node there.
proof fn lemma_path_root_prefix(
    p: PoseidonParams,
    leaf: nat,
    path: Seq<(bool, nat)>,
    other: Seq<(bool, nat)>,
    level: int,
)
    requires
        0 <= level <= path.len() == other.len(),
        forall|l: int| 0 <= l < level ==> path[l] == other[l],
    ensures
        path_root(p, leaf, path.take(level)) == path_root(p, leaf, other.take(level)),
{
    assert(path.take(level) =~= other.take(level));
}

/// The node that a path reaches after `level + 1` steps is the hash of the
/// pair of step `level`.
proof fn lemma_path_root_step(p: PoseidonParams, leaf: nat, path: Seq<(bool, nat)>, level: int)
    requires
        0 <= level < path.len(),
    ensures
        path_root(p, leaf, path.take(level + 1)) == p.hash2(
            path_pair(p, leaf, path, level).0,
            path_pair(p, leaf, path, level).1,
        ),
{
    let upto = path.take(level + 1);
    assert(upto.drop_last() =~= path.take(level));
    assert(upto.last() == path[level]);
}

/// Two paths that hash different pairs at step `from`, and nowhere hash two
/// different pairs to one node, lead to different nodes at every height
/// above `from`.
proof fn lemma_paths_diverge(
    p: PoseidonParams,
    leaf: nat,
    path: Seq<(bool, nat)>,
    other: Seq<(bool, nat)>,
    from: int,
    level: int,
)
    requires
        path.len() == other.len(),
        0 <= from < level <= path.len(),
        forall|l: int| from < l < path.len() ==> path[l] == other[l],
        path_pair(p, leaf, path, from) != path_pair(p, leaf, other, from),
        no_collision(p, leaf, path, other),
    ensures
        path_root(p, leaf, path.take(level)) != path_root(p, leaf, other.take(level)),
    decreases level,
{
    lemma_path_root_step(p, leaf, path, level - 1);
    lemma_path_root_step(p, leaf, other, level - 1);
    if level - 1 > from {
        lemma_paths_diverge(p, leaf, path, other, from, level - 1);
        assert(path[level - 1] == other[level - 1]);
        assert(path_pair(p, leaf, path, level - 1) != path_pair(p, leaf, other, level - 1));
    }
    assert(path_pair(p, leaf, path, level - 1) != path_pair(p, leaf, other, level - 1));
}

/// Replacing one sibling of a path by a different node changes the root
/// that the path leads to, unless two different pairs hash to one node
/// somewhere along the two paths.
pub proof fn lemma_tampered_sibling_rejected(
    p: PoseidonParams,
    leaf: nat,
    path: Seq<(bool, nat)>,
    level: int,
    forged: nat,
)
    requires
        0 <= level < path.len(),
        forged != path[level].1,
        no_collision(p, leaf, path, path.update(level, (path[level].0, forged))),
    ensures
        path_root(p, leaf, path.update(level, (path[level].0, forged))) != path_root(
            p,
            leaf,
            path,
        ),
{
    let other = path.update(level, (path[level].0, forged));
    lemma_path_root_prefix(p, leaf, path, other, level);
    lemma_paths_diverge(p, leaf, path, other, level, path.len() as int);
    assert(path.take(path.len() as int) =~= path);
    assert(other.take(other.len() as int) =~= other);
}

/// Flipping one left/right flag of a path changes the root that the path
/// leads to, unless the node and its sibling are equal at that step, or two
/// different pairs hash to one node somewhere along the two paths.
///
/// Premise, not proved here: `no_collision` on the two paths. It does not
/// follow from the shape of the parameters, as
/// `lemma_zero_row_hashes_to_zero` shows.
pub proof fn lemma_tampered_flag_rejected(
    p: PoseidonParams,
    leaf: nat,
    path: Seq<(bool, nat)>,
    level: int,
)
    requires
        0 <= level < path.len(),
        path[level].1 != path_root(p, leaf, path.take(level)),
        no_collision(p, leaf, path, path.update(level, (!path[level].0, path[level].1))),
    ensures
        path_root(p, leaf, path.update(level, (!path[level].0, path[level].1))) != path_root(
            p,
            leaf,
            path,
        ),
{
    let other = path.update(level, (!path[level].0, path[level].1));
    lemma_path_root_prefix(p, leaf, path, other, level);
    lemma_paths_diverge(p, leaf, path, other, level, path.len() as int);
    assert(path.take(path.len() as int) =~= path);
    assert(other.take(other.len() as int) =~= other);
}

/// Why an operation on a tree was refused.
#[derive(Clone, Copy, Debug, PartialEq, Eq, Structural)]
pub enum MerkleError {
    /// The depth is zero or above `MAX_DEPTH`.
    InvalidTreeDepth,
    /// The leaves do not fit into the free slots.
    ExceedsMaxLeaves,
    /// No leaf has been appended at the position.
    InvalidPosition,
    /// The path does not have one step per level.
    InvalidPathLength,
    /// The path does not lead to the root.
    InvalidMembershipProof,
}

/// The contents of a tree: its hash parameters, its height and the leaves
/// appended so far, in order.
pub struct TreeState {
    pub params: PoseidonParams,
    pub depth: nat,
    pub leaves: Seq<nat>,
}

impl TreeState {
    /// The root of the tree.
    pub open spec fn root(self) -> nat {
        merkle_root(self.params, self.depth, self.leaves)
    }
}

/// An append-only Merkle tree of fixed depth.
///
/// Besides the leaves it keeps every node that has a filled slot below it,
/// and the roots of the empty subtrees of each height, so that appending a
/// leaf and producing a path cost one hash, or none, per level.
#[derive(Debug)]
pub struct MerkleAccumulator {
    hasher: Poseidon,
    depth: usize,
    slots: u64,
    layers: Vec<Vec<FieldElement>>,
    empty: Vec<FieldElement>,
    root: FieldElement,
}

impl View for MerkleAccumulator {
    type V = TreeState;

    closed spec fn view(&self) -> TreeState {
        TreeState {
            params: self.hasher@,
            depth: self.depth as nat,
            leaves: if self.layers.len() > 0 {
                self.layers@[0].deep_view()
            } else {
                Seq::empty()
            },
        }
    }
}

impl Clone for MerkleAccumulator {
    fn clone(&self) -> (r: MerkleAccumulator)
        ensures
            r@ == self@,
            self.wf() ==> r.wf(),
    {
        let mut layers: Vec<Vec<FieldElement>> = Vec::new();
        let mut l: usize = 0;
        while l < self.layers.len()
            invariant
                l <= self.layers.len(),
                layers.len() == l,
                forall|k: int| 0 <= k < l ==> (#[trigger] layers@[k])@ == self.layers@[k]@,
            decreases self.layers.len() - l,
        {
            layers.push(slice_to_vec(self.layers[l].as_slice()));
            l += 1;
        }
        let empty = slice_to_vec(self.empty.as_slice());
        let r = MerkleAccumulator {
            hasher: self.hasher.clone(),
            depth: self.depth,
            slots: self.slots,
            layers,
            empty,
            root: self.root,
        };
        proof {
            if self.layers.len() > 0 {
                assert(r.layers@[0].deep_view() =~= self.layers@[0].deep_view());
            }
            if self.wf() {
                assert(r@ == self@);
                assert forall|l: int, i: int|
                    0 <= l <= r.depth && 0 <= i < r.layers@[l].len() implies (
                #[trigger] r.layers@[l]@[i])@ == node(r.hasher@, r@.leaves, l as nat, i as nat) by {
                    assert(r.layers@[l]@[i] == self.layers@[l]@[i]);
                }
            }
        }
        r
    }
}

impl MerkleAccumulator {
    /// The invariant of the representation: the cached nodes, empty-subtree
    /// roots and root are those of the tree over the leaves.
    pub closed spec fn wf(&self) -> bool {
        &&& self.hasher.wf()
        &&& self.hasher.width == HASH_WIDTH
        &&& 1 <= self.depth <= MAX_DEPTH
        &&& self.slots == capacity(self.depth as nat)
        &&& self.layers.len() == self.depth + 1
        &&& self.empty.len() == self.depth + 1
        &&& self@.leaves.len() <= capacity(self.depth as nat)
        &&& forall|i: int| 0 <= i < self@.leaves.len() ==> #[trigger] self@.leaves[i] < group_order()
        &&& forall|l: int|
            0 <= l <= self.depth ==> (#[trigger] self.empty@[l])@ == empty_root(
                self.hasher@,
                l as nat,
            )
        &&& forall|l: int|
            0 <= l <= self.depth ==> (#[trigger] self.layers@[l]).len() == width_at(
                self@.leaves.len(),
                l as nat,
            )
        &&& forall|l: int, i: int|
            0 <= l <= self.depth && 0 <= i < self.layers@[l].len() ==> (
            #[trigger] self.layers@[l]@[i])@ == node(
                self.hasher@,
                self@.leaves,
                l as nat,
                i as nat,
            )
        &&& self.root@ == self@.root()
    }

    /// A well-formed tree has a depth from 1 to `MAX_DEPTH`, well-shaped
    /// hash parameters of width `HASH_WIDTH`, and no more leaves than slots.
    pub proof fn lemma_wf_bounds(&self)
        requires
            self.wf(),
        ensures
            1 <= self@.depth <= MAX_DEPTH,
            self@.params.wf(),
            self@.params.width == HASH_WIDTH,
            self@.leaves.len() <= capacity(self@.depth),
            forall|i: int| 0 <= i < self@.leaves.len() ==> #[trigger] self@.leaves[i] < group_order(),
    {
    }

    /// An empty tree of the given depth; `InvalidTreeDepth` unless the depth
    /// is from 1 to `MAX_DEPTH`.
    pub fn new(hasher: Poseidon, depth: usize) -> (r: Result<MerkleAccumulator, MerkleError>)
        requires
            hasher.wf(),
            hasher.width == HASH_WIDTH,
        ensures
            r.is_ok() <==> 1 <= depth <= MAX_DEPTH,
            r matches Err(e) ==> e == MerkleError::InvalidTreeDepth,
            r matches Ok(tree) ==> tree.wf() && tree@ == (TreeState {
                params: hasher@,
                depth: depth as nat,
                leaves: Seq::empty(),
            }),
    {
        if depth < 1 || depth > MAX_DEPTH {
            return Err(MerkleError::InvalidTreeDepth);
        }
        let empty = gen_zero_tree(&hasher, depth);
        let mut layers: Vec<Vec<FieldElement>> = Vec::new();
        let mut slots: u64 = 1;
        let mut level: usize = 0;
        while level < depth
            invariant
                level <= depth <= MAX_DEPTH,
                layers.len() == level,
                slots == capacity(level as nat),
                slots <= 0x1_0000_0000,
                forall|l: int| 0 <= l < level ==> (#[trigger] layers@[l]).len() == 0,
            decreases depth - level,
        {
            layers.push(Vec::new());
            proof {
                lemma_capacity_bound((level + 1) as nat);
            }
            slots = slots * 2;
            level += 1;
        }
        layers.push(Vec::new());
        let current = empty[depth];
        let tree = MerkleAccumulator { hasher, depth, slots, layers, empty, root: current };
        proof {
            assert(tree@.leaves =~= Seq::<nat>::empty());
            assert forall|l: int| 0 <= l <= depth implies (#[trigger] tree.layers@[l]).len()
                == width_at(0, l as nat) by {
                lemma_width_zero(l as nat);
            }
            lemma_width_zero(depth as nat);
            lemma_node_empty(hasher@, tree@.leaves, depth as nat, 0);
        }
        Ok(tree)
    }

    /// The depth of the tree.
    pub fn depth(&self) -> (r: usize)
        ensures
            r == self@.depth,
    {
        self.depth
    }

    /// The number of leaves appended so far.
    pub fn leaf_count(&self) -> (r: u64)
        requires
            self.wf(),
        ensures
            r == self@.leaves.len(),
    {
        proof {
            lemma_capacity_bound(self.depth as nat);
        }
        self.layers[0].len() as u64
    }

    /// The hash parameters of the tree.
    pub fn hasher(&self) -> (r: &Poseidon)
        ensures
            r@ == self@.params,
            self.wf() ==> r.wf() && r.width == HASH_WIDTH,
    {
        &self.hasher
    }

    /// The root of the tree over the leaves appended so far; for a tree
    /// without leaves, the root of the empty tree of its depth.
    pub fn root(&self) -> (r: FieldElement)
        requires
            self.wf(),
        ensures
            r@ == self@.root(),
    {
        self.root
    }

    /// The root of an empty subtree of height `level`.
    pub fn empty_subtree_root(&self, level: usize) -> (r: FieldElement)
        requires
            self.wf(),
            level <= self@.depth,
        ensures
            r@ == empty_root(self@.params, level as nat),
    {
        self.empty[level]
    }

    /// Appends one leaf to a tree that has a free slot.
    fn insert(&mut self, leaf: FieldElement)
        requires
            old(self).wf(),
            old(self)@.leaves.len() < capacity(old(self)@.depth),
        ensures
            final(self).wf(),
            final(self)@ == (TreeState { leaves: old(self)@.leaves.push(leaf@), ..old(self)@ }),
    {
        let ghost p = self.hasher@;
        let ghost before = self@.leaves;
        let ghost after = before.push(leaf@);
        let ghost count = before.len();
        let depth = self.depth;
        proof {
            use_type_invariant(&leaf);
        }
        let mut index: usize = self.layers[0].len();
        let mut current = leaf;
        let mut level: usize = 0;
        proof {
            lemma_width_ancestor(count, 0);
        }
        while level < depth
            invariant
                level <= depth == self.depth,
                depth == old(self).depth,
                1 <= depth <= MAX_DEPTH,
                self.hasher == old(self).hasher,
                self.hasher.wf(),
                self.hasher.width == HASH_WIDTH,
                p == self.hasher@,
                self.empty == old(self).empty,
                self.slots == old(self).slots,
                self.root == old(self).root,
                old(self).wf(),
                before == old(self)@.leaves,
                after == before.push(leaf@),
                count == before.len(),
                count < capacity(depth as nat),
                self.layers.len() == depth + 1,
                index == ancestor(count, level as nat),
                current@ == node(p, after, level as nat, index as nat),
                forall|l: int|
                    level <= l <= depth ==> (#[trigger] self.layers@[l]) == old(self).layers@[l],
                forall|l: int|
                    0 <= l < level ==> (#[trigger] self.layers@[l]).len() == width_at(
                        count + 1,
                        l as nat,
                    ),
                forall|l: int, i: int|
                    0 <= l < level && 0 <= i < self.layers@[l].len() ==> (
                    #[trigger] self.layers@[l]@[i])@ == node(p, after, l as nat, i as nat),
                level > 0 ==> self.layers@[0].deep_view() == after,
            decreases depth - level,
        {
            let ghost row = self.layers@[level as int]@;
            proof {
                lemma_width_ancestor(count, level as nat);
                lemma_width_ancestor(count, (level + 1) as nat);
                assert(row.len() == width_at(count, level as nat));
            }
            let parent = if index % 2 == 0 {
                proof {
                    lemma_node_push_other(p, before, leaf@, level as nat, (index + 1) as nat);
                    lemma_node_empty(p, before, level as nat, (index + 1) as nat);
                    assert(2 * (index / 2) == index);
                }
                self.hasher.hash_2(current, self.empty[level])
            } else {
                proof {
                    lemma_node_push_other(p, before, leaf@, level as nat, (index - 1) as nat);
                    assert(2 * (index / 2) + 1 == index);
                }
                let left = self.layers[level][index - 1];
                self.hasher.hash_2(left, current)
            };
            if index < self.layers[level].len() {
                self.layers[level][index] = current;
            } else {
                self.layers[level].push(current);
            }
            proof {
                let placed = self.layers@[level as int]@;
                assert(placed.len() == index + 1);
                assert forall|i: int| 0 <= i < placed.len() implies (#[trigger] placed[i])@
                    == node(p, after, level as nat, i as nat) by {
                    if i != index {
                        assert(placed[i] == row[i]);
                        assert(row[i] == old(self).layers@[level as int]@[i]);
                        lemma_node_push_other(p, before, leaf@, level as nat, i as nat);
                    }
                }
                if level == 0 {
                    assert(self.layers@[0].deep_view() =~= after);
                }
            }
            current = parent;
            index = index / 2;
            level += 1;
        }
        proof {
            lemma_ancestor_bound(count, depth as nat, depth as nat);
            lemma_width_ancestor(count, depth as nat);
            assert(index == 0);
        }
        let ghost top = self.layers@[depth as int]@;
        if self.layers[depth].len() == 0 {
            self.layers[depth].push(current);
        } else {
            self.layers[depth][0] = current;
        }
        self.root = current;
        proof {
            assert(self.layers@[0].deep_view() == after);
            assert(self@.leaves == after);
            assert forall|i: int| 0 <= i < after.len() implies #[trigger] after[i]
                < group_order() by {
                if i < count {
                    assert(after[i] == before[i]);
                }
            }
            assert forall|l: int| 0 <= l <= depth implies (#[trigger] self.layers@[l]).len()
                == width_at(after.len(), l as nat) by {}
            assert forall|l: int, i: int|
                0 <= l <= depth && 0 <= i < self.layers@[l].len() implies (
            #[trigger] self.layers@[l]@[i])@ == node(p, after, l as nat, i as nat) by {}
        }
    }

    /// Appends the leaves in order, each to the next free slot, or appends
    /// nothing and fails with `ExceedsMaxLeaves` when there are more leaves
    /// than free slots.
    pub fn append(&mut self, leaves: Vec<FieldElement>) -> (r: Result<(), MerkleError>)
        requires
            old(self).wf(),
        ensures
            final(self).wf(),
            r.is_ok() <==> old(self)@.leaves.len() + leaves.len() <= capacity(old(self)@.depth),
            r matches Err(e) ==> e == MerkleError::ExceedsMaxLeaves && *final(self) == *old(self),
            r.is_ok() ==> final(self)@ == (TreeState {
                leaves: old(self)@.leaves + leaves.deep_view(),
                ..old(self)@
            }),
    {
        proof {
            lemma_capacity_bound(self.depth as nat);
        }
        let free = self.slots - self.layers[0].len() as u64;
        if leaves.len() as u64 > free {
            return Err(MerkleError::ExceedsMaxLeaves);
        }
        let mut k: usize = 0;
        assert(self@.leaves =~= old(self)@.leaves + leaves.deep_view().take(0));
        while k < leaves.len()
            invariant
                k <= leaves.len(),
                self.wf(),
                old(self)@.leaves.len() + leaves.len() <= capacity(old(self)@.depth),
                self@ == (TreeState {
                    leaves: old(self)@.leaves + leaves.deep_view().take(k as int),
                    ..old(self)@
                }),
            decreases leaves.len() - k,
        {
            self.insert(leaves[k]);
            proof {
                let all = leaves.deep_view();
                assert(all.take(k + 1) =~= all.take(k as int).push(all[k as int]));
                assert(self@.leaves =~= old(self)@.leaves + all.take(k + 1));
            }
            k += 1;
        }
        assert(leaves.deep_view().take(leaves.len() as int) =~= leaves.deep_view());
        Ok(())
    }

    /// Appends leaves given as 32-byte encodings, each read little-endian
    /// and reduced modulo the group order; otherwise as `append`.
    pub fn append_bytes(&mut self, leaves: &Vec<[u8; 32]>) -> (r: Result<(), MerkleError>)
        requires
            old(self).wf(),
        ensures
            final(self).wf(),
            r.is_ok() <==> old(self)@.leaves.len() + leaves.len() <= capacity(old(self)@.depth),
            r matches Err(e) ==> e == MerkleError::ExceedsMaxLeaves && *final(self) == *old(self),
            r.is_ok() ==> final(self)@ == (TreeState {
                leaves: old(self)@.leaves + decoded_leaves(leaves@),
                ..old(self)@
            }),
    {
        let mut elements: Vec<FieldElement> = Vec::new();
        let mut k: usize = 0;
        while k < leaves.len()
            invariant
                k <= leaves.len(),
                elements.len() == k,
                forall|i: int|
                    0 <= i < k ==> (#[trigger] elements@[i])@ == decoded_leaves(leaves@)[i],
            decreases leaves.len() - k,
        {
            elements.push(FieldElement::from_bytes_mod_order(leaves[k]));
            k += 1;
        }
        assert(elements.deep_view() =~= decoded_leaves(leaves@));
        self.append(elements)
    }

    /// The 32-byte encoding of the root.
    pub fn root_bytes(&self) -> (r: [u8; 32])
        requires
            self.wf(),
        ensures
            le_value(r@) == self@.root(),
    {
        self.root.to_bytes()
    }

    /// The authentication path of the leaf at `position`: one step per
    /// level, from the leaf upwards; `InvalidPosition` when no leaf has
    /// been appended there.
    pub fn generate_path(&self, position: u64) -> (r: Result<
        Vec<(bool, FieldElement)>,
        MerkleError,
    >)
        requires
            self.wf(),
        ensures
            r.is_ok() <==> position < self@.leaves.len(),
            r matches Err(e) ==> e == MerkleError::InvalidPosition,
            r matches Ok(path) ==> path.deep_view() == path_of(
                self@.params,
                self@.leaves,
                position as nat,
                self@.depth,
            ),
            r matches Ok(path) ==> path_root(
                self@.params,
                self@.leaves[position as int],
                path.deep_view(),
            ) == self@.root(),
    {
        proof {
            lemma_capacity_bound(self.depth as nat);
            if position < self@.leaves.len() {
                lemma_generated_path_verifies(
                    self@.params,
                    self@.depth,
                    self@.leaves,
                    position as nat,
                );
            }
        }
        if position >= self.layers[0].len() as u64 {
            return Err(MerkleError::InvalidPosition);
        }
        let ghost p = self.hasher@;
        let ghost leaves = self@.leaves;
        let mut path: Vec<(bool, FieldElement)> = Vec::new();
        let mut index: usize = position as usize;
        let mut level: usize = 0;
        while level < self.depth
            invariant
                level <= self.depth,
                self.wf(),
                p == self.hasher@,
                leaves == self@.leaves,
                position < leaves.len(),
                index == ancestor(position as nat, level as nat),
                path.len() == level,
                forall|l: int|
                    0 <= l < level ==> (#[trigger] path@[l]).deep_view() == path_of(
                        p,
                        leaves,
                        position as nat,
                        self.depth as nat,
                    )[l],
            decreases self.depth - level,
        {
            proof {
                lemma_ancestor_in_width(position as nat, leaves.len(), level as nat);
            }
            let is_left = index % 2 == 0;
            let other = if is_left {
                index + 1
            } else {
                index - 1
            };
            let node_value = if other < self.layers[level].len() {
                self.layers[level][other]
            } else {
                proof {
                    lemma_node_empty(p, leaves, level as nat, other as nat);
                }
                self.empty[level]
            };
            path.push((is_left, node_value));
            index = index / 2;
            level += 1;
        }
        assert(path.deep_view() =~= path_of(p, leaves, position as nat, self.depth as nat));
        Ok(path)
    }

    /// The root that `path` leads to from `leaf`.
    fn fold_path(&self, leaf: FieldElement, path: &Vec<(bool, FieldElement)>) -> (r: FieldElement)
        requires
            self.wf(),
        ensures
            r@ == path_root(self@.params, leaf@, path.deep_view()),
    {
        let ghost steps = path.deep_view();
        let mut current = leaf;
        let mut level: usize = 0;
        assert(steps.take(0) =~= Seq::<(bool, nat)>::empty());
        while level < path.len()
            invariant
                level <= path.len(),
                self.wf(),
                steps == path.deep_view(),
                current@ == path_root(self.hasher@, leaf@, steps.take(level as int)),
            decreases path.len() - level,
        {
            let step = path[level];
            proof {
                let upto = steps.take(level + 1);
                assert(upto.drop_last() =~= steps.take(level as int));
                assert(upto.last() == steps[level as int]);
                assert(steps[level as int] == (step.0, step.1@));
            }
            current = if step.0 {
                self.hasher.hash_2(current, step.1)
            } else {
                self.hasher.hash_2(step.1, current)
            };
            level += 1;
        }
        assert(steps.take(path.len() as int) =~= steps);
        current
    }

    /// Whether `path` has one step per level and leads from `leaf` to
    /// `claimed_root`. The length is tested first: a path of another length
    /// is refused without hashing.
    pub fn verify_path(
        &self,
        leaf: FieldElement,
        path: &Vec<(bool, FieldElement)>,
        claimed_root: FieldElement,
    ) -> (r: bool)
        requires
            self.wf(),
        ensures
            r == (path.len() == self@.depth && path_root(self@.params, leaf@, path.deep_view())
                == claimed_root@),
    {
        if path.len() != self.depth {
            return false;
        }
        let candidate = self.fold_path(leaf, path);
        candidate.equals(&claimed_root)
    }

    /// Checks that `path` leads from `leaf` to the root of this tree:
    /// `InvalidPathLength` when the path does not have one step per level,
    /// whatever else it holds; otherwise `InvalidMembershipProof` when it
    /// leads elsewhere.
    pub fn verify(&self, leaf: FieldElement, path: &Vec<(bool, FieldElement)>) -> (r: Result<
        (),
        MerkleError,
    >)
        requires
            self.wf(),
        ensures
            r == path_verdict(self@, leaf@, path.deep_view()),
    {
        if path.len() != self.depth {
            return Err(MerkleError::InvalidPathLength);
        }
        let candidate = self.fold_path(leaf, path);
        if candidate.equals(&self.root) {
            Ok(())
        } else {
            Err(MerkleError::InvalidMembershipProof)
        }
    }
}

/// The roots of the empty subtrees of height 0 to `depth`, lowest first:
/// entry 0 is the node of an unfilled leaf slot, entry `depth` the root of
/// the empty tree.
pub fn gen_zero_tree(hasher: &Poseidon, depth: usize) -> (r: Vec<FieldElement>)
    requires
        hasher.wf(),
        hasher.width == HASH_WIDTH,
        depth < usize::MAX,
    ensures
        r.len() == depth + 1,
        forall|l: int| 0 <= l <= depth ==> (#[trigger] r@[l])@ == empty_root(hasher@, l as nat),
{
    let zero = FieldElement::zero();
    let mut empty: Vec<FieldElement> = Vec::new();
    let mut current = hasher.hash_2(zero, zero);
    let mut level: usize = 0;
    while level < depth
        invariant
            level <= depth,
            hasher.wf(),
            hasher.width == HASH_WIDTH,
            empty.len() == level,
            current@ == empty_root(hasher@, level as nat),
            forall|l: int| 0 <= l < level ==> (#[trigger] empty@[l])@ == empty_root(hasher@, l as nat),
        decreases depth - level,
    {
        empty.push(current);
        current = hasher.hash_2(current, current);
        level += 1;
    }
    empty.push(current);
    empty
}

/// The field elements that 32-byte encodings denote.
pub open spec fn decoded_leaves(leaves: Seq<[u8; 32]>) -> Seq<nat> {
    Seq::new(leaves.len(), |i: int| le_value(leaves[i]@) % group_order())
}

/// The outcome of checking a path against the root of a tree.
pub open spec fn path_verdict(tree: TreeState, leaf: nat, path: Seq<(bool, nat)>) -> Result<
    (),
    MerkleError,
> {
    if path.len() != tree.depth {
        Err(MerkleError::InvalidPathLength)
    } else if path_root(tree.params, leaf, path) != tree.root() {
        Err(MerkleError::InvalidMembershipProof)
    } else {
        Ok(())
    }
}

/// A tree of depth at most `MAX_DEPTH` has at most `2^32` slots.
pub proof fn lemma_capacity_bound(depth: nat)
    requires
        depth <= MAX_DEPTH,
    ensures
        0 < capacity(depth) <= 0x1_0000_0000,
{
    reveal_with_fuel(capacity, 34);
    assert(capacity(32) == 0x1_0000_0000);
    lemma_capacity_monotone(depth, 32);
}

/// A deeper tree has no fewer slots.
pub proof fn lemma_capacity_monotone(small: nat, large: nat)
    requires
        small <= large,
    ensures
        0 < capacity(small) <= capacity(large),
    decreases large,
{
    if small < large {
        lemma_capacity_monotone(small, (large - 1) as nat);
    } else if small > 0 {
        lemma_capacity_monotone((small - 1) as nat, (small - 1) as nat);
    }
}

} // verus!
