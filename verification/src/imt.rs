//! The incremental Merkle tree and its membership proofs.

use crate::hash_model::{hash_fn_ok, lemma_hash_value, NodeValue};
use crate::laws::lemma_created_proof_holds;
use crate::levels::{
    checked_capacity, gather_children, gather_siblings, lemma_push_view, lemma_update_view,
};
use crate::tree_spec::{
    capacity, changed_at, climb, lemma_capacity_zero, lemma_levels_push, lemma_parent_count,
    lemma_position_split, lemma_rewrite_step, levels_linked, next_zero, parent_count, parents,
    path_pos, rewritten_up_to, siblings_of, zeroes_chained,
};
use vstd::prelude::*;

verus! {

/// A node of the tree: a leaf that the caller supplied, or a hash.
pub type IMTNode = String;

/// A hash as a plain function: from the children of a node to the node.
pub type IMTHashFunction = fn(Vec<IMTNode>) -> IMTNode;

/// Why an operation on a tree was refused.
#[derive(Debug, Clone, Copy, PartialEq, Eq, Structural)]
pub enum IMTError {
    /// More leaves were given at construction than the tree can hold.
    CapacityExceeded,
    /// A leaf was inserted into a tree that has no free position left.
    TreeFull,
    /// An index at or past the number of leaves was named.
    LeafDoesNotExist,
    /// A proof does not have the shape of a proof of this tree.
    MalformedProof,
}

impl IMTError {
    /// The text of the refusal, as its view.
    pub open spec fn message_view(&self) -> Seq<char> {
        match self {
            IMTError::CapacityExceeded => "The tree cannot contain more than arity^depth leaves"@,
            IMTError::TreeFull => "The tree is full"@,
            IMTError::LeafDoesNotExist => "The leaf does not exist in this tree"@,
            IMTError::MalformedProof => "The proof does not have the shape of this tree"@,
        }
    }

    /// The refusal in words.
    pub fn message(&self) -> (text: &'static str)
        ensures
            text@ == self.message_view(),
    {
        match self {
            IMTError::CapacityExceeded => "The tree cannot contain more than arity^depth leaves",
            IMTError::TreeFull => "The tree is full",
            IMTError::LeafDoesNotExist => "The leaf does not exist in this tree",
            IMTError::MalformedProof => "The proof does not have the shape of this tree",
        }
    }
}

/// An incremental Merkle tree of fixed depth and arity.
///
/// `nodes[0]` holds the leaves in insertion order and `nodes[depth]` the
/// root. `zeroes[l]` stands for every position of level `l` past its end.
pub struct IMT<H> {
    nodes: Vec<Vec<IMTNode>>,
    zeroes: Vec<IMTNode>,
    hash: H,
    depth: usize,
    arity: usize,
}

/// A proof that a leaf belongs to a tree with a given root.
///
/// The proof is a snapshot: it holds values only, and can be checked with
/// nothing but the hash, whatever has become of the tree it was made from.
pub struct IMTMerkleProof {
    root: IMTNode,
    leaf: IMTNode,
    path_indices: Vec<usize>,
    siblings: Vec<Vec<IMTNode>>,
}

impl IMTMerkleProof {
    /// The value of the root that the proof claims.
    pub closed spec fn root_view(&self) -> NodeValue {
        self.root@
    }

    /// The value of the leaf that the proof is about.
    pub closed spec fn leaf_view(&self) -> NodeValue {
        self.leaf@
    }

    /// For each level, the place of the leaf's ancestor among its siblings.
    pub closed spec fn path_view(&self) -> Seq<usize> {
        self.path_indices@
    }

    /// For each level, the values of the siblings of the leaf's ancestor.
    pub closed spec fn siblings_view(&self) -> Seq<Seq<NodeValue>> {
        self.siblings.deep_view()
    }

    /// The proof has the shape of a proof of a tree of this depth and arity:
    /// one entry per level, each with a place below `arity` and `arity - 1`
    /// siblings.
    pub open spec fn fits(&self, depth: nat, arity: nat) -> bool {
        &&& self.path_view().len() == depth
        &&& self.siblings_view().len() == depth
        &&& forall|l: int| 0 <= l < depth ==> #[trigger] self.path_view()[l] < arity
        &&& forall|l: int|
            0 <= l < depth ==> (#[trigger] self.siblings_view()[l]).len() + 1 == arity
    }

    /// The root that hashing up from the leaf gives.
    pub open spec fn recomputed_root<H: Fn(Vec<IMTNode>) -> IMTNode>(&self, h: H) -> NodeValue {
        climb(h, self.leaf_view(), self.siblings_view(), self.path_view(), self.siblings_view().len())
    }

    /// Hashing up from the leaf gives the root that the proof claims.
    pub open spec fn holds<H: Fn(Vec<IMTNode>) -> IMTNode>(&self, h: H) -> bool {
        self.recomputed_root(h) == self.root_view()
    }

    /// A proof made of its parts, as they come out of `root`, `leaf`,
    /// `path_indices` and `siblings`. Any parts are taken: whether they have
    /// the shape of a proof of a given tree is for `has_shape` to say.
    pub fn new(
        root: IMTNode,
        leaf: IMTNode,
        path_indices: Vec<usize>,
        siblings: Vec<Vec<IMTNode>>,
    ) -> (proof: IMTMerkleProof)
        ensures
            proof.root_view() == root@,
            proof.leaf_view() == leaf@,
            proof.path_view() == path_indices@,
            proof.siblings_view() == siblings.deep_view(),
    {
        IMTMerkleProof { root, leaf, path_indices, siblings }
    }

    /// A copy of the root that the proof claims.
    pub fn root(&self) -> (r: IMTNode)
        ensures
            r@ == self.root_view(),
    {
        self.root.clone()
    }

    /// A copy of the leaf that the proof is about.
    pub fn leaf(&self) -> (r: IMTNode)
        ensures
            r@ == self.leaf_view(),
    {
        self.leaf.clone()
    }

    /// A copy of the places of the leaf's ancestors, leaf level first.
    pub fn path_indices(&self) -> (r: Vec<usize>)
        ensures
            r@ == self.path_view(),
    {
        let r = self.path_indices.clone();
        assert(r@ =~= self.path_indices@);
        r
    }

    /// A copy of the siblings of the leaf's ancestors, leaf level first.
    pub fn siblings(&self) -> (r: Vec<Vec<IMTNode>>)
        ensures
            r.deep_view() == self.siblings_view(),
    {
        let r = self.siblings.clone();
        assert(r.deep_view() =~= self.siblings.deep_view());
        r
    }

    /// Whether the proof has the shape of a proof of a tree of this depth
    /// and arity.
    pub fn has_shape(&self, depth: usize, arity: usize) -> (b: bool)
        ensures
            b == self.fits(depth as nat, arity as nat),
    {
        if self.path_indices.len() != depth || self.siblings.len() != depth {
            return false;
        }
        let mut level: usize = 0;
        while level < depth
            invariant
                level <= depth,
                self.path_indices.len() == depth,
                self.siblings.len() == depth,
                forall|l: int| 0 <= l < level ==> #[trigger] self.path_view()[l] < arity,
                forall|l: int|
                    0 <= l < level ==> (#[trigger] self.siblings_view()[l]).len() + 1 == arity,
            decreases depth - level,
        {
            assert(self.siblings_view()[level as int].len() == self.siblings[level as int].len());
            if self.path_indices[level] >= arity || self.siblings[level].len() != arity - 1 {
                assert(!(self.path_view()[level as int] < arity
                    && self.siblings_view()[level as int].len() + 1 == arity));
                return false;
            }
            level += 1;
        }
        true
    }
}

impl<H: Fn(Vec<IMTNode>) -> IMTNode> IMT<H> {
    /// The values of all nodes, level by level, leaves first.
    pub closed spec fn nodes_view(&self) -> Seq<Seq<NodeValue>> {
        self.nodes.deep_view()
    }

    /// The zero value of each level below the root.
    pub closed spec fn zeroes_view(&self) -> Seq<NodeValue> {
        self.zeroes.deep_view()
    }

    /// The number of levels above the leaves.
    pub closed spec fn spec_depth(&self) -> nat {
        self.depth as nat
    }

    /// The number of children under each parent.
    pub closed spec fn spec_arity(&self) -> nat {
        self.arity as nat
    }

    /// The hash the tree was built with.
    pub closed spec fn hasher(&self) -> H {
        self.hash
    }

    /// The values of the leaves, by index.
    pub open spec fn leaves_view(&self) -> Seq<NodeValue> {
        self.nodes_view()[0]
    }

    /// The value of the root; a tree without leaves has none.
    pub open spec fn root_view(&self) -> Option<NodeValue> {
        let top = self.nodes_view()[self.spec_depth() as int];
        if top.len() > 0 {
            Some(top[0])
        } else {
            None
        }
    }

    /// The invariant of the tree: the zero values form a chain of hashes, the
    /// leaves fit the capacity, and every level above the leaves is the level
    /// of parents of the one below.
    pub open spec fn wf(&self) -> bool {
        &&& hash_fn_ok(self.hasher(), self.spec_arity())
        &&& self.nodes_view().len() == self.spec_depth() + 1
        &&& self.zeroes_view().len() == self.spec_depth()
        &&& self.leaves_view().len() <= capacity(self.spec_arity(), self.spec_depth())
        &&& zeroes_chained(self.hasher(), self.zeroes_view(), self.spec_arity())
        &&& levels_linked(
            self.hasher(),
            self.zeroes_view(),
            self.spec_arity(),
            self.nodes_view(),
        )
    }

    /// `proof` is the proof of leaf `index` that this tree gives: its root
    /// and leaf are the tree's, and at every level it records the place of
    /// the leaf's ancestor in its group and the rest of the group.
    pub open spec fn proves(&self, index: int, proof: &IMTMerkleProof) -> bool {
        &&& proof.fits(self.spec_depth(), self.spec_arity())
        &&& self.root_view() == Some(proof.root_view())
        &&& proof.leaf_view() == self.leaves_view()[index]
        &&& forall|l: int|
            0 <= l < self.spec_depth() ==> (#[trigger] proof.path_view()[l]) as int == path_pos(
                index,
                self.spec_arity(),
                l as nat,
            ) % (self.spec_arity() as int)
        &&& forall|l: int|
            0 <= l < self.spec_depth() ==> #[trigger] proof.siblings_view()[l] == siblings_of(
                self.nodes_view()[l],
                self.zeroes_view()[l],
                self.spec_arity(),
                path_pos(index, self.spec_arity(), l as nat),
            )
    }

    /// `self` has the hash, depth, arity and zero values of `other`.
    pub open spec fn same_parameters(&self, other: &Self) -> bool {
        &&& self.hasher() == other.hasher()
        &&& self.spec_depth() == other.spec_depth()
        &&& self.spec_arity() == other.spec_arity()
        &&& self.zeroes_view() == other.zeroes_view()
    }

    /// Every node that `before` holds is the same in `self`, except possibly
    /// the ancestors of leaf `index` (the leaf itself among them).
    pub open spec fn differs_only_on_path(&self, before: &Self, index: int) -> bool {
        forall|l: int, p: int|
            0 <= l <= before.spec_depth() && 0 <= p < before.nodes_view()[l].len() && p
                != path_pos(index, before.spec_arity(), l as nat) ==> p
                < self.nodes_view()[l].len() && #[trigger] self.nodes_view()[l][p]
                == before.nodes_view()[l][p]
    }

    /// `self` has as many nodes at every level as `before`.
    pub open spec fn same_level_sizes(&self, before: &Self) -> bool {
        forall|l: int|
            0 <= l <= before.spec_depth() ==> (#[trigger] self.nodes_view()[l]).len()
                == before.nodes_view()[l].len()
    }

    /// Builds a tree over the given leaves, which take the indices
    /// `0..leaves.len()` in order.
    ///
    /// Construction is refused exactly when there are more leaves than
    /// `arity^depth`.
    pub fn new(hash: H, depth: usize, zero_value: IMTNode, arity: usize, leaves: Vec<IMTNode>) -> (r:
        Result<IMT<H>, IMTError>)
        requires
            hash_fn_ok(hash, arity as nat),
            depth < usize::MAX,
        ensures
            match r {
                Ok(tree) => {
                    &&& leaves.len() <= capacity(arity as nat, depth as nat)
                    &&& tree.wf()
                    &&& tree.hasher() == hash
                    &&& tree.spec_depth() == depth
                    &&& tree.spec_arity() == arity
                    &&& tree.leaves_view() == leaves.deep_view()
                    &&& depth > 0 ==> tree.zeroes_view()[0] == zero_value@
                },
                Err(e) => {
                    &&& leaves.len() > capacity(arity as nat, depth as nat)
                    &&& e == IMTError::CapacityExceeded
                },
            },
    {
        let fits = match checked_capacity(arity, depth) {
            Some(c) => leaves.len() <= c,
            None => true,
        };
        if !fits {
            return Err(IMTError::CapacityExceeded);
        }
        let zeroes = Self::zero_values(&hash, depth, zero_value, arity);
        let ghost leaf_values = leaves.deep_view();
        let mut nodes: Vec<Vec<IMTNode>> = Vec::new();
        nodes.push(leaves);
        proof {
            if arity == 0 && depth > 0 {
                lemma_capacity_zero(depth as nat);
            }
            assert(nodes.deep_view() =~= seq![leaf_values]);
        }
        let mut level: usize = 0;
        while level < depth
            invariant
                level <= depth,
                depth < usize::MAX,
                hash_fn_ok(hash, arity as nat),
                zeroes.len() == depth,
                nodes.len() == level + 1,
                nodes.deep_view()[0] == leaf_values,
                arity == 0 && level < depth ==> nodes[level as int].len() == 0,
                levels_linked(hash, zeroes.deep_view(), arity as nat, nodes.deep_view()),
            decreases depth - level,
        {
            let ghost built = nodes.deep_view();
            let above = Self::parents_of(&hash, &nodes[level], &zeroes[level], arity);
            nodes.push(above);
            proof {
                lemma_levels_push(hash, zeroes.deep_view(), arity as nat, built);
                assert(nodes.deep_view() =~= built.push(above.deep_view()));
            }
            level += 1;
        }
        let tree = IMT { nodes, zeroes, hash, depth, arity };
        proof {
            assert(depth > 0 ==> tree.zeroes_view()[0] == tree.zeroes[0]@);
            assert(tree.leaves_view() == leaf_values);
        }
        Ok(tree)
    }

    /// The zero value of each level below the root: the given one for the
    /// leaves, and for each level above the hash of `arity` copies of the
    /// zero value of the level below.
    fn zero_values(hash: &H, depth: usize, zero_value: IMTNode, arity: usize) -> (zeroes: Vec<
        IMTNode,
    >)
        requires
            hash_fn_ok(*hash, arity as nat),
        ensures
            zeroes.len() == depth,
            depth > 0 ==> zeroes[0]@ == zero_value@,
            zeroes_chained(*hash, zeroes.deep_view(), arity as nat),
    {
        let ghost first_zero = zero_value@;
        let mut zeroes: Vec<IMTNode> = Vec::new();
        let mut current_zero = zero_value;
        let mut filled: usize = 0;
        while filled < depth
            invariant
                filled <= depth,
                hash_fn_ok(*hash, arity as nat),
                zeroes.len() == filled,
                filled == 0 ==> current_zero@ == first_zero,
                filled > 0 ==> zeroes[0]@ == first_zero,
                filled > 0 ==> current_zero@ == next_zero(
                    *hash,
                    zeroes[filled - 1]@,
                    arity as nat,
                ),
                zeroes_chained(*hash, zeroes.deep_view(), arity as nat),
            decreases depth - filled,
        {
            let ghost chained = zeroes.deep_view();
            zeroes.push(current_zero.clone());
            let copies = vec![current_zero; arity];
            proof {
                assert(zeroes.deep_view() =~= chained.push(current_zero@));
                assert(copies.deep_view() =~= Seq::new(arity as nat, |k: int| current_zero@));
                assert forall|l: int| 0 < l < zeroes.deep_view().len() implies
                    #[trigger] zeroes.deep_view()[l] == next_zero(
                    *hash,
                    zeroes.deep_view()[l - 1],
                    arity as nat,
                ) by {
                    if l < filled {
                        assert(zeroes.deep_view()[l] == chained[l]);
                        assert(zeroes.deep_view()[l - 1] == chained[l - 1]);
                    }
                }
            }
            let next = hash(copies);
            proof {
                lemma_hash_value(*hash, arity as nat, copies, next);
            }
            current_zero = next;
            filled += 1;
        }
        zeroes
    }

    /// The level of parents of `below`.
    fn parents_of(hash: &H, below: &Vec<IMTNode>, zero: &IMTNode, arity: usize) -> (above: Vec<
        IMTNode,
    >)
        requires
            hash_fn_ok(*hash, arity as nat),
            arity == 0 ==> below.len() == 0,
        ensures
            above.len() == parent_count(below.len() as nat, arity as nat),
            above.deep_view() == parents(*hash, below.deep_view(), zero@, arity as nat),
    {
        let count: usize = if below.len() == 0 {
            0
        } else {
            (below.len() - 1) / arity + 1
        };
        proof {
            if arity > 0 {
                lemma_parent_count(below.len() as nat, arity as nat);
            }
        }
        let mut above: Vec<IMTNode> = Vec::new();
        let mut group: usize = 0;
        while group < count
            invariant
                group <= count,
                count == parent_count(below.len() as nat, arity as nat),
                hash_fn_ok(*hash, arity as nat),
                above.len() == group,
                forall|g: int| 0 <= g < count ==> 0 <= #[trigger] (g * (arity as int)) < below.len(),
                forall|g: int|
                    0 <= g < group ==> (#[trigger] above[g])@ == parents(
                        *hash,
                        below.deep_view(),
                        zero@,
                        arity as nat,
                    )[g],
            decreases count - group,
        {
            assert(0 <= (group as int) * (arity as int) < below.len());
            let group_children = gather_children(below, zero, arity, group);
            let parent = hash(group_children);
            proof {
                lemma_hash_value(*hash, arity as nat, group_children, parent);
            }
            above.push(parent);
            group += 1;
        }
        assert(above.deep_view() =~= parents(*hash, below.deep_view(), zero@, arity as nat));
        above
    }
}

impl<H: Fn(Vec<IMTNode>) -> IMTNode> IMT<H> {
    /// The root, or `None` for a tree without leaves.
    pub fn root(&self) -> (r: Option<IMTNode>)
        requires
            self.wf(),
        ensures
            match r {
                Some(node) => self.root_view() == Some(node@),
                None => self.root_view() is None,
            },
    {
        let top = &self.nodes[self.depth];
        if top.len() > 0 {
            Some(top[0].clone())
        } else {
            None
        }
    }

    /// The number of levels above the leaves.
    pub fn depth(&self) -> (d: usize)
        ensures
            d == self.spec_depth(),
    {
        self.depth
    }

    /// A copy of every level of the tree, leaves first.
    pub fn nodes(&self) -> (r: Vec<Vec<IMTNode>>)
        ensures
            r.deep_view() == self.nodes_view(),
    {
        let r = self.nodes.clone();
        assert(r.deep_view() =~= self.nodes.deep_view());
        r
    }

    /// A copy of the zero value of each level below the root.
    pub fn zeroes(&self) -> (r: Vec<IMTNode>)
        ensures
            r.deep_view() == self.zeroes_view(),
    {
        let r = self.zeroes.clone();
        assert(r.deep_view() =~= self.zeroes.deep_view());
        r
    }

    /// A copy of the leaves, by index.
    pub fn leaves(&self) -> (r: Vec<IMTNode>)
        requires
            self.wf(),
        ensures
            r.deep_view() == self.leaves_view(),
    {
        let r = self.nodes[0].clone();
        assert(r.deep_view() =~= self.nodes[0].deep_view());
        r
    }

    /// The number of children under each parent.
    pub fn arity(&self) -> (a: usize)
        ensures
            a == self.spec_arity(),
    {
        self.arity
    }

    /// Whether the tree holds as many leaves as it can: `arity^depth`.
    pub fn is_full(&self) -> (full: bool)
        requires
            self.wf(),
        ensures
            full == (self.leaves_view().len() >= capacity(self.spec_arity(), self.spec_depth())),
    {
        let held: usize = self.nodes[0].len();
        assert(self.leaves_view().len() == held) by {
            assert(self.nodes_view()[0] == self.nodes[0].deep_view());
        }
        match checked_capacity(self.arity, self.depth) {
            Some(c) => held >= c,
            None => false,
        }
    }

    /// Appends `leaf` at the first free index and recomputes its ancestors.
    ///
    /// The insertion is refused, and the tree left as it was, exactly when
    /// the tree already holds `arity^depth` leaves.
    pub fn insert(&mut self, leaf: IMTNode) -> (r: Result<(), IMTError>)
        requires
            old(self).wf(),
        ensures
            match r {
                Ok(_) => {
                    &&& old(self).leaves_view().len() < capacity(
                        old(self).spec_arity(),
                        old(self).spec_depth(),
                    )
                    &&& final(self).wf()
                    &&& final(self).same_parameters(old(self))
                    &&& final(self).leaves_view() == old(self).leaves_view().push(leaf@)
                    &&& final(self).differs_only_on_path(
                        old(self),
                        old(self).leaves_view().len() as int,
                    )
                },
                Err(e) => {
                    &&& old(self).leaves_view().len() >= capacity(
                        old(self).spec_arity(),
                        old(self).spec_depth(),
                    )
                    &&& e == IMTError::TreeFull
                    &&& *final(self) == *old(self)
                },
            },
    {
        if self.is_full() {
            return Err(IMTError::TreeFull);
        }
        let ghost before = self.nodes.deep_view();
        let ghost prior = self.nodes;
        let index: usize = self.nodes[0].len();
        self.nodes[0].push(leaf);
        proof {
            lemma_push_view(prior[0], self.nodes[0], leaf);
            if self.depth > 0 && self.arity == 0 {
                lemma_capacity_zero(self.depth as nat);
            }
            assert(self.nodes.deep_view() =~= before.update(0, before[0].push(leaf@)));
        }
        self.recompute_path(index, Ghost(before));
        proof {
            self.lemma_rewritten(old(self), index as int);
        }
        Ok(())
    }

    /// Overwrites the leaf at `index` and recomputes its ancestors.
    ///
    /// The update is refused, and the tree left as it was, exactly when
    /// `index` is not the index of a leaf.
    pub fn update(&mut self, index: usize, new_leaf: IMTNode) -> (r: Result<(), IMTError>)
        requires
            old(self).wf(),
        ensures
            match r {
                Ok(_) => {
                    &&& index < old(self).leaves_view().len()
                    &&& final(self).wf()
                    &&& final(self).same_parameters(old(self))
                    &&& final(self).leaves_view() == old(self).leaves_view().update(
                        index as int,
                        new_leaf@,
                    )
                    &&& final(self).same_level_sizes(old(self))
                    &&& final(self).differs_only_on_path(old(self), index as int)
                },
                Err(e) => {
                    &&& index >= old(self).leaves_view().len()
                    &&& e == IMTError::LeafDoesNotExist
                    &&& *final(self) == *old(self)
                },
            },
    {
        if index >= self.nodes[0].len() {
            return Err(IMTError::LeafDoesNotExist);
        }
        let ghost before = self.nodes.deep_view();
        let ghost prior = self.nodes;
        self.nodes[0][index] = new_leaf;
        proof {
            lemma_update_view(prior[0], self.nodes[0], index as int, new_leaf);
            if self.depth > 0 && self.arity == 0 {
                lemma_capacity_zero(self.depth as nat);
            }
            assert(self.nodes.deep_view() =~= before.update(
                0,
                before[0].update(index as int, new_leaf@),
            ));
        }
        self.recompute_path(index, Ghost(before));
        proof {
            self.lemma_rewritten(old(self), index as int);
        }
        Ok(())
    }

    /// Overwrites the leaf at `index` with the zero value of the leaves. The
    /// leaf keeps its index, and so does every other leaf.
    ///
    /// A tree of depth 0 has no zero value to write.
    pub fn delete(&mut self, index: usize) -> (r: Result<(), IMTError>)
        requires
            old(self).wf(),
            old(self).spec_depth() > 0,
        ensures
            match r {
                Ok(_) => {
                    &&& index < old(self).leaves_view().len()
                    &&& final(self).wf()
                    &&& final(self).same_parameters(old(self))
                    &&& final(self).leaves_view() == old(self).leaves_view().update(
                        index as int,
                        old(self).zeroes_view()[0],
                    )
                    &&& final(self).same_level_sizes(old(self))
                    &&& final(self).differs_only_on_path(old(self), index as int)
                },
                Err(e) => {
                    &&& index >= old(self).leaves_view().len()
                    &&& e == IMTError::LeafDoesNotExist
                    &&& *final(self) == *old(self)
                },
            },
    {
        let zero = self.zeroes[0].clone();
        self.update(index, zero)
    }

    /// The proof that the leaf at `index` belongs to the tree as it is now.
    ///
    /// The request is refused exactly when `index` is not the index of a
    /// leaf.
    pub fn create_proof(&self, index: usize) -> (r: Result<IMTMerkleProof, IMTError>)
        requires
            self.wf(),
        ensures
            match r {
                Ok(proof) => {
                    &&& index < self.leaves_view().len()
                    &&& self.proves(index as int, &proof)
                    &&& proof.holds(self.hasher())
                },
                Err(e) => index >= self.leaves_view().len() && e == IMTError::LeafDoesNotExist,
            },
    {
        if index >= self.nodes[0].len() {
            return Err(IMTError::LeafDoesNotExist);
        }
        proof {
            if self.depth > 0 && self.arity == 0 {
                lemma_capacity_zero(self.depth as nat);
            }
        }
        let mut siblings: Vec<Vec<IMTNode>> = Vec::with_capacity(self.depth);
        let mut path_indices: Vec<usize> = Vec::with_capacity(self.depth);
        let mut current_index: usize = index;
        let mut level: usize = 0;
        while level < self.depth
            invariant
                self.wf(),
                level <= self.depth,
                self.depth > 0 ==> self.arity > 0,
                current_index == path_pos(index as int, self.arity as nat, level as nat),
                current_index < self.nodes[level as int].len(),
                path_indices.len() == level,
                siblings.len() == level,
                forall|l: int|
                    0 <= l < level ==> (#[trigger] path_indices[l]) as int == path_pos(
                        index as int,
                        self.arity as nat,
                        l as nat,
                    ) % (self.arity as int),
                forall|l: int|
                    0 <= l < level ==> (#[trigger] siblings[l]).deep_view() == siblings_of(
                        self.nodes[l].deep_view(),
                        self.zeroes[l]@,
                        self.arity as nat,
                        path_pos(index as int, self.arity as nat, l as nat),
                    ),
            decreases self.depth - level,
        {
            proof {
                lemma_position_split(self.arity as int, current_index as int);
                lemma_parent_count(self.nodes[level as int].len() as nat, self.arity as nat);
                assert(self.nodes_view()[level + 1] == self.nodes[level + 1].deep_view());
                assert(self.nodes_view()[level as int] == self.nodes[level as int].deep_view());
            }
            let position: usize = current_index % self.arity;
            let group: usize = current_index / self.arity;
            path_indices.push(position);
            let level_siblings = gather_siblings(
                &self.nodes[level],
                &self.zeroes[level],
                self.arity,
                group,
                position,
            );
            siblings.push(level_siblings);
            current_index = group;
            level += 1;
        }
        let proof = IMTMerkleProof {
            root: self.nodes[self.depth][0].clone(),
            leaf: self.nodes[0][index].clone(),
            path_indices,
            siblings,
        };
        proof {
            assert(self.nodes_view()[self.depth as int] == self.nodes[self.depth as int].deep_view());
            assert(self.nodes_view()[0] == self.nodes[0].deep_view());
            assert forall|l: int| 0 <= l < self.spec_depth() implies #[trigger] proof.siblings_view()[l]
                == siblings_of(
                self.nodes_view()[l],
                self.zeroes_view()[l],
                self.spec_arity(),
                path_pos(index as int, self.spec_arity(), l as nat),
            ) by {
                assert(proof.siblings_view()[l] == proof.siblings[l].deep_view());
                assert(self.nodes_view()[l] == self.nodes[l].deep_view());
            }
            assert forall|l: int| 0 <= l < self.spec_depth() implies #[trigger] proof.path_view()[l]
                < self.spec_arity() by {
                self.lemma_path_in_range(index as int, l as nat);
                lemma_position_split(
                    self.arity as int,
                    path_pos(index as int, self.arity as nat, l as nat),
                );
            }
            assert forall|l: int| 0 <= l < self.spec_depth() implies (
            #[trigger] proof.siblings_view()[l]).len() + 1 == self.spec_arity() by {
                assert(proof.siblings_view()[l] == proof.siblings[l].deep_view());
            }
            lemma_created_proof_holds(self, index as int, &proof);
        }
        Ok(proof)
    }

    /// Whether hashing up from the proof's leaf gives the proof's root.
    ///
    /// Only the hash of this tree takes part: the nodes of the tree are not
    /// read, so a proof holds or fails the same way before and after any
    /// change to the tree.
    pub fn verify_proof(&self, proof: &IMTMerkleProof) -> (ok: bool)
        requires
            hash_fn_ok(self.hasher(), self.spec_arity()),
            proof.fits(self.spec_depth(), self.spec_arity()),
        ensures
            ok == proof.holds(self.hasher()),
    {
        let mut node = proof.leaf.clone();
        let mut level: usize = 0;
        while level < proof.siblings.len()
            invariant
                level <= proof.siblings.len(),
                hash_fn_ok(self.hash, self.arity as nat),
                proof.fits(self.depth as nat, self.arity as nat),
                node@ == climb(
                    self.hash,
                    proof.leaf_view(),
                    proof.siblings_view(),
                    proof.path_view(),
                    level as nat,
                ),
            decreases proof.siblings.len() - level,
        {
            assert(proof.siblings_view()[level as int] == proof.siblings[level as int].deep_view());
            assert(proof.path_view()[level as int] < self.arity);
            let mut group_children = proof.siblings[level].clone();
            assert(group_children.deep_view() =~= proof.siblings[level as int].deep_view());
            let ghost rest = group_children;
            group_children.insert(proof.path_indices[level], node);
            assert(group_children.deep_view() =~= rest.deep_view().insert(
                proof.path_indices[level as int] as int,
                node@,
            ));
            assert(group_children.len() == self.arity);
            let parent = (self.hash)(group_children);
            proof {
                lemma_hash_value(self.hash, self.arity as nat, group_children, parent);
            }
            node = parent;
            level += 1;
        }
        node == proof.root
    }

    /// Checks the shape of `proof` against this tree, then verifies it.
    ///
    /// A proof of another shape is refused as malformed; for a proof of the
    /// right shape the answer is that of `verify_proof`.
    pub fn try_verify_proof(&self, proof: &IMTMerkleProof) -> (r: Result<bool, IMTError>)
        requires
            hash_fn_ok(self.hasher(), self.spec_arity()),
        ensures
            match r {
                Ok(ok) => proof.fits(self.spec_depth(), self.spec_arity()) && ok == proof.holds(
                    self.hasher(),
                ),
                Err(e) => !proof.fits(self.spec_depth(), self.spec_arity()) && e
                    == IMTError::MalformedProof,
            },
    {
        if proof.has_shape(self.depth, self.arity) {
            Ok(self.verify_proof(proof))
        } else {
            Err(IMTError::MalformedProof)
        }
    }

    /// The ancestors of a leaf exist: at every level the path of leaf `index`
    /// stays inside the level.
    pub proof fn lemma_path_in_range(&self, index: int, level: nat)
        requires
            self.wf(),
            0 <= index < self.leaves_view().len(),
            level <= self.spec_depth(),
        ensures
            0 <= path_pos(index, self.spec_arity(), level) < self.nodes_view()[level as int].len(),
            self.spec_depth() > 0 ==> self.spec_arity() > 0,
        decreases level,
    {
        if self.spec_depth() > 0 && self.spec_arity() == 0 {
            lemma_capacity_zero(self.spec_depth());
        }
        if level > 0 {
            self.lemma_path_in_range(index, (level - 1) as nat);
            lemma_parent_count(self.nodes_view()[level - 1].len(), self.spec_arity());
            assert(self.nodes_view()[level as int] == parents(
                self.hasher(),
                self.nodes_view()[level - 1],
                self.zeroes_view()[level - 1],
                self.spec_arity(),
            ));
        }
    }

    /// What rewriting the path of `index` up to the root leaves behind: a
    /// well-formed tree that differs from `before` only on that path.
    proof fn lemma_rewritten(&self, before: &Self, index: int)
        requires
            before.wf(),
            self.same_parameters(before),
            self.leaves_view().len() <= capacity(self.spec_arity(), self.spec_depth()),
            rewritten_up_to(
                before.hasher(),
                before.zeroes_view(),
                before.spec_arity(),
                before.nodes_view(),
                self.nodes_view(),
                index,
                before.spec_depth(),
            ),
        ensures
            self.wf(),
            self.differs_only_on_path(before, index),
            index < before.leaves_view().len() ==> self.same_level_sizes(before),
    {
        let arity = before.spec_arity();
        assert forall|l: int, p: int|
            0 <= l <= before.spec_depth() && 0 <= p < before.nodes_view()[l].len() && p != path_pos(
                index,
                arity,
                l as nat,
            ) implies p < self.nodes_view()[l].len() && #[trigger] self.nodes_view()[l][p]
            == before.nodes_view()[l][p] by {
            assert(changed_at(
                before.nodes_view()[l],
                self.nodes_view()[l],
                path_pos(index, arity, l as nat),
            ));
        }
        if index < before.leaves_view().len() {
            assert forall|l: int| 0 <= l <= before.spec_depth() implies (
            #[trigger] self.nodes_view()[l]).len() == before.nodes_view()[l].len() by {
                assert(changed_at(
                    before.nodes_view()[l],
                    self.nodes_view()[l],
                    path_pos(index, arity, l as nat),
                ));
                assert(path_pos(index, arity, l as nat) < before.nodes_view()[l].len());
            }
        }
    }

    /// Recomputes the ancestors of leaf `index` after that leaf was written.
    ///
    /// `before` holds the levels as they were when every level was the
    /// level of parents of the one below; since then only position `index`
    /// of the leaves has been written.
    fn recompute_path(&mut self, index: usize, Ghost(before): Ghost<Seq<Seq<NodeValue>>>)
        requires
            hash_fn_ok(old(self).hash, old(self).arity as nat),
            old(self).depth > 0 ==> old(self).arity > 0,
            old(self).zeroes.len() == old(self).depth,
            before.len() == old(self).depth + 1,
            levels_linked(
                old(self).hash,
                old(self).zeroes.deep_view(),
                old(self).arity as nat,
                before,
            ),
            rewritten_up_to(
                old(self).hash,
                old(self).zeroes.deep_view(),
                old(self).arity as nat,
                before,
                old(self).nodes.deep_view(),
                index as int,
                0,
            ),
        ensures
            final(self).hash == old(self).hash,
            final(self).depth == old(self).depth,
            final(self).arity == old(self).arity,
            final(self).zeroes == old(self).zeroes,
            final(self).nodes.deep_view()[0] == old(self).nodes.deep_view()[0],
            rewritten_up_to(
                old(self).hash,
                old(self).zeroes.deep_view(),
                old(self).arity as nat,
                before,
                final(self).nodes.deep_view(),
                index as int,
                old(self).depth as nat,
            ),
    {
        let ghost hash = self.hash;
        let ghost zeroes = self.zeroes;
        let ghost leaves = self.nodes.deep_view()[0];
        let depth = self.depth;
        let arity = self.arity;
        let mut position: usize = index;
        let mut level: usize = 0;
        while level < depth
            invariant
                level <= depth,
                depth > 0 ==> arity > 0,
                self.hash == hash,
                self.zeroes == zeroes,
                self.depth == depth,
                self.arity == arity,
                hash_fn_ok(hash, arity as nat),
                zeroes.len() == depth,
                before.len() == depth + 1,
                self.nodes.deep_view()[0] == leaves,
                position == path_pos(index as int, arity as nat, level as nat),
                levels_linked(hash, zeroes.deep_view(), arity as nat, before),
                rewritten_up_to(
                    hash,
                    zeroes.deep_view(),
                    arity as nat,
                    before,
                    self.nodes.deep_view(),
                    index as int,
                    level as nat,
                ),
            decreases depth - level,
        {
            let ghost cur = self.nodes.deep_view();
            let ghost above = parents(hash, cur[level as int], zeroes[level as int]@, arity as nat);
            let ghost prior = self.nodes;
            proof {
                lemma_rewrite_step(
                    hash,
                    zeroes.deep_view(),
                    arity as nat,
                    before,
                    cur,
                    index as int,
                    level as nat,
                );
                assert(changed_at(before[level as int], cur[level as int], position as int));
                lemma_position_split(arity as int, position as int);
            }
            let group: usize = position / arity;
            let group_children = gather_children(
                &self.nodes[level],
                &self.zeroes[level],
                arity,
                group,
            );
            let node = (self.hash)(group_children);
            proof {
                lemma_hash_value(hash, arity as nat, group_children, node);
                assert(above[group as int] == node@);
            }
            position = group;
            if self.nodes[level + 1].len() <= position {
                self.nodes[level + 1].push(node);
                proof {
                    lemma_push_view(prior[level + 1], self.nodes[level + 1], node);
                }
            } else {
                self.nodes[level + 1][position] = node;
                proof {
                    lemma_update_view(
                        prior[level + 1],
                        self.nodes[level + 1],
                        position as int,
                        node,
                    );
                }
            }
            proof {
                assert(self.nodes[level + 1].deep_view() =~= above);
                assert(self.nodes.deep_view() =~= cur.update(level + 1, above));
            }
            level += 1;
        }
    }
}

} // verus!
