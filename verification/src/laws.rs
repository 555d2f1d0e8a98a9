//! Laws that relate the operations of the tree to one another.
//!
//! Each law is stated over the views of the tree and of its proofs, that is
//! over the same terms as the contracts of the operations.

use crate::hash_model::{hash_injective, hash_value};
use crate::imt::{IMTMerkleProof, IMTNode, IMT};
use crate::tree_spec::{
    capacity, changed_at, child_at, children, climb, lemma_capacity_zero, lemma_group_member,
    lemma_parent_count, lemma_parents_changed, lemma_parents_fit, lemma_position_split, next_zero,
    parents, path_pos, position_of_path, siblings_of,
};
use vstd::prelude::*;

verus! {

/// Every node above the leaves is the hash of its children, where a child
/// past the end of the level below counts as that level's zero value.
pub proof fn lemma_node_is_hash_of_children<H: Fn(Vec<IMTNode>) -> IMTNode>(
    tree: &IMT<H>,
    level: int,
    i: int,
)
    requires
        tree.wf(),
        0 <= level < tree.spec_depth(),
        0 <= i < tree.nodes_view()[level + 1].len(),
    ensures
        tree.nodes_view()[level + 1][i] == hash_value(
            tree.hasher(),
            children(
                tree.nodes_view()[level],
                tree.zeroes_view()[level],
                tree.spec_arity(),
                i,
            ),
        ),
{
    assert(tree.nodes_view()[level + 1] == parents(
        tree.hasher(),
        tree.nodes_view()[level],
        tree.zeroes_view()[level],
        tree.spec_arity(),
    ));
}

/// No level holds more nodes than a tree of the remaining depth has leaves,
/// so the top level holds at most the root; and a tree with a leaf has a
/// node at every level.
pub proof fn lemma_level_sizes<H: Fn(Vec<IMTNode>) -> IMTNode>(tree: &IMT<H>, level: nat)
    requires
        tree.wf(),
        level <= tree.spec_depth(),
    ensures
        tree.nodes_view()[level as int].len() <= capacity(
            tree.spec_arity(),
            (tree.spec_depth() - level) as nat,
        ),
        tree.leaves_view().len() > 0 ==> tree.nodes_view()[level as int].len() > 0,
        level == tree.spec_depth() ==> tree.nodes_view()[level as int].len() <= 1,
    decreases level,
{
    if level > 0 {
        lemma_level_sizes(tree, (level - 1) as nat);
        let below = tree.nodes_view()[level - 1];
        assert(tree.nodes_view()[level as int] == parents(
            tree.hasher(),
            below,
            tree.zeroes_view()[level - 1],
            tree.spec_arity(),
        ));
        lemma_parents_fit(below.len(), tree.spec_arity(), (tree.spec_depth() - level) as nat);
        if tree.leaves_view().len() > 0 {
            if tree.spec_arity() == 0 {
                lemma_capacity_zero(tree.spec_depth());
            }
            lemma_parent_count(below.len(), tree.spec_arity());
        }
    }
}

/// The zero values of a tree are a function of its hash, depth and arity
/// and of the zero value of its leaves.
pub proof fn lemma_zeroes_determined<H: Fn(Vec<IMTNode>) -> IMTNode>(a: &IMT<H>, b: &IMT<H>)
    requires
        a.wf(),
        b.wf(),
        a.hasher() == b.hasher(),
        a.spec_depth() == b.spec_depth(),
        a.spec_arity() == b.spec_arity(),
        a.spec_depth() > 0 ==> a.zeroes_view()[0] == b.zeroes_view()[0],
    ensures
        a.same_parameters(b),
{
    assert forall|l: int| 0 <= l < a.spec_depth() implies a.zeroes_view()[l]
        == b.zeroes_view()[l] by {
        lemma_zeroes_agree(a, b, l as nat);
    }
    assert(a.zeroes_view() =~= b.zeroes_view());
}

proof fn lemma_zeroes_agree<H: Fn(Vec<IMTNode>) -> IMTNode>(a: &IMT<H>, b: &IMT<H>, level: nat)
    requires
        a.wf(),
        b.wf(),
        a.hasher() == b.hasher(),
        a.spec_depth() == b.spec_depth(),
        a.spec_arity() == b.spec_arity(),
        a.spec_depth() > 0 ==> a.zeroes_view()[0] == b.zeroes_view()[0],
        level < a.spec_depth(),
    ensures
        a.zeroes_view()[level as int] == b.zeroes_view()[level as int],
    decreases level,
{
    if level > 0 {
        lemma_zeroes_agree(a, b, (level - 1) as nat);
        assert(a.zeroes_view()[level as int] == next_zero(
            a.hasher(),
            a.zeroes_view()[level - 1],
            a.spec_arity(),
        ));
        assert(b.zeroes_view()[level as int] == next_zero(
            b.hasher(),
            b.zeroes_view()[level - 1],
            b.spec_arity(),
        ));
    }
}

/// The nodes of a tree are a function of its parameters and its leaves: two
/// trees with the same parameters and the same leaves hold the same nodes.
pub proof fn lemma_tree_determined<H: Fn(Vec<IMTNode>) -> IMTNode>(a: &IMT<H>, b: &IMT<H>)
    requires
        a.wf(),
        b.wf(),
        a.same_parameters(b),
        a.leaves_view() == b.leaves_view(),
    ensures
        a.nodes_view() == b.nodes_view(),
        a.root_view() == b.root_view(),
{
    assert forall|l: int| 0 <= l <= a.spec_depth() implies a.nodes_view()[l]
        == b.nodes_view()[l] by {
        lemma_levels_agree(a, b, l as nat);
    }
    assert(a.nodes_view() =~= b.nodes_view());
}

proof fn lemma_levels_agree<H: Fn(Vec<IMTNode>) -> IMTNode>(a: &IMT<H>, b: &IMT<H>, level: nat)
    requires
        a.wf(),
        b.wf(),
        a.same_parameters(b),
        a.leaves_view() == b.leaves_view(),
        level <= a.spec_depth(),
    ensures
        a.nodes_view()[level as int] == b.nodes_view()[level as int],
    decreases level,
{
    if level > 0 {
        lemma_levels_agree(a, b, (level - 1) as nat);
        assert(a.nodes_view()[level as int] == parents(
            a.hasher(),
            a.nodes_view()[level - 1],
            a.zeroes_view()[level - 1],
            a.spec_arity(),
        ));
        assert(b.nodes_view()[level as int] == parents(
            b.hasher(),
            b.nodes_view()[level - 1],
            b.zeroes_view()[level - 1],
            b.spec_arity(),
        ));
    }
}

/// Deleting a leaf twice gives the tree that deleting it once gives: the
/// second deletion changes no node, and so not the root.
///
/// `once` and `twice` stand for the tree after the first and after the second
/// successful `delete(index)`.
pub proof fn lemma_delete_twice<H: Fn(Vec<IMTNode>) -> IMTNode>(
    tree: &IMT<H>,
    once: &IMT<H>,
    twice: &IMT<H>,
    index: int,
)
    requires
        tree.wf(),
        tree.spec_depth() > 0,
        0 <= index < tree.leaves_view().len(),
        once.wf(),
        once.same_parameters(tree),
        once.leaves_view() == tree.leaves_view().update(index, tree.zeroes_view()[0]),
        twice.wf(),
        twice.same_parameters(once),
        twice.leaves_view() == once.leaves_view().update(index, once.zeroes_view()[0]),
    ensures
        twice.nodes_view() == once.nodes_view(),
        twice.root_view() == once.root_view(),
{
    assert(twice.leaves_view() =~= once.leaves_view());
    lemma_tree_determined(twice, once);
}

/// The proof that a tree gives for one of its leaves holds: hashing up from
/// the leaf gives the root of that tree.
pub proof fn lemma_created_proof_holds<H: Fn(Vec<IMTNode>) -> IMTNode>(
    tree: &IMT<H>,
    index: int,
    proof: &IMTMerkleProof,
)
    requires
        tree.wf(),
        0 <= index < tree.leaves_view().len(),
        tree.proves(index, proof),
    ensures
        proof.holds(tree.hasher()),
        tree.root_view() == Some(proof.recomputed_root(tree.hasher())),
{
    let depth = tree.spec_depth();
    lemma_climb_follows_path(tree, index, proof, depth);
    lemma_level_sizes(tree, depth);
    tree.lemma_path_in_range(index, depth);
}

/// Hashing up from the leaf of a tree's proof passes through the ancestors
/// of that leaf.
proof fn lemma_climb_follows_path<H: Fn(Vec<IMTNode>) -> IMTNode>(
    tree: &IMT<H>,
    index: int,
    proof: &IMTMerkleProof,
    level: nat,
)
    requires
        tree.wf(),
        0 <= index < tree.leaves_view().len(),
        tree.proves(index, proof),
        level <= tree.spec_depth(),
    ensures
        climb(tree.hasher(), proof.leaf_view(), proof.siblings_view(), proof.path_view(), level)
            == tree.nodes_view()[level as int][path_pos(index, tree.spec_arity(), level)],
    decreases level,
{
    if level > 0 {
        let arity = tree.spec_arity();
        let below = tree.nodes_view()[level - 1];
        let zero = tree.zeroes_view()[level - 1];
        let j: int = path_pos(index, arity, (level - 1) as nat);
        let group: int = j / (arity as int);
        let place: int = j % (arity as int);
        lemma_climb_follows_path(tree, index, proof, (level - 1) as nat);
        tree.lemma_path_in_range(index, (level - 1) as nat);
        tree.lemma_path_in_range(index, level);
        lemma_position_split(arity as int, j);
        let group_children = children(below, zero, arity, group);
        assert(group_children[place] == child_at(below, zero, j));
        assert(proof.siblings_view()[level - 1] == siblings_of(below, zero, arity, j));
        assert(proof.path_view()[level - 1] as int == place);
        assert(group_children.remove(place).insert(place, below[j]) =~= group_children);
        assert(tree.nodes_view()[level as int] == parents(tree.hasher(), below, zero, arity));
    }
}

/// Under a hash without collisions, writing a leaf changes the root, unless
/// the value written is the one that stood for that position before: the
/// leaf's old value, or the zero value for a position that was free.
///
/// `after` stands for the tree after a successful `update(index, ..)`,
/// `delete(index)` or, with `index` the first free position, `insert(..)`.
/// In particular a proof made before the write does not carry the root of
/// the tree after it.
pub proof fn lemma_write_changes_root<H: Fn(Vec<IMTNode>) -> IMTNode>(
    before: &IMT<H>,
    after: &IMT<H>,
    index: int,
)
    requires
        before.wf(),
        after.wf(),
        after.same_parameters(before),
        hash_injective(before.hasher(), before.spec_arity()),
        changed_at(before.leaves_view(), after.leaves_view(), index),
        index < before.leaves_view().len() ==> after.leaves_view()[index]
            != before.leaves_view()[index],
        index == before.leaves_view().len() && before.spec_depth() > 0 ==> after.leaves_view()[index]
            != before.zeroes_view()[0],
    ensures
        after.root_view() != before.root_view(),
{
    let depth = before.spec_depth();
    lemma_path_differs(before, after, index, depth);
    lemma_level_sizes(after, depth);
    lemma_level_sizes(before, depth);
}

/// Under a hash without collisions, a write of a new value to a leaf shows
/// in every ancestor of that leaf.
proof fn lemma_path_differs<H: Fn(Vec<IMTNode>) -> IMTNode>(
    before: &IMT<H>,
    after: &IMT<H>,
    index: int,
    level: nat,
)
    requires
        before.wf(),
        after.wf(),
        after.same_parameters(before),
        hash_injective(before.hasher(), before.spec_arity()),
        changed_at(before.leaves_view(), after.leaves_view(), index),
        index < before.leaves_view().len() ==> after.leaves_view()[index]
            != before.leaves_view()[index],
        index == before.leaves_view().len() && before.spec_depth() > 0 ==> after.leaves_view()[index]
            != before.zeroes_view()[0],
        level <= before.spec_depth(),
    ensures
        changed_at(
            before.nodes_view()[level as int],
            after.nodes_view()[level as int],
            path_pos(index, before.spec_arity(), level),
        ),
        level < before.spec_depth() ==> after.nodes_view()[level as int][path_pos(
            index,
            before.spec_arity(),
            level,
        )] != child_at(
            before.nodes_view()[level as int],
            before.zeroes_view()[level as int],
            path_pos(index, before.spec_arity(), level),
        ),
        path_pos(index, before.spec_arity(), level) < before.nodes_view()[level as int].len()
            ==> after.nodes_view()[level as int][path_pos(index, before.spec_arity(), level)]
            != before.nodes_view()[level as int][path_pos(index, before.spec_arity(), level)],
    decreases level,
{
    if level > 0 {
        let h = before.hasher();
        let arity = before.spec_arity();
        let zero = before.zeroes_view()[level - 1];
        let old_below = before.nodes_view()[level - 1];
        let new_below = after.nodes_view()[level - 1];
        let j: int = path_pos(index, arity, (level - 1) as nat);
        let group: int = j / (arity as int);
        let place: int = j % (arity as int);
        lemma_path_differs(before, after, index, (level - 1) as nat);
        after.lemma_path_in_range(index, (level - 1) as nat);
        after.lemma_path_in_range(index, level);
        lemma_position_split(arity as int, j);
        lemma_parents_changed(h, old_below, new_below, zero, arity, j);
        assert(before.nodes_view()[level as int] == parents(h, old_below, zero, arity));
        assert(after.nodes_view()[level as int] == parents(h, new_below, zero, arity));
        let new_children = children(new_below, zero, arity, group);
        let old_children = children(old_below, zero, arity, group);
        assert(new_children[place] == new_below[j]);
        assert(old_children[place] == child_at(old_below, zero, j));
        assert(new_children != old_children);
        if group >= before.nodes_view()[level as int].len() {
            lemma_parent_count(old_below.len(), arity);
            let blank = Seq::new(arity, |k: int| zero);
            assert(blank[place] == zero);
            assert(new_children != blank);
            if level < before.spec_depth() {
                assert(before.zeroes_view()[level as int] == next_zero(h, zero, arity));
            }
        }
    }
}

/// Under a hash without collisions, a proof that holds and carries the root
/// of a tree tells the truth about that tree: its leaf is the value at the
/// position that its path leads to. At a position past the last leaf that
/// value is the zero value of the leaves.
pub proof fn lemma_proof_sound<H: Fn(Vec<IMTNode>) -> IMTNode>(
    tree: &IMT<H>,
    proof: &IMTMerkleProof,
)
    requires
        tree.wf(),
        hash_injective(tree.hasher(), tree.spec_arity()),
        proof.fits(tree.spec_depth(), tree.spec_arity()),
        proof.holds(tree.hasher()),
        tree.root_view() == Some(proof.root_view()),
    ensures
        tree.spec_depth() == 0 ==> proof.leaf_view() == tree.leaves_view()[0],
        tree.spec_depth() > 0 ==> proof.leaf_view() == child_at(
            tree.leaves_view(),
            tree.zeroes_view()[0],
            position_of_path(proof.path_view(), tree.spec_arity(), tree.spec_depth(), 0),
        ),
{
    lemma_climb_reads_tree(tree, proof, 0);
}

/// Under a hash without collisions, hashing up from the leaf of a proof that
/// holds passes through the values that the tree holds along the proof's
/// path.
proof fn lemma_climb_reads_tree<H: Fn(Vec<IMTNode>) -> IMTNode>(
    tree: &IMT<H>,
    proof: &IMTMerkleProof,
    level: nat,
)
    requires
        tree.wf(),
        hash_injective(tree.hasher(), tree.spec_arity()),
        proof.fits(tree.spec_depth(), tree.spec_arity()),
        proof.holds(tree.hasher()),
        tree.root_view() == Some(proof.root_view()),
        level <= tree.spec_depth(),
    ensures
        0 <= position_of_path(proof.path_view(), tree.spec_arity(), tree.spec_depth(), level),
        level == tree.spec_depth() ==> climb(
            tree.hasher(),
            proof.leaf_view(),
            proof.siblings_view(),
            proof.path_view(),
            level,
        ) == tree.nodes_view()[level as int][0],
        level < tree.spec_depth() ==> climb(
            tree.hasher(),
            proof.leaf_view(),
            proof.siblings_view(),
            proof.path_view(),
            level,
        ) == child_at(
            tree.nodes_view()[level as int],
            tree.zeroes_view()[level as int],
            position_of_path(proof.path_view(), tree.spec_arity(), tree.spec_depth(), level),
        ),
    decreases tree.spec_depth() - level,
{
    let h = tree.hasher();
    let arity = tree.spec_arity();
    let depth = tree.spec_depth();
    if level < depth {
        lemma_climb_reads_tree(tree, proof, level + 1);
        let below = tree.nodes_view()[level as int];
        let zero = tree.zeroes_view()[level as int];
        let above = tree.nodes_view()[level + 1 as int];
        let group: int = position_of_path(proof.path_view(), arity, depth, level + 1);
        let place: int = proof.path_view()[level as int] as int;
        let node = climb(h, proof.leaf_view(), proof.siblings_view(), proof.path_view(), level);
        let claimed = proof.siblings_view()[level as int].insert(place, node);
        assert(climb(
            h,
            proof.leaf_view(),
            proof.siblings_view(),
            proof.path_view(),
            (level + 1) as nat,
        ) == hash_value(h, claimed));
        assert(above == parents(h, below, zero, arity));
        assert(place < arity);
        assert(claimed.len() == arity);
        assert(claimed[place] == node);
        lemma_parent_count(below.len(), arity);
        lemma_group_member(arity as int, group, place);
        assert(0 <= group * (arity as int) + place) by (nonlinear_arith)
            requires
                0 <= group,
                0 <= place,
                arity >= 0,
        ;
        if group < above.len() {
            let held = children(below, zero, arity, group);
            assert(above[group] == hash_value(h, held));
            assert(claimed == held);
            assert(held[place] == child_at(below, zero, group * (arity as int) + place));
        } else {
            let blank = Seq::new(arity, |k: int| zero);
            assert(tree.zeroes_view()[level + 1 as int] == next_zero(h, zero, arity));
            assert(claimed == blank);
            assert(blank[place] == zero);
            let position: int = group * (arity as int) + place;
            if position < below.len() {
                assert(position / (arity as int) < above.len());
            }
        }
    } else {
        assert(tree.root_view() is Some);
    }
}

} // verus!
