//! The mathematics of an incremental Merkle tree, over sequences of node
//! values.
//!
//! A level is a sequence of node values. The level above it holds one parent
//! for every group of `arity` consecutive positions that has at least one
//! node in it; positions past the end of the level count as the level's zero
//! value.

use crate::hash_model::{hash_value, NodeValue};
use vstd::arithmetic::div_mod::{
    lemma_div_is_ordered, lemma_fundamental_div_mod, lemma_fundamental_div_mod_converse,
    lemma_mod_bound,
};
use vstd::prelude::*;

verus! {

/// The number of leaves a tree of the given shape can hold: `arity^depth`.
pub open spec fn capacity(arity: nat, depth: nat) -> nat
    decreases depth,
{
    if depth == 0 {
        1
    } else {
        arity * capacity(arity, (depth - 1) as nat)
    }
}

/// The node at position `i` of a level, or the zero value past its end.
pub open spec fn child_at(level: Seq<NodeValue>, zero: NodeValue, i: int) -> NodeValue {
    if 0 <= i < level.len() {
        level[i]
    } else {
        zero
    }
}

/// The `arity` children of the parent at position `group`.
pub open spec fn children(level: Seq<NodeValue>, zero: NodeValue, arity: nat, group: int) -> Seq<
    NodeValue,
> {
    Seq::new(arity, |k: int| child_at(level, zero, group * arity + k))
}

/// How many parents a level of `n` nodes has: `n / arity`, rounded up.
pub open spec fn parent_count(n: nat, arity: nat) -> nat {
    if n == 0 || arity == 0 {
        0
    } else {
        ((n - 1) / (arity as int) + 1) as nat
    }
}

/// The level above `level`.
pub open spec fn parents<H: Fn(Vec<String>) -> String>(
    h: H,
    level: Seq<NodeValue>,
    zero: NodeValue,
    arity: nat,
) -> Seq<NodeValue> {
    Seq::new(
        parent_count(level.len(), arity),
        |group: int| hash_value(h, children(level, zero, arity, group)),
    )
}

/// The zero value of the level above one whose zero value is `zero`.
pub open spec fn next_zero<H: Fn(Vec<String>) -> String>(
    h: H,
    zero: NodeValue,
    arity: nat,
) -> NodeValue {
    hash_value(h, Seq::new(arity, |k: int| zero))
}

/// The position, at level `level`, of the ancestor of leaf `index`.
pub open spec fn path_pos(index: int, arity: nat, level: nat) -> int
    decreases level,
{
    if level == 0 {
        index
    } else {
        path_pos(index, arity, (level - 1) as nat) / (arity as int)
    }
}

/// The children of the parent of position `j`, without position `j` itself.
pub open spec fn siblings_of(level: Seq<NodeValue>, zero: NodeValue, arity: nat, j: int) -> Seq<
    NodeValue,
> {
    children(level, zero, arity, j / (arity as int)).remove(j % (arity as int))
}

/// The node reached from `leaf` after `levels` steps up: at each step the
/// node takes its place among its siblings and the group is hashed.
pub open spec fn climb<H: Fn(Vec<String>) -> String>(
    h: H,
    leaf: NodeValue,
    siblings: Seq<Seq<NodeValue>>,
    path: Seq<usize>,
    levels: nat,
) -> NodeValue
    decreases levels,
{
    if levels == 0 {
        leaf
    } else {
        let below = climb(h, leaf, siblings, path, (levels - 1) as nat);
        hash_value(h, siblings[levels - 1].insert(path[levels - 1] as int, below))
    }
}

/// The position at `level` that a path of places leads to, read from the
/// root down: the root is position 0, and below position `p` the place `k`
/// is position `p * arity + k`.
pub open spec fn position_of_path(path: Seq<usize>, arity: nat, depth: nat, level: nat) -> int
    decreases depth - level,
{
    if level >= depth {
        0
    } else {
        position_of_path(path, arity, depth, level + 1) * (arity as int) + path[level as int]
    }
}

/// `after` is `before` with position `j` written: overwritten where it
/// existed, appended where `j` was the first free position.
pub open spec fn changed_at(before: Seq<NodeValue>, after: Seq<NodeValue>, j: int) -> bool {
    &&& 0 <= j <= before.len()
    &&& j < after.len()
    &&& if j < before.len() {
        after == before.update(j, after[j])
    } else {
        after == before.push(after[j])
    }
}

/// Position `group * arity + k` belongs to group `group`, at place `k`.
pub proof fn lemma_group_member(arity: int, group: int, k: int)
    requires
        arity > 0,
        0 <= k < arity,
    ensures
        (group * arity + k) / arity == group,
        (group * arity + k) % arity == k,
{
    lemma_fundamental_div_mod_converse(group * arity + k, arity, group, k);
}

/// A position splits into its group and its place in the group.
pub proof fn lemma_position_split(arity: int, j: int)
    requires
        arity > 0,
        0 <= j,
    ensures
        j == (j / arity) * arity + j % arity,
        0 <= j % arity < arity,
        0 <= j / arity <= j,
{
    lemma_fundamental_div_mod(j, arity);
    lemma_mod_bound(j, arity);
    assert((j / arity) * arity == arity * (j / arity)) by (nonlinear_arith);
    assert(0 <= j / arity <= j) by (nonlinear_arith)
        requires
            arity > 0,
            0 <= j,
            j == arity * (j / arity) + j % arity,
            0 <= j % arity < arity,
    ;
}

/// Every node has a parent, and every parent has a node in its first place.
pub proof fn lemma_parent_count(n: nat, arity: nat)
    requires
        arity > 0,
    ensures
        parent_count(n, arity) <= n,
        n > 0 ==> parent_count(n, arity) > 0,
        forall|j: int| 0 <= j < n ==> 0 <= #[trigger] (j / (arity as int)) < parent_count(n, arity),
        forall|group: int|
            0 <= group < parent_count(n, arity) ==> 0 <= #[trigger] (group * (arity as int)) < n,
{
    let a: int = arity as int;
    if n > 0 {
        lemma_position_split(a, n - 1);
        assert forall|j: int| 0 <= j < n implies 0 <= #[trigger] (j / a) < parent_count(
            n,
            arity,
        ) by {
            lemma_position_split(a, j);
            lemma_div_is_ordered(j, n - 1, a);
        }
        assert forall|group: int| 0 <= group < parent_count(n, arity) implies 0 <= #[trigger] (group
            * a) < n by {
            assert(group <= (n - 1) / a);
            assert(0 <= group * a <= ((n - 1) / a) * a) by (nonlinear_arith)
                requires
                    0 <= group <= (n - 1) / a,
                    a > 0,
            ;
        }
    }
}

/// Appending one node adds a parent exactly when the node opens a new group.
pub proof fn lemma_parent_count_push(n: nat, arity: nat)
    requires
        arity > 0,
    ensures
        n % arity == 0 ==> parent_count(n + 1, arity) == parent_count(n, arity) + 1,
        n % arity != 0 ==> parent_count(n + 1, arity) == parent_count(n, arity),
        n % arity == 0 ==> (n as int) / (arity as int) == parent_count(n, arity),
{
    let a: int = arity as int;
    let n: int = n as int;
    lemma_position_split(a, n);
    if n > 0 {
        let q: int = n / a;
        let r: int = n % a;
        if r == 0 {
            assert(n - 1 == (q - 1) * a + (a - 1)) by (nonlinear_arith)
                requires
                    n == q * a + r,
                    r == 0,
            ;
            lemma_group_member(a, q - 1, a - 1);
        } else {
            assert(n - 1 == q * a + (r - 1));
            lemma_group_member(a, q, r - 1);
        }
    }
}

/// Writing position `j` of a level leaves the children of every group but
/// `j`'s own as they were.
pub proof fn lemma_children_unchanged(
    before: Seq<NodeValue>,
    after: Seq<NodeValue>,
    zero: NodeValue,
    arity: nat,
    j: int,
    group: int,
)
    requires
        arity > 0,
        changed_at(before, after, j),
        group != j / (arity as int),
    ensures
        children(after, zero, arity, group) == children(before, zero, arity, group),
{
    let a: int = arity as int;
    let kept = children(before, zero, arity, group);
    assert forall|k: int| 0 <= k < a implies #[trigger] children(after, zero, arity, group)[k]
        == kept[k] by {
        lemma_group_member(a, group, k);
    }
    assert(children(after, zero, arity, group) =~= children(before, zero, arity, group));
}

/// Writing position `j` of a level writes position `j / arity` of the level
/// above, and nothing else there.
pub proof fn lemma_parents_changed<H: Fn(Vec<String>) -> String>(
    h: H,
    before: Seq<NodeValue>,
    after: Seq<NodeValue>,
    zero: NodeValue,
    arity: nat,
    j: int,
)
    requires
        arity > 0,
        changed_at(before, after, j),
    ensures
        changed_at(
            parents(h, before, zero, arity),
            parents(h, after, zero, arity),
            j / (arity as int),
        ),
        j < before.len() ==> j / (arity as int) < parents(h, before, zero, arity).len(),
{
    let a: int = arity as int;
    let above_before = parents(h, before, zero, arity);
    let above_after = parents(h, after, zero, arity);
    let g: int = j / a;
    lemma_position_split(a, j);
    lemma_parent_count(before.len(), arity);
    lemma_parent_count(after.len(), arity);
    lemma_parent_count_push(before.len(), arity);
    assert forall|p: int| 0 <= p < above_before.len() && p != g implies above_after[p]
        == above_before[p] by {
        lemma_children_unchanged(before, after, zero, arity, j, p);
    }
    if j < before.len() {
        assert(above_after =~= above_before.update(g, above_after[g]));
    } else if j % a == 0 {
        assert(above_after =~= above_before.push(above_after[g]));
    } else {
        assert(above_after =~= above_before.update(g, above_after[g]));
    }
}

/// A tree of arity one holds one leaf, whatever its depth.
pub proof fn lemma_capacity_one(depth: nat)
    ensures
        capacity(1, depth) == 1,
    decreases depth,
{
    if depth > 0 {
        lemma_capacity_one((depth - 1) as nat);
    }
}

/// A tree of arity zero with a level above its leaves holds nothing.
pub proof fn lemma_capacity_zero(depth: nat)
    requires
        depth > 0,
    ensures
        capacity(0, depth) == 0,
{
    assert(capacity(0, depth) == 0 * capacity(0, (depth - 1) as nat));
}

/// With a positive arity the capacity is positive and does not shrink as the
/// tree gets deeper.
pub proof fn lemma_capacity_grows(arity: nat, shallow: nat, deep: nat)
    requires
        arity > 0,
        shallow <= deep,
    ensures
        0 < capacity(arity, shallow) <= capacity(arity, deep),
    decreases deep,
{
    if deep == 0 {
    } else if shallow == deep {
        lemma_capacity_grows(arity, (shallow - 1) as nat, (deep - 1) as nat);
        assert(0 < arity * capacity(arity, (deep - 1) as nat)) by (nonlinear_arith)
            requires
                arity > 0,
                capacity(arity, (deep - 1) as nat) > 0,
        ;
    } else {
        lemma_capacity_grows(arity, shallow, (deep - 1) as nat);
        assert(capacity(arity, (deep - 1) as nat) <= arity * capacity(arity, (deep - 1) as nat))
            by (nonlinear_arith)
            requires
                arity > 0,
                capacity(arity, (deep - 1) as nat) > 0,
        ;
    }
}

/// A level that fits a tree of depth `depth + 1` has parents that fit a tree
/// of depth `depth`.
pub proof fn lemma_parents_fit(n: nat, arity: nat, depth: nat)
    requires
        n <= capacity(arity, depth + 1),
    ensures
        parent_count(n, arity) <= capacity(arity, depth),
{
    let a: int = arity as int;
    let c: int = capacity(arity, depth) as int;
    assert(capacity(arity, depth + 1) == arity * capacity(arity, depth));
    if n > 0 && arity > 0 {
        assert(c > 0) by (nonlinear_arith)
            requires
                0 < n <= a * c,
                a > 0,
                c >= 0,
        ;
        assert(a * c - 1 == (c - 1) * a + (a - 1)) by (nonlinear_arith);
        lemma_group_member(a, c - 1, a - 1);
        lemma_div_is_ordered(n - 1, a * c - 1, a);
    }
}

/// Every level above the first is the level of parents of the one below it.
pub open spec fn levels_linked<H: Fn(Vec<String>) -> String>(
    h: H,
    zeroes: Seq<NodeValue>,
    arity: nat,
    levels: Seq<Seq<NodeValue>>,
) -> bool {
    forall|l: int|
        0 < l < levels.len() ==> #[trigger] levels[l] == parents(
            h,
            levels[l - 1],
            zeroes[l - 1],
            arity,
        )
}

/// Every zero value above the first is the hash of `arity` copies of the one
/// below it.
pub open spec fn zeroes_chained<H: Fn(Vec<String>) -> String>(
    h: H,
    zeroes: Seq<NodeValue>,
    arity: nat,
) -> bool {
    forall|l: int| 0 < l < zeroes.len() ==> #[trigger] zeroes[l] == next_zero(h, zeroes[l - 1], arity)
}

/// `cur` is `before` with the ancestors of leaf `index` rewritten up to
/// `level`: up to there each level has one position written and is the level
/// of parents of the one below; above, nothing has changed yet.
pub open spec fn rewritten_up_to<H: Fn(Vec<String>) -> String>(
    h: H,
    zeroes: Seq<NodeValue>,
    arity: nat,
    before: Seq<Seq<NodeValue>>,
    cur: Seq<Seq<NodeValue>>,
    index: int,
    level: nat,
) -> bool {
    &&& cur.len() == before.len()
    &&& level < before.len()
    &&& forall|l: int|
        0 <= l <= level ==> changed_at(#[trigger] before[l], cur[l], path_pos(index, arity, l as nat))
    &&& forall|l: int| level < l < before.len() ==> #[trigger] cur[l] == before[l]
    &&& forall|l: int|
        0 < l <= level ==> #[trigger] cur[l] == parents(h, cur[l - 1], zeroes[l - 1], arity)
    &&& index < before[0].len() ==> forall|l: int|
        0 <= l <= level ==> path_pos(index, arity, l as nat) < (#[trigger] before[l]).len()
}

/// Adding the level of parents on top of linked levels keeps them linked.
pub proof fn lemma_levels_push<H: Fn(Vec<String>) -> String>(
    h: H,
    zeroes: Seq<NodeValue>,
    arity: nat,
    levels: Seq<Seq<NodeValue>>,
)
    requires
        levels.len() > 0,
        levels_linked(h, zeroes, arity, levels),
    ensures
        levels_linked(
            h,
            zeroes,
            arity,
            levels.push(parents(h, levels.last(), zeroes[levels.len() - 1], arity)),
        ),
{
    let top = parents(h, levels.last(), zeroes[levels.len() - 1], arity);
    let grown = levels.push(top);
    assert forall|l: int| 0 < l < grown.len() implies #[trigger] grown[l] == parents(
        h,
        grown[l - 1],
        zeroes[l - 1],
        arity,
    ) by {
        if l < levels.len() {
            assert(grown[l] == levels[l]);
        }
    }
}

/// One step of rewriting a path: once the ancestors of leaf `index` are
/// rewritten up to `level`, replacing the level above by the parents of
/// level `level` rewrites them up to `level + 1`.
pub proof fn lemma_rewrite_step<H: Fn(Vec<String>) -> String>(
    h: H,
    zeroes: Seq<NodeValue>,
    arity: nat,
    before: Seq<Seq<NodeValue>>,
    cur: Seq<Seq<NodeValue>>,
    index: int,
    level: nat,
)
    requires
        arity > 0,
        level + 1 < before.len(),
        levels_linked(h, zeroes, arity, before),
        rewritten_up_to(h, zeroes, arity, before, cur, index, level),
    ensures
        rewritten_up_to(
            h,
            zeroes,
            arity,
            before,
            cur.update(level + 1 as int, parents(h, cur[level as int], zeroes[level as int], arity)),
            index,
            level + 1,
        ),
        path_pos(index, arity, level + 1) == path_pos(index, arity, level) / (arity as int),
        changed_at(
            cur[level + 1 as int],
            parents(h, cur[level as int], zeroes[level as int], arity),
            path_pos(index, arity, level + 1),
        ),
{
    let above = parents(h, cur[level as int], zeroes[level as int], arity);
    let next = cur.update(level + 1 as int, above);
    let j: int = path_pos(index, arity, level);
    assert(changed_at(before[level as int], cur[level as int], j));
    assert(before[level + 1 as int] == parents(h, before[level as int], zeroes[level as int], arity));
    assert(cur[level + 1 as int] == before[level + 1 as int]);
    lemma_parents_changed(h, before[level as int], cur[level as int], zeroes[level as int], arity, j);
    assert forall|l: int| 0 <= l <= level + 1 implies changed_at(
        #[trigger] before[l],
        next[l],
        path_pos(index, arity, l as nat),
    ) by {
        if l <= level {
            assert(next[l] == cur[l]);
        }
    }
    assert forall|l: int| 0 < l <= level + 1 implies #[trigger] next[l] == parents(
        h,
        next[l - 1],
        zeroes[l - 1],
        arity,
    ) by {
        if l <= level {
            assert(next[l] == cur[l]);
            assert(next[l - 1] == cur[l - 1]);
        }
    }
    if index < before[0].len() {
        assert forall|l: int| 0 <= l <= level + 1 implies path_pos(index, arity, l as nat) < (
        #[trigger] before[l]).len() by {
            if l == level + 1 {
                assert(j < before[level as int].len());
            }
        }
    }
}

} // verus!
