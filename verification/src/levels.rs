//! Executable helpers on one level of nodes, and on the shape of a tree.

use crate::imt::IMTNode;
use crate::tree_spec::{
    capacity, child_at, children, lemma_capacity_grows, lemma_capacity_one, lemma_capacity_zero,
};
use vstd::prelude::*;

verus! {

/// The capacity of a tree, where it fits in a `usize`.
pub(crate) fn checked_capacity(arity: usize, depth: usize) -> (r: Option<usize>)
    ensures
        match r {
            Some(c) => c == capacity(arity as nat, depth as nat),
            None => capacity(arity as nat, depth as nat) > usize::MAX,
        },
{
    if arity == 0 {
        return if depth == 0 {
            Some(1)
        } else {
            proof {
                lemma_capacity_zero(depth as nat);
            }
            Some(0)
        };
    }
    let mut cap: usize = 1;
    let mut level: usize = 0;
    while level < depth && arity > 1
        invariant
            level <= depth,
            arity > 0,
            cap == capacity(arity as nat, level as nat),
        decreases depth - level,
    {
        match cap.checked_mul(arity) {
            Some(next) => {
                assert(arity * cap == cap * arity) by (nonlinear_arith);
                cap = next;
            },
            None => {
                proof {
                    assert(arity * cap == cap * arity) by (nonlinear_arith);
                    lemma_capacity_grows(arity as nat, (level + 1) as nat, depth as nat);
                }
                return None;
            },
        }
        level += 1;
    }
    proof {
        if level < depth {
            lemma_capacity_one(level as nat);
            lemma_capacity_one(depth as nat);
        }
    }
    Some(cap)
}

/// Appending to a vector of nodes appends the node's value to its view.
pub(crate) proof fn lemma_push_view(before: Vec<IMTNode>, after: Vec<IMTNode>, node: IMTNode)
    requires
        after@ == before@.push(node),
    ensures
        after.deep_view() == before.deep_view().push(node@),
{
    assert(after.deep_view() =~= before.deep_view().push(node@));
}

/// Overwriting a node of a vector overwrites its value in the view.
pub(crate) proof fn lemma_update_view(before: Vec<IMTNode>, after: Vec<IMTNode>, i: int, node: IMTNode)
    requires
        0 <= i < before.len(),
        after@ == before@.update(i, node),
    ensures
        after.deep_view() == before.deep_view().update(i, node@),
{
    assert(after.deep_view() =~= before.deep_view().update(i, node@));
}

/// The children of the parent at position `group` but the one at place
/// `skip`, copied out of a level.
pub(crate) fn gather_siblings(
    level: &Vec<IMTNode>,
    zero: &IMTNode,
    arity: usize,
    group: usize,
    skip: usize,
) -> (out: Vec<IMTNode>)
    requires
        group * arity < level.len(),
        skip < arity,
    ensures
        out.len() + 1 == arity,
        out.deep_view() == children(level.deep_view(), zero@, arity as nat, group as int).remove(
            skip as int,
        ),
{
    let start: usize = group * arity;
    let present: usize = level.len() - start;
    let mut out: Vec<IMTNode> = Vec::new();
    let mut k: usize = 0;
    while k < arity
        invariant
            k <= arity,
            skip < arity,
            start == group * arity,
            start + present == level.len(),
            out.len() == (if k <= skip {
                k as int
            } else {
                k - 1
            }),
            forall|i: int|
                0 <= i < out.len() ==> (#[trigger] out[i])@ == child_at(
                    level.deep_view(),
                    zero@,
                    group * arity + (if i < skip {
                        i
                    } else {
                        i + 1
                    }),
                ),
        decreases arity - k,
    {
        if k != skip {
            let node = if k < present {
                level[start + k].clone()
            } else {
                zero.clone()
            };
            out.push(node);
        }
        k += 1;
    }
    assert(out.deep_view() =~= children(
        level.deep_view(),
        zero@,
        arity as nat,
        group as int,
    ).remove(skip as int));
    out
}

/// The children of the parent at position `group`, copied out of a level.
pub(crate) fn gather_children(level: &Vec<IMTNode>, zero: &IMTNode, arity: usize, group: usize) -> (out: Vec<
    IMTNode,
>)
    requires
        group * arity < level.len(),
    ensures
        out.len() == arity,
        out.deep_view() == children(level.deep_view(), zero@, arity as nat, group as int),
{
    let start: usize = group * arity;
    let present: usize = level.len() - start;
    let mut out: Vec<IMTNode> = Vec::new();
    let mut k: usize = 0;
    while k < arity
        invariant
            k <= arity,
            start == group * arity,
            start + present == level.len(),
            out.len() == k,
            forall|i: int|
                0 <= i < k ==> (#[trigger] out[i])@ == child_at(
                    level.deep_view(),
                    zero@,
                    group * arity + i,
                ),
        decreases arity - k,
    {
        let node = if k < present {
            level[start + k].clone()
        } else {
            zero.clone()
        };
        out.push(node);
        k += 1;
    }
    assert(out.deep_view() =~= children(level.deep_view(), zero@, arity as nat, group as int));
    out
}

} // verus!
