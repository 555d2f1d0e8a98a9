//! The model of a caller-supplied hash.
//!
//! A hash is any executable function from a vector of nodes to a node. The
//! tree relies on it being a mathematical function of the node values when it
//! is given exactly `arity` children; `hash_value` names that function.

use vstd::prelude::*;

verus! {

/// What contracts see of a node: the characters of its string.
pub type NodeValue = Seq<char>;

/// `h` may be called on any vector of `arity` nodes.
pub open spec fn hash_accepts<H: Fn(Vec<String>) -> String>(h: H, arity: nat) -> bool {
    forall|v: Vec<String>| v.len() == arity ==> call_requires(h, (v,))
}

/// On vectors of `arity` nodes, the value that `h` returns depends only on
/// the values of the nodes it is given.
pub open spec fn hash_deterministic<H: Fn(Vec<String>) -> String>(h: H, arity: nat) -> bool {
    forall|v1: Vec<String>, out1: String, v2: Vec<String>, out2: String|
        v1.len() == arity && v1.deep_view() == v2.deep_view() && #[trigger] call_ensures(
            h,
            (v1,),
            out1,
        ) && #[trigger] call_ensures(h, (v2,), out2) ==> out1@ == out2@
}

/// `h` can serve as the hash of a tree whose nodes have `arity` children.
pub open spec fn hash_fn_ok<H: Fn(Vec<String>) -> String>(h: H, arity: nat) -> bool {
    hash_accepts(h, arity) && hash_deterministic(h, arity)
}

/// No two groups of `arity` children have the same hash.
pub open spec fn hash_injective<H: Fn(Vec<String>) -> String>(h: H, arity: nat) -> bool {
    forall|c1: Seq<NodeValue>, c2: Seq<NodeValue>|
        c1.len() == arity && c2.len() == arity && #[trigger] hash_value(h, c1)
            == #[trigger] hash_value(h, c2) ==> c1 == c2
}

/// The value `h` returns for children with the given values.
pub open spec fn hash_value<H: Fn(Vec<String>) -> String>(
    h: H,
    children: Seq<NodeValue>,
) -> NodeValue {
    let call = choose|call: (Vec<String>, String)|
        call.0.deep_view() == children && call_ensures(h, (call.0,), call.1);
    call.1@
}

/// Every call of a deterministic hash returns `hash_value` of its input.
pub proof fn lemma_hash_value<H: Fn(Vec<String>) -> String>(
    h: H,
    arity: nat,
    v: Vec<String>,
    out: String,
)
    requires
        hash_deterministic(h, arity),
        v.len() == arity,
        call_ensures(h, (v,), out),
    ensures
        out@ == hash_value(h, v.deep_view()),
{
    let children = v.deep_view();
    let witness = (v, out);
    assert(witness.0.deep_view() == children && call_ensures(h, (witness.0,), witness.1));
    let call = choose|call: (Vec<String>, String)|
        call.0.deep_view() == children && call_ensures(h, (call.0,), call.1);
    assert(call.0.deep_view() == children && call_ensures(h, (call.0,), call.1));
}

} // verus!
