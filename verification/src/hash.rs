//! The Keccak-256 hash of a group of nodes, as lowercase hexadecimal text.
//!
//! The digest itself comes from the `tiny-keccak` crate and its rendering
//! from the `hex` crate. What this module assumes of them is stated on the
//! items below that are marked `external_body` or given by
//! `assume_specification`; everything else is proved from that.

use crate::hash_model::{hash_fn_ok, NodeValue};
use tiny_keccak::{Hasher, Keccak};
use vstd::prelude::*;
use vstd::utf8::encode_utf8;

verus! {

/// `tiny_keccak::Keccak`, a sponge that absorbs bytes. Nothing of its inner
/// state is visible to the verifier.
#[verifier::external_type_specification]
#[verifier::external_body]
pub struct ExKeccak(tiny_keccak::Keccak);

/// The bytes that a hasher has absorbed since it was made, in order.
pub uninterp spec fn keccak_absorbed(hasher: Keccak) -> Seq<u8>;

/// The security level, in bits, that a hasher was made with.
pub uninterp spec fn keccak_bits(hasher: Keccak) -> nat;

/// The 32 bytes of the Keccak-256 digest of a byte string.
pub uninterp spec fn keccak256_digest(input: Seq<u8>) -> Seq<u8>;

/// `Keccak::v256` makes a hasher of 256 bits that has absorbed nothing yet.
pub assume_specification[ Keccak::v256 ]() -> (hasher: Keccak)
    ensures
        keccak_bits(hasher) == 256,
        keccak_absorbed(hasher) == Seq::<u8>::empty(),
;

/// `Hasher::update` on a `Keccak`: the hasher absorbs `input` after what it
/// had absorbed before, and stays of the same kind. It accepts any input.
#[verifier::external_body]
fn keccak_update(hasher: &mut Keccak, input: &[u8])
    ensures
        keccak_bits(*final(hasher)) == keccak_bits(*old(hasher)),
        keccak_absorbed(*final(hasher)) == keccak_absorbed(*old(hasher)) + input@,
{
    hasher.update(input);
}

/// `Hasher::finalize` on a `Keccak` of 256 bits, with room for 32 bytes: the
/// output is the Keccak-256 digest of everything the hasher absorbed.
#[verifier::external_body]
fn keccak_finalize(hasher: Keccak) -> (digest: [u8; 32])
    requires
        keccak_bits(hasher) == 256,
    ensures
        digest@ == keccak256_digest(keccak_absorbed(hasher)),
{
    let mut digest = [0u8; 32];
    hasher.finalize(&mut digest);
    digest
}

/// `hex::encode`: two lowercase hexadecimal digits for each byte, the high
/// four bits first.
#[verifier::external_body]
fn hex_encode(bytes: &[u8]) -> (text: String)
    ensures
        text@ == hex_lower(bytes@),
{
    hex::encode(bytes)
}

/// The lowercase hexadecimal digit for a value below 16.
pub open spec fn hex_digit(nibble: u8) -> char {
    if nibble < 10 {
        (0x30 + nibble) as char
    } else {
        (0x57 + nibble) as char
    }
}

/// The lowercase hexadecimal text of a byte string.
pub open spec fn hex_lower(bytes: Seq<u8>) -> Seq<char> {
    Seq::new(
        2 * bytes.len(),
        |i: int|
            if i % 2 == 0 {
                hex_digit(bytes[i / 2] / 16)
            } else {
                hex_digit(bytes[i / 2] % 16)
            },
    )
}

/// The UTF-8 bytes of the nodes, one node after the other.
pub open spec fn node_bytes(nodes: Seq<NodeValue>) -> Seq<u8>
    decreases nodes.len(),
{
    if nodes.len() == 0 {
        Seq::empty()
    } else {
        node_bytes(nodes.drop_last()) + encode_utf8(nodes.last())
    }
}

/// The node that `keccak256_hash_function` makes of the given children.
pub open spec fn keccak256_node(nodes: Seq<NodeValue>) -> NodeValue {
    hex_lower(keccak256_digest(node_bytes(nodes)))
}

/// The node for a digest: its lowercase hexadecimal text.
pub fn digest_node(digest: &[u8]) -> (node: String)
    ensures
        node@ == hex_lower(digest@),
{
    hex_encode(digest)
}

/// Hashes a group of nodes into one: the Keccak-256 digest of the nodes'
/// bytes, one node after the other, as 64 lowercase hexadecimal digits.
pub fn keccak256_hash_function(nodes: Vec<String>) -> (node: String)
    ensures
        node@ == keccak256_node(nodes.deep_view()),
{
    let mut keccak = Keccak::v256();
    let mut i: usize = 0;
    while i < nodes.len()
        invariant
            i <= nodes.len(),
            keccak_bits(keccak) == 256,
            keccak_absorbed(keccak) == node_bytes(nodes.deep_view().take(i as int)),
        decreases nodes.len() - i,
    {
        proof {
            let upto = nodes.deep_view().take(i + 1);
            assert(upto.drop_last() =~= nodes.deep_view().take(i as int));
            assert(upto.last() == nodes[i as int]@);
        }
        keccak_update(&mut keccak, nodes[i].as_str().as_bytes());
        i += 1;
    }
    assert(nodes.deep_view().take(nodes.len() as int) =~= nodes.deep_view());
    let digest = keccak_finalize(keccak);
    digest_node(digest.as_slice())
}

/// `keccak256_hash_function` can serve as the hash of a tree of any arity.
pub proof fn lemma_keccak256_is_hash(arity: nat)
    ensures
        hash_fn_ok(keccak256_hash_function, arity),
{
}

} // verus!
