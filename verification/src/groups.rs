//! The decisions of a group of identity commitments: who may change it, where
//! a member sits in its tree, and what is to be announced of each change.
//!
//! Nothing here stores a group or sends an announcement. Each function takes
//! the state that the caller keeps, changes it, and hands back the event to
//! publish. An account is known by the text of its address; the empty text
//! stands for no account.

use crate::hash_model::hash_fn_ok;
use crate::imt::{IMTNode, IMT};
use crate::laws::lemma_level_sizes;
use crate::tree_spec::capacity;
use vstd::prelude::*;
use vstd::string::StringExecFns;

verus! {

/// Why a change to a group was refused.
#[derive(Debug, Clone, Copy, PartialEq, Eq, Structural)]
pub enum SemaphoreError {
    /// The group has no admin: it was never created.
    GroupDoesNotExist,
    /// The caller is not the admin of the group.
    CallerIsNotTheGroupAdmin,
    /// The caller is not the account that the admin named as successor.
    CallerIsNotThePendingGroupAdmin,
    /// The siblings given for a member do not lead to the root.
    WrongSiblingNodes,
    /// The identity commitment is not an element of the scalar field.
    LeafGreaterThanSnarkScalarField,
    /// The identity commitment is zero.
    LeafCannotBeZero,
    /// The identity commitment is a member already.
    LeafAlreadyExists,
    /// The identity commitment is not a member of the group.
    LeafDoesNotExist,
}

/// A group was created.
#[allow(non_snake_case)]
#[derive(Debug, PartialEq, Eq)]
pub struct GroupCreated {
    pub groupId: u128,
}

/// A group has a new admin.
#[allow(non_snake_case)]
#[derive(Debug, PartialEq, Eq)]
pub struct GroupAdminUpdated {
    pub groupId: u128,
    pub oldAdmin: String,
    pub newAdmin: String,
}

/// The admin of a group has named a successor, who has yet to accept.
#[allow(non_snake_case)]
#[derive(Debug, PartialEq, Eq)]
pub struct GroupAdminPending {
    pub groupId: u128,
    pub oldAdmin: String,
    pub newAdmin: String,
}

/// An identity commitment was added at `index`; the tree now has the root
/// `merkleTreeRoot`.
#[allow(non_snake_case)]
#[derive(Debug, PartialEq, Eq)]
pub struct MemberAdded {
    pub groupId: u128,
    pub index: u128,
    pub identityCommitment: u128,
    pub merkleTreeRoot: IMTNode,
}

/// The identity commitment at `index` was replaced by another.
#[allow(non_snake_case)]
#[derive(Debug, PartialEq, Eq)]
pub struct MemberUpdated {
    pub groupId: u128,
    pub index: u128,
    pub identityCommitment: u128,
    pub newIdentityCommitment: u128,
    pub merkleTreeRoot: IMTNode,
}

/// The identity commitment at `index` was removed.
#[allow(non_snake_case)]
#[derive(Debug, PartialEq, Eq)]
pub struct MemberRemoved {
    pub groupId: u128,
    pub index: u128,
    pub identityCommitment: u128,
    pub merkleTreeRoot: IMTNode,
}

/// Who administers a group: its admin, once it has one, and the account that
/// the admin has named as successor, until that account accepts.
#[allow(non_snake_case)]
#[derive(Debug, PartialEq, Eq)]
pub struct GroupAdmins {
    pub admin: Option<String>,
    pub pendingAdmin: Option<String>,
}

/// The text of an account that may be absent: empty where it is.
pub open spec fn account_text(account: Option<String>) -> Seq<char> {
    match account {
        Some(text) => text@,
        None => Seq::empty(),
    }
}

/// A copy of the text of an account that may be absent.
fn account_or_none(account: &Option<String>) -> (text: String)
    ensures
        text@ == account_text(*account),
{
    match account {
        Some(text) => text.clone(),
        None => String::new(),
    }
}

impl GroupAdmins {
    /// `caller` is the admin of the group.
    pub open spec fn is_admin(&self, caller: Seq<char>) -> bool {
        self.admin matches Some(admin) && admin@ == caller
    }

    /// `caller` is the account that the admin has named as successor. While
    /// no successor is named, only the empty text passes for it.
    pub open spec fn is_pending_admin(&self, caller: Seq<char>) -> bool {
        account_text(self.pendingAdmin) == caller
    }

    /// The state of a group that has not been created.
    pub fn new() -> (admins: GroupAdmins)
        ensures
            admins.admin is None,
            admins.pendingAdmin is None,
    {
        GroupAdmins { admin: None, pendingAdmin: None }
    }

    /// Passes exactly when `caller` is the admin of the group.
    pub fn only_group_admin(&self, caller: &String) -> (r: Result<(), SemaphoreError>)
        ensures
            match r {
                Ok(_) => self.is_admin(caller@),
                Err(e) => !self.is_admin(caller@) && e == SemaphoreError::CallerIsNotTheGroupAdmin,
            },
    {
        match &self.admin {
            Some(admin) => {
                if *admin == *caller {
                    Ok(())
                } else {
                    Err(SemaphoreError::CallerIsNotTheGroupAdmin)
                }
            },
            None => Err(SemaphoreError::CallerIsNotTheGroupAdmin),
        }
    }

    /// Passes exactly when the group has an admin, that is, was created.
    pub fn only_existing_group(&self) -> (r: Result<(), SemaphoreError>)
        ensures
            match r {
                Ok(_) => self.admin is Some,
                Err(e) => self.admin is None && e == SemaphoreError::GroupDoesNotExist,
            },
    {
        if self.admin.is_none() {
            return Err(SemaphoreError::GroupDoesNotExist);
        }
        Ok(())
    }

    /// Makes `admin` the admin of the group, and announces the group and its
    /// admin, who follows no one.
    pub fn create_group(&mut self, group_id: u128, admin: String) -> (events: (
        GroupCreated,
        GroupAdminUpdated,
    ))
        ensures
            final(self).is_admin(admin@),
            final(self).pendingAdmin == old(self).pendingAdmin,
            events.0.groupId == group_id,
            events.1.groupId == group_id,
            events.1.oldAdmin@ == Seq::<char>::empty(),
            events.1.newAdmin@ == admin@,
    {
        let announced = GroupAdminUpdated {
            groupId: group_id,
            oldAdmin: String::new(),
            newAdmin: admin.clone(),
        };
        self.admin = Some(admin);
        (GroupCreated { groupId: group_id }, announced)
    }

    /// Names `new_admin` as successor, if `caller` is the admin. The admin
    /// stays until the successor accepts.
    pub fn update_group_admin(&mut self, group_id: u128, caller: &String, new_admin: String) -> (r:
        Result<GroupAdminPending, SemaphoreError>)
        ensures
            final(self).admin == old(self).admin,
            match r {
                Ok(event) => {
                    &&& old(self).is_admin(caller@)
                    &&& final(self).pendingAdmin is Some
                    &&& final(self).is_pending_admin(new_admin@)
                    &&& event.groupId == group_id
                    &&& event.oldAdmin@ == caller@
                    &&& event.newAdmin@ == new_admin@
                },
                Err(e) => {
                    &&& !old(self).is_admin(caller@)
                    &&& e == SemaphoreError::CallerIsNotTheGroupAdmin
                    &&& final(self).pendingAdmin == old(self).pendingAdmin
                },
            },
    {
        match self.only_group_admin(caller) {
            Ok(_) => {},
            Err(e) => {
                return Err(e);
            },
        }
        let event = GroupAdminPending {
            groupId: group_id,
            oldAdmin: caller.clone(),
            newAdmin: new_admin.clone(),
        };
        self.pendingAdmin = Some(new_admin);
        Ok(event)
    }

    /// Makes `caller` the admin, if `caller` is the successor that the admin
    /// named; no successor is named after that.
    pub fn accept_group_admin(&mut self, group_id: u128, caller: String) -> (r: Result<
        GroupAdminUpdated,
        SemaphoreError,
    >)
        ensures
            match r {
                Ok(event) => {
                    &&& old(self).is_pending_admin(caller@)
                    &&& final(self).is_admin(caller@)
                    &&& final(self).pendingAdmin is None
                    &&& event.groupId == group_id
                    &&& event.oldAdmin@ == account_text(old(self).admin)
                    &&& event.newAdmin@ == caller@
                },
                Err(e) => {
                    &&& !old(self).is_pending_admin(caller@)
                    &&& e == SemaphoreError::CallerIsNotThePendingGroupAdmin
                    &&& *final(self) == *old(self)
                },
            },
    {
        let pending = account_or_none(&self.pendingAdmin);
        if pending != caller {
            return Err(SemaphoreError::CallerIsNotThePendingGroupAdmin);
        }
        let event = GroupAdminUpdated {
            groupId: group_id,
            oldAdmin: account_or_none(&self.admin),
            newAdmin: caller.clone(),
        };
        self.admin = Some(caller);
        self.pendingAdmin = None;
        Ok(event)
    }

    /// The text of the admin's address; empty for a group without admin.
    pub fn get_group_admin(&self) -> (admin: String)
        ensures
            admin@ == account_text(self.admin),
    {
        account_or_none(&self.admin)
    }
}

/// The character of a decimal digit.
pub open spec fn digit_char(digit: int) -> char {
    (0x30 + digit) as char
}

/// The decimal text of a number, without leading zeros.
pub open spec fn decimal_text(n: nat) -> Seq<char>
    decreases n,
{
    if n < 10 {
        seq![digit_char(n as int)]
    } else {
        decimal_text(n / 10).push(digit_char((n % 10) as int))
    }
}

/// The digits of a number that are still to be written: none for zero.
spec fn leading_text(n: nat) -> Seq<char> {
    if n == 0 {
        Seq::empty()
    } else {
        decimal_text(n)
    }
}

/// The characters of digits that were collected lowest first, highest first.
spec fn written_text(digits: Seq<u8>) -> Seq<char> {
    Seq::new(digits.len(), |i: int| digit_char(digits[digits.len() - 1 - i] as int))
}

/// The text of one decimal digit.
fn digit_text(digit: u8) -> (text: &'static str)
    requires
        digit < 10,
    ensures
        text@ == seq![digit_char(digit as int)],
{
    proof {
        reveal_strlit("0");
        reveal_strlit("1");
        reveal_strlit("2");
        reveal_strlit("3");
        reveal_strlit("4");
        reveal_strlit("5");
        reveal_strlit("6");
        reveal_strlit("7");
        reveal_strlit("8");
        reveal_strlit("9");
    }
    let text = match digit {
        0 => "0",
        1 => "1",
        2 => "2",
        3 => "3",
        4 => "4",
        5 => "5",
        6 => "6",
        7 => "7",
        8 => "8",
        _ => "9",
    };
    assert(text@ =~= seq![digit_char(digit as int)]);
    text
}

/// The leaf that stands for an identity commitment: its decimal text.
pub fn commitment_node(identity_commitment: u128) -> (node: IMTNode)
    ensures
        node@ == decimal_text(identity_commitment as nat),
{
    let mut digits: Vec<u8> = Vec::new();
    digits.push((identity_commitment % 10) as u8);
    let mut rest: u128 = identity_commitment / 10;
    assert(decimal_text(identity_commitment as nat) =~= leading_text(rest as nat) + written_text(
        digits@,
    ));
    while rest > 0
        invariant
            digits.len() > 0,
            forall|i: int| 0 <= i < digits.len() ==> #[trigger] digits[i] < 10,
            decimal_text(identity_commitment as nat) == leading_text(rest as nat) + written_text(
                digits@,
            ),
        decreases rest,
    {
        let ghost collected = digits@;
        digits.push((rest % 10) as u8);
        assert(leading_text(rest as nat) + written_text(collected) =~= leading_text(
            (rest / 10) as nat,
        ) + written_text(digits@));
        rest = rest / 10;
    }
    let mut node = String::new();
    let mut left: usize = digits.len();
    while left > 0
        invariant
            left <= digits.len(),
            forall|i: int| 0 <= i < digits.len() ==> #[trigger] digits[i] < 10,
            node@ == written_text(digits@).take(digits.len() - left),
        decreases left,
    {
        left -= 1;
        node.append(digit_text(digits[left]));
        assert(node@ =~= written_text(digits@).take(digits.len() - left));
    }
    assert(node@ =~= written_text(digits@));
    node
}

/// The commitment is a member of the tree: some leaf holds its text, and
/// that text is not the zero value, which marks a removed leaf.
pub open spec fn is_member<H: Fn(Vec<IMTNode>) -> IMTNode>(
    tree: &IMT<H>,
    identity_commitment: u128,
) -> bool {
    let node = decimal_text(identity_commitment as nat);
    &&& tree.leaves_view().contains(node)
    &&& tree.spec_depth() > 0 ==> node != tree.zeroes_view()[0]
}

/// `index` is the first position of the tree that holds the commitment.
pub open spec fn is_index_of<H: Fn(Vec<IMTNode>) -> IMTNode>(
    tree: &IMT<H>,
    identity_commitment: u128,
    index: int,
) -> bool {
    let node = decimal_text(identity_commitment as nat);
    &&& 0 <= index < tree.leaves_view().len()
    &&& tree.leaves_view()[index] == node
    &&& forall|i: int| 0 <= i < index ==> tree.leaves_view()[i] != node
}

/// The index of a member: the first position that holds its commitment.
///
/// A commitment whose text is the zero value of the leaves is no member,
/// wherever that value stands.
pub fn index_of<H: Fn(Vec<IMTNode>) -> IMTNode>(tree: &IMT<H>, identity_commitment: u128) -> (r:
    Result<usize, SemaphoreError>)
    requires
        tree.wf(),
    ensures
        match r {
            Ok(index) => is_member(tree, identity_commitment) && is_index_of(
                tree,
                identity_commitment,
                index as int,
            ),
            Err(e) => !is_member(tree, identity_commitment) && e
                == SemaphoreError::LeafDoesNotExist,
        },
{
    let node = commitment_node(identity_commitment);
    if tree.depth() > 0 {
        let zeroes = tree.zeroes();
        assert(zeroes.deep_view()[0] == zeroes[0]@);
        if zeroes[0] == node {
            return Err(SemaphoreError::LeafDoesNotExist);
        }
    }
    let leaves = tree.leaves();
    let mut index: usize = 0;
    while index < leaves.len()
        invariant
            index <= leaves.len(),
            leaves.deep_view() == tree.leaves_view(),
            node@ == decimal_text(identity_commitment as nat),
            tree.spec_depth() > 0 ==> node@ != tree.zeroes_view()[0],
            forall|i: int| 0 <= i < index ==> tree.leaves_view()[i] != node@,
        decreases leaves.len() - index,
    {
        assert(leaves.deep_view()[index as int] == leaves[index as int]@);
        if leaves[index] == node {
            assert(tree.leaves_view()[index as int] == node@);
            return Ok(index);
        }
        index += 1;
    }
    Err(SemaphoreError::LeafDoesNotExist)
}

/// Whether the commitment is a member of the tree.
pub fn has_member<H: Fn(Vec<IMTNode>) -> IMTNode>(tree: &IMT<H>, identity_commitment: u128) -> (b:
    bool)
    requires
        tree.wf(),
    ensures
        b == is_member(tree, identity_commitment),
{
    index_of(tree, identity_commitment).is_ok()
}

/// The root of a tree that has a leaf.
fn root_of<H: Fn(Vec<IMTNode>) -> IMTNode>(tree: &IMT<H>) -> (root: IMTNode)
    requires
        tree.wf(),
        tree.leaves_view().len() > 0,
    ensures
        tree.root_view() == Some(root@),
{
    proof {
        lemma_level_sizes(tree, tree.spec_depth());
    }
    match tree.root() {
        Some(root) => root,
        None => String::new(),
    }
}

/// Adds an identity commitment to the group, if `caller` is its admin, and
/// says where it went and what the root has become.
///
/// The tree must have room for one more leaf.
pub fn add_member<H: Fn(Vec<IMTNode>) -> IMTNode>(
    admins: &GroupAdmins,
    caller: &String,
    tree: &mut IMT<H>,
    group_id: u128,
    identity_commitment: u128,
) -> (r: Result<MemberAdded, SemaphoreError>)
    requires
        old(tree).wf(),
        old(tree).leaves_view().len() < capacity(old(tree).spec_arity(), old(tree).spec_depth()),
    ensures
        match r {
            Ok(event) => {
                &&& admins.is_admin(caller@)
                &&& final(tree).wf()
                &&& final(tree).same_parameters(old(tree))
                &&& final(tree).leaves_view() == old(tree).leaves_view().push(
                    decimal_text(identity_commitment as nat),
                )
                &&& event.groupId == group_id
                &&& event.index == old(tree).leaves_view().len()
                &&& event.identityCommitment == identity_commitment
                &&& final(tree).root_view() == Some(event.merkleTreeRoot@)
            },
            Err(e) => {
                &&& !admins.is_admin(caller@)
                &&& e == SemaphoreError::CallerIsNotTheGroupAdmin
                &&& *final(tree) == *old(tree)
            },
        },
{
    match admins.only_group_admin(caller) {
        Ok(_) => {},
        Err(e) => {
            return Err(e);
        },
    }
    let index: usize = tree.leaves().len();
    let inserted = tree.insert(commitment_node(identity_commitment));
    assert(inserted is Ok);
    Ok(
        MemberAdded {
            groupId: group_id,
            index: index as u128,
            identityCommitment: identity_commitment,
            merkleTreeRoot: root_of(tree),
        },
    )
}

/// Replaces a member's identity commitment by another, if `caller` is the
/// admin of the group, and says where it stands and what the root has
/// become. The member keeps its index.
pub fn update_member<H: Fn(Vec<IMTNode>) -> IMTNode>(
    admins: &GroupAdmins,
    caller: &String,
    tree: &mut IMT<H>,
    group_id: u128,
    old_identity_commitment: u128,
    new_identity_commitment: u128,
) -> (r: Result<MemberUpdated, SemaphoreError>)
    requires
        old(tree).wf(),
    ensures
        match r {
            Ok(event) => {
                &&& admins.is_admin(caller@)
                &&& is_index_of(old(tree), old_identity_commitment, event.index as int)
                &&& is_member(old(tree), old_identity_commitment)
                &&& final(tree).wf()
                &&& final(tree).same_parameters(old(tree))
                &&& final(tree).leaves_view() == old(tree).leaves_view().update(
                    event.index as int,
                    decimal_text(new_identity_commitment as nat),
                )
                &&& event.groupId == group_id
                &&& event.identityCommitment == old_identity_commitment
                &&& event.newIdentityCommitment == new_identity_commitment
                &&& final(tree).root_view() == Some(event.merkleTreeRoot@)
            },
            Err(e) => {
                &&& *final(tree) == *old(tree)
                &&& if admins.is_admin(caller@) {
                    !is_member(old(tree), old_identity_commitment) && e
                        == SemaphoreError::LeafDoesNotExist
                } else {
                    e == SemaphoreError::CallerIsNotTheGroupAdmin
                }
            },
        },
{
    match admins.only_group_admin(caller) {
        Ok(_) => {},
        Err(e) => {
            return Err(e);
        },
    }
    let index: usize = match index_of(tree, old_identity_commitment) {
        Ok(index) => index,
        Err(e) => {
            return Err(e);
        },
    };
    let updated = tree.update(index, commitment_node(new_identity_commitment));
    assert(updated is Ok);
    Ok(
        MemberUpdated {
            groupId: group_id,
            index: index as u128,
            identityCommitment: old_identity_commitment,
            newIdentityCommitment: new_identity_commitment,
            merkleTreeRoot: root_of(tree),
        },
    )
}

/// Removes a member from the group, if `caller` is its admin, and says where
/// it stood and what the root has become. The member's leaf takes the zero
/// value; no index moves.
pub fn remove_member<H: Fn(Vec<IMTNode>) -> IMTNode>(
    admins: &GroupAdmins,
    caller: &String,
    tree: &mut IMT<H>,
    group_id: u128,
    identity_commitment: u128,
) -> (r: Result<MemberRemoved, SemaphoreError>)
    requires
        old(tree).wf(),
        old(tree).spec_depth() > 0,
    ensures
        match r {
            Ok(event) => {
                &&& admins.is_admin(caller@)
                &&& is_index_of(old(tree), identity_commitment, event.index as int)
                &&& is_member(old(tree), identity_commitment)
                &&& final(tree).wf()
                &&& final(tree).same_parameters(old(tree))
                &&& final(tree).leaves_view() == old(tree).leaves_view().update(
                    event.index as int,
                    old(tree).zeroes_view()[0],
                )
                &&& event.groupId == group_id
                &&& event.identityCommitment == identity_commitment
                &&& final(tree).root_view() == Some(event.merkleTreeRoot@)
            },
            Err(e) => {
                &&& *final(tree) == *old(tree)
                &&& if admins.is_admin(caller@) {
                    !is_member(old(tree), identity_commitment) && e
                        == SemaphoreError::LeafDoesNotExist
                } else {
                    e == SemaphoreError::CallerIsNotTheGroupAdmin
                }
            },
        },
{
    match admins.only_group_admin(caller) {
        Ok(_) => {},
        Err(e) => {
            return Err(e);
        },
    }
    let index: usize = match index_of(tree, identity_commitment) {
        Ok(index) => index,
        Err(e) => {
            return Err(e);
        },
    };
    let deleted = tree.delete(index);
    assert(deleted is Ok);
    Ok(
        MemberRemoved {
            groupId: group_id,
            index: index as u128,
            identityCommitment: identity_commitment,
            merkleTreeRoot: root_of(tree),
        },
    )
}

/// Joins the nodes with `-` between them: a hash under which every node
/// shows the leaves below it.
pub fn hash_function(nodes: Vec<String>) -> (node: String)
    ensures
        node@ == joined(nodes.deep_view()),
{
    proof {
        reveal_strlit("-");
    }
    let mut node = String::new();
    let mut i: usize = 0;
    while i < nodes.len()
        invariant
            i <= nodes.len(),
            node@ == joined(nodes.deep_view().take(i as int)),
            "-"@ == seq!['-'],
        decreases nodes.len() - i,
    {
        proof {
            let upto = nodes.deep_view().take(i + 1);
            assert(upto.drop_last() =~= nodes.deep_view().take(i as int));
            assert(upto.last() == nodes[i as int]@);
        }
        if i > 0 {
            node.append("-");
        }
        node.append(nodes[i].as_str());
        i += 1;
    }
    assert(nodes.deep_view().take(nodes.len() as int) =~= nodes.deep_view());
    node
}

/// `hash_function` can serve as the hash of a tree of any arity.
pub proof fn lemma_hash_function_is_hash(arity: nat)
    ensures
        hash_fn_ok(hash_function, arity),
{
}

/// The texts of the nodes with `-` between them.
pub open spec fn joined(nodes: Seq<Seq<char>>) -> Seq<char>
    decreases nodes.len(),
{
    if nodes.len() == 0 {
        Seq::empty()
    } else if nodes.len() == 1 {
        nodes[0]
    } else {
        joined(nodes.drop_last()) + seq!['-'] + nodes.last()
    }
}

} // verus!
