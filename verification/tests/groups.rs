use semaphore_groups::groups::{
    add_member, commitment_node, has_member, hash_function, index_of, remove_member,
    update_member, GroupAdminPending, GroupAdminUpdated, GroupAdmins, GroupCreated, MemberAdded,
    MemberRemoved, MemberUpdated, SemaphoreError,
};
use semaphore_groups::imt::{IMTHashFunction, IMT};

fn group_tree(depth: usize) -> IMT<IMTHashFunction> {
    let hash: IMTHashFunction = hash_function;
    IMT::new(hash, depth, "0".to_string(), 2, vec![]).unwrap()
}

fn created(admin: &str) -> GroupAdmins {
    let mut admins = GroupAdmins::new();
    admins.create_group(1, admin.to_string());
    admins
}

#[test]
fn commitment_node_is_the_decimal_text() {
    assert_eq!(commitment_node(0), "0");
    assert_eq!(commitment_node(7), "7");
    assert_eq!(commitment_node(10), "10");
    assert_eq!(commitment_node(109), "109");
    assert_eq!(commitment_node(12345678901234567890), "12345678901234567890");
    assert_eq!(commitment_node(u128::MAX), "340282366920938463463374607431768211455");
    assert_eq!(commitment_node(u128::MAX), u128::MAX.to_string());
}

#[test]
fn hash_function_joins_with_a_dash() {
    assert_eq!(hash_function(vec![]), "");
    assert_eq!(hash_function(vec!["x".to_string()]), "x");
    assert_eq!(hash_function(vec!["a".to_string(), "b".to_string(), "c".to_string()]), "a-b-c");
    assert_eq!(hash_function(vec![String::new(), String::new()]), "-");
    assert_eq!(hash_function(vec![String::new(), "a".to_string()]), "-a");
}

#[test]
fn group_without_admin_does_not_exist() {
    let admins = GroupAdmins::new();
    assert_eq!(admins.only_existing_group(), Err(SemaphoreError::GroupDoesNotExist));
    assert_eq!(
        admins.only_group_admin(&"alice".to_string()),
        Err(SemaphoreError::CallerIsNotTheGroupAdmin)
    );
    assert_eq!(
        admins.only_group_admin(&String::new()),
        Err(SemaphoreError::CallerIsNotTheGroupAdmin)
    );
    assert_eq!(admins.get_group_admin(), "");
}

#[test]
fn create_group_sets_the_admin_and_announces_it() {
    let mut admins = GroupAdmins::new();
    let (group, admin) = admins.create_group(42, "alice".to_string());
    assert_eq!(group, GroupCreated { groupId: 42 });
    assert_eq!(
        admin,
        GroupAdminUpdated { groupId: 42, oldAdmin: String::new(), newAdmin: "alice".to_string() }
    );
    assert_eq!(admins.admin, Some("alice".to_string()));
    assert_eq!(admins.pendingAdmin, None);
    assert_eq!(admins.only_existing_group(), Ok(()));
    assert_eq!(admins.only_group_admin(&"alice".to_string()), Ok(()));
    assert_eq!(
        admins.only_group_admin(&"bob".to_string()),
        Err(SemaphoreError::CallerIsNotTheGroupAdmin)
    );
    assert_eq!(admins.get_group_admin(), "alice");
}

#[test]
fn admin_changes_hands_in_two_steps() {
    let mut admins = created("alice");
    let refused = admins.update_group_admin(1, &"bob".to_string(), "bob".to_string());
    assert_eq!(refused, Err(SemaphoreError::CallerIsNotTheGroupAdmin));
    assert_eq!(admins.pendingAdmin, None);

    let pending = admins.update_group_admin(1, &"alice".to_string(), "bob".to_string());
    assert_eq!(
        pending,
        Ok(GroupAdminPending {
            groupId: 1,
            oldAdmin: "alice".to_string(),
            newAdmin: "bob".to_string()
        })
    );
    assert_eq!(admins.admin, Some("alice".to_string()));
    assert_eq!(admins.pendingAdmin, Some("bob".to_string()));

    let stranger = admins.accept_group_admin(1, "carol".to_string());
    assert_eq!(stranger, Err(SemaphoreError::CallerIsNotThePendingGroupAdmin));
    assert_eq!(admins.admin, Some("alice".to_string()));
    assert_eq!(admins.pendingAdmin, Some("bob".to_string()));

    let accepted = admins.accept_group_admin(1, "bob".to_string());
    assert_eq!(
        accepted,
        Ok(GroupAdminUpdated {
            groupId: 1,
            oldAdmin: "alice".to_string(),
            newAdmin: "bob".to_string()
        })
    );
    assert_eq!(admins.admin, Some("bob".to_string()));
    assert_eq!(admins.pendingAdmin, None);
    assert_eq!(
        admins.accept_group_admin(1, "bob".to_string()),
        Err(SemaphoreError::CallerIsNotThePendingGroupAdmin)
    );
}

#[test]
fn add_member_appends_the_commitment() {
    let admins = created("alice");
    let alice = "alice".to_string();
    let mut tree = group_tree(2);
    let first = add_member(&admins, &alice, &mut tree, 1, 11);
    assert_eq!(
        first,
        Ok(MemberAdded {
            groupId: 1,
            index: 0,
            identityCommitment: 11,
            merkleTreeRoot: "11-0-0-0".to_string()
        })
    );
    let second = add_member(&admins, &alice, &mut tree, 1, 22);
    assert_eq!(
        second,
        Ok(MemberAdded {
            groupId: 1,
            index: 1,
            identityCommitment: 22,
            merkleTreeRoot: "11-22-0-0".to_string()
        })
    );
    assert_eq!(tree.leaves(), vec!["11".to_string(), "22".to_string()]);
    assert_eq!(tree.root(), Some("11-22-0-0".to_string()));
}

#[test]
fn only_the_admin_changes_members() {
    let admins = created("alice");
    let bob = "bob".to_string();
    let alice = "alice".to_string();
    let mut tree = group_tree(2);
    add_member(&admins, &alice, &mut tree, 1, 11).unwrap();
    let before = tree.nodes();
    assert_eq!(
        add_member(&admins, &bob, &mut tree, 1, 22),
        Err(SemaphoreError::CallerIsNotTheGroupAdmin)
    );
    assert_eq!(
        update_member(&admins, &bob, &mut tree, 1, 11, 33),
        Err(SemaphoreError::CallerIsNotTheGroupAdmin)
    );
    assert_eq!(
        remove_member(&admins, &bob, &mut tree, 1, 11),
        Err(SemaphoreError::CallerIsNotTheGroupAdmin)
    );
    assert_eq!(tree.nodes(), before);
}

#[test]
fn update_member_keeps_the_index() {
    let admins = created("alice");
    let alice = "alice".to_string();
    let mut tree = group_tree(2);
    for commitment in [11u128, 22, 33] {
        add_member(&admins, &alice, &mut tree, 1, commitment).unwrap();
    }
    let updated = update_member(&admins, &alice, &mut tree, 1, 22, 44);
    assert_eq!(
        updated,
        Ok(MemberUpdated {
            groupId: 1,
            index: 1,
            identityCommitment: 22,
            newIdentityCommitment: 44,
            merkleTreeRoot: "11-44-33-0".to_string()
        })
    );
    assert_eq!(index_of(&tree, 11), Ok(0));
    assert_eq!(index_of(&tree, 44), Ok(1));
    assert_eq!(index_of(&tree, 33), Ok(2));
    assert_eq!(index_of(&tree, 22), Err(SemaphoreError::LeafDoesNotExist));
    assert_eq!(
        update_member(&admins, &alice, &mut tree, 1, 22, 55),
        Err(SemaphoreError::LeafDoesNotExist)
    );
    assert_eq!(tree.root(), Some("11-44-33-0".to_string()));
}

#[test]
fn remove_member_zeroes_the_leaf() {
    let admins = created("alice");
    let alice = "alice".to_string();
    let mut tree = group_tree(2);
    for commitment in [11u128, 22, 33] {
        add_member(&admins, &alice, &mut tree, 1, commitment).unwrap();
    }
    assert!(has_member(&tree, 22));
    let removed = remove_member(&admins, &alice, &mut tree, 1, 22);
    assert_eq!(
        removed,
        Ok(MemberRemoved {
            groupId: 1,
            index: 1,
            identityCommitment: 22,
            merkleTreeRoot: "11-0-33-0".to_string()
        })
    );
    assert!(!has_member(&tree, 22));
    assert!(has_member(&tree, 11));
    assert!(has_member(&tree, 33));
    assert_eq!(index_of(&tree, 33), Ok(2));
    assert_eq!(tree.leaves(), vec!["11".to_string(), "0".to_string(), "33".to_string()]);
    assert_eq!(
        remove_member(&admins, &alice, &mut tree, 1, 22),
        Err(SemaphoreError::LeafDoesNotExist)
    );
    let next = add_member(&admins, &alice, &mut tree, 1, 55).unwrap();
    assert_eq!(next.index, 3);
}

#[test]
fn the_zero_value_is_no_member() {
    let admins = created("alice");
    let alice = "alice".to_string();
    let mut tree = group_tree(2);
    add_member(&admins, &alice, &mut tree, 1, 0).unwrap();
    assert_eq!(tree.leaves(), vec!["0".to_string()]);
    assert!(!has_member(&tree, 0));
    assert_eq!(index_of(&tree, 0), Err(SemaphoreError::LeafDoesNotExist));
}

#[test]
fn index_of_gives_the_first_position() {
    let admins = created("alice");
    let alice = "alice".to_string();
    let mut tree = group_tree(3);
    for commitment in [5u128, 7, 5, 9] {
        add_member(&admins, &alice, &mut tree, 1, commitment).unwrap();
    }
    assert_eq!(index_of(&tree, 5), Ok(0));
    assert_eq!(index_of(&tree, 7), Ok(1));
    assert_eq!(index_of(&tree, 9), Ok(3));
    assert_eq!(index_of(&tree, 6), Err(SemaphoreError::LeafDoesNotExist));
    assert!(!has_member(&tree, 6));
    remove_member(&admins, &alice, &mut tree, 1, 5).unwrap();
    assert_eq!(index_of(&tree, 5), Ok(2));
}
