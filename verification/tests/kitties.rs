use kitties::Error;
use kitties::KittyLinkedItem;
use kitties::Module;
use kitties::OwnedKitties;

fn node(prev: Option<u32>, next: Option<u32>) -> KittyLinkedItem {
    KittyLinkedItem { prev, next }
}

#[test]
fn owned_kitties_can_append_values() {
    let mut owned = OwnedKitties::new();
    owned.append(0, 1);

    assert_eq!(owned.get(0, None), Some(node(Some(1), Some(1))));
    assert_eq!(owned.get(0, Some(1)), Some(node(None, None)));

    owned.append(0, 2);

    assert_eq!(owned.get(0, None), Some(node(Some(2), Some(1))));
    assert_eq!(owned.get(0, Some(1)), Some(node(None, Some(2))));
    assert_eq!(owned.get(0, Some(2)), Some(node(Some(1), None)));

    owned.append(0, 3);

    assert_eq!(owned.get(0, None), Some(node(Some(3), Some(1))));
    assert_eq!(owned.get(0, Some(1)), Some(node(None, Some(2))));
    assert_eq!(owned.get(0, Some(2)), Some(node(Some(1), Some(3))));
    assert_eq!(owned.get(0, Some(3)), Some(node(Some(2), None)));
}

#[test]
fn owned_kitties_can_remove_values() {
    let mut owned = OwnedKitties::new();
    owned.append(0, 1);

    assert_eq!(owned.remove(0, 1), Some(node(None, None)));
}

#[test]
fn removing_an_interior_element_splices_its_neighbours() {
    let mut owned = OwnedKitties::new();
    owned.append(0, 1);
    owned.append(0, 2);
    owned.append(0, 3);

    assert_eq!(owned.remove(0, 2), Some(node(Some(1), Some(3))));

    assert_eq!(owned.get(0, None), Some(node(Some(3), Some(1))));
    assert_eq!(owned.get(0, Some(1)), Some(node(None, Some(3))));
    assert_eq!(owned.get(0, Some(3)), Some(node(Some(1), None)));
    assert_eq!(owned.get(0, Some(2)), None);
}

#[test]
fn removing_the_sole_element_leaves_an_empty_sentinel() {
    let mut owned = OwnedKitties::new();
    owned.append(0, 1);
    assert_eq!(owned.remove(0, 1), Some(node(None, None)));

    assert_eq!(owned.get(0, None), Some(node(None, None)));
    assert_eq!(owned.get(0, Some(1)), None);
}

#[test]
fn removing_an_absent_id_changes_nothing() {
    let mut owned = OwnedKitties::new();
    owned.append(7, 10);
    owned.append(7, 20);

    assert_eq!(owned.remove(7, 99), None);

    assert_eq!(owned.get(7, None), Some(node(Some(20), Some(10))));
    assert_eq!(owned.get(7, Some(10)), Some(node(None, Some(20))));
    assert_eq!(owned.get(7, Some(20)), Some(node(Some(10), None)));

    // An owner that never appended gains no sentinel from a no-op removal.
    assert_eq!(owned.remove(8, 1), None);
    assert_eq!(owned.get(8, None), None);
}

/// Walk an owner's list through `next` pointers, starting at the sentinel.
fn walk_next(owned: &OwnedKitties, account: u64) -> Vec<u32> {
    let mut ids = Vec::new();
    let mut cursor = match owned.get(account, None) {
        Some(sentinel) => sentinel.next,
        None => None,
    };
    while let Some(id) = cursor {
        ids.push(id);
        cursor = owned.get(account, Some(id)).expect("linked node must be stored").next;
    }
    ids
}

/// Walk an owner's list through `prev` pointers, starting at the sentinel.
fn walk_prev(owned: &OwnedKitties, account: u64) -> Vec<u32> {
    let mut ids = Vec::new();
    let mut cursor = match owned.get(account, None) {
        Some(sentinel) => sentinel.prev,
        None => None,
    };
    while let Some(id) = cursor {
        ids.push(id);
        cursor = owned.get(account, Some(id)).expect("linked node must be stored").prev;
    }
    ids
}

#[test]
fn walking_next_yields_append_order_and_prev_the_reverse() {
    let mut owned = OwnedKitties::new();
    for id in [11, 22, 33, 44, 55] {
        owned.append(3, id);
    }
    assert_eq!(walk_next(&owned, 3), vec![11, 22, 33, 44, 55]);
    assert_eq!(walk_prev(&owned, 3), vec![55, 44, 33, 22, 11]);
}

#[test]
fn removals_keep_the_remaining_ids_in_relative_order() {
    // Remove the head, the tail and an interior element in turn.
    let mut owned = OwnedKitties::new();
    for id in [1, 2, 3, 4, 5] {
        owned.append(0, id);
    }
    owned.remove(0, 1);
    assert_eq!(walk_next(&owned, 0), vec![2, 3, 4, 5]);
    owned.remove(0, 5);
    assert_eq!(walk_next(&owned, 0), vec![2, 3, 4]);
    owned.remove(0, 3);
    assert_eq!(walk_next(&owned, 0), vec![2, 4]);
    assert_eq!(walk_prev(&owned, 0), vec![4, 2]);
}

#[test]
fn one_owners_operations_leave_another_owner_untouched() {
    let mut owned = OwnedKitties::new();
    owned.append(2, 100);
    owned.append(2, 200);

    let mut other = OwnedKitties::new();
    other.append(2, 100);
    other.append(2, 200);

    // Mutate owner 1's list heavily; owner 2's stored values stay what
    // they were, key for key.
    owned.append(1, 1000);
    owned.append(1, 5);
    owned.remove(1, 1000);
    owned.remove(1, 5);

    for key in [None, Some(5), Some(100), Some(200), Some(1000)] {
        assert_eq!(owned.get(2, key), other.get(2, key));
    }
}

#[test]
fn combine_dna_selects_bits_from_each_parent() {
    // Selector bits that are 1 take the first parent's bit, 0 the second's.
    assert_eq!(kitties::combine_dna(0b1010_1010, 0b0101_0101, 0b1111_0000), 0b1010_0101);
    assert_eq!(kitties::combine_dna(0xFF, 0x00, 0x0F), 0x0F);
    assert_eq!(kitties::combine_dna(0xFF, 0x00, 0xF0), 0xF0);
    assert_eq!(kitties::combine_dna(0x12, 0x34, 0x00), 0x34);
    assert_eq!(kitties::combine_dna(0x12, 0x34, 0xFF), 0x12);
}

#[test]
fn create_allocates_sequential_ids_and_stores_the_dna() {
    let mut registry = Module::new();
    let dna_a = [7u8; 16];
    let dna_b = [9u8; 16];

    assert_eq!(registry.create(1, dna_a), Ok(0));
    assert_eq!(registry.create(1, dna_b), Ok(1));
    assert_eq!(registry.kitties_count(), 2);

    assert_eq!(registry.kitties(0).expect("stored").0, dna_a);
    assert_eq!(registry.kitties(1).expect("stored").0, dna_b);
    assert_eq!(registry.kitties(2).map(|k| k.0), None);

    assert_eq!(walk_next_in_registry(&registry, 1), vec![0, 1]);
}

/// Walk an owner's list inside a registry through `next` pointers.
fn walk_next_in_registry(registry: &Module, account: u64) -> Vec<u32> {
    let mut ids = Vec::new();
    let mut cursor = match registry.owned_kitties(account, None) {
        Some(sentinel) => sentinel.next,
        None => None,
    };
    while let Some(id) = cursor {
        ids.push(id);
        cursor = registry.owned_kitties(account, Some(id)).expect("linked node").next;
    }
    ids
}

#[test]
fn breeding_mixes_the_parents_dna_bytewise() {
    let mut registry = Module::new();
    let dna_a: [u8; 16] = [
        0x00, 0xFF, 0xAA, 0x55, 0x12, 0x34, 0x56, 0x78, 0x9A, 0xBC, 0xDE, 0xF0, 0x01, 0x23, 0x45,
        0x67,
    ];
    let dna_b: [u8; 16] = [
        0xFF, 0x00, 0x55, 0xAA, 0x21, 0x43, 0x65, 0x87, 0xA9, 0xCB, 0xED, 0x0F, 0x10, 0x32, 0x54,
        0x76,
    ];
    let selector: [u8; 16] = [
        0x00, 0xFF, 0xF0, 0x0F, 0xAA, 0x55, 0x00, 0xFF, 0x33, 0xCC, 0x0F, 0xF0, 0x80, 0x01, 0x7E,
        0x18,
    ];
    assert_eq!(registry.create(1, dna_a), Ok(0));
    assert_eq!(registry.create(2, dna_b), Ok(1));

    // The child belongs to the caller, not to either parent's owner.
    assert_eq!(registry.do_breed(3, 0, 1, selector), Ok(2));
    assert_eq!(registry.kitties_count(), 3);

    let child = registry.kitties(2).expect("stored");
    for i in 0..16 {
        let expected = (selector[i] & dna_a[i]) | (!selector[i] & dna_b[i]);
        assert_eq!(child.0[i], expected);
    }
    assert_eq!(walk_next_in_registry(&registry, 3), vec![2]);
}

#[test]
fn breeding_requires_two_distinct_parents() {
    let mut registry = Module::new();
    assert_eq!(registry.create(1, [1u8; 16]), Ok(0));

    assert_eq!(registry.do_breed(1, 0, 0, [0u8; 16]), Err(Error::RequireDifferentParent));
    // No identifier was allocated by the failed call.
    assert_eq!(registry.kitties_count(), 1);
}

#[test]
fn breeding_with_an_unknown_parent_fails() {
    let mut registry = Module::new();
    assert_eq!(registry.create(1, [1u8; 16]), Ok(0));

    assert_eq!(registry.do_breed(1, 0, 9, [0u8; 16]), Err(Error::InvalidKittyId));
    assert_eq!(registry.do_breed(1, 9, 0, [0u8; 16]), Err(Error::InvalidKittyId));
    assert_eq!(registry.kitties_count(), 1);
}

#[test]
fn create_fails_when_the_id_space_is_exhausted() {
    let mut registry = Module::with_count(u32::MAX);

    assert_eq!(registry.create(1, [0u8; 16]), Err(Error::KittiesCountOverflow));

    // Nothing changed: the counter still stands at the maximum and no
    // record or list node was written.
    assert_eq!(registry.kitties_count(), u32::MAX);
    assert_eq!(registry.kitties(u32::MAX - 1), None);
    assert_eq!(registry.owned_kitties(1, None), None);
}

#[test]
fn breeding_fails_when_the_id_space_is_exhausted() {
    let mut registry = Module::with_count(2);
    // The counter can only grow, so parents must be created in a fresh
    // registry whose counter starts lower.
    let mut small = Module::new();
    assert_eq!(small.create(1, [1u8; 16]), Ok(0));
    assert_eq!(small.create(1, [2u8; 16]), Ok(1));
    assert_eq!(small.do_breed(1, 0, 1, [0u8; 16]), Ok(2));

    // In the pre-set registry nothing is stored, so the identifier check
    // fires before the counter check.
    assert_eq!(registry.do_breed(1, 0, 1, [0u8; 16]), Err(Error::InvalidKittyId));
}

#[test]
fn transfer_moves_a_creature_between_owners() {
    let mut registry = Module::new();
    assert_eq!(registry.create(1, [1u8; 16]), Ok(0));
    assert_eq!(registry.create(1, [2u8; 16]), Ok(1));
    assert_eq!(registry.create(1, [3u8; 16]), Ok(2));

    assert_eq!(registry.transfer(1, 2, 1), Ok(()));

    assert_eq!(walk_next_in_registry(&registry, 1), vec![0, 2]);
    assert_eq!(walk_next_in_registry(&registry, 2), vec![1]);
    // The record itself stays where it was.
    assert_eq!(registry.kitties(1).expect("stored").0, [2u8; 16]);
}

#[test]
fn transfer_of_a_sole_creature_succeeds() {
    // The owner's only creature has a node with both pointers `None`;
    // ownership is decided by the node's presence, so it transfers too.
    let mut registry = Module::new();
    assert_eq!(registry.create(1, [1u8; 16]), Ok(0));

    assert_eq!(registry.transfer(1, 2, 0), Ok(()));

    assert_eq!(walk_next_in_registry(&registry, 1), Vec::<u32>::new());
    assert_eq!(walk_next_in_registry(&registry, 2), vec![0]);
}

#[test]
fn transfer_by_a_non_owner_fails_and_changes_nothing() {
    let mut registry = Module::new();
    assert_eq!(registry.create(1, [1u8; 16]), Ok(0));

    assert_eq!(registry.transfer(2, 3, 0), Err(Error::RequireOwner));
    assert_eq!(registry.transfer(1, 3, 5), Err(Error::RequireOwner));

    assert_eq!(walk_next_in_registry(&registry, 1), vec![0]);
    assert_eq!(walk_next_in_registry(&registry, 3), Vec::<u32>::new());
}

#[test]
fn transfer_to_oneself_moves_the_creature_to_the_tail() {
    let mut registry = Module::new();
    assert_eq!(registry.create(1, [1u8; 16]), Ok(0));
    assert_eq!(registry.create(1, [2u8; 16]), Ok(1));

    assert_eq!(registry.transfer(1, 1, 0), Ok(()));

    assert_eq!(walk_next_in_registry(&registry, 1), vec![1, 0]);
}
