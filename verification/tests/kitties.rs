use kitties::Error;
use kitties::Ledger;
use kitties::Module;

fn setup() -> (Module, Ledger) {
    let mut ledger = Ledger::new();
    ledger.set_balance(1, 2000);
    ledger.set_balance(2, 2000);
    ledger.set_balance(3, 2000);
    ledger.set_balance(4, 2000);
    ledger.set_balance(5, 400);
    (Module::new(), ledger)
}

fn seed(b: u8) -> Vec<u8> {
    vec![b; 16]
}

#[test]
fn creat_test() {
    let (mut reg, mut ledger) = setup();
    // balance of account 1 = 2000, reserve 500
    assert_eq!(reg.create(&mut ledger, 1, seed(7)), Ok(0));
    // balance of account 5 = 400, reserve 500
    assert_eq!(reg.create(&mut ledger, 5, seed(7)), Err(Error::InsufficientBalance));
}

#[test]
fn breed_test() {
    let (mut reg, mut ledger) = setup();
    // balance of account 1 = 2000, reserve 500
    assert_eq!(reg.create(&mut ledger, 1, seed(1)), Ok(0));
    assert_eq!(reg.create(&mut ledger, 2, seed(2)), Ok(1));
    assert_eq!(reg.breed(&mut ledger, 3, 1, 1, seed(0)), Err(Error::RequireDifferentParent));
    assert_eq!(reg.breed(&mut ledger, 4, 0, 1, seed(0xF0)), Ok(2));
    assert_eq!(reg.breed(&mut ledger, 4, 0, 99, seed(0)), Err(Error::InvalidKittyId));
}

#[test]
fn transfer_test() {
    let (mut reg, mut ledger) = setup();
    // balance of account 1 = 2000, reserve 500
    assert_eq!(reg.create(&mut ledger, 1, seed(1)), Ok(0));
    assert_eq!(reg.transfer(&mut ledger, 2, 3, 0), Err(Error::NotOwner));
    assert_eq!(reg.transfer(&mut ledger, 1, 5, 0), Err(Error::InsufficientBalance));
    assert_eq!(reg.transfer(&mut ledger, 1, 2, 0), Ok(()));
    assert_eq!(reg.transfer(&mut ledger, 1, 3, 0), Err(Error::NotOwner));
}

#[test]
fn create_assigns_owner_and_advances_counter() {
    let (mut reg, mut ledger) = setup();
    assert_eq!(reg.kitties_count(), 0);
    assert_eq!(reg.create(&mut ledger, 1, seed(9)), Ok(0));
    assert_eq!(reg.kitties_count(), 1);
    let k = reg.kitties(0).unwrap();
    assert_eq!(k.kitty_id, 0);
    assert_eq!(k.owner, 1);
    assert_eq!(k.dna, seed(9));
    assert_eq!(k.parents, None);
    assert!(k.children.is_none());
    assert!(k.breed_partners.is_none());
    assert_eq!(ledger.free_balance(1), 1500);
    assert_eq!(ledger.reserved_balance(1), 500);
}

#[test]
fn failed_create_changes_nothing() {
    let (mut reg, mut ledger) = setup();
    assert_eq!(reg.create(&mut ledger, 5, seed(3)), Err(Error::InsufficientBalance));
    assert_eq!(reg.kitties_count(), 0);
    assert!(reg.kitties(0).is_none());
    assert_eq!(ledger.free_balance(5), 400);
    assert_eq!(ledger.reserved_balance(5), 0);
}

#[test]
fn rejected_transfer_leaves_ownership_alone() {
    let (mut reg, mut ledger) = setup();
    assert_eq!(reg.create(&mut ledger, 1, seed(1)), Ok(0));
    assert_eq!(reg.transfer(&mut ledger, 3, 4, 0), Err(Error::NotOwner));
    assert_eq!(reg.kitties(0).unwrap().owner, 1);
    assert!(reg.kitty_list(1).unwrap().contains(&0));
    assert!(reg.kitty_list(4).map(|l| l.contains(&0)).unwrap_or(false) == false);
}

#[test]
fn transfer_moves_id_between_owner_lists() {
    let (mut reg, mut ledger) = setup();
    assert_eq!(reg.create(&mut ledger, 1, seed(1)), Ok(0));
    assert_eq!(reg.transfer(&mut ledger, 1, 2, 0), Ok(()));
    assert_eq!(reg.kitties(0).unwrap().owner, 2);
    assert!(!reg.kitty_list(1).unwrap().contains(&0));
    assert!(reg.kitty_list(2).unwrap().contains(&0));
    // the stake reservation moved with the asset
    assert_eq!(ledger.reserved_balance(1), 0);
    assert_eq!(ledger.free_balance(1), 2000);
    assert_eq!(ledger.reserved_balance(2), 500);
    assert_eq!(ledger.free_balance(2), 1500);
}

#[test]
fn transfer_of_unallocated_id_is_a_silent_no_op() {
    let (mut reg, mut ledger) = setup();
    assert_eq!(reg.transfer(&mut ledger, 1, 2, 7), Ok(()));
    assert_eq!(reg.kitties_count(), 0);
    assert_eq!(ledger.free_balance(1), 2000);
    assert_eq!(ledger.free_balance(2), 2000);
}

#[test]
fn breeding_records_parents_and_lineage() {
    let (mut reg, mut ledger) = setup();
    assert_eq!(reg.create(&mut ledger, 1, seed(1)), Ok(0));
    assert_eq!(reg.create(&mut ledger, 2, seed(2)), Ok(1));
    assert_eq!(reg.breed(&mut ledger, 3, 0, 1, seed(0)), Ok(2));
    assert_eq!(reg.kitties_count(), 3);
    assert_eq!(reg.get_parent(2), Some((0, 1)));
    assert_eq!(reg.get_parent(0), None);
    assert_eq!(reg.get_parent(99), None);
    assert_eq!(reg.kitties(2).unwrap().owner, 3);
    assert!(reg.get_children(0).unwrap().contains(&2));
    assert!(reg.get_children(1).unwrap().contains(&2));
    assert!(reg.kitties(0).unwrap().breed_partners.as_ref().unwrap().contains(&1));
    assert!(reg.kitties(1).unwrap().breed_partners.as_ref().unwrap().contains(&0));
    assert!(reg.kitty_list(3).unwrap().contains(&2));
}

#[test]
fn breeding_same_parent_changes_nothing() {
    let (mut reg, mut ledger) = setup();
    assert_eq!(reg.create(&mut ledger, 1, seed(1)), Ok(0));
    assert_eq!(reg.breed(&mut ledger, 2, 0, 0, seed(0)), Err(Error::RequireDifferentParent));
    assert_eq!(reg.kitties_count(), 1);
    // the reservation taken for the attempt was released again
    assert_eq!(ledger.free_balance(2), 2000);
    assert_eq!(ledger.reserved_balance(2), 0);
}

#[test]
fn breeding_without_stake_fails_first() {
    let (mut reg, mut ledger) = setup();
    assert_eq!(reg.create(&mut ledger, 1, seed(1)), Ok(0));
    assert_eq!(reg.breed(&mut ledger, 5, 0, 0, seed(0)), Err(Error::InsufficientBalance));
    assert_eq!(reg.breed(&mut ledger, 5, 0, 7, seed(0)), Err(Error::InsufficientBalance));
}

#[test]
fn combine_dna_selects_bits_by_mask() {
    assert_eq!(Module::combine_dna(0xAA, 0x55, 0xF0), 0xA5);
    assert_eq!(Module::combine_dna(0x12, 0x34, 0xFF), 0x12);
    assert_eq!(Module::combine_dna(0x12, 0x34, 0x00), 0x34);
    assert_eq!(Module::combine_dna(0b1100, 0b1010, 0b0110), 0b1100);
}

#[test]
fn child_dna_combines_parent_codes_under_selector() {
    let (mut reg, mut ledger) = setup();
    assert_eq!(reg.create(&mut ledger, 1, seed(0xAA)), Ok(0));
    assert_eq!(reg.create(&mut ledger, 2, seed(0x55)), Ok(1));
    assert_eq!(reg.breed(&mut ledger, 3, 0, 1, seed(0xF0)), Ok(2));
    assert_eq!(reg.kitties(2).unwrap().dna, seed(0xA5));
}

#[test]
fn brothers_are_the_parents_children_without_self() {
    let (mut reg, mut ledger) = setup();
    assert_eq!(reg.create(&mut ledger, 1, seed(1)), Ok(0));
    assert_eq!(reg.create(&mut ledger, 2, seed(2)), Ok(1));
    assert_eq!(reg.breed(&mut ledger, 3, 0, 1, seed(0)), Ok(2));
    assert_eq!(reg.breed(&mut ledger, 3, 0, 1, seed(0)), Ok(3));
    assert_eq!(reg.get_brothers(0), None);
    assert_eq!(reg.get_brothers(99), None);
    // each parent lists both children, so the sibling appears once per parent
    assert_eq!(reg.get_brothers(3), Some(vec![2, 2]));
    assert_eq!(reg.get_brothers(2), Some(vec![3, 3]));
}

#[test]
fn ids_grow_by_one_and_are_never_reused() {
    let (mut reg, mut ledger) = setup();
    assert_eq!(reg.create(&mut ledger, 1, seed(1)), Ok(0));
    assert_eq!(reg.create(&mut ledger, 2, seed(2)), Ok(1));
    assert_eq!(reg.breed(&mut ledger, 3, 1, 1, seed(0)), Err(Error::RequireDifferentParent));
    assert_eq!(reg.kitties_count(), 2);
    assert_eq!(reg.breed(&mut ledger, 3, 0, 1, seed(0)), Ok(2));
    assert_eq!(reg.create(&mut ledger, 4, seed(4)), Ok(3));
    assert_eq!(reg.kitties_count(), 4);
}

#[test]
fn ledger_reserve_and_unreserve_move_funds_exactly() {
    let mut ledger = Ledger::new();
    assert_eq!(ledger.free_balance(9), 0);
    ledger.set_balance(9, 700);
    assert_eq!(ledger.reserve(9, 500), Ok(()));
    assert_eq!(ledger.free_balance(9), 200);
    assert_eq!(ledger.reserved_balance(9), 500);
    assert_eq!(ledger.reserve(9, 500), Err(Error::InsufficientBalance));
    assert_eq!(ledger.free_balance(9), 200);
    // releasing more than is reserved gives back only what is reserved
    ledger.unreserve(9, 600);
    assert_eq!(ledger.free_balance(9), 700);
    assert_eq!(ledger.reserved_balance(9), 0);
}

#[test]
fn transfer_to_self_keeps_owner_and_stake() {
    let (mut reg, mut ledger) = setup();
    assert_eq!(reg.create(&mut ledger, 1, seed(1)), Ok(0));
    assert_eq!(reg.transfer(&mut ledger, 1, 1, 0), Ok(()));
    assert_eq!(reg.kitties(0).unwrap().owner, 1);
    assert!(reg.kitty_list(1).unwrap().contains(&0));
    assert_eq!(ledger.free_balance(1), 1500);
    assert_eq!(ledger.reserved_balance(1), 500);
}
