use anvil_search::enchantments::{AnvilError, EnchantTypes, Enchantment, ItemType};
use anvil_search::items::{penalty, Item, CEILING};

fn thorns() -> Enchantment {
    Enchantment::new(EnchantTypes::Thorns, 3, 8, 4)
}

fn mending() -> Enchantment {
    Enchantment::new(EnchantTypes::Mending, 1, 4, 2)
}

fn unbreaking() -> Enchantment {
    Enchantment::new(EnchantTypes::Unbreaking, 3, 2, 1)
}

fn level(item: &Item, name: EnchantTypes) -> Option<u32> {
    item.enchants().get(name).map(|e| e.level())
}

#[test]
fn the_penalty_doubles_with_each_use() {
    assert_eq!(penalty(0), 0);
    assert_eq!(penalty(1), 1);
    assert_eq!(penalty(2), 3);
    assert_eq!(penalty(3), 7);
    assert_eq!(penalty(5), 31);
    assert_eq!(penalty(6), 63);
    assert_eq!(penalty(31), 2_147_483_647);
    assert_eq!(penalty(32), u32::MAX);
}

#[test]
fn a_fresh_item_holds_one_enchantment_at_level_one() {
    let item = Item::from_enchantment(thorns(), ItemType::Book);

    assert_eq!(level(&item, EnchantTypes::Thorns), Some(1));
    assert_eq!(level(&item, EnchantTypes::Mending), None);
    assert_eq!(item.total_cost, 0);
    assert_eq!(item.cost(), 0);
    assert_eq!(item.anvil_uses(), 0);
    assert!(item.recipe().is_none());
}

#[test]
fn a_merge_holds_the_merged_set_and_its_recipe() {
    let acceptor = Item::from_enchantment(thorns(), ItemType::Other);
    let donor = Item::from_enchantment(thorns(), ItemType::Book);

    let made = acceptor.combine(donor).unwrap();

    assert_eq!(level(&made, EnchantTypes::Thorns), Some(2));
    assert_eq!(made.cost(), 8);
    assert_eq!(made.total_cost, 8);
    assert_eq!(made.total_cost(), 8);
    assert_eq!(made.anvil_uses(), 1);
    let (first, second) = made.recipe().unwrap();
    assert_eq!(level(first, EnchantTypes::Thorns), Some(1));
    assert_eq!(level(second, EnchantTypes::Thorns), Some(1));
    assert!(first.recipe().is_none() && second.recipe().is_none());
}

#[test]
fn the_kind_of_the_donor_picks_the_multiplier() {
    let plain = Item::from_enchantment(thorns(), ItemType::Other);
    let book = Item::from_enchantment(thorns(), ItemType::Book);

    // the donor is plain: 2 * 8
    let made = book.combine(plain).unwrap();
    assert_eq!(made.total_cost, 16);

    // the new item has the kind of its acceptor, a book: as a donor it brings
    // Thorns at level 2 for 2 * 4, and the surcharge of its one use
    let onto = Item::from_enchantment(mending(), ItemType::Other);
    let next = onto.combine(made).unwrap();
    assert_eq!(next.cost(), 2 * 4 + 1);
    assert_eq!(next.total_cost, 2 * 4 + 1);
    assert_eq!(next.anvil_uses(), 2);
}

#[test]
fn the_uses_follow_the_donor_alone() {
    let used = Item::from_enchantment(thorns(), ItemType::Other)
        .combine(Item::from_enchantment(thorns(), ItemType::Book))
        .unwrap();
    assert_eq!(used.anvil_uses(), 1);

    let fresh = Item::from_enchantment(mending(), ItemType::Book);
    let made = used.combine(fresh).unwrap();

    // 1 * 2 for Mending from a book, and the surcharge of the acceptor
    assert_eq!(made.cost(), 3);
    assert_eq!(made.total_cost, 8 + 3);
    assert_eq!(made.anvil_uses(), 1);
}

#[test]
fn a_redundant_sacrifice_fails_the_merge() {
    let stronger = Item::from_enchantment(thorns(), ItemType::Other)
        .combine(Item::from_enchantment(thorns(), ItemType::Book))
        .unwrap();
    let weaker = Item::from_enchantment(thorns(), ItemType::Book);

    assert_eq!(
        stronger.combine(weaker).err(),
        Some(AnvilError::RedundantSequence)
    );

    let capped = Item::from_enchantment(mending(), ItemType::Other);
    let same = Item::from_enchantment(mending(), ItemType::Book);
    assert_eq!(
        capped.combine(same).err(),
        Some(AnvilError::RedundantSequence)
    );
}

fn loaded() -> Item {
    let names = [
        EnchantTypes::SoulSpeed,
        EnchantTypes::SwiftSneak,
        EnchantTypes::CurseOfBinding,
        EnchantTypes::CurseOfVanishing,
    ];
    let mut item = Item::from_enchantment(thorns(), ItemType::Other);
    for name in names {
        let book = Item::from_enchantment(Enchantment::new(name, 3, 8, 4), ItemType::Book);
        item = item.combine(book).unwrap();
    }
    item.combine(Item::from_enchantment(mending(), ItemType::Book))
        .unwrap()
}

#[test]
fn a_step_above_the_ceiling_is_too_expensive() {
    assert_eq!(CEILING, 40);
    let donor = loaded();
    // four books at 4, the last three onto an item with one use, then Mending at 2
    assert_eq!(donor.total_cost, 4 + 5 + 5 + 5 + 3);
    assert_eq!(donor.anvil_uses(), 1);

    // 5 * 8 + 4 for the set of a plain donor, and its surcharge of 1
    let acceptor = Item::from_enchantment(unbreaking(), ItemType::Other);
    assert_eq!(
        acceptor.combine(donor).err(),
        Some(AnvilError::TooExpensive)
    );
}

#[test]
fn a_step_at_the_ceiling_is_accepted() {
    // 5 * 8 for the set of a plain donor, no surcharge
    let names = [
        EnchantTypes::SoulSpeed,
        EnchantTypes::SwiftSneak,
        EnchantTypes::CurseOfBinding,
        EnchantTypes::CurseOfVanishing,
    ];
    let mut donor = Item::from_enchantment(thorns(), ItemType::Other);
    for name in names {
        let book = Item::from_enchantment(Enchantment::new(name, 3, 8, 4), ItemType::Book);
        donor = donor.combine(book).unwrap();
    }
    assert_eq!(donor.anvil_uses(), 1);
    let acceptor = Item::from_enchantment(unbreaking(), ItemType::Other);
    assert_eq!(
        acceptor.combine(donor.clone()).err(),
        Some(AnvilError::TooExpensive)
    );

    // the same set from a donor that counts as a book: 5 * 4, and its surcharge of 1
    let mut shelf = Item::from_enchantment(thorns(), ItemType::Book);
    for name in names {
        let book = Item::from_enchantment(Enchantment::new(name, 3, 8, 4), ItemType::Book);
        shelf = shelf.combine(book).unwrap();
    }
    let acceptor = Item::from_enchantment(unbreaking(), ItemType::Other);
    let made = acceptor.combine(shelf).unwrap();
    assert_eq!(made.cost(), 21);
    assert_eq!(made.total_cost, 21);
    assert_eq!(made.anvil_uses(), 2);
}

#[test]
fn redundancy_is_found_before_the_cost() {
    let donor = loaded();
    let acceptor = Item::from_enchantment(mending(), ItemType::Other);

    assert_eq!(
        acceptor.combine(donor).err(),
        Some(AnvilError::RedundantSequence)
    );
}

#[test]
fn the_total_is_the_cost_along_the_line_of_acceptors() {
    let item = loaded();

    let mut sum = 0;
    let mut steps = 0;
    let mut at = &item;
    while let Some((acceptor, donor)) = at.recipe() {
        assert!(donor.recipe().is_none());
        assert_eq!(at.total_cost, acceptor.total_cost + at.cost());
        sum += at.cost();
        steps += 1;
        at = acceptor;
    }
    assert_eq!(steps, 5);
    assert_eq!(sum, item.total_cost);
}

#[test]
fn what_a_donor_accumulated_does_not_pass_on() {
    let donor = Item::from_enchantment(thorns(), ItemType::Other)
        .combine(Item::from_enchantment(thorns(), ItemType::Other))
        .unwrap();
    assert_eq!(donor.total_cost, 16);

    let acceptor = Item::from_enchantment(mending(), ItemType::Other);
    let made = acceptor.combine(donor).unwrap();

    // 2 * 8 for Thorns, and the surcharge of the donor's one use
    assert_eq!(made.cost(), 17);
    assert_eq!(made.total_cost, 17);
}

#[test]
fn a_copy_stands_for_the_same_item() {
    let item = loaded();
    let copy = item.clone();

    assert_eq!(copy.total_cost, item.total_cost);
    assert_eq!(copy.cost(), item.cost());
    assert_eq!(copy.anvil_uses(), item.anvil_uses());
    assert_eq!(copy.enchants(), item.enchants());
    assert_eq!(format!("{:?}", copy), format!("{:?}", item));
}
