use anvil_search::enchantments::{
    AnvilError, Enchant, EnchantTypes, Enchantment, Enchants, ItemType,
};

fn thorns() -> Enchantment {
    Enchantment::new(EnchantTypes::Thorns, 3, 8, 4)
}

fn soul_speed() -> Enchantment {
    Enchantment::new(EnchantTypes::SoulSpeed, 3, 8, 4)
}

fn unbreaking() -> Enchantment {
    Enchantment::new(EnchantTypes::Unbreaking, 3, 2, 1)
}

fn protection() -> Enchantment {
    Enchantment::new(EnchantTypes::Protection, 4, 1, 1)
}

fn depth_strider() -> Enchantment {
    Enchantment::new(EnchantTypes::DepthStrider, 3, 4, 2)
}

#[test]
fn basic_combination() {
    let mut enchants = Enchants::new(vec![Enchant::new(thorns(), 1)]);
    let book = Enchants::new(vec![Enchant::new(thorns(), 1)]);

    assert_eq!(Ok(8), enchants.combine((&book, ItemType::Book)));

    assert_eq!(enchants.get(EnchantTypes::Thorns).unwrap().level(), 2);
}

#[test]
fn overtake() {
    let mut weaker = Enchants::new(vec![Enchant::new(soul_speed(), 1)]);
    let stronger_book = Enchants::new(vec![Enchant::new(soul_speed(), 3)]);

    assert_eq!(Ok(12), weaker.combine((&stronger_book, ItemType::Book)));

    assert_eq!(weaker.get(EnchantTypes::SoulSpeed).unwrap().level(), 3);
}

#[test]
fn complex() {
    let mut item1 = Enchants::new(vec![
        Enchant::new(unbreaking(), 2),
        Enchant::new(protection(), 2),
        Enchant::new(depth_strider(), 1),
    ]);
    let item2 = item1.clone();

    assert_eq!(Ok(17), item1.combine((&item2, ItemType::Other)));

    assert_eq!(
        item1,
        Enchants::new(vec![
            Enchant::new(unbreaking(), 3),
            Enchant::new(protection(), 3),
            Enchant::new(depth_strider(), 2)
        ],)
    );
}

#[test]
fn weaker_donor_is_redundant() {
    let mut stronger = Enchants::new(vec![Enchant::new(thorns(), 2)]);
    let weaker = Enchants::new(vec![Enchant::new(thorns(), 1)]);

    assert_eq!(
        Err(AnvilError::RedundantSequence),
        stronger.combine((&weaker, ItemType::Book))
    );
    assert_eq!(stronger.get(EnchantTypes::Thorns).unwrap().level(), 2);
}

#[test]
fn equal_levels_at_the_cap_are_redundant() {
    let mut capped = Enchants::new(vec![Enchant::new(thorns(), 3)]);
    let other = Enchants::new(vec![Enchant::new(thorns(), 3)]);

    assert_eq!(
        Err(AnvilError::RedundantSequence),
        capped.combine((&other, ItemType::Book))
    );
    assert_eq!(capped.get(EnchantTypes::Thorns).unwrap().level(), 3);
}

#[test]
fn one_redundant_entry_leaves_the_whole_set_untouched() {
    let mut acceptor = Enchants::new(vec![
        Enchant::new(thorns(), 2),
        Enchant::new(unbreaking(), 1),
    ]);
    let before = acceptor.clone();
    let donor = Enchants::new(vec![
        Enchant::new(thorns(), 1),
        Enchant::new(unbreaking(), 2),
        Enchant::new(protection(), 1),
    ]);

    assert_eq!(
        Err(AnvilError::RedundantSequence),
        acceptor.combine((&donor, ItemType::Other))
    );
    assert_eq!(acceptor, before);
    assert!(acceptor.get(EnchantTypes::Protection).is_none());
}

#[test]
fn absent_names_are_inserted_unchanged() {
    let mut acceptor = Enchants::new(vec![Enchant::new(thorns(), 1)]);
    let donor = Enchants::new(vec![
        Enchant::new(protection(), 3),
        Enchant::new(depth_strider(), 2),
    ]);

    // 3 * 1 for Protection and 2 * 2 for Depth Strider, from a book
    assert_eq!(Ok(7), acceptor.combine((&donor, ItemType::Book)));
    assert_eq!(acceptor.get(EnchantTypes::Protection).unwrap().level(), 3);
    assert_eq!(acceptor.get(EnchantTypes::DepthStrider).unwrap().level(), 2);
    assert_eq!(acceptor.get(EnchantTypes::Thorns).unwrap().level(), 1);
    assert_eq!(
        acceptor.get(EnchantTypes::Protection).unwrap().enchantment(),
        protection()
    );
}

#[test]
fn the_cost_does_not_depend_on_the_order_of_the_donor() {
    let mut first = Enchants::new(vec![Enchant::new(thorns(), 1)]);
    let mut second = first.clone();
    let donor = Enchants::new(vec![
        Enchant::new(unbreaking(), 2),
        Enchant::new(protection(), 2),
        Enchant::new(thorns(), 2),
    ]);
    let reordered = Enchants::new(vec![
        Enchant::new(thorns(), 2),
        Enchant::new(protection(), 2),
        Enchant::new(unbreaking(), 2),
    ]);

    // 2 * 2 + 2 * 1 + 2 * 8 from a plain item
    assert_eq!(Ok(22), first.combine((&donor, ItemType::Other)));
    assert_eq!(Ok(22), second.combine((&reordered, ItemType::Other)));
    assert_eq!(first, second);
}

#[test]
fn quote_names_the_cost_and_changes_nothing() {
    let acceptor = Enchants::new(vec![Enchant::new(soul_speed(), 1)]);
    let donor = Enchants::new(vec![Enchant::new(soul_speed(), 3)]);
    let weaker = Enchants::new(vec![Enchant::new(soul_speed(), 1)]);
    let capped = Enchants::new(vec![Enchant::new(soul_speed(), 3)]);

    assert_eq!(Ok(12), acceptor.quote(&donor, ItemType::Book));
    assert_eq!(Ok(24), acceptor.quote(&donor, ItemType::Other));
    assert_eq!(Ok(8), acceptor.quote(&weaker, ItemType::Book));
    assert_eq!(
        Err(AnvilError::RedundantSequence),
        capped.quote(&donor, ItemType::Book)
    );
    assert_eq!(acceptor.get(EnchantTypes::SoulSpeed).unwrap().level(), 1);
}

#[test]
fn absorb_merges_what_quote_priced() {
    let mut acceptor = Enchants::new(vec![
        Enchant::new(unbreaking(), 1),
        Enchant::new(thorns(), 2),
    ]);
    let donor = Enchants::new(vec![
        Enchant::new(unbreaking(), 1),
        Enchant::new(thorns(), 3),
        Enchant::new(protection(), 4),
    ]);

    assert_eq!(Ok(2 + 12 + 4), acceptor.quote(&donor, ItemType::Book));
    acceptor.absorb(&donor);
    assert_eq!(
        acceptor,
        Enchants::new(vec![
            Enchant::new(unbreaking(), 2),
            Enchant::new(thorns(), 3),
            Enchant::new(protection(), 4),
        ])
    );
}

#[test]
fn of_two_entries_with_one_name_the_later_stays() {
    let set = Enchants::new(vec![
        Enchant::new(thorns(), 1),
        Enchant::new(unbreaking(), 3),
        Enchant::new(thorns(), 2),
    ]);

    assert_eq!(set.get(EnchantTypes::Thorns).unwrap().level(), 2);
    assert_eq!(set.get(EnchantTypes::Unbreaking).unwrap().level(), 3);
    assert!(set.get(EnchantTypes::Mending).is_none());
    assert_eq!(Enchants::new(vec![]), Enchants::default());
}

#[test]
fn a_single_enchantment_follows_the_level_rule() {
    let mut equal = Enchant::new(thorns(), 1);
    assert_eq!(Ok(16), equal.combine(ItemType::Other, 1));
    assert_eq!(equal.level(), 2);

    let mut jump = Enchant::new(thorns(), 1);
    assert_eq!(Ok(12), jump.combine(ItemType::Book, 3));
    assert_eq!(jump.level(), 3);

    let mut weaker = Enchant::new(thorns(), 2);
    assert_eq!(
        Err(AnvilError::RedundantSequence),
        weaker.combine(ItemType::Book, 1)
    );
    assert_eq!(weaker.level(), 2);

    let mut above_cap = Enchant::new(thorns(), 2);
    assert_eq!(
        Err(AnvilError::RedundantSequence),
        above_cap.combine(ItemType::Book, 4)
    );
    assert_eq!(above_cap.level(), 2);

    let mut capped = Enchant::new(thorns(), 3);
    assert_eq!(
        Err(AnvilError::RedundantSequence),
        capped.combine(ItemType::Book, 3)
    );
    assert_eq!(capped.enchantment(), thorns());
}

#[test]
fn the_score_is_levels_times_the_multiplier_of_the_kind() {
    assert_eq!(thorns().calculate_score(ItemType::Book, 2), 8);
    assert_eq!(thorns().calculate_score(ItemType::Other, 2), 16);
    assert_eq!(protection().calculate_score(ItemType::Other, 4), 4);
    assert_eq!(depth_strider().calculate_score(ItemType::Book, 0), 0);
    let built = Enchantment::new(EnchantTypes::Thorns, 3, 8, 4);
    assert_eq!(built.name, EnchantTypes::Thorns);
    assert_eq!((built.max_level, built.item_mult, built.book_mult), (3, 8, 4));
}
