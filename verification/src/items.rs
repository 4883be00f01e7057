//! Items and the economics of merging two of them on the anvil.
use crate::enchantments::{
    collected, lemma_entry_cost_within_sum, lemma_level_within_entry_cost, lemma_levels_below_bound,
    cost_below, entry_cost, lemma_merged_levels_grow, lemma_merged_valid, level_sum, levels_of, merge_cost, merged,
    redundant, redundant_at, valid_set, AnvilError, Enchant, EnchantLevel, EnchantTypes,
    Enchantment, Enchants, ItemType, LevelMap, KINDS,
};
use vstd::arithmetic::power2::pow2;
use vstd::prelude::*;

verus! {

/// The largest cost that the anvil accepts for a single merge.
pub const CEILING: u32 = 40;

/// The surcharge for an item that went through `anvil_uses` merges: it
/// doubles, plus one, with each of them.
pub open spec fn penalty_of(anvil_uses: nat) -> nat {
    (pow2(anvil_uses) - 1) as nat
}

/// The surcharge for `anvil_uses` earlier merges, for every count whose
/// surcharge fits the result.
pub fn penalty(anvil_uses: u32) -> (r: u32)
    requires
        anvil_uses <= 32,
    ensures
        r == penalty_of(anvil_uses as nat),
{
    proof {
        vstd::arithmetic::power2::lemma_pow2_pos(anvil_uses as nat);
        vstd::arithmetic::power2::lemma2_to64();
    }
    if anvil_uses == 32 {
        u32::MAX
    } else {
        proof {
            vstd::bits::lemma_u32_pow2_no_overflow(anvil_uses as nat);
            vstd::bits::lemma_u32_shl_is_mul(1, anvil_uses);
        }
        (1u32 << anvil_uses) - 1
    }
}

/// The surcharge is nothing without earlier merges, one after one, three after
/// two, and it doubles, plus one, with each further merge.
pub proof fn lemma_penalty_doubles(anvil_uses: nat)
    ensures
        penalty_of(0) == 0,
        penalty_of(1) == 1,
        penalty_of(2) == 3,
        penalty_of(anvil_uses) == pow2(anvil_uses) - 1,
        penalty_of(anvil_uses + 1) == 2 * penalty_of(anvil_uses) + 1,
{
    vstd::arithmetic::power2::lemma2_to64();
    vstd::arithmetic::power2::lemma_pow2_pos(anvil_uses);
    vstd::arithmetic::power2::lemma_pow2_unfold(anvil_uses + 1);
}

/// What an `Item` stands for: its enchantments, its kind, how often its line
/// went through the anvil, what that cost, and the two items it was made of.
pub struct ItemModel {
    pub enchants: LevelMap,
    pub kind: ItemType,
    pub anvil_uses: nat,
    pub total_cost: nat,
    pub cost: nat,
    pub recipe: Option<(Box<ItemModel>, Box<ItemModel>)>,
}

/// An item fresh from the catalog: one enchantment at level one, no history.
pub open spec fn primordial(definition: Enchantment, kind: ItemType) -> ItemModel {
    ItemModel {
        enchants: map![definition.name => EnchantLevel { definition, level: 1 }],
        kind,
        anvil_uses: 0,
        total_cost: 0,
        cost: 0,
        recipe: None,
    }
}

/// The cost of the single step that merges the donor into the acceptor: the
/// cost of merging the sets and the surcharge of either item.
pub open spec fn step_cost(acceptor: ItemModel, donor: ItemModel) -> nat {
    merge_cost(acceptor.enchants, donor.enchants, donor.kind) + penalty_of(acceptor.anvil_uses)
        + penalty_of(donor.anvil_uses)
}

/// What merging the donor into the acceptor gives. A redundant donor fails
/// first; then a step above the ceiling. The new item has the merged set and
/// the acceptor's kind, counts one use more than the donor, adds the step to
/// what the acceptor had accumulated, and keeps both items as its recipe.
pub open spec fn merge_outcome(acceptor: ItemModel, donor: ItemModel) -> Result<
    ItemModel,
    AnvilError,
> {
    if redundant(acceptor.enchants, donor.enchants) {
        Err(AnvilError::RedundantSequence)
    } else if step_cost(acceptor, donor) > CEILING {
        Err(AnvilError::TooExpensive)
    } else {
        Ok(
            ItemModel {
                enchants: merged(acceptor.enchants, donor.enchants),
                kind: acceptor.kind,
                anvil_uses: donor.anvil_uses + 1,
                total_cost: acceptor.total_cost + step_cost(acceptor, donor),
                cost: step_cost(acceptor, donor),
                recipe: Some((Box::new(acceptor), Box::new(donor))),
            },
        )
    }
}

/// A merge whose donor is not redundant and whose step costs more than the
/// ceiling is too expensive, and makes no item.
pub proof fn lemma_above_ceiling_fails(acceptor: ItemModel, donor: ItemModel)
    requires
        !redundant(acceptor.enchants, donor.enchants),
        step_cost(acceptor, donor) > CEILING,
    ensures
        merge_outcome(acceptor, donor) == Err::<ItemModel, AnvilError>(AnvilError::TooExpensive),
{
}

/// An item is genuine when it is fresh from a well-formed definition, or the
/// outcome of merging two genuine items.
pub open spec fn genuine(item: ItemModel) -> bool
    decreases item,
{
    match item.recipe {
        None => exists|definition: Enchantment|
            definition.wf() && item == #[trigger] primordial(definition, item.kind),
        Some((acceptor, donor)) => {
            &&& genuine(*acceptor)
            &&& genuine(*donor)
            &&& merge_outcome(*acceptor, *donor) == Ok::<ItemModel, AnvilError>(item)
        },
    }
}

/// The most merges that the line of a genuine item can have gone through.
pub const MOST_USES: u32 = 6;

/// The most that a genuine item can have accumulated.
pub const MOST_TOTAL: u32 = 25_600;

/// What holds of every genuine item because no step may cost more than the
/// ceiling: its set is valid and not empty, no level in it is above the
/// ceiling, its line went through at most six merges, and what it has
/// accumulated is at most the ceiling times the sum of its levels.
pub open spec fn within_bounds(item: ItemModel) -> bool {
    &&& valid_set(item.enchants)
    &&& exists|k: EnchantTypes| item.enchants.contains_key(k)
    &&& forall|k: EnchantTypes| #[trigger]
        item.enchants.contains_key(k) ==> item.enchants[k].level <= CEILING
    &&& item.anvil_uses <= MOST_USES
    &&& item.total_cost <= CEILING * level_sum(item.enchants)
    &&& item.total_cost <= MOST_TOTAL
}

/// A surcharge within the ceiling belongs to at most five earlier merges.
proof fn lemma_penalty_within_ceiling(anvil_uses: nat)
    requires
        penalty_of(anvil_uses) <= CEILING,
    ensures
        anvil_uses < MOST_USES,
{
    vstd::arithmetic::power2::lemma2_to64();
    if anvil_uses > 6 {
        vstd::arithmetic::power2::lemma_pow2_strictly_increases(6, anvil_uses);
    }
}

/// Every genuine item is within the bounds that the ceiling sets.
pub proof fn lemma_genuine_within_bounds(item: ItemModel)
    requires
        genuine(item),
    ensures
        within_bounds(item),
    decreases item,
{
    EnchantTypes::lemma_index_at();
    match item.recipe {
        None => {
            let definition = choose|definition: Enchantment|
                definition.wf() && item == #[trigger] primordial(definition, item.kind);
            assert(item.enchants.contains_key(definition.name));
            lemma_levels_below_bound(item.enchants, CEILING as nat, KINDS as nat);
        },
        Some((acceptor, donor)) => {
            let a = *acceptor;
            let d = *donor;
            lemma_genuine_within_bounds(a);
            lemma_genuine_within_bounds(d);
            lemma_merged_valid(a.enchants, d.enchants);
            lemma_penalty_within_ceiling(d.anvil_uses);
            let some = choose|k: EnchantTypes| a.enchants.contains_key(k);
            assert(item.enchants.contains_key(some));
            assert forall|k: EnchantTypes| #[trigger] item.enchants.contains_key(k) implies item.enchants[k].level
                <= CEILING by {
                if d.enchants.contains_key(k) {
                    assert(!redundant_at(a.enchants, d.enchants, k));
                    lemma_level_within_entry_cost(a.enchants, d.enchants, d.kind, k);
                    lemma_entry_cost_within_sum(a.enchants, d.enchants, d.kind, k, KINDS as nat);
                }
            }
            let given = choose|k: EnchantTypes| d.enchants.contains_key(k);
            assert(d.enchants.contains_key(EnchantTypes::at(given.index() as int)));
            lemma_merged_levels_grow(a.enchants, d.enchants, KINDS as nat);
            lemma_levels_below_bound(item.enchants, CEILING as nat, KINDS as nat);
            assert(CEILING * level_sum(a.enchants) + CEILING <= CEILING * level_sum(item.enchants))
                by (nonlinear_arith)
                requires
                    level_sum(a.enchants) + 1 <= level_sum(item.enchants),
            ;
        },
    }
}

/// The cost of the steps along the line of acceptors that leads to an item.
pub open spec fn lineage_cost(item: ItemModel) -> nat
    decreases item,
{
    match item.recipe {
        None => 0,
        Some((acceptor, _)) => lineage_cost(*acceptor) + item.cost,
    }
}

/// The cost of every step in the recipe of an item, those that made its
/// donors included.
pub open spec fn history_cost(item: ItemModel) -> nat
    decreases item,
{
    match item.recipe {
        None => 0,
        Some((acceptor, donor)) => history_cost(*acceptor) + history_cost(*donor) + item.cost,
    }
}

/// No donor along the line of acceptors that leads to an item brought a cost
/// of its own.
pub open spec fn donors_costless(item: ItemModel) -> bool
    decreases item,
{
    match item.recipe {
        None => true,
        Some((acceptor, donor)) => donors_costless(*acceptor) && history_cost(*donor) == 0,
    }
}

/// What a genuine item has accumulated is the cost of the steps along its
/// line of acceptors, and no less than what its acceptor had accumulated.
pub proof fn lemma_total_is_lineage_cost(item: ItemModel)
    requires
        genuine(item),
    ensures
        item.total_cost == lineage_cost(item),
        item.recipe matches Some((acceptor, _)) ==> acceptor.total_cost <= item.total_cost,
    decreases item,
{
    match item.recipe {
        None => {},
        Some((acceptor, _)) => {
            lemma_total_is_lineage_cost(*acceptor);
        },
    }
}

/// What a genuine item has accumulated is the cost of every step in its
/// recipe, provided that no donor along its line of acceptors brought a cost
/// of its own: what a donor had accumulated does not pass to the new item.
pub proof fn lemma_total_is_history_cost(item: ItemModel)
    requires
        genuine(item),
        donors_costless(item),
    ensures
        item.total_cost == history_cost(item),
    decreases item,
{
    match item.recipe {
        None => {},
        Some((acceptor, _)) => {
            lemma_total_is_history_cost(*acceptor);
        },
    }
}

/// Which of two items accepts the other decides over the merge: there are
/// genuine items of which the first accepts the second, and not the second
/// the first.
pub proof fn lemma_order_matters()
    ensures
        exists|first: ItemModel, second: ItemModel|
            genuine(first) && genuine(second) && #[trigger] merge_outcome(first, second) is Ok
                && merge_outcome(second, first) is Err,
{
    let thorns = Enchantment { name: EnchantTypes::Thorns, max_level: 3, item_mult: 8, book_mult: 4 };
    let plain = primordial(thorns, ItemType::Other);
    let book = primordial(thorns, ItemType::Book);
    vstd::arithmetic::power2::lemma2_to64();
    reveal_with_fuel(cost_below, 17);
    assert(genuine(plain));
    assert(genuine(book));
    assert(plain.enchants[EnchantTypes::Thorns].raised_by(1) == Some(2nat));
    assert forall|k: EnchantTypes| !redundant_at(plain.enchants, book.enchants, k) by {}
    assert(entry_cost(plain.enchants, book.enchants, ItemType::Book, EnchantTypes::Thorns) == 8);
    assert(step_cost(plain, book) == 8);
    let raised = merge_outcome(plain, book).unwrap();
    assert(genuine(raised));
    assert(raised.enchants[EnchantTypes::Thorns].level == 2);
    assert(plain.enchants[EnchantTypes::Thorns].raised_by(2) == Some(2nat));
    assert forall|k: EnchantTypes| !redundant_at(plain.enchants, raised.enchants, k) by {}
    assert(entry_cost(plain.enchants, raised.enchants, ItemType::Other, EnchantTypes::Thorns) == 16);
    assert(step_cost(plain, raised) == 17);
    assert(merge_outcome(plain, raised) is Ok);
    assert(redundant_at(raised.enchants, plain.enchants, EnchantTypes::Thorns));
    assert(merge_outcome(raised, plain) is Err);
}

/// An enchanted item together with the merges that made it.
#[derive(Debug)]
pub struct Item {
    enchants: Enchants,
    kind: ItemType,
    recipe: Option<(Box<Item>, Box<Item>)>,
    anvil_uses: u32,
    pub total_cost: u32,
    cost: u32,
}

impl View for Item {
    type V = ItemModel;

    closed spec fn view(&self) -> ItemModel {
        self.model()
    }
}

impl Item {
    /// What the item stands for, its recipe included.
    spec fn model(&self) -> ItemModel
        decreases self,
    {
        ItemModel {
            enchants: self.enchants@,
            kind: self.kind,
            anvil_uses: self.anvil_uses as nat,
            total_cost: self.total_cost as nat,
            cost: self.cost as nat,
            recipe: match self.recipe {
                None => None,
                Some((acceptor, donor)) => Some((Box::new(acceptor.model()), Box::new(donor.model()))),
            },
        }
    }

    /// The set of enchantments is stored as it should be.
    pub closed spec fn stored(&self) -> bool {
        self.enchants.wf()
    }

    /// The item is stored as it should be and stands for a genuine item.
    pub open spec fn wf(&self) -> bool {
        &&& self.stored()
        &&& genuine(self@)
    }

    /// A fresh item of the given kind: the enchantment at level one, no history.
    pub fn from_enchantment(enchantment: Enchantment, kind: ItemType) -> (r: Self)
        requires
            enchantment.wf(),
        ensures
            r.wf(),
            r@ == primordial(enchantment, kind),
    {
        let mut single: Vec<Enchant> = Vec::new();
        single.push(Enchant::new(enchantment, 1));
        let enchants = Enchants::new(single);
        proof {
            let levels = levels_of(single@);
            assert(levels.len() == 1);
            assert(levels.last() == EnchantLevel { definition: enchantment, level: 1 });
            assert(collected(levels.drop_last()) == LevelMap::empty());
            assert(enchants@ =~= map![enchantment.name => EnchantLevel { definition: enchantment, level: 1 }]);
        }
        Self { enchants, kind, recipe: None, anvil_uses: 0, total_cost: 0, cost: 0 }
    }

    /// Merges the sacrifice into this item. A redundant sacrifice fails first,
    /// then a step whose cost is above the ceiling; else the new item holds the
    /// merged set and both items as its recipe. The count of uses follows the
    /// sacrifice alone: that of this item plays no part in it.
    pub fn combine(self, sacrifice: Self) -> (r: Result<Self, AnvilError>)
        requires
            self.wf(),
            sacrifice.wf(),
        ensures
            match r {
                Ok(item) => item.wf() && merge_outcome(self@, sacrifice@) == Ok::<
                    ItemModel,
                    AnvilError,
                >(item@),
                Err(e) => merge_outcome(self@, sacrifice@) == Err::<ItemModel, AnvilError>(e),
            },
    {
        proof {
            lemma_genuine_within_bounds(self@);
            lemma_genuine_within_bounds(sacrifice@);
            vstd::arithmetic::power2::lemma2_to64();
            if self.anvil_uses < 6 {
                vstd::arithmetic::power2::lemma_pow2_strictly_increases(self.anvil_uses as nat, 6);
            }
            if sacrifice.anvil_uses < 6 {
                vstd::arithmetic::power2::lemma_pow2_strictly_increases(sacrifice.anvil_uses as nat, 6);
            }
        }
        let quoted = match self.enchants.quote(&sacrifice.enchants, sacrifice.kind) {
            Ok(quoted) => quoted,
            Err(e) => {
                return Err(e);
            },
        };
        if quoted > CEILING as u128 {
            return Err(AnvilError::TooExpensive);
        }
        let mut cost = quoted as u32;

        cost += penalty(self.anvil_uses);
        cost += penalty(sacrifice.anvil_uses);

        if cost > CEILING {
            return Err(AnvilError::TooExpensive);
        }
        let mut enchants = self.enchants.clone();
        enchants.absorb(&sacrifice.enchants);

        Ok(
            Self {
                enchants,
                kind: self.kind,
                anvil_uses: sacrifice.anvil_uses + 1,
                total_cost: self.total_cost + cost,
                recipe: Some((Box::new(self), Box::new(sacrifice))),
                cost,
            },
        )
    }

    /// The enchantments that the item holds.
    pub fn enchants(&self) -> (r: &Enchants)
        ensures
            r@ == self@.enchants,
            self.wf() ==> r.wf(),
    {
        &self.enchants
    }

    /// What the item has accumulated.
    pub fn total_cost(&self) -> (r: u32)
        ensures
            r == self@.total_cost,
    {
        self.total_cost
    }

    /// How many merges the line of the item went through.
    pub fn anvil_uses(&self) -> (r: u32)
        ensures
            r == self@.anvil_uses,
    {
        self.anvil_uses
    }

    /// The cost of the step that made the item, zero for an item without a recipe.
    pub fn cost(&self) -> (r: u32)
        ensures
            r == self@.cost,
    {
        self.cost
    }

    /// The acceptor and the donor that the item was made of, if it was merged.
    pub fn recipe(&self) -> (r: Option<(&Item, &Item)>)
        ensures
            match r {
                Some((acceptor, donor)) => self@.recipe == Some(
                    (Box::new(acceptor@), Box::new(donor@)),
                ),
                None => self@.recipe is None,
            },
    {
        match &self.recipe {
            Some((acceptor, donor)) => Some((&**acceptor, &**donor)),
            None => None,
        }
    }
}

impl Clone for Item {
    fn clone(&self) -> (r: Self)
        ensures
            r@ == self@,
            self.wf() ==> r.wf(),
        decreases self,
    {
        Item {
            enchants: self.enchants.clone(),
            kind: self.kind,
            recipe: match &self.recipe {
                Some((acceptor, donor)) => Some(
                    (Box::new((&**acceptor).clone()), Box::new((&**donor).clone())),
                ),
                None => None,
            },
            anvil_uses: self.anvil_uses,
            total_cost: self.total_cost,
            cost: self.cost,
        }
    }
}

} // verus!
