//! The pool of fresh items that the search draws its arrangements from.
use crate::enchantments::{Enchantment, ItemType};
use crate::items::{primordial, Item, ItemModel};
use crate::search::{all_wf, models_of};
use vstd::arithmetic::power2::{lemma_pow2_pos, lemma_pow2_strictly_increases, lemma_pow2_unfold, pow2};
use vstd::prelude::*;

verus! {

/// `n` fresh items of one definition and kind.
pub open spec fn copies(definition: Enchantment, kind: ItemType, n: nat) -> Seq<ItemModel> {
    Seq::new(n, |i: int| primordial(definition, kind))
}

/// What one definition adds to the pool: as many plain items as its cap
/// says, then two to the power of its cap books.
pub open spec fn pool_of(definition: Enchantment) -> Seq<ItemModel> {
    copies(definition, ItemType::Other, definition.max_level as nat) + copies(
        definition,
        ItemType::Book,
        pow2(definition.max_level as nat),
    )
}

/// The pool for a sequence of definitions: what each of them adds, in their order.
pub open spec fn pool_for(definitions: Seq<Enchantment>) -> Seq<ItemModel>
    decreases definitions.len(),
{
    if definitions.len() == 0 {
        Seq::empty()
    } else {
        pool_for(definitions.drop_last()) + pool_of(definitions.last())
    }
}

/// The size of the full space for a sequence of definitions: for each of
/// them two to the power of its cap, once for either kind.
pub open spec fn full_space(definitions: Seq<Enchantment>) -> nat
    decreases definitions.len(),
{
    if definitions.len() == 0 {
        0
    } else {
        full_space(definitions.drop_last()) + 2 * pow2(definitions.last().max_level as nat)
    }
}

/// The pool for more definitions is no shorter.
pub proof fn lemma_pool_grows(definitions: Seq<Enchantment>, n: int)
    requires
        0 <= n <= definitions.len(),
    ensures
        pool_for(definitions.take(n)).len() <= pool_for(definitions).len(),
    decreases definitions.len(),
{
    if n < definitions.len() {
        lemma_pool_grows(definitions.drop_last(), n);
        assert(definitions.drop_last().take(n) == definitions.take(n));
    } else {
        assert(definitions.take(n) == definitions);
    }
}

/// The full space for more definitions is no smaller.
pub proof fn lemma_full_space_grows(definitions: Seq<Enchantment>, n: int)
    requires
        0 <= n <= definitions.len(),
    ensures
        full_space(definitions.take(n)) <= full_space(definitions),
    decreases definitions.len(),
{
    if n < definitions.len() {
        lemma_full_space_grows(definitions.drop_last(), n);
        assert(definitions.drop_last().take(n) == definitions.take(n));
    } else {
        assert(definitions.take(n) == definitions);
    }
}

/// Two to the power of `exponent`.
fn power_of_two(exponent: u32) -> (r: usize)
    requires
        pow2(exponent as nat) <= usize::MAX,
    ensures
        r == pow2(exponent as nat),
{
    let mut r: usize = 1;
    let mut done: u32 = 0;
    proof {
        vstd::arithmetic::power2::lemma2_to64();
    }
    while done < exponent
        invariant
            done <= exponent,
            r == pow2(done as nat),
            pow2(exponent as nat) <= usize::MAX,
        decreases exponent - done,
    {
        proof {
            lemma_pow2_unfold((done + 1) as nat);
            if done + 1 < exponent {
                lemma_pow2_strictly_increases((done + 1) as nat, exponent as nat);
            }
        }
        r = r * 2;
        done += 1;
    }
    r
}

/// Adds `count` fresh items of one definition and kind to the pool.
fn add_copies(pool: &mut Vec<Item>, definition: Enchantment, kind: ItemType, count: usize)
    requires
        definition.wf(),
        all_wf(old(pool)@),
    ensures
        all_wf(final(pool)@),
        models_of(final(pool)@) == models_of(old(pool)@) + copies(definition, kind, count as nat),
{
    let ghost before = models_of(pool@);
    let mut made: usize = 0;
    assert(before + copies(definition, kind, 0) =~= before);
    while made < count
        invariant
            made <= count,
            definition.wf(),
            all_wf(pool@),
            models_of(pool@) == before + copies(definition, kind, made as nat),
        decreases count - made,
    {
        let ghost held = pool@;
        let item = Item::from_enchantment(definition, kind);
        pool.push(item);
        proof {
            assert(models_of(pool@) =~= models_of(held).push(item@));
            assert(copies(definition, kind, (made + 1) as nat) =~= copies(
                definition,
                kind,
                made as nat,
            ).push(primordial(definition, kind)));
            assert(models_of(pool@) =~= before + copies(definition, kind, (made + 1) as nat));
        }
        made += 1;
    }
}

/// Adds what one definition adds to the pool.
fn add_definition(pool: &mut Vec<Item>, definition: Enchantment)
    requires
        definition.wf(),
        all_wf(old(pool)@),
        pow2(definition.max_level as nat) <= usize::MAX,
    ensures
        all_wf(final(pool)@),
        models_of(final(pool)@) == models_of(old(pool)@) + pool_of(definition),
{
    let ghost before = models_of(pool@);
    add_copies(pool, definition, ItemType::Other, definition.max_level as usize);
    add_copies(pool, definition, ItemType::Book, power_of_two(definition.max_level));
    assert(models_of(pool@) =~= before + pool_of(definition));
}

/// Builds the pool for the inclusive definitions followed by the slot
/// definition: for each of them its plain items, then its books.
pub fn primordial_pool(inclusive: &Vec<Enchantment>, slot: Enchantment) -> (pool: Vec<Item>)
    requires
        forall|i: int| 0 <= i < inclusive.len() ==> (#[trigger] inclusive[i]).wf(),
        slot.wf(),
        pool_for(inclusive@.push(slot)).len() <= usize::MAX,
    ensures
        all_wf(pool@),
        models_of(pool@) == pool_for(inclusive@.push(slot)),
{
    let ghost definitions = inclusive@.push(slot);
    let mut pool: Vec<Item> = Vec::new();
    let mut place: usize = 0;
    assert(models_of(pool@) =~= pool_for(definitions.take(0)));
    while place < inclusive.len()
        invariant
            place <= inclusive.len(),
            definitions == inclusive@.push(slot),
            forall|i: int| 0 <= i < inclusive.len() ==> (#[trigger] inclusive[i]).wf(),
            pool_for(definitions).len() <= usize::MAX,
            all_wf(pool@),
            models_of(pool@) == pool_for(definitions.take(place as int)),
        decreases inclusive.len() - place,
    {
        let definition = inclusive[place];
        proof {
            lemma_pool_grows(definitions, place + 1);
            assert(definitions.take(place + 1).drop_last() == definitions.take(place as int));
            assert(definitions.take(place + 1).last() == definition);
        }
        add_definition(&mut pool, definition);
        place += 1;
    }
    proof {
        lemma_pool_grows(definitions, definitions.len() as int);
        assert(definitions.take(definitions.len() as int) == definitions);
        assert(definitions.drop_last() == definitions.take(place as int));
        assert(definitions.last() == slot);
    }
    add_definition(&mut pool, slot);
    pool
}

/// The size of the full space for the inclusive definitions followed by the
/// slot definition. It describes the space and plays no part in the search.
pub fn full_space_size(inclusive: &Vec<Enchantment>, slot: Enchantment) -> (size: usize)
    requires
        full_space(inclusive@.push(slot)) <= usize::MAX,
    ensures
        size == full_space(inclusive@.push(slot)),
{
    let ghost definitions = inclusive@.push(slot);
    let mut size: usize = 0;
    let mut place: usize = 0;
    assert(full_space(definitions.take(0)) == 0);
    while place < inclusive.len()
        invariant
            place <= inclusive.len(),
            definitions == inclusive@.push(slot),
            full_space(definitions) <= usize::MAX,
            size == full_space(definitions.take(place as int)),
        decreases inclusive.len() - place,
    {
        let definition = inclusive[place];
        proof {
            lemma_full_space_grows(definitions, place + 1);
            lemma_pow2_pos(definition.max_level as nat);
            assert(definitions.take(place + 1).drop_last() == definitions.take(place as int));
            assert(definitions.take(place + 1).last() == definition);
        }
        let either = power_of_two(definition.max_level);
        size = size + either + either;
        place += 1;
    }
    proof {
        lemma_pow2_pos(slot.max_level as nat);
        assert(definitions.drop_last() == definitions.take(place as int));
        assert(definitions.last() == slot);
    }
    let either = power_of_two(slot.max_level);
    size + either + either
}

} // verus!
