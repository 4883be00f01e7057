//! The search for the costliest order in which a window of items can be
//! merged: the tournament that reduces one arrangement to a single item, and
//! the choice of the costliest survivor among all arrangements of a pool.
use crate::arrangements::{
    arrangements, is_arrangement, lists_arrangements, next_arrangement, pending,
};
use crate::items::{genuine, lemma_order_matters, merge_outcome, Item, ItemModel};
use vstd::prelude::*;

verus! {

/// What a sequence of items stands for.
pub open spec fn models_of(items: Seq<Item>) -> Seq<ItemModel> {
    items.map_values(|item: Item| item@)
}

/// Every item of the sequence is well formed.
pub open spec fn all_wf(items: Seq<Item>) -> bool {
    forall|i: int| 0 <= i < items.len() ==> (#[trigger] items[i]).wf()
}

/// One round of the tournament: the items are merged in pairs by position,
/// the first of a pair as acceptor, and an item left without partner at the
/// end goes on as it is. One failing merge fails the round.
pub open spec fn round(items: Seq<ItemModel>) -> Option<Seq<ItemModel>>
    decreases items.len(),
{
    if items.len() < 2 {
        Some(items)
    } else {
        match merge_outcome(items[0], items[1]) {
            Err(_) => None,
            Ok(made) => match round(items.skip(2)) {
                None => None,
                Some(rest) => Some(seq![made] + rest),
            },
        }
    }
}

/// The tournament: round after round until one item is left. It has no
/// outcome where a merge fails, nor on no items at all.
pub open spec fn tournament(items: Seq<ItemModel>) -> Option<ItemModel>
    decreases items.len(),
    via tournament_decreases
{
    if items.len() == 0 {
        None
    } else if items.len() == 1 {
        Some(items[0])
    } else {
        match round(items) {
            None => None,
            Some(next) => tournament(next),
        }
    }
}

#[via_fn]
proof fn tournament_decreases(items: Seq<ItemModel>) {
    if items.len() >= 2 {
        lemma_round_len(items);
    }
}

/// A round halves the number of items, rounding up.
pub proof fn lemma_round_len(items: Seq<ItemModel>)
    ensures
        round(items) matches Some(next) ==> next.len() == (items.len() + 1) / 2,
    decreases items.len(),
{
    if items.len() >= 2 {
        lemma_round_len(items.skip(2));
    }
}

/// Items that stand for the same give the same outcome, whenever and however
/// often the tournament is played on them.
pub proof fn lemma_outcome_is_determined(first: Seq<Item>, second: Seq<Item>)
    requires
        models_of(first) == models_of(second),
    ensures
        tournament(models_of(first)) == tournament(models_of(second)),
{
}

/// The pairing decides over success: there are two genuine items on which the
/// tournament has an outcome in one order and none in the other.
pub proof fn lemma_pairing_matters()
    ensures
        exists|items: Seq<ItemModel>|
            items.len() == 2 && genuine(items[0]) && genuine(items[1]) && #[trigger] tournament(
                items,
            ) is Some && tournament(items.reverse()) is None,
{
    lemma_order_matters();
    let (first, second) = choose|first: ItemModel, second: ItemModel|
        genuine(first) && genuine(second) && #[trigger] merge_outcome(first, second) is Ok
            && merge_outcome(second, first) is Err;
    let forth = seq![first, second];
    let back = forth.reverse();
    assert(round(forth.skip(2)) == Some(forth.skip(2)));
    lemma_round_len(forth);
    assert(round(forth) is Some);
    assert(tournament(forth) == tournament(round(forth).unwrap()));
    assert(tournament(forth) is Some);
    assert(back[0] == second && back[1] == first);
    assert(round(back) is None);
    assert(tournament(back) is None);
}

/// A round that went through `done` and has `rest` before it.
spec fn round_from(done: Seq<ItemModel>, rest: Seq<ItemModel>) -> Option<Seq<ItemModel>> {
    match round(rest) {
        None => None,
        Some(tail) => Some(done + tail),
    }
}

/// Plays one round of the tournament.
fn play_round(items: Vec<Item>) -> (r: Option<Vec<Item>>)
    requires
        all_wf(items@),
    ensures
        match r {
            Some(next) => all_wf(next@) && round(models_of(items@)) == Some(models_of(next@)),
            None => round(models_of(items@)) is None,
        },
{
    let ghost all = items@;
    let ghost models = models_of(items@);
    let mut next: Vec<Item> = Vec::with_capacity(items.len() / 2 + 1);
    let mut waiting: Option<Item> = None;
    proof {
        assert(models.skip(0) == models);
        assert(models_of(next@) + models == models);
    }
    for item in it: items.into_iter()
        invariant
            it.seq() == all,
            models == models_of(all),
            all_wf(all),
            all_wf(next@),
            match waiting {
                None => round(models) == round_from(models_of(next@), models.skip(it.index())),
                Some(acceptor) => {
                    &&& it.index() >= 1
                    &&& acceptor == all[it.index() - 1]
                    &&& round(models) == round_from(models_of(next@), models.skip(it.index() - 1))
                },
            },
    {
        let ghost done = models_of(next@);
        match waiting {
            None => {
                waiting = Some(item);
            },
            Some(acceptor) => {
                let ghost rest = models.skip(it.index() - 1);
                proof {
                    assert(rest[0] == acceptor@ && rest[1] == item@);
                    assert(rest.skip(2) == models.skip(it.index() + 1));
                }
                match acceptor.combine(item) {
                    Ok(made) => {
                        next.push(made);
                        proof {
                            assert forall|tail: Seq<ItemModel>|
                                done + (seq![made@] + tail) == #[trigger] (models_of(next@) + tail) by {
                                assert(done + (seq![made@] + tail) =~= models_of(next@) + tail);
                            }
                        }
                        waiting = None;
                    },
                    Err(_) => {
                        return None;
                    },
                }
            },
        }
    }
    let ghost done = models_of(next@);
    match waiting {
        Some(last) => {
            proof {
                let rest = models.skip(all.len() - 1);
                assert(rest =~= seq![last@]);
            }
            next.push(last);
            assert(done + seq![last@] =~= models_of(next@));
        },
        None => {
            assert(models.skip(all.len() as int).len() == 0);
            assert(done + models.skip(all.len() as int) =~= done);
        },
    }
    Some(next)
}

/// Reduces the items to one by the tournament, or to nothing where a merge fails.
pub fn evaluate(items: Vec<Item>) -> (r: Option<Item>)
    requires
        items.len() >= 1,
        all_wf(items@),
    ensures
        match r {
            Some(item) => item.wf() && tournament(models_of(items@)) == Some(item@),
            None => tournament(models_of(items@)) is None,
        },
{
    let ghost all = models_of(items@);
    let mut current = items;
    while current.len() != 1
        invariant
            current.len() >= 1,
            all_wf(current@),
            all == models_of(items@),
            tournament(models_of(current@)) == tournament(all),
        decreases current.len(),
    {
        let ghost before = models_of(current@);
        proof {
            lemma_round_len(before);
        }
        match play_round(current) {
            Some(next) => {
                assert(tournament(before) == tournament(models_of(next@)));
                current = next;
            },
            None => {
                assert(tournament(before) is None);
                return None;
            },
        }
    }
    let ghost last = models_of(current@);
    assert(tournament(last) == Some(last[0]));
    current.pop()
}

/// How many items one arrangement holds.
pub const WINDOW: usize = 5;

/// The items of the pool at the positions of an arrangement, in its order.
pub open spec fn arranged(pool: Seq<ItemModel>, positions: Seq<usize>) -> Seq<ItemModel> {
    Seq::new(positions.len(), |i: int| pool[positions[i] as int])
}

/// What the tournament makes of the pool's items at the given positions.
pub open spec fn outcome_at(pool: Seq<ItemModel>, positions: Seq<usize>) -> Option<ItemModel> {
    tournament(arranged(pool, positions))
}

/// Of two items the one that accumulated more; the second where both
/// accumulated the same.
pub fn costlier(first: Item, second: Item) -> (r: Item)
    ensures
        r == if second@.total_cost >= first@.total_cost {
            second
        } else {
            first
        },
{
    if second.total_cost() >= first.total_cost() {
        second
    } else {
        first
    }
}

/// Copies the items of the pool at the given positions, in their order.
pub fn pick(pool: &Vec<Item>, positions: &Vec<usize>) -> (r: Vec<Item>)
    requires
        all_wf(pool@),
        forall|i: int| 0 <= i < positions.len() ==> positions[i] < pool.len(),
    ensures
        all_wf(r@),
        models_of(r@) == arranged(models_of(pool@), positions@),
{
    let mut picked: Vec<Item> = Vec::with_capacity(positions.len());
    let mut i: usize = 0;
    while i < positions.len()
        invariant
            i <= positions.len(),
            all_wf(pool@),
            all_wf(picked@),
            forall|j: int| 0 <= j < positions.len() ==> positions[j] < pool.len(),
            picked.len() == i,
            forall|j: int| 0 <= j < i ==> (#[trigger] picked[j])@ == pool[positions[j] as int]@,
        decreases positions.len() - i,
    {
        picked.push(pool[positions[i]].clone());
        i += 1;
    }
    assert(models_of(picked@) =~= arranged(models_of(pool@), positions@));
    picked
}

/// What the item found so far stands for, if one was found.
pub open spec fn found(best: Option<Item>) -> Option<ItemModel> {
    match best {
        Some(item) => Some(item@),
        None => None,
    }
}

/// `best` is the outcome of one of the given arrangements, and none of them
/// has an outcome that accumulated more.
pub open spec fn costliest_among(
    pool: Seq<ItemModel>,
    listing: Seq<Seq<usize>>,
    best: Option<ItemModel>,
) -> bool {
    match best {
        Some(item) => {
            &&& exists|i: int| 0 <= i < listing.len() && #[trigger] outcome_at(pool, listing[i]) == Some(item)
            &&& forall|i: int|
                0 <= i < listing.len() ==> (#[trigger] outcome_at(pool, listing[i]) matches Some(other)
                    ==> other.total_cost <= item.total_cost)
        },
        None => forall|i: int| 0 <= i < listing.len() ==> #[trigger] outcome_at(pool, listing[i]) is None,
    }
}

/// Goes through every arrangement of a window of the pool's items, reduces
/// each by the tournament, and returns an outcome that accumulated the most;
/// nothing where every arrangement fails.
pub fn costliest_order(pool: &Vec<Item>) -> (best: Option<Item>)
    requires
        all_wf(pool@),
    ensures
        match best {
            Some(item) => {
                &&& item.wf()
                &&& exists|positions: Seq<usize>|
                    is_arrangement(positions, pool.len() as nat, WINDOW as nat) && #[trigger] outcome_at(
                        models_of(pool@),
                        positions,
                    ) == Some(item@)
                &&& forall|positions: Seq<usize>|
                    is_arrangement(positions, pool.len() as nat, WINDOW as nat) ==> (#[trigger] outcome_at(
                        models_of(pool@),
                        positions,
                    ) matches Some(other) ==> other.total_cost <= item@.total_cost)
            },
            None => forall|positions: Seq<usize>|
                is_arrangement(positions, pool.len() as nat, WINDOW as nat) ==> #[trigger] outcome_at(
                    models_of(pool@),
                    positions,
                ) is None,
        },
{
    let ghost models = models_of(pool@);
    let mut enumeration = arrangements(pool.len(), WINDOW);
    let ghost listing = pending(enumeration);
    let ghost mut seen: int = 0;
    let mut best: Option<Item> = None;
    proof {
        assert(listing.skip(0) == listing);
    }
    loop
        invariant
            all_wf(pool@),
            models == models_of(pool@),
            lists_arrangements(listing, pool.len() as nat, WINDOW as nat),
            0 <= seen <= listing.len(),
            pending(enumeration) == listing.skip(seen),
            best matches Some(item) ==> item.wf(),
            costliest_among(
                models,
                listing.take(seen),
                found(best),
            ),
        ensures
            seen == listing.len(),
            best matches Some(item) ==> item.wf(),
            costliest_among(
                models,
                listing,
                found(best),
            ),
        decreases listing.len() - seen,
    {
        let positions = match next_arrangement(&mut enumeration) {
            Some(positions) => positions,
            None => {
                assert(listing.take(seen) == listing);
                break ;
            },
        };
        let ghost earlier = listing.take(seen);
        let ghost now = listing.take(seen + 1);
        proof {
            assert(positions@ == listing[seen]);
            assert(is_arrangement(listing[seen], pool.len() as nat, WINDOW as nat));
            assert(listing.skip(seen).drop_first() == listing.skip(seen + 1));
            assert(now == earlier.push(positions@));
            assert(forall|i: int| 0 <= i < earlier.len() ==> now[i] == earlier[i]);
        }
        let outcome = evaluate(pick(pool, &positions));
        assert(match outcome {
            Some(item) => outcome_at(models, now[seen]) == Some(item@),
            None => outcome_at(models, now[seen]) is None,
        });
        best =
        match outcome {
            Some(candidate) => match best {
                Some(held) => {
                    let ghost witness = choose|i: int|
                        0 <= i < earlier.len() && #[trigger] outcome_at(models, earlier[i]) == Some(held@);
                    assert(outcome_at(models, now[witness]) == Some(held@));
                    Some(costlier(held, candidate))
                },
                None => Some(candidate),
            },
            None => best,
        };
        proof {
            seen = seen + 1;
        }
    }
    proof {
        let found = found(best);
        assert forall|positions: Seq<usize>|
            is_arrangement(positions, pool.len() as nat, WINDOW as nat) implies listing.contains(
            positions,
        ) by {}
        if let Some(item) = found {
            let i = choose|i: int|
                0 <= i < listing.len() && #[trigger] outcome_at(models, listing[i]) == Some(item);
            assert(is_arrangement(listing[i], pool.len() as nat, WINDOW as nat));
        }
    }
    best
}

} // verus!
