//! Enchantment definitions, enchantment levels and the rules by which two
//! sets of enchantments are merged.
use std::collections::hash_map::Entry;
use std::collections::HashMap;
use vstd::prelude::*;
use vstd::std_specs::hash::spec_hash_map_len;
use vstd::std_specs::iter::IteratorSpec;

verus! {

/// The closed family of enchantment names.
#[derive(Debug, PartialEq, Eq, Hash, Clone, Copy)]
pub enum EnchantTypes {
    AquaAffinity,
    BlastProtection,
    CurseOfBinding,
    CurseOfVanishing,
    DepthStrider,
    FeatherFalling,
    FireProtection,
    FrostWalker,
    Mending,
    ProjectileProtection,
    Protection,
    Respiration,
    SoulSpeed,
    SwiftSneak,
    Thorns,
    Unbreaking,
}

/// How many enchantment names there are.
pub const KINDS: u8 = 16;

impl EnchantTypes {
    /// The position of a name in the declaration order of the family.
    pub open spec fn index(self) -> u8 {
        match self {
            EnchantTypes::AquaAffinity => 0,
            EnchantTypes::BlastProtection => 1,
            EnchantTypes::CurseOfBinding => 2,
            EnchantTypes::CurseOfVanishing => 3,
            EnchantTypes::DepthStrider => 4,
            EnchantTypes::FeatherFalling => 5,
            EnchantTypes::FireProtection => 6,
            EnchantTypes::FrostWalker => 7,
            EnchantTypes::Mending => 8,
            EnchantTypes::ProjectileProtection => 9,
            EnchantTypes::Protection => 10,
            EnchantTypes::Respiration => 11,
            EnchantTypes::SoulSpeed => 12,
            EnchantTypes::SwiftSneak => 13,
            EnchantTypes::Thorns => 14,
            EnchantTypes::Unbreaking => 15,
        }
    }

    /// The name at a position; positions past the end give the last name.
    pub open spec fn at(i: int) -> EnchantTypes {
        if i <= 0 {
            EnchantTypes::AquaAffinity
        } else if i == 1 {
            EnchantTypes::BlastProtection
        } else if i == 2 {
            EnchantTypes::CurseOfBinding
        } else if i == 3 {
            EnchantTypes::CurseOfVanishing
        } else if i == 4 {
            EnchantTypes::DepthStrider
        } else if i == 5 {
            EnchantTypes::FeatherFalling
        } else if i == 6 {
            EnchantTypes::FireProtection
        } else if i == 7 {
            EnchantTypes::FrostWalker
        } else if i == 8 {
            EnchantTypes::Mending
        } else if i == 9 {
            EnchantTypes::ProjectileProtection
        } else if i == 10 {
            EnchantTypes::Protection
        } else if i == 11 {
            EnchantTypes::Respiration
        } else if i == 12 {
            EnchantTypes::SoulSpeed
        } else if i == 13 {
            EnchantTypes::SwiftSneak
        } else if i == 14 {
            EnchantTypes::Thorns
        } else {
            EnchantTypes::Unbreaking
        }
    }

    /// `index` and `at` are inverse to each other on the sixteen positions.
    pub proof fn lemma_index_at()
        ensures
            forall|k: EnchantTypes| #[trigger] k.index() < KINDS && EnchantTypes::at(k.index() as int) == k,
            forall|i: int| 0 <= i < KINDS ==> (#[trigger] EnchantTypes::at(i)).index() == i,
    {
    }

    /// The position of this name, as the key under which a set stores it.
    pub(crate) fn key(self) -> (k: u8)
        ensures
            k == self.index(),
    {
        match self {
            EnchantTypes::AquaAffinity => 0,
            EnchantTypes::BlastProtection => 1,
            EnchantTypes::CurseOfBinding => 2,
            EnchantTypes::CurseOfVanishing => 3,
            EnchantTypes::DepthStrider => 4,
            EnchantTypes::FeatherFalling => 5,
            EnchantTypes::FireProtection => 6,
            EnchantTypes::FrostWalker => 7,
            EnchantTypes::Mending => 8,
            EnchantTypes::ProjectileProtection => 9,
            EnchantTypes::Protection => 10,
            EnchantTypes::Respiration => 11,
            EnchantTypes::SoulSpeed => 12,
            EnchantTypes::SwiftSneak => 13,
            EnchantTypes::Thorns => 14,
            EnchantTypes::Unbreaking => 15,
        }
    }
}

/// Which multiplier an item brings to a merge in which it is the donor.
#[derive(Debug, Clone, Copy, Default)]
pub enum ItemType {
    #[default]
    Other,
    Book,
}

/// Why a merge produced nothing.
#[derive(Debug, PartialEq, Eq)]
pub enum AnvilError {
    /// The donor adds nothing to the acceptor, or both are at the cap.
    RedundantSequence,
    /// The cost of the single step is above the anvil's ceiling.
    TooExpensive,
}

/// The definition of one enchantment: its name, level cap and multipliers.
#[derive(Debug, PartialEq, Eq, Clone, Copy)]
pub struct Enchantment {
    pub name: EnchantTypes,
    pub max_level: u32,
    pub item_mult: u32,
    pub book_mult: u32,
}

impl Enchantment {
    /// A definition is well formed when its cap and both multipliers are positive.
    pub open spec fn wf(self) -> bool {
        &&& self.max_level >= 1
        &&& self.item_mult >= 1
        &&& self.book_mult >= 1
    }

    /// The multiplier that applies to a donor of the given kind.
    pub open spec fn multiplier(self, kind: ItemType) -> nat {
        match kind {
            ItemType::Other => self.item_mult as nat,
            ItemType::Book => self.book_mult as nat,
        }
    }

    /// The cost of bringing an enchantment to `levels` from a donor of the given kind.
    pub open spec fn score(self, kind: ItemType, levels: nat) -> nat {
        levels * self.multiplier(kind)
    }

    /// The definition with the given name, cap and multipliers.
    pub fn new(name: EnchantTypes, max_level: u32, item_mult: u32, book_mult: u32) -> (r: Self)
        ensures
            r == (Enchantment { name, max_level, item_mult, book_mult }),
    {
        Self { name, max_level, item_mult, book_mult }
    }

    /// The score of `levels` from a donor of the given kind, where it fits.
    pub fn calculate_score(&self, kind: ItemType, levels: u32) -> (cost: u32)
        requires
            self.score(kind, levels as nat) <= u32::MAX,
        ensures
            cost == self.score(kind, levels as nat),
    {
        let multiplier = match kind {
            ItemType::Other => self.item_mult,
            ItemType::Book => self.book_mult,
        };

        levels * multiplier
    }

    /// The same score in a type wide enough for any level and multiplier.
    fn wide_score(&self, kind: ItemType, levels: u32) -> (cost: u64)
        ensures
            cost == self.score(kind, levels as nat),
    {
        let multiplier = match kind {
            ItemType::Other => self.item_mult,
            ItemType::Book => self.book_mult,
        };
        assert(levels * multiplier <= 0xffff_ffff * 0xffff_ffff) by (nonlinear_arith)
            requires
                levels <= 0xffff_ffff,
                multiplier <= 0xffff_ffff,
        ;
        levels as u64 * multiplier as u64
    }
}

/// What an `Enchant` stands for: a definition together with a level.
pub struct EnchantLevel {
    pub definition: Enchantment,
    pub level: nat,
}

impl EnchantLevel {
    /// The level lies between one and the cap of a well-formed definition.
    pub open spec fn wf(self) -> bool {
        &&& self.definition.wf()
        &&& 1 <= self.level <= self.definition.max_level
    }

    /// The level this enchantment has after a donor of level `donor` was merged
    /// into it, or `None` where the donor adds nothing: a stronger donor
    /// replaces the level, an equal one below the cap raises it by one.
    pub open spec fn raised_by(self, donor: nat) -> Option<nat> {
        if donor > self.level && donor <= self.definition.max_level {
            Some(donor)
        } else if donor == self.level && donor < self.definition.max_level {
            Some(self.level + 1)
        } else {
            None
        }
    }
}

/// One enchantment at one level.
#[derive(Debug, PartialEq, Eq, Clone, Copy)]
pub struct Enchant {
    enchantment: Enchantment,
    level: u32,
}

impl View for Enchant {
    type V = EnchantLevel;

    closed spec fn view(&self) -> EnchantLevel {
        EnchantLevel { definition: self.enchantment, level: self.level as nat }
    }
}

impl Enchant {
    /// The enchantment of a well-formed definition at a level within its cap.
    pub fn new(enchantment: Enchantment, level: u32) -> (r: Self)
        requires
            enchantment.wf(),
            1 <= level <= enchantment.max_level,
        ensures
            r@ == (EnchantLevel { definition: enchantment, level: level as nat }),
    {
        Self { enchantment, level }
    }

    /// The definition of this enchantment.
    pub fn enchantment(&self) -> (r: Enchantment)
        ensures
            r == self@.definition,
    {
        self.enchantment
    }

    /// The level of this enchantment.
    pub fn level(&self) -> (r: u32)
        ensures
            r == self@.level,
    {
        self.level
    }

    /// This enchantment after a donor of the given level went in, if the donor
    /// adds anything.
    fn raised(&self, level: u32) -> (r: Option<Enchant>)
        ensures
            match self@.raised_by(level as nat) {
                Some(l) => r matches Some(e) && e@ == (EnchantLevel {
                    definition: self@.definition,
                    level: l,
                }),
                None => r is None,
            },
    {
        if level > self.level && level <= self.enchantment.max_level {
            Some(Enchant { enchantment: self.enchantment, level })
        } else if level == self.level && level < self.enchantment.max_level {
            Some(Enchant { enchantment: self.enchantment, level: self.level + 1 })
        } else {
            None
        }
    }

    /// Merges a donor of the given kind and level into this enchantment and
    /// returns what the step costs. A redundant donor leaves it untouched.
    pub fn combine(&mut self, kind: ItemType, level: u32) -> (r: Result<u32, AnvilError>)
        requires
            old(self)@.wf(),
            old(self)@.raised_by(level as nat) matches Some(l) ==> old(self)@.definition.score(
                kind,
                l,
            ) <= u32::MAX,
        ensures
            final(self)@.wf(),
            match old(self)@.raised_by(level as nat) {
                Some(l) => {
                    &&& final(self)@ == (EnchantLevel { definition: old(self)@.definition, level: l })
                    &&& r == Ok::<u32, AnvilError>(old(self)@.definition.score(kind, l) as u32)
                },
                None => {
                    &&& final(self)@ == old(self)@
                    &&& r == Err::<u32, AnvilError>(AnvilError::RedundantSequence)
                },
            },
    {
        if level > self.level && level <= self.enchantment.max_level {
            self.level = level;
        } else if level == self.level && level < self.enchantment.max_level {
            self.level += 1;
        } else {
            return Err(AnvilError::RedundantSequence);
        }

        Ok(self.enchantment.calculate_score(kind, self.level))
    }
}

/// What a set of enchantments stands for: at most one level per name.
pub type LevelMap = Map<EnchantTypes, EnchantLevel>;

/// Every entry is well formed and stored under the name of its own definition.
pub open spec fn valid_set(m: LevelMap) -> bool {
    forall|k: EnchantTypes| #[trigger]
        m.contains_key(k) ==> m[k].wf() && m[k].definition.name == k
}

/// The donor holds `k` at a level that adds nothing to what the acceptor holds.
pub open spec fn redundant_at(acceptor: LevelMap, donor: LevelMap, k: EnchantTypes) -> bool {
    &&& donor.contains_key(k)
    &&& acceptor.contains_key(k)
    &&& acceptor[k].raised_by(donor[k].level) is None
}

/// Some enchantment of the donor adds nothing to the acceptor.
pub open spec fn redundant(acceptor: LevelMap, donor: LevelMap) -> bool {
    exists|k: EnchantTypes| redundant_at(acceptor, donor, k)
}

/// What the acceptor holds under `k` once the donor's entry for `k` went in:
/// the donor's entry where the acceptor had none, else the acceptor's entry at
/// its raised level.
pub open spec fn merged_entry(acceptor: LevelMap, donor: LevelMap, k: EnchantTypes) -> EnchantLevel {
    if acceptor.contains_key(k) {
        EnchantLevel {
            definition: acceptor[k].definition,
            level: acceptor[k].raised_by(donor[k].level).unwrap(),
        }
    } else {
        donor[k]
    }
}

/// The acceptor after the whole donor went in.
pub open spec fn merged(acceptor: LevelMap, donor: LevelMap) -> LevelMap {
    Map::new(
        |k: EnchantTypes| acceptor.contains_key(k) || donor.contains_key(k),
        |k: EnchantTypes|
            if donor.contains_key(k) {
                merged_entry(acceptor, donor, k)
            } else {
                acceptor[k]
            },
    )
}

/// What the donor's entry for `k` adds to the cost of the merge: nothing
/// where the donor has no such entry, else the score of the merged entry.
pub open spec fn entry_cost(acceptor: LevelMap, donor: LevelMap, kind: ItemType, k: EnchantTypes) -> nat {
    if donor.contains_key(k) && !redundant_at(acceptor, donor, k) {
        let entry = merged_entry(acceptor, donor, k);
        entry.definition.score(kind, entry.level)
    } else {
        0
    }
}

/// The sum of `entry_cost` over the first `n` names.
pub open spec fn cost_below(acceptor: LevelMap, donor: LevelMap, kind: ItemType, n: nat) -> nat
    decreases n,
{
    if n == 0 {
        0
    } else {
        cost_below(acceptor, donor, kind, (n - 1) as nat) + entry_cost(
            acceptor,
            donor,
            kind,
            EnchantTypes::at(n - 1),
        )
    }
}

/// The cost of merging the donor's set into the acceptor's: the sum of
/// `entry_cost` over all names.
pub open spec fn merge_cost(acceptor: LevelMap, donor: LevelMap, kind: ItemType) -> nat {
    cost_below(acceptor, donor, kind, KINDS as nat)
}

/// A donor below the level held adds nothing, nor does one at the level held
/// where that level is the cap.
pub proof fn lemma_redundant_levels(held: EnchantLevel, donor: nat)
    ensures
        donor < held.level ==> held.raised_by(donor) is None,
        donor == held.level && held.level == held.definition.max_level ==> held.raised_by(donor) is None,
{
}

/// One entry of the donor that is below the acceptor's, or level with it at
/// the cap, makes the whole donor redundant.
pub proof fn lemma_redundant_entry(acceptor: LevelMap, donor: LevelMap, k: EnchantTypes)
    requires
        acceptor.contains_key(k),
        donor.contains_key(k),
        donor[k].level < acceptor[k].level || (donor[k].level == acceptor[k].level
            && acceptor[k].level == acceptor[k].definition.max_level),
    ensures
        redundant(acceptor, donor),
{
    assert(redundant_at(acceptor, donor, k));
}

/// The level that a set holds under a name, zero where it holds none.
pub open spec fn level_at(m: LevelMap, k: EnchantTypes) -> nat {
    if m.contains_key(k) {
        m[k].level
    } else {
        0
    }
}

/// The sum of the levels that a set holds under the first `n` names.
pub open spec fn levels_below(m: LevelMap, n: nat) -> nat
    decreases n,
{
    if n == 0 {
        0
    } else {
        levels_below(m, (n - 1) as nat) + level_at(m, EnchantTypes::at(n - 1))
    }
}

/// The sum of all levels that a set holds.
pub open spec fn level_sum(m: LevelMap) -> nat {
    levels_below(m, KINDS as nat)
}

/// The set holds an entry under one of the first `n` names.
pub open spec fn holds_below(m: LevelMap, n: nat) -> bool {
    exists|i: int| 0 <= i < n && m.contains_key(#[trigger] EnchantTypes::at(i))
}

/// Merging a donor that is not redundant keeps a valid set valid.
pub proof fn lemma_merged_valid(acceptor: LevelMap, donor: LevelMap)
    requires
        valid_set(acceptor),
        valid_set(donor),
        !redundant(acceptor, donor),
    ensures
        valid_set(merged(acceptor, donor)),
{
    assert forall|k: EnchantTypes| #[trigger] merged(acceptor, donor).contains_key(k) implies merged(
        acceptor,
        donor,
    )[k].wf() && merged(acceptor, donor)[k].definition.name == k by {
        assert(!redundant_at(acceptor, donor, k));
    }
}

/// No level is above what its entry adds to the cost of the merge: every
/// multiplier of a well-formed definition is at least one.
pub proof fn lemma_level_within_entry_cost(
    acceptor: LevelMap,
    donor: LevelMap,
    kind: ItemType,
    k: EnchantTypes,
)
    requires
        valid_set(acceptor),
        valid_set(donor),
        donor.contains_key(k),
        !redundant_at(acceptor, donor, k),
    ensures
        merged_entry(acceptor, donor, k).level <= entry_cost(acceptor, donor, kind, k),
{
    let entry = merged_entry(acceptor, donor, k);
    let factor = entry.definition.multiplier(kind);
    assert(factor >= 1);
    assert(entry.level <= entry.level * factor) by (nonlinear_arith)
        requires
            factor >= 1,
    ;
}

/// No entry adds more to the cost than the sum that it is part of.
pub proof fn lemma_entry_cost_within_sum(
    acceptor: LevelMap,
    donor: LevelMap,
    kind: ItemType,
    k: EnchantTypes,
    n: nat,
)
    requires
        k.index() < n <= KINDS,
    ensures
        entry_cost(acceptor, donor, kind, k) <= cost_below(acceptor, donor, kind, n),
    decreases n,
{
    EnchantTypes::lemma_index_at();
    if k.index() < n - 1 {
        lemma_entry_cost_within_sum(acceptor, donor, kind, k, (n - 1) as nat);
    }
}

/// A merge lowers no level, and raises the level under every name of the donor.
pub proof fn lemma_merged_levels_grow(acceptor: LevelMap, donor: LevelMap, n: nat)
    requires
        valid_set(acceptor),
        valid_set(donor),
        !redundant(acceptor, donor),
        n <= KINDS,
    ensures
        levels_below(merged(acceptor, donor), n) >= levels_below(acceptor, n) + if holds_below(
            donor,
            n,
        ) {
            1nat
        } else {
            0nat
        },
    decreases n,
{
    if n > 0 {
        let k = EnchantTypes::at(n - 1);
        lemma_merged_levels_grow(acceptor, donor, (n - 1) as nat);
        assert(!redundant_at(acceptor, donor, k));
        if holds_below(donor, n) && !holds_below(donor, (n - 1) as nat) {
            let i = choose|i: int| 0 <= i < n && donor.contains_key(#[trigger] EnchantTypes::at(i));
            assert(i == n - 1);
        }
    }
}

/// Where no level is above `bound`, the sum over `n` names is at most `n` times `bound`.
pub proof fn lemma_levels_below_bound(m: LevelMap, bound: nat, n: nat)
    requires
        forall|k: EnchantTypes| #[trigger] m.contains_key(k) ==> m[k].level <= bound,
    ensures
        levels_below(m, n) <= n * bound,
    decreases n,
{
    if n > 0 {
        lemma_levels_below_bound(m, bound, (n - 1) as nat);
        assert(m.contains_key(EnchantTypes::at(n - 1)) ==> m[EnchantTypes::at(n - 1)].level <= bound);
        assert((n - 1) * bound + bound == n * bound) by (nonlinear_arith);
    }
}

/// The set that results from inserting the entries one after the other, each
/// under the name of its definition: of two entries with one name the later stays.
pub open spec fn collected(entries: Seq<EnchantLevel>) -> LevelMap
    decreases entries.len(),
{
    if entries.len() == 0 {
        Map::empty()
    } else {
        collected(entries.drop_last()).insert(entries.last().definition.name, entries.last())
    }
}

/// The levels that a sequence of enchantments stands for.
pub open spec fn levels_of(enchants: Seq<Enchant>) -> Seq<EnchantLevel> {
    enchants.map_values(|e: Enchant| e@)
}

/// A set of enchantments, at most one per name.
#[derive(Debug, PartialEq, Eq, Default)]
pub struct Enchants {
    inclusive: HashMap<u8, Enchant>,
}

impl View for Enchants {
    type V = LevelMap;

    closed spec fn view(&self) -> LevelMap {
        Map::new(
            |k: EnchantTypes| self.inclusive@.contains_key(k.index()),
            |k: EnchantTypes| self.inclusive@[k.index()]@,
        )
    }
}

impl Enchants {
    /// Each entry is stored under the position of its own name.
    pub closed spec fn keyed(&self) -> bool {
        forall|c: u8| #[trigger]
            self.inclusive@.contains_key(c) ==> self.inclusive@[c]@.definition.name.index() == c
    }

    /// The set is stored as it should be and holds well-formed entries only.
    pub open spec fn wf(&self) -> bool {
        &&& self.keyed()
        &&& valid_set(self@)
    }

    /// The set of the given enchantments. Of two with one name the later stays.
    pub fn new(enchants: Vec<Enchant>) -> (r: Self)
        requires
            forall|i: int| 0 <= i < enchants.len() ==> (#[trigger] enchants[i])@.wf(),
        ensures
            r.wf(),
            r@ == collected(levels_of(enchants@)),
    {
        let mut inclusive: HashMap<u8, Enchant> = HashMap::new();
        let mut i: usize = 0;
        while i < enchants.len()
            invariant
                i <= enchants.len(),
                forall|j: int| 0 <= j < enchants.len() ==> (#[trigger] enchants[j])@.wf(),
                (Enchants { inclusive }).wf(),
                (Enchants { inclusive })@ == collected(levels_of(enchants@).take(i as int)),
            decreases enchants.len() - i,
        {
            let e = enchants[i];
            let ghost before = Enchants { inclusive };
            inclusive.insert(e.enchantment.name.key(), e);
            proof {
                let all = levels_of(enchants@);
                assert(all.take(i + 1).drop_last() == all.take(i as int));
                assert(all.take(i + 1).last() == e@);
                EnchantTypes::lemma_index_at();
                assert((Enchants { inclusive })@ =~= before@.insert(e@.definition.name, e@));
            }
            i += 1;
        }
        proof {
            assert(levels_of(enchants@).take(enchants.len() as int) == levels_of(enchants@));
        }
        Self { inclusive }
    }

    /// The entry stored under a name, if there is one.
    pub fn get(&self, name: EnchantTypes) -> (r: Option<Enchant>)
        ensures
            match r {
                Some(e) => self@.contains_key(name) && e@ == self@[name],
                None => !self@.contains_key(name),
            },
    {
        match self.inclusive.get(&name.key()) {
            Some(e) => Some(*e),
            None => None,
        }
    }

    /// What merging the donor's set into this one would cost, without doing
    /// it; the error where some entry of the donor is redundant.
    pub fn quote(&self, donor: &Self, kind: ItemType) -> (r: Result<u128, AnvilError>)
        requires
            self.wf(),
            donor.wf(),
        ensures
            match r {
                Ok(cost) => !redundant(self@, donor@) && cost == merge_cost(self@, donor@, kind),
                Err(e) => e == AnvilError::RedundantSequence && redundant(self@, donor@),
            },
    {
        let mut cost: u128 = 0;
        let entries = donor.inclusive.iter();
        let ghost listing = entries.remaining();
        proof {
            lemma_listing(&donor.inclusive, listing);
            assert(spec_hash_map_len(&donor.inclusive) == donor.inclusive@.len());
            assert(cost_within(self@, donor@, kind, picked(listing, 0), KINDS as nat) == 0) by {
                lemma_cost_within_none(self@, donor@, kind, picked(listing, 0), KINDS as nat);
            }
        }
        for entry in it: entries
            invariant
                self.wf(),
                donor.wf(),
                it.seq() == listing,
                listing_of(&donor.inclusive, listing),
                listing.len() <= usize::MAX,
                cost == cost_within(self@, donor@, kind, picked(listing, it.index()), KINDS as nat),
                cost <= it.index() * 0xffff_ffff_ffff_ffff,
                forall|j: int|
                    0 <= j < it.index() ==> !redundant_at(
                        self@,
                        donor@,
                        EnchantTypes::at(*(#[trigger] listing[j]).0 as int),
                    ),
        {
            let (key, theirs) = entry;
            let ghost name = EnchantTypes::at(*key as int);
            proof {
                EnchantTypes::lemma_index_at();
                lemma_picked_next(listing, it.index());
                lemma_cost_within_insert(
                    self@,
                    donor@,
                    kind,
                    picked(listing, it.index()),
                    *key,
                    KINDS as nat,
                );
                assert(donor@.contains_key(name) && donor@[name] == theirs@);
            }
            let step = match self.inclusive.get(key) {
                Some(mine) => {
                    assert(self@.contains_key(name) && self@[name] == mine@);
                    match mine.raised(theirs.level) {
                        Some(raised) => raised.enchantment.wide_score(kind, raised.level),
                        None => {
                            assert(redundant_at(self@, donor@, name));
                            return Err(AnvilError::RedundantSequence);
                        },
                    }
                },
                None => {
                    assert(!self@.contains_key(name));
                    theirs.enchantment.wide_score(kind, theirs.level)
                },
            };
            assert(step == entry_cost(self@, donor@, kind, name));
            cost += step as u128;
        }
        proof {
            EnchantTypes::lemma_index_at();
            assert forall|k: EnchantTypes| !redundant_at(self@, donor@, k) by {
                if donor@.contains_key(k) {
                    let j = choose|j: int| 0 <= j < listing.len() && *(#[trigger] listing[j]).0 == k.index();
                    assert(EnchantTypes::at(*listing[j].0 as int) == k);
                }
            }
            lemma_cost_within_all(self@, donor@, kind, picked(listing, listing.len() as int), KINDS as nat);
        }
        Ok(cost)
    }

    /// Puts every entry of the donor into this set: an entry under a new name
    /// as it is, an entry under a name already held by raising the level held.
    pub fn absorb(&mut self, donor: &Self)
        requires
            old(self).wf(),
            donor.wf(),
            !redundant(old(self)@, donor@),
        ensures
            final(self).wf(),
            final(self)@ == merged(old(self)@, donor@),
    {
        let ghost before = self@;
        let entries = donor.inclusive.iter();
        let ghost listing = entries.remaining();
        proof {
            EnchantTypes::lemma_index_at();
            lemma_listing(&donor.inclusive, listing);
            assert(self@ =~= merged_within(before, donor@, picked(listing, 0)));
        }
        for entry in it: entries
            invariant
                self.wf(),
                donor.wf(),
                valid_set(before),
                !redundant(before, donor@),
                it.seq() == listing,
                listing_of(&donor.inclusive, listing),
                self@ == merged_within(before, donor@, picked(listing, it.index())),
        {
            let (key, theirs) = entry;
            let ghost name = EnchantTypes::at(*key as int);
            let ghost current = *self;
            proof {
                EnchantTypes::lemma_index_at();
                lemma_picked_next(listing, it.index());
                assert(donor@.contains_key(name) && donor@[name] == theirs@);
                assert(!redundant_at(before, donor@, name));
            }
            match self.inclusive.entry(*key) {
                Entry::Occupied(occupied) => {
                    let mine = occupied.into_mut();
                    assert(current@.contains_key(name) && current@[name] == mine@);
                    *mine = mine.raised(theirs.level).unwrap();
                },
                Entry::Vacant(vacant) => {
                    assert(!current@.contains_key(name));
                    vacant.insert(*theirs);
                },
            }
            proof {
                let entry = merged_entry(before, donor@, name);
                assert(self@ =~= current@.insert(name, entry));
                assert(self@ =~= merged_within(before, donor@, picked(listing, it.index() + 1)));
            }
        }
        proof {
            EnchantTypes::lemma_index_at();
            assert forall|k: EnchantTypes| donor@.contains_key(k) implies picked(
                listing,
                listing.len() as int,
            ).contains(k.index()) by {
                let j = choose|j: int| 0 <= j < listing.len() && *(#[trigger] listing[j]).0 == k.index();
            }
            assert(self@ =~= merged(before, donor@));
        }
    }

    /// Merges the donor's set into this one and returns what the merge costs.
    /// Where some entry of the donor is redundant, nothing is merged.
    pub fn combine(&mut self, donor: (&Self, ItemType)) -> (r: Result<u32, AnvilError>)
        requires
            old(self).wf(),
            donor.0.wf(),
            !redundant(old(self)@, donor.0@) ==> merge_cost(old(self)@, donor.0@, donor.1) <= u32::MAX,
        ensures
            final(self).wf(),
            match r {
                Ok(cost) => {
                    &&& !redundant(old(self)@, donor.0@)
                    &&& cost == merge_cost(old(self)@, donor.0@, donor.1)
                    &&& final(self)@ == merged(old(self)@, donor.0@)
                },
                Err(e) => {
                    &&& e == AnvilError::RedundantSequence
                    &&& redundant(old(self)@, donor.0@)
                    &&& final(self)@ == old(self)@
                },
            },
    {
        let (other, kind) = donor;
        match self.quote(other, kind) {
            Ok(cost) => {
                self.absorb(other);
                Ok(cost as u32)
            },
            Err(e) => Err(e),
        }
    }
}

impl Clone for Enchants {
    fn clone(&self) -> (r: Self)
        ensures
            r@ == self@,
            self.wf() ==> r.wf(),
    {
        Enchants { inclusive: self.inclusive.clone() }
    }
}

/// The acceptor after those entries of the donor went in whose position is
/// among `keys`.
spec fn merged_within(acceptor: LevelMap, donor: LevelMap, keys: Set<u8>) -> LevelMap {
    Map::new(
        |k: EnchantTypes| acceptor.contains_key(k) || (donor.contains_key(k) && keys.contains(k.index())),
        |k: EnchantTypes|
            if donor.contains_key(k) && keys.contains(k.index()) {
                merged_entry(acceptor, donor, k)
            } else {
                acceptor[k]
            },
    )
}

/// `listing` holds each entry of `m` once: no key twice, and every key of `m`.
spec fn listing_of(m: &HashMap<u8, Enchant>, listing: Seq<(&u8, &Enchant)>) -> bool {
    &&& forall|i: int|
        0 <= i < listing.len() ==> m@.contains_key(*(#[trigger] listing[i]).0) && m@[*listing[i].0]
            == *listing[i].1
    &&& forall|i: int, j: int|
        0 <= i < j < listing.len() ==> *(#[trigger] listing[i]).0 != *(#[trigger] listing[j]).0
    &&& forall|c: u8|
        m@.contains_key(c) ==> exists|i: int|
            0 <= i < listing.len() && *(#[trigger] listing[i]).0 == c
    &&& listing.len() == m@.dom().len()
}

/// The sequence that iterating over a map goes through is a listing of it.
proof fn lemma_listing(m: &HashMap<u8, Enchant>, listing: Seq<(&u8, &Enchant)>)
    requires
        listing == m.iter().remaining(),
        listing.no_duplicates(),
    ensures
        listing_of(m, listing),
{
    assert forall|i: int, j: int| 0 <= i < j < listing.len() implies *(#[trigger] listing[i]).0
        != *(#[trigger] listing[j]).0 by {
        if *listing[i].0 == *listing[j].0 {
            assert(m@[*listing[i].0] == *listing[i].1);
            assert(m@[*listing[j].0] == *listing[j].1);
            assert(listing[i] == listing[j]);
        }
    }
    assert forall|c: u8| m@.contains_key(c) implies exists|i: int|
        0 <= i < listing.len() && *(#[trigger] listing[i]).0 == c by {
        assert(listing.contains((&c, &m@[c])));
    }
}

/// The keys among the first `n` entries of a listing.
spec fn picked(listing: Seq<(&u8, &Enchant)>, n: int) -> Set<u8> {
    Set::new(|c: u8| exists|i: int| 0 <= i < n && *(#[trigger] listing[i]).0 == c)
}

/// One more entry of a listing adds its key to the picked ones.
proof fn lemma_picked_next(listing: Seq<(&u8, &Enchant)>, n: int)
    requires
        0 <= n < listing.len(),
        forall|i: int, j: int|
            0 <= i < j < listing.len() ==> *(#[trigger] listing[i]).0 != *(#[trigger] listing[j]).0,
    ensures
        picked(listing, n + 1) == picked(listing, n).insert(*listing[n].0),
        !picked(listing, n).contains(*listing[n].0),
{
    assert(picked(listing, n + 1) =~= picked(listing, n).insert(*listing[n].0));
}

/// The sum of `entry_cost` over those of the first `n` names whose position is
/// among `keys`.
spec fn cost_within(acceptor: LevelMap, donor: LevelMap, kind: ItemType, keys: Set<u8>, n: nat) -> nat
    decreases n,
{
    if n == 0 {
        0
    } else {
        cost_within(acceptor, donor, kind, keys, (n - 1) as nat) + if keys.contains((n - 1) as u8) {
            entry_cost(acceptor, donor, kind, EnchantTypes::at(n - 1))
        } else {
            0
        }
    }
}

proof fn lemma_cost_within_none(acceptor: LevelMap, donor: LevelMap, kind: ItemType, keys: Set<u8>, n: nat)
    requires
        n <= KINDS,
        forall|c: u8| c < n ==> !keys.contains(c),
    ensures
        cost_within(acceptor, donor, kind, keys, n) == 0,
    decreases n,
{
    if n > 0 {
        lemma_cost_within_none(acceptor, donor, kind, keys, (n - 1) as nat);
    }
}

proof fn lemma_cost_within_insert(
    acceptor: LevelMap,
    donor: LevelMap,
    kind: ItemType,
    keys: Set<u8>,
    key: u8,
    n: nat,
)
    requires
        n <= KINDS,
        !keys.contains(key),
    ensures
        cost_within(acceptor, donor, kind, keys.insert(key), n) == cost_within(
            acceptor,
            donor,
            kind,
            keys,
            n,
        ) + if key < n {
            entry_cost(acceptor, donor, kind, EnchantTypes::at(key as int))
        } else {
            0
        },
    decreases n,
{
    if n > 0 {
        lemma_cost_within_insert(acceptor, donor, kind, keys, key, (n - 1) as nat);
    }
}

proof fn lemma_cost_within_all(acceptor: LevelMap, donor: LevelMap, kind: ItemType, keys: Set<u8>, n: nat)
    requires
        n <= KINDS,
        forall|c: u8| c < n && donor.contains_key(EnchantTypes::at(c as int)) ==> keys.contains(c),
    ensures
        cost_within(acceptor, donor, kind, keys, n) == cost_below(acceptor, donor, kind, n),
    decreases n,
{
    if n > 0 {
        lemma_cost_within_all(acceptor, donor, kind, keys, (n - 1) as nat);
    }
}

} // verus!
