//! Unit management logic.

use vstd::prelude::*;
use crate::combat::{spec_arbitrate, spec_remaining, CombatStats};
use crate::hexpos::Pos;

verus! {

pub type UnitID = usize;

/// Owner tag of a unit.
#[derive(Debug, Copy, Clone, PartialEq, Eq, Structural)]
pub enum Player {
    Me,
    NotMe,
}

#[derive(Debug, Copy, Clone, PartialEq, Eq, Structural)]
pub enum UnitType {
    Melee,
    Ranged,
}

impl UnitType {
    /// One letter symbol to represent the unit with on the map.
    pub fn map_symbol(&self) -> (r: char)
        ensures
            r == match *self {
                UnitType::Melee => 'M',
                UnitType::Ranged => 'R',
            },
    {
        match *self {
            UnitType::Melee => 'M',
            UnitType::Ranged => 'R',
        }
    }

    pub fn name(&self) -> (r: &'static str)
        ensures
            r@ == match *self {
                UnitType::Melee => "Melee"@,
                UnitType::Ranged => "Ranged"@,
            },
    {
        match *self {
            UnitType::Melee => "Melee",
            UnitType::Ranged => "Ranged",
        }
    }

    /// Base melee strength of the type.
    pub fn strength(&self) -> (r: u8)
        ensures
            r == spec_type_strength(*self),
    {
        match *self {
            UnitType::Melee => 8,
            UnitType::Ranged => 5,
        }
    }

    /// Base ranged strength of the type; zero for a type that can only
    /// fight in melee.
    pub fn ranged_strength(&self) -> (r: u8)
        ensures
            r == spec_type_ranged_strength(*self),
    {
        match *self {
            UnitType::Melee => 0,
            UnitType::Ranged => 5,
        }
    }

    pub fn movements_per_turn(&self) -> (r: u8)
        ensures
            r == 2,
    {
        2
    }

    /// Bombard range, in cells; zero for a melee-only type.
    pub fn range(&self) -> (r: u8)
        ensures
            r == match *self {
                UnitType::Melee => 0u8,
                UnitType::Ranged => 2u8,
            },
    {
        match *self {
            UnitType::Melee => 0,
            UnitType::Ranged => 2,
        }
    }
}

pub open spec fn spec_type_strength(t: UnitType) -> int {
    match t {
        UnitType::Melee => 8,
        UnitType::Ranged => 5,
    }
}

pub open spec fn spec_type_ranged_strength(t: UnitType) -> int {
    match t {
        UnitType::Melee => 0,
        UnitType::Ranged => 5,
    }
}

/// A unit on a map.
#[derive(Debug, Copy, Clone)]
pub struct Unit {
    /// Unique id of the unit, set when it is added to a `Units` registry.
    pub id: UnitID,
    /// Type of the unit.
    pub type_: UnitType,
    /// Position on the map.
    pub pos: Pos,
    /// Movement points left this turn.
    pub movements: u8,
    /// Hit points left; zero means dead.
    pub hp: u8,
    /// Player the unit belongs to.
    pub owner: Player,
}

/// The same unit with its movement points regenerated for a new turn.
pub open spec fn spec_refreshed(u: Unit) -> Unit {
    Unit { movements: 2, ..u }
}

impl Unit {
    pub fn new(type_: UnitType, owner: Player, pos: Pos) -> (r: Unit)
        ensures
            r == (Unit { id: 0, type_, pos, movements: 0, hp: 100, owner }),
    {
        Unit {
            id: 0,  // set in Units::add_unit()
            type_,
            pos,
            movements: 0,
            hp: 100,
            owner,
        }
    }

    pub fn id(&self) -> (r: UnitID)
        ensures
            r == self.id,
    {
        self.id
    }

    pub fn type_(&self) -> (r: UnitType)
        ensures
            r == self.type_,
    {
        self.type_
    }

    pub fn pos(&self) -> (r: Pos)
        ensures
            r == self.pos,
    {
        self.pos
    }

    pub fn movements(&self) -> (r: u8)
        ensures
            r == self.movements,
    {
        self.movements
    }

    pub fn strength(&self) -> (r: u8)
        ensures
            r == spec_type_strength(self.type_),
    {
        self.type_.strength()
    }

    pub fn hp(&self) -> (r: u8)
        ensures
            r == self.hp,
    {
        self.hp
    }

    pub fn name(&self) -> (r: &'static str)
        ensures
            r@ == match self.type_ {
                UnitType::Melee => "Melee"@,
                UnitType::Ranged => "Ranged"@,
            },
    {
        self.type_.name()
    }

    pub fn owner(&self) -> (r: Player)
        ensures
            r == self.owner,
    {
        self.owner
    }

    /// One letter symbol to represent the unit with on the map; usually
    /// the first letter of the base unit type.
    pub fn map_symbol(&self) -> (r: char)
        ensures
            r == match self.type_ {
                UnitType::Melee => 'M',
                UnitType::Ranged => 'R',
            },
    {
        self.type_.map_symbol()
    }

    /// Whether the unit has exhausted all movement points this turn.
    pub fn is_exhausted(&self) -> (r: bool)
        ensures
            r == (self.movements == 0),
    {
        self.movements == 0
    }

    pub fn is_dead(&self) -> (r: bool)
        ensures
            r == (self.hp == 0),
    {
        self.hp == 0
    }

    /// Moves `self` to the position `target`.
    ///
    /// `cost` is the movement cost of the move, which will be subtracted
    /// from the unit's movements; the deduction never goes below zero.
    pub fn move_to(&mut self, target: Pos, cost: u8)
        ensures
            *final(self) == (Unit {
                pos: target,
                movements: if cost <= old(self).movements {
                    (old(self).movements - cost) as u8
                } else {
                    0u8
                },
                ..*old(self)
            }),
    {
        self.pos = target;
        let deducted = if self.movements < cost {
            self.movements
        } else {
            cost
        };
        self.movements = self.movements - deducted;
    }

    /// Makes the unit fresh for a new turn, that is, regenerates its
    /// movement points.
    pub fn refresh(&mut self)
        ensures
            *final(self) == spec_refreshed(*old(self)),
    {
        self.movements = self.type_.movements_per_turn();
    }
}

/// There is a unit with that id in the sequence.
pub open spec fn has_unit_id(s: Seq<Unit>, id: UnitID) -> bool {
    exists|i: int| 0 <= i < s.len() && s[i].id == id
}

/// The index of the unit with that id.
pub open spec fn index_of_id(s: Seq<Unit>, id: UnitID) -> int {
    choose|i: int| 0 <= i < s.len() && s[i].id == id
}

/// The unit with that id.
pub open spec fn unit_by_id(s: Seq<Unit>, id: UnitID) -> Unit {
    s[index_of_id(s, id)]
}

/// The first live unit sitting at `pos`, in registry order.
pub open spec fn first_live_at(s: Seq<Unit>, pos: Pos) -> Option<Unit>
    decreases s.len(),
{
    if s.len() == 0 {
        None
    } else if s[0].hp != 0 && s[0].pos == pos {
        Some(s[0])
    } else {
        first_live_at(s.skip(1), pos)
    }
}

/// Ids of the live units, in registry order.
pub open spec fn live_ids(s: Seq<Unit>) -> Seq<UnitID>
    decreases s.len(),
{
    if s.len() == 0 {
        Seq::empty()
    } else {
        let rest = live_ids(s.drop_last());
        if s.last().hp != 0 {
            rest.push(s.last().id)
        } else {
            rest
        }
    }
}

/// Ids of the live units of one owner, in registry order.
pub open spec fn owned_live_ids(s: Seq<Unit>, owner: Player) -> Seq<UnitID>
    decreases s.len(),
{
    if s.len() == 0 {
        Seq::empty()
    } else {
        let rest = owned_live_ids(s.drop_last(), owner);
        if s.last().hp != 0 && s.last().owner == owner {
            rest.push(s.last().id)
        } else {
            rest
        }
    }
}

/// A unit that may still be activated this turn: ours, alive, with
/// movement points left.
pub open spec fn spec_activatable(u: Unit) -> bool {
    u.owner == Player::Me && u.hp != 0 && u.movements != 0
}

/// Skipping over units that are not a live match at `pos` does not change
/// which unit `first_live_at` finds.
pub proof fn lemma_first_live_at_skip(s: Seq<Unit>, pos: Pos, i: int)
    requires
        0 <= i <= s.len(),
        forall|j: int| 0 <= j < i ==> !((#[trigger] s[j]).hp != 0 && s[j].pos == pos),
    ensures
        first_live_at(s, pos) == first_live_at(s.skip(i), pos),
    decreases i,
{
    if i > 0 {
        assert(!(s[0].hp != 0 && s[0].pos == pos));
        assert(first_live_at(s, pos) == first_live_at(s.skip(1), pos));
        assert(forall|j: int| 0 <= j < i - 1 ==> #[trigger] s.skip(1)[j] == s[j + 1]);
        lemma_first_live_at_skip(s.skip(1), pos, i - 1);
        assert(s.skip(1).skip(i - 1) =~= s.skip(i));
        assert(first_live_at(s.skip(1).skip(i - 1), pos) == first_live_at(s.skip(i), pos));
    } else {
        assert(s.skip(0) =~= s);
    }
}

/// What `first_live_at` returns is a live element of the sequence at the
/// position; `None` means no live unit sits there.
pub proof fn lemma_first_live_at_mem(s: Seq<Unit>, pos: Pos)
    ensures
        match first_live_at(s, pos) {
            Some(u) => u.hp != 0 && u.pos == pos && exists|i: int| 0 <= i < s.len() && s[i] == u,
            None => forall|i: int| 0 <= i < s.len() ==> !((#[trigger] s[i]).hp != 0 && s[i].pos
                == pos),
        },
    decreases s.len(),
{
    if s.len() == 0 {
    } else if s[0].hp != 0 && s[0].pos == pos {
    } else {
        lemma_first_live_at_mem(s.skip(1), pos);
        match first_live_at(s.skip(1), pos) {
            Some(u) => {
                let i = choose|i: int| 0 <= i < s.skip(1).len() && s.skip(1)[i] == u;
                assert(s[i + 1] == u);
            }
            None => {
                assert(forall|i: int| 1 <= i < s.len() ==> s[i] == s.skip(1)[i - 1]);
            }
        }
    }
}

/// With pairwise distinct ids, the unit found by id at any index is the
/// unit `unit_by_id` denotes.
pub proof fn lemma_unit_by_id(s: Seq<Unit>, i: int)
    requires
        0 <= i < s.len(),
        forall|j: int, k: int| 0 <= j < k < s.len() ==> (#[trigger] s[j]).id != (#[trigger] s[k]).id,
    ensures
        unit_by_id(s, s[i].id) == s[i],
        index_of_id(s, s[i].id) == i,
        has_unit_id(s, s[i].id),
{
    let id = s[i].id;
    assert(has_unit_id(s, id));
    let w = index_of_id(s, id);
    if w < i {
        assert(s[w].id != s[i].id);
    } else if w > i {
        assert(s[i].id != s[w].id);
    }
}

/// The registry of every unit on the map, dead or alive, keyed by unique
/// ids.
pub struct Units {
    maxid: UnitID,
    units: Vec<Unit>,
}

impl Units {
    /// The registered units in registration order.
    pub closed spec fn units_seq(&self) -> Seq<Unit> {
        self.units@
    }

    /// The largest id handed out so far.
    pub closed spec fn spec_max_id(&self) -> UnitID {
        self.maxid
    }

    /// Ids are positive, bounded by the id counter, and pairwise
    /// distinct.
    pub open spec fn wf(&self) -> bool {
        &&& forall|i: int|
            0 <= i < self.units_seq().len() ==> 1 <= (#[trigger] self.units_seq()[i]).id
                <= self.spec_max_id()
        &&& forall|j: int, k: int|
            0 <= j < k < self.units_seq().len() ==> (#[trigger] self.units_seq()[j]).id
                != (#[trigger] self.units_seq()[k]).id
    }

    pub fn new() -> (r: Units)
        ensures
            r.wf(),
            r.units_seq() == Seq::<Unit>::empty(),
            r.spec_max_id() == 0,
    {
        let r = Units { maxid: 0, units: Vec::new() };
        proof {
            assert(r.units_seq() =~= Seq::<Unit>::empty());
        }
        r
    }

    /// Registers `unit`, assigning it the next free id.
    pub fn add_unit(&mut self, unit: Unit)
        requires
            old(self).wf(),
            old(self).spec_max_id() < usize::MAX,
        ensures
            final(self).wf(),
            final(self).spec_max_id() == old(self).spec_max_id() + 1,
            final(self).units_seq() == old(self).units_seq().push(
                Unit { id: (old(self).spec_max_id() + 1) as usize, ..unit },
            ),
    {
        self.maxid = self.maxid + 1;
        let mut unit = unit;
        unit.id = self.maxid;
        self.units.push(unit);
    }

    pub fn max_id(&self) -> (r: UnitID)
        ensures
            r == self.spec_max_id(),
    {
        self.maxid
    }

    /// The id of the first live unit at `pos`, if any.
    pub fn unit_at_pos(&self, pos: Pos) -> (r: Option<UnitID>)
        ensures
            r == match first_live_at(self.units_seq(), pos) {
                Some(u) => Some(u.id),
                None => None::<UnitID>,
            },
    {
        let s = Ghost(self.units_seq());
        let mut i: usize = 0;
        while i < self.units.len()
            invariant
                s@ == self.units_seq(),
                i <= s@.len(),
                forall|j: int| 0 <= j < i ==> !((#[trigger] s@[j]).hp != 0 && s@[j].pos == pos),
            decreases s@.len() - i,
        {
            let u = &self.units[i];
            if u.hp != 0 && u.pos == pos {
                proof {
                    lemma_first_live_at_skip(s@, pos, i as int);
                    assert(s@.skip(i as int)[0] == s@[i as int]);
                }
                return Some(u.id);
            }
            i = i + 1;
        }
        proof {
            lemma_first_live_at_skip(s@, pos, i as int);
            assert(s@.skip(i as int).len() == 0);
        }
        None
    }

    /// The index in registration order of the unit with `unit_id`.
    fn index_of(&self, unit_id: UnitID) -> (i: usize)
        requires
            self.wf(),
            has_unit_id(self.units_seq(), unit_id),
        ensures
            0 <= i < self.units_seq().len(),
            self.units_seq()[i as int].id == unit_id,
            i as int == index_of_id(self.units_seq(), unit_id),
            unit_by_id(self.units_seq(), unit_id) == self.units_seq()[i as int],
    {
        let s = Ghost(self.units_seq());
        let mut i: usize = 0;
        while i < self.units.len()
            invariant
                s@ == self.units_seq(),
                self.wf(),
                has_unit_id(s@, unit_id),
                i <= s@.len(),
                forall|j: int| 0 <= j < i ==> (#[trigger] s@[j]).id != unit_id,
            decreases s@.len() - i,
        {
            if self.units[i].id == unit_id {
                proof {
                    lemma_unit_by_id(s@, i as int);
                }
                return i;
            }
            i = i + 1;
        }
        proof {
            let w = index_of_id(s@, unit_id);
            assert(0 <= w < s@.len() && s@[w].id == unit_id);
            assert(false);
        }
        unreached()
    }

    /// The unit registered under `unit_id`; asking for an unknown id is a
    /// caller error.
    pub fn get(&self, unit_id: UnitID) -> (r: &Unit)
        requires
            self.wf(),
            has_unit_id(self.units_seq(), unit_id),
        ensures
            *r == unit_by_id(self.units_seq(), unit_id),
            r.id == unit_id,
    {
        let i = self.index_of(unit_id);
        &self.units[i]
    }

    /// Mutable access to the unit registered under `unit_id`.
    pub fn get_mut(&mut self, unit_id: UnitID) -> (r: &mut Unit)
        requires
            old(self).wf(),
            has_unit_id(old(self).units_seq(), unit_id),
        ensures
            *r == unit_by_id(old(self).units_seq(), unit_id),
            final(self).units_seq() == old(self).units_seq().update(
                index_of_id(old(self).units_seq(), unit_id),
                *final(r),
            ),
            final(self).spec_max_id() == old(self).spec_max_id(),
    {
        let i = self.index_of(unit_id);
        &mut self.units[i]
    }

    /// The first live unit at `pos`, if any.
    pub fn get_at_pos(&self, pos: Pos) -> (r: Option<&Unit>)
        requires
            self.wf(),
        ensures
            match first_live_at(self.units_seq(), pos) {
                Some(u) => r matches Some(ru) && *ru == u,
                None => r is None,
            },
    {
        proof {
            lemma_first_live_at_mem(self.units_seq(), pos);
        }
        match self.unit_at_pos(pos) {
            Some(uid) => {
                proof {
                    let u = first_live_at(self.units_seq(), pos).unwrap();
                    let i = choose|i: int|
                        0 <= i < self.units_seq().len() && self.units_seq()[i] == u;
                    lemma_unit_by_id(self.units_seq(), i);
                }
                Some(self.get(uid))
            }
            None => None,
        }
    }

    /// Ids of every live unit, in registration order.
    pub fn all_units(&self) -> (r: Vec<UnitID>)
        ensures
            r@ == live_ids(self.units_seq()),
    {
        let mut r: Vec<UnitID> = Vec::new();
        let mut i: usize = 0;
        proof {
            assert(self.units_seq().take(0) =~= Seq::<Unit>::empty());
        }
        while i < self.units.len()
            invariant
                i <= self.units_seq().len(),
                r@ == live_ids(self.units_seq().take(i as int)),
            decreases self.units_seq().len() - i,
        {
            proof {
                let t1 = self.units_seq().take(i + 1);
                assert(t1.drop_last() =~= self.units_seq().take(i as int));
                assert(t1.last() == self.units_seq()[i as int]);
            }
            if self.units[i].hp != 0 {
                r.push(self.units[i].id);
            }
            i = i + 1;
        }
        proof {
            assert(self.units_seq().take(self.units_seq().len() as int) =~= self.units_seq());
        }
        r
    }

    /// Ids of our live units, in registration order.
    pub fn my_units(&self) -> (r: Vec<UnitID>)
        ensures
            r@ == owned_live_ids(self.units_seq(), Player::Me),
    {
        self.units_of(Player::Me)
    }

    /// Ids of the enemy's live units, in registration order.
    pub fn enemy_units(&self) -> (r: Vec<UnitID>)
        ensures
            r@ == owned_live_ids(self.units_seq(), Player::NotMe),
    {
        self.units_of(Player::NotMe)
    }

    fn units_of(&self, owner: Player) -> (r: Vec<UnitID>)
        ensures
            r@ == owned_live_ids(self.units_seq(), owner),
    {
        let mut r: Vec<UnitID> = Vec::new();
        let mut i: usize = 0;
        proof {
            assert(self.units_seq().take(0) =~= Seq::<Unit>::empty());
        }
        while i < self.units.len()
            invariant
                i <= self.units_seq().len(),
                r@ == owned_live_ids(self.units_seq().take(i as int), owner),
            decreases self.units_seq().len() - i,
        {
            proof {
                let t1 = self.units_seq().take(i + 1);
                assert(t1.drop_last() =~= self.units_seq().take(i as int));
                assert(t1.last() == self.units_seq()[i as int]);
            }
            if self.units[i].hp != 0 && self.units[i].owner == owner {
                r.push(self.units[i].id);
            }
            i = i + 1;
        }
        proof {
            assert(self.units_seq().take(self.units_seq().len() as int) =~= self.units_seq());
        }
        r
    }

    /// Returns the next unit that should be activated after `after_id`:
    /// the smallest activatable id greater than `after_id`, or failing
    /// that the smallest activatable id at all, or `None`.
    pub fn next_active_unit(&self, after_id: UnitID) -> (r: Option<UnitID>)
        ensures
            ({
                let s = self.units_seq();
                match r {
                    None => forall|j: int| 0 <= j < s.len() ==> !spec_activatable(#[trigger] s[j]),
                    Some(id) => {
                        &&& exists|j: int|
                            0 <= j < s.len() && (#[trigger] s[j]).id == id && spec_activatable(s[j])
                        &&& if exists|j: int|
                            0 <= j < s.len() && spec_activatable(#[trigger] s[j]) && s[j].id
                                > after_id {
                            id > after_id && forall|j: int|
                                0 <= j < s.len() && spec_activatable(#[trigger] s[j]) && s[j].id
                                    > after_id ==> id <= s[j].id
                        } else {
                            forall|j: int|
                                0 <= j < s.len() && spec_activatable(#[trigger] s[j]) ==> id
                                    <= s[j].id
                        }
                    },
                }
            }),
    {
        let s = Ghost(self.units_seq());
        let mut result_before: Option<UnitID> = None;
        let mut result_after: Option<UnitID> = None;
        let mut i: usize = 0;
        while i < self.units.len()
            invariant
                s@ == self.units_seq(),
                i <= s@.len(),
                match result_after {
                    Some(v) => {
                        &&& exists|j: int|
                            0 <= j < i && (#[trigger] s@[j]).id == v && spec_activatable(s@[j])
                                && v > after_id
                        &&& forall|j: int|
                            0 <= j < i && spec_activatable(#[trigger] s@[j]) && s@[j].id > after_id
                                ==> v <= s@[j].id
                    },
                    None => forall|j: int|
                        0 <= j < i ==> !(spec_activatable(#[trigger] s@[j]) && s@[j].id
                            > after_id),
                },
                match result_before {
                    Some(v) => {
                        &&& exists|j: int|
                            0 <= j < i && (#[trigger] s@[j]).id == v && spec_activatable(s@[j])
                                && v <= after_id
                        &&& forall|j: int|
                            0 <= j < i && spec_activatable(#[trigger] s@[j]) && s@[j].id <= after_id
                                ==> v <= s@[j].id
                    },
                    None => forall|j: int|
                        0 <= j < i ==> !(spec_activatable(#[trigger] s@[j]) && s@[j].id
                            <= after_id),
                },
            decreases s@.len() - i,
        {
            let u = &self.units[i];
            if u.owner() == Player::Me && u.hp != 0 && !u.is_exhausted() {
                if u.id > after_id {
                    let take = match result_after {
                        Some(v) => v > u.id,
                        None => true,
                    };
                    if take {
                        result_after = Some(u.id);
                    }
                } else {
                    let take = match result_before {
                        Some(v) => v > u.id,
                        None => true,
                    };
                    if take {
                        result_before = Some(u.id);
                    }
                }
            }
            i = i + 1;
        }
        match result_after {
            Some(v) => Some(v),
            None => result_before,
        }
    }


    /// Rolls the engagement in `combat_stats` and applies its outcome:
    /// the defender takes its rolled damage, the attacker takes its
    /// rolled damage and ends its turn, and when the defender dies the
    /// attacker captures the defender's position.
    pub fn attack(&mut self, combat_stats: &mut CombatStats)
        requires
            old(self).wf(),
            old(combat_stats).wf(),
            has_unit_id(old(self).units_seq(), old(combat_stats).attacker_id),
            has_unit_id(old(self).units_seq(), old(combat_stats).defender_id),
            old(combat_stats).attacker_id != old(combat_stats).defender_id,
        ensures
            final(self).wf(),
            final(self).spec_max_id() == old(self).spec_max_id(),
            *final(combat_stats) == (CombatStats {
                dmg_to_attacker: final(combat_stats).dmg_to_attacker,
                dmg_to_defender: final(combat_stats).dmg_to_defender,
                ..*old(combat_stats)
            }),
            exists|da: int, dd: int|
                {
                    &&& old(combat_stats).spec_range_to_attacker().0 <= da <= old(
                        combat_stats,
                    ).spec_range_to_attacker().1
                    &&& old(combat_stats).spec_range_to_defender().0 <= dd <= old(
                        combat_stats,
                    ).spec_range_to_defender().1
                    &&& (
                        final(combat_stats).dmg_to_attacker as int,
                        final(combat_stats).dmg_to_defender as int,
                    ) == spec_arbitrate(
                        da,
                        dd,
                        old(combat_stats).attacker_starting_hp as int,
                        old(combat_stats).defender_starting_hp as int,
                    )
                },
            ({
                let s0 = old(self).units_seq();
                let att = unit_by_id(s0, old(combat_stats).attacker_id);
                let def = unit_by_id(s0, old(combat_stats).defender_id);
                let rem_d = spec_remaining(
                    old(combat_stats).defender_starting_hp as int,
                    final(combat_stats).dmg_to_defender as int,
                );
                let rem_a = spec_remaining(
                    old(combat_stats).attacker_starting_hp as int,
                    final(combat_stats).dmg_to_attacker as int,
                );
                final(self).units_seq() == s0.update(
                    index_of_id(s0, old(combat_stats).defender_id),
                    Unit { hp: rem_d as u8, ..def },
                ).update(
                    index_of_id(s0, old(combat_stats).attacker_id),
                    Unit {
                        hp: rem_a as u8,
                        movements: 0,
                        pos: if rem_d == 0 {
                            def.pos
                        } else {
                            att.pos
                        },
                        ..att
                    },
                )
            }),
    {
        let attacker_id = combat_stats.attacker_id;
        let defender_id = combat_stats.defender_id;
        combat_stats.roll();
        let defender_remaining = combat_stats.defender_remaining_hp();
        let attacker_remaining = combat_stats.attacker_remaining_hp();
        let ghost s0 = self.units_seq();
        let defender_pos = {
            let defender = self.get_mut(defender_id);
            defender.hp = defender_remaining;
            defender.pos
        };
        proof {
            let di = index_of_id(s0, defender_id);
            assert(self.units_seq()[di].id == defender_id);
            assert forall|i: int|
                0 <= i < self.units_seq().len() implies (#[trigger] self.units_seq()[i]).id
                == s0[i].id by {}
            assert(has_unit_id(self.units_seq(), attacker_id)) by {
                let w = index_of_id(s0, attacker_id);
                assert(self.units_seq()[w].id == attacker_id);
            }
            assert(self.wf());
            lemma_unit_by_id(self.units_seq(), index_of_id(s0, attacker_id));
        }
        let ghost s1 = self.units_seq();
        {
            let attacker = self.get_mut(attacker_id);
            attacker.hp = attacker_remaining;
            attacker.movements = 0;
            if defender_remaining == 0 {
                attacker.pos = defender_pos;
            }
        }
        proof {
            let ai = index_of_id(s0, attacker_id);
            let di = index_of_id(s0, defender_id);
            assert(s1[ai].id == attacker_id);
            assert(index_of_id(s1, attacker_id) == ai) by {
                lemma_unit_by_id(s1, ai);
            }
            assert(unit_by_id(s1, attacker_id) == s1[ai]);
            assert(s1[ai] == s0[ai]);
            assert forall|j: int, k: int|
                0 <= j < k < self.units_seq().len() implies (#[trigger] self.units_seq()[j]).id
                != (#[trigger] self.units_seq()[k]).id by {
                assert(self.units_seq()[j].id == s0[j].id);
                assert(self.units_seq()[k].id == s0[k].id);
            }
        }
    }

    /// Refreshes all units for a new turn and purges dead units from
    /// memory.
    pub fn refresh(&mut self)
        requires
            old(self).wf(),
        ensures
            final(self).wf(),
            final(self).spec_max_id() == old(self).spec_max_id(),
            final(self).units_seq() == refreshed_seq(old(self).units_seq()),
    {
        let s = Ghost(self.units_seq());
        let mut kept: Vec<Unit> = Vec::new();
        let mut i: usize = 0;
        proof {
            assert(s@.take(0) =~= Seq::<Unit>::empty());
        }
        while i < self.units.len()
            invariant
                s@ == self.units_seq(),
                self.wf(),
                i <= s@.len(),
                kept@ == refreshed_seq(s@.take(i as int)),
                forall|k: int|
                    0 <= k < kept@.len() ==> exists|j: int|
                        0 <= j < i && (#[trigger] kept@[k]).id == s@[j].id,
            decreases s@.len() - i,
        {
            proof {
                let t1 = s@.take(i + 1);
                assert(t1.drop_last() =~= s@.take(i as int));
                assert(t1.last() == s@[i as int]);
            }
            let u = self.units[i];
            if u.hp != 0 {
                let mut fresh = u;
                fresh.refresh();
                proof {
                    assert(fresh == spec_refreshed(s@[i as int]));
                }
                kept.push(fresh);
            }
            i = i + 1;
        }
        proof {
            assert(s@.take(s@.len() as int) =~= s@);
        }
        self.units = kept;
        proof {
            lemma_refreshed_wf(s@, self.units@, self.spec_max_id());
        }
    }
}

/// The surviving units, each refreshed, in their old order.
pub open spec fn refreshed_seq(s: Seq<Unit>) -> Seq<Unit>
    decreases s.len(),
{
    if s.len() == 0 {
        Seq::empty()
    } else {
        let rest = refreshed_seq(s.drop_last());
        if s.last().hp != 0 {
            rest.push(spec_refreshed(s.last()))
        } else {
            rest
        }
    }
}

/// Refreshing keeps every id it keeps unique and bounded, because each
/// kept unit carries the id of a distinct original.
proof fn lemma_refreshed_wf(s: Seq<Unit>, r: Seq<Unit>, maxid: UnitID)
    requires
        r == refreshed_seq(s),
        forall|i: int| 0 <= i < s.len() ==> 1 <= (#[trigger] s[i]).id <= maxid,
        forall|j: int, k: int| 0 <= j < k < s.len() ==> (#[trigger] s[j]).id != (#[trigger] s[k]).id,
    ensures
        forall|i: int| 0 <= i < r.len() ==> 1 <= (#[trigger] r[i]).id <= maxid,
        forall|j: int, k: int| 0 <= j < k < r.len() ==> (#[trigger] r[j]).id != (#[trigger] r[k]).id,
    decreases s.len(),
{
    if s.len() == 0 {
    } else {
        lemma_refreshed_wf(s.drop_last(), refreshed_seq(s.drop_last()), maxid);
        lemma_refreshed_ids(s.drop_last());
        if s.last().hp != 0 {
            assert forall|j: int, k: int|
                0 <= j < k < r.len() implies (#[trigger] r[j]).id != (#[trigger] r[k]).id by {
                if k == r.len() - 1 {
                    let rest = refreshed_seq(s.drop_last());
                    let w = choose|w: int|
                        0 <= w < s.drop_last().len() && (#[trigger] s.drop_last()[w]).id
                            == rest[j].id;
                    assert(s[w].id == rest[j].id);
                    assert(s[w].id != s[s.len() - 1].id);
                }
            }
        }
    }
}

/// Every refreshed unit carries the id of some original unit.
proof fn lemma_refreshed_ids(s: Seq<Unit>)
    ensures
        forall|k: int|
            0 <= k < refreshed_seq(s).len() ==> exists|w: int|
                0 <= w < s.len() && (#[trigger] refreshed_seq(s)[k]).id == s[w].id,
    decreases s.len(),
{
    if s.len() == 0 {
    } else {
        lemma_refreshed_ids(s.drop_last());
        let r = refreshed_seq(s);
        let rest = refreshed_seq(s.drop_last());
        assert forall|k: int| 0 <= k < r.len() implies exists|w: int|
            0 <= w < s.len() && (#[trigger] r[k]).id == s[w].id by {
            if k < rest.len() {
                let w = choose|w: int|
                    0 <= w < s.drop_last().len() && (#[trigger] s.drop_last()[w]).id == rest[k].id;
                assert(s[w].id == r[k].id);
            } else {
                assert(r[k].id == s[s.len() - 1].id);
            }
        }
    }
}

} // verus!
