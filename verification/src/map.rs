//! The live battlefield: terrain plus units, path classification against
//! it, and the reachability resolver.

use vstd::prelude::*;
use crate::combat::{CombatStats, Modifier, ModifierType};
use crate::hexpos::{
    all_directions, box_fits, in_box, lemma_path_in_box, path_from, spec_neighbor, walker_step,
    Direction, PathWalker,
    Pos,
    PosPath,
};
use crate::preorder::{
    lemma_first_visited, lemma_pre_irrefl, lemma_pre_total, lemma_pre_trans, lemma_rank_bounds,
    lemma_rank_first, lemma_step_rank, lemma_step_succ, pre_lt, rank, sub_count, visited_by,
};
use crate::terrain::{
    lemma_path_cost_prefix, offset_ok, spec_defense_modifier, spec_is_passable, spec_path_cost,
    Terrain, TerrainMap, TilesIterator,
};
use crate::unit::{
    first_live_at, has_unit_id, index_of_id, lemma_first_live_at_mem, unit_by_id, Player, Unit,
    UnitID, Units,
};

verus! {

/// Movement hindrances on a particular position on a live map, from the
/// perspective of a player: a unit sits on the cell, and the cell is
/// affected by the zone of control of an enemy unit.
#[derive(Debug, Copy, Clone, PartialEq, Eq, Structural)]
pub struct Hindrances {
    pub unit: bool,
    pub zoc: bool,
}

/// The first live unit at `pos` belongs to an enemy of `mover`.
pub open spec fn enemy_first_at(s: Seq<Unit>, pos: Pos, mover: Player) -> bool {
    match first_live_at(s, pos) {
        Some(u) => u.owner != mover,
        None => false,
    }
}

/// `pos` is under enemy zone of control from `mover`'s perspective: an
/// enemy unit occupies it or any of its six neighbors.
pub open spec fn spec_zoc(s: Seq<Unit>, pos: Pos, mover: Player) -> bool {
    enemy_first_at(s, pos, mover) || exists|k: int|
        0 <= k < 6 && enemy_first_at(s, spec_neighbor(pos, all_directions()[k]), mover)
}

/// A live unit of any owner sits at `pos`.
pub open spec fn spec_occupied(s: Seq<Unit>, pos: Pos) -> bool {
    first_live_at(s, pos) is Some
}

/// The owner of the first live unit at `pos`, if any.
pub open spec fn spec_owner_at(s: Seq<Unit>, pos: Pos) -> Option<Player> {
    match first_live_at(s, pos) {
        Some(u) => Some(u.owner),
        None => None,
    }
}

/// The hindrances of `pos` relative to a mover's allegiance; without a
/// mover nothing hinders.
pub open spec fn spec_hindrances(s: Seq<Unit>, pos: Pos, mover: Option<Player>) -> Hindrances {
    match mover {
        None => Hindrances { unit: false, zoc: false },
        Some(owner) => Hindrances { unit: spec_occupied(s, pos), zoc: spec_zoc(s, pos, owner) },
    }
}

/// Two consecutive cells among the first `limit` cells of the path are
/// both under enemy zone of control.
pub open spec fn spec_zoc_run(s: Seq<Unit>, cells: Seq<Pos>, mover: Player, limit: int) -> bool {
    exists|i: int|
        0 <= i && i + 1 < limit && i + 1 < cells.len() && spec_zoc(s, #[trigger] cells[i], mover)
            && spec_zoc(s, cells[i + 1], mover)
}

/// Whether a path could ever become reachable by adding steps: a unit of
/// the mover stands at its origin, every traversed cell is passable, and
/// it never moves from one enemy-zone-of-control cell directly into
/// another (its endpoint not counted).
pub open spec fn spec_could_be_reachable(m: &LiveMap, cells: Seq<Pos>) -> bool {
    let s = m.units_seq();
    &&& spec_owner_at(s, cells[0]) is Some
    &&& forall|i: int|
        0 <= i < cells.len() ==> spec_is_passable(m.terrain_map().spec_at(#[trigger] cells[i]))
    &&& !spec_zoc_run(s, cells, spec_owner_at(s, cells[0]).unwrap(), cells.len() - 1)
}

/// The path ends on a cell whose first live occupant is an enemy of the
/// mover.
pub open spec fn spec_is_attack(m: &LiveMap, cells: Seq<Pos>) -> bool {
    let s = m.units_seq();
    &&& spec_owner_at(s, cells[0]) is Some
    &&& spec_owner_at(s, cells.last()) is Some
    &&& spec_owner_at(s, cells[0]) != spec_owner_at(s, cells.last())
}

/// Whether the path is reachable by its mover this turn: it could be
/// reachable, makes at least one step, and its destination is free, or
/// holds an enemy that can validly be attacked (the cell before last is
/// free, or the path is a single step).
pub open spec fn spec_is_reachable(m: &LiveMap, cells: Seq<Pos>) -> bool {
    let s = m.units_seq();
    &&& spec_could_be_reachable(m, cells)
    &&& cells.len() > 1
    &&& (!spec_occupied(s, cells.last()) || (spec_is_attack(m, cells) && (cells.len() == 2
        || !spec_occupied(s, cells[cells.len() - 2]))))
}

/// Whether the move exhausts all movement points of the mover regardless
/// of terrain costs: it crosses two consecutive zone-of-control cells,
/// its endpoint counted.
pub open spec fn spec_is_exhausting(m: &LiveMap, cells: Seq<Pos>) -> bool {
    let s = m.units_seq();
    spec_owner_at(s, cells[0]) is Some && spec_zoc_run(
        s,
        cells,
        spec_owner_at(s, cells[0]).unwrap(),
        cells.len() as int,
    )
}

/// Terrain and unit state of one battlefield.
pub struct LiveMap {
    terrain: TerrainMap,
    units: Units,
}

impl LiveMap {
    pub closed spec fn terrain_map(&self) -> TerrainMap {
        self.terrain
    }

    pub closed spec fn spec_units(&self) -> Units {
        self.units
    }

    /// The registered units, in registration order.
    pub open spec fn units_seq(&self) -> Seq<Unit> {
        self.spec_units().units_seq()
    }

    pub open spec fn wf(&self) -> bool {
        &&& self.terrain_map().wf()
        &&& self.spec_units().wf()
        &&& forall|i: int| 0 <= i < self.units_seq().len() ==> (#[trigger] self.units_seq()[i]).hp
            <= 100
    }

    pub fn new(terrain: TerrainMap) -> (r: LiveMap)
        requires
            terrain.wf(),
        ensures
            r.wf(),
            r.terrain_map() == terrain,
            r.units_seq() == Seq::<Unit>::empty(),
            r.spec_units().spec_max_id() == 0,
    {
        LiveMap { terrain, units: Units::new() }
    }

    pub fn terrain(&self) -> (r: &TerrainMap)
        ensures
            r == self.terrain_map(),
    {
        &self.terrain
    }

    pub fn units(&self) -> (r: &Units)
        ensures
            r == self.spec_units(),
    {
        &self.units
    }

    /// Whether a mover can stand on `pos`: passable terrain and no unit
    /// in the way.
    pub fn is_pos_passable(&self, pos: Pos) -> (r: bool)
        requires
            self.wf(),
            offset_ok(pos),
        ensures
            r == (spec_is_passable(self.terrain_map().spec_at(pos)) && !spec_occupied(
                self.units_seq(),
                pos,
            )),
    {
        if !self.terrain.get_terrain(pos).is_passable() {
            false
        } else {
            self.units.unit_at_pos(pos).is_none()
        }
    }

    /// Adds `unit` to the battlefield, assigning it the next free id.
    pub fn add_unit(&mut self, unit: Unit)
        requires
            old(self).wf(),
            old(self).spec_units().spec_max_id() < usize::MAX,
            unit.hp <= 100,
        ensures
            final(self).wf(),
            final(self).terrain_map() == old(self).terrain_map(),
            final(self).units_seq() == old(self).units_seq().push(
                Unit { id: (old(self).spec_units().spec_max_id() + 1) as usize, ..unit },
            ),
            final(self).spec_units().spec_max_id() == old(self).spec_units().spec_max_id() + 1,
    {
        self.units.add_unit(unit)
    }

    /// Rolls and applies an engagement; see `Units::attack`.
    pub fn attack(&mut self, combat_stats: &mut CombatStats)
        requires
            old(self).wf(),
            old(combat_stats).wf(),
            has_unit_id(old(self).units_seq(), old(combat_stats).attacker_id),
            has_unit_id(old(self).units_seq(), old(combat_stats).defender_id),
            old(combat_stats).attacker_id != old(combat_stats).defender_id,
            old(combat_stats).attacker_starting_hp <= 100,
            old(combat_stats).defender_starting_hp <= 100,
        ensures
            final(self).wf(),
            final(self).terrain_map() == old(self).terrain_map(),
            *final(combat_stats) == (CombatStats {
                dmg_to_attacker: final(combat_stats).dmg_to_attacker,
                dmg_to_defender: final(combat_stats).dmg_to_defender,
                ..*old(combat_stats)
            }),
            exists|da: int, dd: int|
                {
                    &&& old(combat_stats).spec_range_to_attacker().0 <= da <= old(
                        combat_stats,
                    ).spec_range_to_attacker().1
                    &&& old(combat_stats).spec_range_to_defender().0 <= dd <= old(
                        combat_stats,
                    ).spec_range_to_defender().1
                    &&& (
                        final(combat_stats).dmg_to_attacker as int,
                        final(combat_stats).dmg_to_defender as int,
                    ) == crate::combat::spec_arbitrate(
                        da,
                        dd,
                        old(combat_stats).attacker_starting_hp as int,
                        old(combat_stats).defender_starting_hp as int,
                    )
                },
            ({
                let s0 = old(self).units_seq();
                let att = unit_by_id(s0, old(combat_stats).attacker_id);
                let def = unit_by_id(s0, old(combat_stats).defender_id);
                let rem_d = crate::combat::spec_remaining(
                    old(combat_stats).defender_starting_hp as int,
                    final(combat_stats).dmg_to_defender as int,
                );
                let rem_a = crate::combat::spec_remaining(
                    old(combat_stats).attacker_starting_hp as int,
                    final(combat_stats).dmg_to_attacker as int,
                );
                final(self).units_seq() == s0.update(
                    index_of_id(s0, old(combat_stats).defender_id),
                    Unit { hp: rem_d as u8, ..def },
                ).update(
                    index_of_id(s0, old(combat_stats).attacker_id),
                    Unit {
                        hp: rem_a as u8,
                        movements: 0,
                        pos: if rem_d == 0 {
                            def.pos
                        } else {
                            att.pos
                        },
                        ..att
                    },
                )
            }),
    {
        proof {
            let s0 = self.units_seq();
            let di = index_of_id(s0, combat_stats.defender_id);
            let ai = index_of_id(s0, combat_stats.attacker_id);
            assert(0 <= di < s0.len() && s0[di].id == combat_stats.defender_id);
            assert(0 <= ai < s0.len() && s0[ai].id == combat_stats.attacker_id);
        }
        self.units.attack(combat_stats);
        proof {
            assert forall|i: int|
                0 <= i < self.units_seq().len() implies (#[trigger] self.units_seq()[i]).hp
                <= 100 by {
                let s0 = old(self).units_seq();
                let di = index_of_id(s0, old(combat_stats).defender_id);
                let ai = index_of_id(s0, old(combat_stats).attacker_id);
                if i != di && i != ai {
                    assert(self.units_seq()[i] == s0[i]);
                }
            }
        }
    }

    /// Refreshes all units for a new turn and purges dead units from
    /// memory.
    pub fn refresh(&mut self)
        requires
            old(self).wf(),
        ensures
            final(self).wf(),
            final(self).terrain_map() == old(self).terrain_map(),
            final(self).units_seq() == crate::unit::refreshed_seq(old(self).units_seq()),
    {
        self.units.refresh();
        proof {
            lemma_refreshed_hp(old(self).units_seq());
        }
    }
}

/// Refreshing keeps every unit's hit points, so the full-health bound is
/// preserved.
proof fn lemma_refreshed_hp(s: Seq<Unit>)
    requires
        forall|i: int| 0 <= i < s.len() ==> (#[trigger] s[i]).hp <= 100,
    ensures
        forall|i: int|
            0 <= i < crate::unit::refreshed_seq(s).len() ==> (#[trigger] crate::unit::refreshed_seq(
                s,
            )[i]).hp <= 100,
    decreases s.len(),
{
    if s.len() > 0 {
        lemma_refreshed_hp(s.drop_last());
    }
}

} // verus!

verus! {

/// The hindrances of `pos` relative to `mover`, read off the live map.
fn get_hindrances(map: &LiveMap, pos: Pos, mover: Option<Player>) -> (r: Hindrances)
    requires
        map.wf(),
        box_fits(pos, 1),
    ensures
        r == spec_hindrances(map.units_seq(), pos, mover),
{
    let owner = match mover {
        Some(owner) => owner,
        None => {
            return Hindrances { unit: false, zoc: false };
        }
    };
    let s = Ghost(map.units_seq());
    let mut unit = false;
    let mut zoc = false;
    match map.units().get_at_pos(pos) {
        Some(u) => {
            unit = true;
            if u.owner() != owner {
                zoc = true;
            }
        }
        None => {}
    }
    let around = pos.around();
    let mut k: usize = 0;
    while k < 6
        invariant
            s@ == map.units_seq(),
            map.wf(),
            k <= 6,
            unit == spec_occupied(s@, pos),
            around@.len() == 6,
            forall|j: int|
                0 <= j < 6 ==> #[trigger] around@[j] == spec_neighbor(pos, all_directions()[j]),
            zoc == (enemy_first_at(s@, pos, owner) || exists|j: int|
                0 <= j < k && enemy_first_at(s@, spec_neighbor(pos, all_directions()[j]), owner)),
        decreases 6 - k,
    {
        match map.units().get_at_pos(around[k]) {
            Some(u) => {
                if u.owner() != owner {
                    zoc = true;
                    proof {
                        assert(enemy_first_at(
                            s@,
                            spec_neighbor(pos, all_directions()[k as int]),
                            owner,
                        ));
                    }
                }
            }
            None => {}
        }
        k = k + 1;
    }
    proof {
        assert(zoc == spec_zoc(s@, pos, owner));
    }
    Hindrances { unit, zoc }
}

/// A `PosPath` along with terrain and unit information in that path,
/// classified against the live map it was built from.
pub struct LivePath {
    path: PosPath,
    terrain: Vec<Terrain>,
    hindrances: Vec<Hindrances>,
    mover: Option<Player>,
    target: Option<Player>,
    src: Ghost<LiveMap>,
}

impl LivePath {
    /// The cells of the path, origin first.
    pub closed spec fn cells(&self) -> Seq<Pos> {
        self.path@
    }

    /// The live map this classification was computed against.
    pub closed spec fn spec_map(&self) -> LiveMap {
        self.src@
    }

    pub closed spec fn terrains(&self) -> Seq<Terrain> {
        self.terrain@
    }

    pub closed spec fn hinds(&self) -> Seq<Hindrances> {
        self.hindrances@
    }

    pub closed spec fn spec_mover(&self) -> Option<Player> {
        self.mover
    }

    pub closed spec fn spec_target(&self) -> Option<Player> {
        self.target
    }

    /// The stored terrain, hindrance and allegiance data agree with the
    /// map the path was classified against.
    pub open spec fn wf(&self) -> bool {
        let m = self.spec_map();
        let cells = self.cells();
        &&& m.wf()
        &&& cells.len() >= 1
        &&& self.terrains().len() == cells.len()
        &&& forall|i: int|
            0 <= i < cells.len() ==> self.terrains()[i] == m.terrain_map().spec_at(
                #[trigger] cells[i],
            )
        &&& self.hinds().len() == cells.len()
        &&& forall|i: int|
            0 <= i < cells.len() ==> self.hinds()[i] == spec_hindrances(
                m.units_seq(),
                #[trigger] cells[i],
                self.spec_mover(),
            )
        &&& self.spec_mover() == spec_owner_at(m.units_seq(), cells[0])
        &&& self.spec_target() == spec_owner_at(m.units_seq(), cells.last())
    }

    /// Classifies `path` against the current state of `map`.
    pub fn new(path: &PosPath, map: &LiveMap) -> (r: LivePath)
        requires
            map.wf(),
            path.wf(),
            forall|i: int|
                0 <= i < path@.len() ==> offset_ok(#[trigger] path@[i]) && box_fits(path@[i], 1),
        ensures
            r.wf(),
            r.spec_map() == *map,
            r.cells() == path@,
    {
        let s = Ghost(map.units_seq());
        let mover = match map.units().get_at_pos(path.from()) {
            Some(u) => Some(u.owner()),
            None => None,
        };
        let target = match map.units().get_at_pos(path.to()) {
            Some(u) => Some(u.owner()),
            None => None,
        };
        let cells = path.stack();
        let mut terrain: Vec<Terrain> = Vec::new();
        let mut i: usize = 0;
        while i < cells.len()
            invariant
                s@ == map.units_seq(),
                map.wf(),
                cells@ == path@,
                forall|j: int|
                    0 <= j < path@.len() ==> offset_ok(#[trigger] path@[j]) && box_fits(
                        path@[j],
                        1,
                    ),
                i <= cells@.len(),
                terrain@.len() == i,
                forall|j: int|
                    0 <= j < i ==> terrain@[j] == map.terrain_map().spec_at(#[trigger] cells@[j]),
            decreases cells@.len() - i,
        {
            terrain.push(map.terrain().get_terrain(cells[i]));
            i = i + 1;
        }
        let mut hindrances: Vec<Hindrances> = Vec::new();
        let mut i: usize = 0;
        while i < cells.len()
            invariant
                s@ == map.units_seq(),
                map.wf(),
                cells@ == path@,
                forall|j: int|
                    0 <= j < path@.len() ==> offset_ok(#[trigger] path@[j]) && box_fits(
                        path@[j],
                        1,
                    ),
                i <= cells@.len(),
                hindrances@.len() == i,
                forall|j: int|
                    0 <= j < i ==> hindrances@[j] == spec_hindrances(
                        s@,
                        #[trigger] cells@[j],
                        mover,
                    ),
            decreases cells@.len() - i,
        {
            hindrances.push(get_hindrances(map, cells[i], mover));
            i = i + 1;
        }
        LivePath {
            path: path.clone(),
            terrain,
            hindrances,
            mover,
            target,
            src: Ghost(*map),
        }
    }

    /// Whether two consecutive cells, the last one counted or not, are
    /// both under enemy zone of control.
    fn moves_through_zoc(&self, including_last_index: bool) -> (r: bool)
        requires
            self.wf(),
        ensures
            ({
                let limit: int = if including_last_index {
                    self.cells().len() as int
                } else {
                    self.cells().len() - 1
                };
                r == exists|i: int|
                    0 <= i && i + 1 < limit && (#[trigger] self.hinds()[i]).zoc && self.hinds()[i
                        + 1].zoc
            }),
    {
        let limit: usize = if including_last_index {
            self.hindrances.len()
        } else {
            self.hindrances.len() - 1
        };
        let mut was_zoc = false;
        let mut idx: usize = 0;
        while idx < limit
            invariant
                self.wf(),
                limit <= self.hinds().len(),
                limit == if including_last_index {
                    self.hinds().len() as int
                } else {
                    self.hinds().len() - 1
                },
                idx <= limit,
                was_zoc == (idx > 0 && self.hinds()[idx - 1].zoc),
                !(exists|i: int|
                    0 <= i && i + 1 < idx && (#[trigger] self.hinds()[i]).zoc && self.hinds()[i
                        + 1].zoc),
            decreases limit - idx,
        {
            if self.hindrances[idx].zoc {
                if was_zoc {
                    proof {
                        let w = idx - 1;
                        assert(self.hinds()[w].zoc && self.hinds()[w + 1].zoc);
                        let glimit: int = if including_last_index {
                            self.cells().len() as int
                        } else {
                            self.cells().len() - 1
                        };
                        assert(w + 1 < glimit);
                        assert(exists|i: int|
                            0 <= i && i + 1 < glimit && (#[trigger] self.hinds()[i]).zoc
                                && self.hinds()[i + 1].zoc);
                    }
                    return true;
                } else {
                    was_zoc = true;
                }
            } else {
                was_zoc = false;
            }
            idx = idx + 1;
        }
        false
    }

    /// Whether the path ends on an enemy of its mover.
    pub fn is_attack(&self) -> (r: bool)
        requires
            self.wf(),
        ensures
            r == spec_is_attack(&self.spec_map(), self.cells()),
    {
        match self.mover {
            Some(mover_owner) => match self.target {
                Some(p) => p != mover_owner,
                None => false,
            },
            None => false,
        }
    }

    /// Whether this path could ever become reachable by adding steps.
    pub fn could_be_reachable(&self) -> (r: bool)
        requires
            self.wf(),
        ensures
            r == spec_could_be_reachable(&self.spec_map(), self.cells()),
    {
        let s = Ghost(self.spec_map().units_seq());
        if self.mover.is_none() {
            return false;
        }
        let ghost owner = self.spec_mover().unwrap();
        let mut i: usize = 0;
        while i < self.terrain.len()
            invariant
                self.wf(),
                i <= self.terrains().len(),
                forall|j: int|
                    0 <= j < i ==> spec_is_passable(
                        self.spec_map().terrain_map().spec_at(#[trigger] self.cells()[j]),
                    ),
            decreases self.terrains().len() - i,
        {
            if !self.terrain[i].is_passable() {
                proof {
                    assert(!spec_is_passable(
                        self.spec_map().terrain_map().spec_at(self.cells()[i as int]),
                    ));
                }
                return false;
            }
            i = i + 1;
        }
        let through = self.moves_through_zoc(false);
        proof {
            let m = self.spec_map();
            assert forall|i: int|
                0 <= i && i + 1 < self.cells().len() - 1 implies ((#[trigger] self.hinds()[i]).zoc
                && self.hinds()[i + 1].zoc) == (spec_zoc(s@, self.cells()[i], owner) && spec_zoc(
                s@,
                self.cells()[i + 1],
                owner,
            )) by {}
            if through {
                let i = choose|i: int|
                    0 <= i && i + 1 < self.cells().len() - 1 && (#[trigger] self.hinds()[i]).zoc
                        && self.hinds()[i + 1].zoc;
                assert(spec_zoc_run(s@, self.cells(), owner, self.cells().len() - 1));
            } else {
                if spec_zoc_run(s@, self.cells(), owner, self.cells().len() - 1) {
                    let i = choose|i: int|
                        0 <= i && i + 1 < self.cells().len() - 1 && spec_zoc(
                            s@,
                            #[trigger] self.cells()[i],
                            owner,
                        ) && spec_zoc(s@, self.cells()[i + 1], owner);
                    assert(self.hinds()[i].zoc && self.hinds()[i + 1].zoc);
                    assert(false);
                }
            }
        }
        !through
    }

    /// Whether this path is reachable by its mover.
    pub fn is_reachable(&self) -> (r: bool)
        requires
            self.wf(),
        ensures
            r == spec_is_reachable(&self.spec_map(), self.cells()),
    {
        if !self.could_be_reachable() {
            false
        } else if self.path.steps() == 0 {
            false
        } else {
            let n = self.hindrances.len();
            let last_unit = self.hindrances[n - 1].unit;
            let valid_attack = self.is_attack() && (self.path.steps() == 1 || !self.hindrances[n
                - 2].unit);
            proof {
                assert(self.hinds().last() == self.hinds()[n - 1]);
                assert(self.spec_mover() is Some);
            }
            !last_unit || valid_attack
        }
    }

    /// Cost in movements required to move through that path.
    pub fn cost(&self) -> (r: u8)
        requires
            self.wf(),
            spec_path_cost(&self.spec_map().terrain_map(), self.cells()) <= 255,
        ensures
            r == spec_path_cost(&self.spec_map().terrain_map(), self.cells()),
    {
        proof {
            let tm = self.spec_map().terrain_map();
            lemma_path_cost_prefix(&tm, self.cells(), self.cells().len() as int);
            assert(self.cells().take(self.cells().len() as int) =~= self.cells());
        }
        let c = self.cost_u32();
        c as u8
    }

    /// Cost in movements, wide enough for any path the resolver walks.
    pub(crate) fn cost_u32(&self) -> (r: u32)
        requires
            self.wf(),
            self.cells().len() <= 0x100000,
        ensures
            r == spec_path_cost(&self.spec_map().terrain_map(), self.cells()),
    {
        let ghost tm = self.spec_map().terrain_map();
        let mut acc: u32 = 0;
        let mut i: usize = 1;
        proof {
            lemma_path_cost_prefix(&tm, self.cells(), 1);
        }
        while i < self.terrain.len()
            invariant
                self.wf(),
                self.cells().len() <= 0x100000,
                tm == self.spec_map().terrain_map(),
                1 <= i <= self.terrains().len(),
                acc == spec_path_cost(&tm, self.cells().take(i as int)),
                acc <= 2 * (i - 1),
            decreases self.terrains().len() - i,
        {
            proof {
                lemma_path_cost_prefix(&tm, self.cells(), i + 1);
                assert(self.cells().take(i + 1).drop_last() =~= self.cells().take(i as int));
                assert(self.cells().take(i + 1).last() == self.cells()[i as int]);
            }
            acc = acc + self.terrain[i].movement_cost() as u32;
            i = i + 1;
        }
        proof {
            assert(self.cells().take(self.cells().len() as int) =~= self.cells());
        }
        acc
    }

    /// Whether the movement exhausts all movements of the mover,
    /// regardless of terrain costs: this happens when we move through an
    /// enemy zone of control.
    pub fn is_exhausting(&self) -> (r: bool)
        requires
            self.wf(),
        ensures
            r == spec_is_exhausting(&self.spec_map(), self.cells()),
    {
        let s = Ghost(self.spec_map().units_seq());
        let through = self.moves_through_zoc(true);
        match self.mover {
            Some(owner) => {
                proof {
                    if through {
                        let i = choose|i: int|
                            0 <= i && i + 1 < self.cells().len() && (#[trigger] self.hinds()[i]).zoc
                                && self.hinds()[i + 1].zoc;
                        assert(spec_zoc(s@, self.cells()[i], owner) && spec_zoc(
                            s@,
                            self.cells()[i + 1],
                            owner,
                        ));
                        assert(spec_zoc_run(s@, self.cells(), owner, self.cells().len() as int));
                    } else {
                        if spec_zoc_run(s@, self.cells(), owner, self.cells().len() as int) {
                            let i = choose|i: int|
                                0 <= i && i + 1 < self.cells().len() && spec_zoc(
                                    s@,
                                    #[trigger] self.cells()[i],
                                    owner,
                                ) && spec_zoc(s@, self.cells()[i + 1], owner);
                            assert(self.hinds()[i].zoc && self.hinds()[i + 1].zoc);
                            assert(false);
                        }
                    }
                }
                through
            }
            None => {
                proof {
                    if through {
                        let i = choose|i: int|
                            0 <= i && i + 1 < self.cells().len() && (#[trigger] self.hinds()[i]).zoc
                                && self.hinds()[i + 1].zoc;
                        assert(self.hinds()[i] == spec_hindrances(s@, self.cells()[i], self.spec_mover()));
                        assert(false);
                    }
                }
                false
            }
        }
    }
}

} // verus!

verus! {

/// The reachability result: destinations mapped to the cheapest path
/// found to each, with pairwise distinct destinations.
pub struct PathMap {
    entries: Vec<(Pos, PosPath)>,
}

/// A destination appears among the entries.
pub open spec fn pm_has_key(s: Seq<(Pos, PosPath)>, pos: Pos) -> bool {
    exists|i: int| 0 <= i < s.len() && (#[trigger] s[i]).0 == pos
}

/// The index of a destination among the entries.
pub open spec fn pm_index_of(s: Seq<(Pos, PosPath)>, pos: Pos) -> int {
    choose|i: int| 0 <= i < s.len() && (#[trigger] s[i]).0 == pos
}

/// The path stored for a destination.
pub open spec fn pm_value(s: Seq<(Pos, PosPath)>, pos: Pos) -> Seq<Pos> {
    s[pm_index_of(s, pos)].1@
}

impl PathMap {
    pub closed spec fn entries_seq(&self) -> Seq<(Pos, PosPath)> {
        self.entries@
    }

    /// Destinations are pairwise distinct.
    pub open spec fn wf(&self) -> bool {
        forall|i: int, j: int|
            0 <= i < j < self.entries_seq().len() ==> (#[trigger] self.entries_seq()[i]).0 != (
            #[trigger] self.entries_seq()[j]).0
    }

    pub open spec fn spec_has_key(&self, pos: Pos) -> bool {
        pm_has_key(self.entries_seq(), pos)
    }

    pub open spec fn spec_index_of(&self, pos: Pos) -> int {
        pm_index_of(self.entries_seq(), pos)
    }

    /// The stored path for a destination.
    pub open spec fn spec_value(&self, pos: Pos) -> Seq<Pos> {
        pm_value(self.entries_seq(), pos)
    }

    pub fn new() -> (r: PathMap)
        ensures
            r.wf(),
            r.entries_seq().len() == 0,
            forall|p: Pos| !r.spec_has_key(p),
    {
        PathMap { entries: Vec::new() }
    }

    pub fn len(&self) -> (r: usize)
        ensures
            r == self.entries_seq().len(),
    {
        self.entries.len()
    }

    pub fn is_empty(&self) -> (r: bool)
        ensures
            r == (self.entries_seq().len() == 0),
    {
        self.entries.len() == 0
    }

    pub fn contains_key(&self, pos: Pos) -> (r: bool)
        ensures
            r == self.spec_has_key(pos),
    {
        let mut i: usize = 0;
        while i < self.entries.len()
            invariant
                i <= self.entries_seq().len(),
                forall|j: int| 0 <= j < i ==> (#[trigger] self.entries_seq()[j]).0 != pos,
            decreases self.entries_seq().len() - i,
        {
            if self.entries[i].0 == pos {
                return true;
            }
            i = i + 1;
        }
        false
    }

    /// The entry at storage index `i`; with distinct keys it is what the
    /// map holds for its destination.
    pub fn entry_at(&self, i: usize) -> (r: &(Pos, PosPath))
        requires
            self.wf(),
            i < self.entries_seq().len(),
        ensures
            *r == self.entries_seq()[i as int],
            self.spec_has_key(r.0),
            self.spec_value(r.0) == r.1@,
    {
        proof {
            self.lemma_key_at(i as int);
        }
        &self.entries[i]
    }

    /// With distinct keys, the entry found at an index is the entry the
    /// map denotes for that key.
    pub proof fn lemma_key_at(&self, i: int)
        requires
            self.wf(),
            0 <= i < self.entries_seq().len(),
        ensures
            self.spec_has_key(self.entries_seq()[i].0),
            self.spec_index_of(self.entries_seq()[i].0) == i,
            self.spec_value(self.entries_seq()[i].0) == self.entries_seq()[i].1@,
    {
        let p = self.entries_seq()[i].0;
        assert(self.spec_has_key(p));
        let w = self.spec_index_of(p);
        if w < i {
            assert(self.entries_seq()[w].0 != self.entries_seq()[i].0);
        } else if w > i {
            assert(self.entries_seq()[i].0 != self.entries_seq()[w].0);
        }
    }

    pub fn get(&self, pos: Pos) -> (r: Option<&PosPath>)
        requires
            self.wf(),
        ensures
            match r {
                Some(path) => self.spec_has_key(pos) && path@ == self.spec_value(pos),
                None => !self.spec_has_key(pos),
            },
    {
        let mut i: usize = 0;
        while i < self.entries.len()
            invariant
                self.wf(),
                i <= self.entries_seq().len(),
                forall|j: int| 0 <= j < i ==> (#[trigger] self.entries_seq()[j]).0 != pos,
            decreases self.entries_seq().len() - i,
        {
            if self.entries[i].0 == pos {
                proof {
                    self.lemma_key_at(i as int);
                }
                return Some(&self.entries[i].1);
            }
            i = i + 1;
        }
        None
    }

    /// Maps `pos` to `path`, replacing what was stored for it.
    pub fn insert(&mut self, pos: Pos, path: PosPath)
        requires
            old(self).wf(),
        ensures
            final(self).wf(),
            pm_has_key(final(self).entries_seq(), pos),
            pm_value(final(self).entries_seq(), pos) == path@,
            forall|q: Pos|
                q != pos ==> #[trigger] pm_has_key(final(self).entries_seq(), q) == pm_has_key(
                    old(self).entries_seq(),
                    q,
                ),
            forall|q: Pos|
                q != pos && pm_has_key(old(self).entries_seq(), q) ==> #[trigger] pm_value(
                    final(self).entries_seq(),
                    q,
                ) == pm_value(old(self).entries_seq(), q),
    {
        let ghost s0 = self.entries_seq();
        let mut i: usize = 0;
        while i < self.entries.len()
            invariant
                s0 == self.entries_seq(),
                s0 == old(self).entries_seq(),
                self.wf(),
                i <= s0.len(),
                forall|j: int| 0 <= j < i ==> (#[trigger] s0[j]).0 != pos,
            decreases s0.len() - i,
        {
            if self.entries[i].0 == pos {
                self.entries.set(i, (pos, path));
                proof {
                    let s1 = self.entries_seq();
                    assert(s1.len() == s0.len());
                    assert(forall|j: int| 0 <= j < s1.len() && j != i ==> #[trigger] s1[j] == s0[j]);
                    assert(s1[i as int].0 == pos);
                    assert forall|j: int, k: int|
                        0 <= j < k < s1.len() implies (#[trigger] s1[j]).0 != (
                    #[trigger] s1[k]).0 by {
                        if j != i && k != i {
                            assert(s1[j] == s0[j] && s1[k] == s0[k]);
                        } else if j == i {
                            assert(s1[k] == s0[k]);
                            assert(s0[k].0 != pos);
                        } else {
                            assert(s1[j] == s0[j]);
                            assert(s0[j].0 != pos || j < i);
                            assert(s0[j].0 != s0[i as int].0 && s0[i as int].0 == pos);
                        }
                    }
                    self.lemma_key_at(i as int);
                    assert forall|q: Pos|
                        q != pos implies #[trigger] pm_has_key(s1, q) == pm_has_key(s0, q) by {
                        if pm_has_key(s1, q) {
                            let w = pm_index_of(s1, q);
                            assert(s1[w].0 == q);
                            assert(w != i);
                            assert(s0[w].0 == q);
                        }
                        if pm_has_key(s0, q) {
                            let w = pm_index_of(s0, q);
                            assert(s0[w].0 == q);
                            assert(w != i);
                            assert(s1[w].0 == q);
                        }
                    }
                    assert forall|q: Pos|
                        q != pos && pm_has_key(s0, q) implies #[trigger] pm_value(s1, q)
                        == pm_value(s0, q) by {
                        let w = pm_index_of(s0, q);
                        assert(s0[w].0 == q);
                        assert(w != i);
                        assert(s1[w].0 == q);
                        self.lemma_key_at(w);
                        old(self).lemma_key_at(w);
                    }
                }
                return;
            }
            i = i + 1;
        }
        self.entries.push((pos, path));
        proof {
            let s1 = self.entries_seq();
            assert(s1.len() == s0.len() + 1);
            assert(s1[s0.len() as int].0 == pos);
            assert(forall|j: int| 0 <= j < s0.len() ==> s1[j] == #[trigger] s0[j]);
            assert forall|j: int, k: int|
                0 <= j < k < s1.len() implies (#[trigger] s1[j]).0 != (#[trigger] s1[k]).0 by {
                if k == s0.len() {
                    assert(s0[j].0 != pos);
                }
            }
            self.lemma_key_at(s0.len() as int);
            assert forall|q: Pos|
                q != pos implies #[trigger] pm_has_key(s1, q) == pm_has_key(s0, q) by {
                if pm_has_key(s1, q) {
                    let w = pm_index_of(s1, q);
                    assert(s1[w].0 == q);
                    assert(w < s0.len());
                    assert(s0[w].0 == q);
                }
                if pm_has_key(s0, q) {
                    let w = pm_index_of(s0, q);
                    assert(s0[w].0 == q);
                    assert(s1[w].0 == q);
                }
            }
            assert forall|q: Pos|
                q != pos && pm_has_key(s0, q) implies #[trigger] pm_value(s1, q) == pm_value(
                s0,
                q,
            ) by {
                let w = pm_index_of(s0, q);
                assert(s0[w].0 == q);
                assert(s1[w].0 == q);
                self.lemma_key_at(w);
                old(self).lemma_key_at(w);
            }
        }
    }

    /// Every destination the map holds, in storage order.
    pub fn keys(&self) -> (r: Vec<Pos>)
        ensures
            r@.len() == self.entries_seq().len(),
            forall|i: int|
                0 <= i < r@.len() ==> r@[i] == (#[trigger] self.entries_seq()[i]).0,
    {
        let mut r: Vec<Pos> = Vec::new();
        let mut i: usize = 0;
        while i < self.entries.len()
            invariant
                i <= self.entries_seq().len(),
                r@.len() == i,
                forall|j: int|
                    0 <= j < i ==> r@[j] == (#[trigger] self.entries_seq()[j]).0,
            decreases self.entries_seq().len() - i,
        {
            r.push(self.entries[i].0);
            i = i + 1;
        }
        r
    }
}

} // verus!

verus! {

/// Coordinates from which every cell within a full movement budget stays
/// far from the representation limits.
pub open spec fn roam_ok(origin: Pos) -> bool {
    &&& -0x20000000 <= origin.x <= 0x20000000
    &&& -0x20000000 <= origin.y <= 0x20000000
    &&& -0x20000000 <= origin.z <= 0x20000000
}

/// The resolver prunes below a path that can never be extended into a
/// reachable one, or whose cost already exhausts the budget.
pub open spec fn spec_prunes(m: LiveMap, origin: Pos, budget: int, dirs: Seq<Direction>) -> bool {
    let cells = path_from(origin, dirs);
    !spec_could_be_reachable(&m, cells) || spec_path_cost(&m.terrain_map(), cells) >= budget
}

/// The pruning predicate of one resolver run, as a function of the
/// direction string.
pub open spec fn prune_of(m: LiveMap, origin: Pos, budget: int) -> spec_fn(Seq<Direction>) -> bool {
    |dirs: Seq<Direction>| spec_prunes(m, origin, budget, dirs)
}

/// The direction strings the resolver examines: within the budget, with
/// no pruned proper ancestor.
pub open spec fn spec_visited(m: LiveMap, origin: Pos, budget: nat, dirs: Seq<Direction>) -> bool {
    visited_by(prune_of(m, origin, budget as int), budget, dirs)
}

/// From a roam-safe origin, every cell of a walk within the budget can be
/// converted to offset coordinates and has representable neighbors.
pub proof fn lemma_roam_cells(origin: Pos, dirs: Seq<Direction>, budget: int)
    requires
        roam_ok(origin),
        0 <= budget <= 255,
        dirs.len() <= budget,
    ensures
        box_fits(origin, budget),
        path_from(origin, dirs).len() == dirs.len() + 1,
        path_from(origin, dirs)[0] == origin,
        forall|i: int|
            0 <= i < path_from(origin, dirs).len() ==> offset_ok(
                #[trigger] path_from(origin, dirs)[i],
            ) && box_fits(path_from(origin, dirs)[i], 1),
{
    lemma_path_in_box(origin, dirs);
    let cells = path_from(origin, dirs);
    assert forall|i: int|
        0 <= i < cells.len() implies offset_ok(#[trigger] cells[i]) && box_fits(
        cells[i],
        1,
    ) by {
        assert(in_box(cells[i], origin, i));
        let p = cells[i];
        assert(-0x20000100 <= p.x <= 0x20000100);
        assert(-0x20000100 <= p.y <= 0x20000100);
        assert(-0x20000100 <= p.z <= 0x20000100);
        assert(-0x10000080 <= crate::hexpos::div2_trunc(p.x as int) <= 0x10000080);
    }
}

impl LiveMap {
    /// Computes, for the unit registered under `unit_id`, every position
    /// reachable this turn and the cheapest path found to each.
    ///
    /// The traversal enumerates every path of at most `movements` steps
    /// from the unit's position, pruning below paths that cannot be
    /// extended into reachable ones and below paths whose cost already
    /// reaches the budget. The result maps each destination of a visited
    /// reachable path to such a path of minimal cost among the visited
    /// ones.
    #[verifier::rlimit(100)]
    pub fn reachable_pos(&self, unit_id: UnitID) -> (r: PathMap)
        requires
            self.wf(),
            has_unit_id(self.units_seq(), unit_id),
            roam_ok(unit_by_id(self.units_seq(), unit_id).pos),
        ensures
            r.wf(),
            ({
                let origin = unit_by_id(self.units_seq(), unit_id).pos;
                let budget = unit_by_id(self.units_seq(), unit_id).movements as nat;
                &&& forall|dest: Pos|
                    #[trigger] r.spec_has_key(dest) ==> exists|dirs: Seq<Direction>|
                        spec_visited(*self, origin, budget, dirs) && spec_is_reachable(
                            self,
                            path_from(origin, dirs),
                        ) && r.spec_value(dest) == path_from(origin, dirs) && path_from(
                            origin,
                            dirs,
                        ).last() == dest
                &&& forall|dirs: Seq<Direction>|
                    #[trigger] spec_visited(*self, origin, budget, dirs) && spec_is_reachable(
                        self,
                        path_from(origin, dirs),
                    ) ==> r.spec_has_key(path_from(origin, dirs).last()) && spec_path_cost(
                        &self.terrain_map(),
                        r.spec_value(path_from(origin, dirs).last()),
                    ) <= spec_path_cost(&self.terrain_map(), path_from(origin, dirs))
            }),
    {
        let unit = *self.units.get(unit_id);
        let origin = unit.pos;
        let budget = unit.movements;
        let ghost m = *self;
        let ghost pr = prune_of(m, origin, budget as int);
        let ghost depth = budget as nat;
        let ghost tm = self.terrain_map();
        proof {
            lemma_roam_cells(origin, Seq::<Direction>::empty(), budget as int);
        }
        let mut result = PathMap::new();
        let mut walker = PathWalker::new(origin, budget as usize);
        let ghost mut cur: Option<Seq<Direction>> = None;
        loop
            invariant
                self.wf(),
                m == *self,
                pr == prune_of(m, origin, budget as int),
                depth == budget as nat,
                tm == self.terrain_map(),
                roam_ok(origin),
                origin == unit_by_id(self.units_seq(), unit_id).pos,
                budget == unit_by_id(self.units_seq(), unit_id).movements,
                walker.wf(),
                walker.spec_origin() == origin,
                walker.spec_max_depth() == depth,
                result.wf(),
                match cur {
                    None => walker.dirs().len() == 0 && !walker.is_backing_off()
                        && result.entries_seq().len() == 0,
                    Some(c) => {
                        &&& visited_by(pr, depth, c)
                        &&& 1 <= rank(c, depth) <= sub_count(depth) - 1
                        &&& walker.dirs() == c
                        &&& walker.is_backing_off() == pr(c)
                        &&& inv_sound(self, pr, depth, origin, c, result.entries_seq())
                        &&& inv_complete(self, pr, depth, origin, c, result.entries_seq())
                    },
                },
            decreases (match cur {
                None => sub_count(depth) as int + 1,
                Some(c) => sub_count(depth) - rank(c, depth),
            }),
        {
            let ghost pre_state = walker;
            let path_opt = walker.next();
            match path_opt {
                Some(path) => {
                    let ghost t = walker.dirs();
                    proof {
                        match cur {
                            None => {
                                assert(walker_step(pre_state.dirs(), false, depth) is Some);
                                assert(depth >= 1);
                                assert(pre_state.dirs().push(Direction::North) =~= seq![
                                    Direction::North,
                                ]);
                                assert(t == seq![Direction::North]);
                                lemma_first_visited(pr, depth);
                                lemma_rank_first(depth);
                                lemma_rank_bounds(t, depth);
                                assert(visited_by(pr, depth, t));
                            }
                            Some(c) => {
                                lemma_step_succ(pr, depth, c);
                                lemma_step_rank(c, pr(c), depth);
                                assert(visited_by(pr, depth, t));
                            }
                        }
                        lemma_roam_cells(origin, t, budget as int);
                        assert(path@ == path_from(origin, t));
                        assert(path.wf());
                        lemma_processed_step(pr, depth, cur, t);
                    }
                    let ghost e0 = result.entries_seq();
                    let lp = LivePath::new(&path, self);
                    let cbr = lp.could_be_reachable();
                    if !cbr {
                        walker.backoff();
                        proof {
                            assert(pr(t) == spec_prunes(m, origin, budget as int, t));
                            assert(pr(t));
                            lemma_inv_carry_over(self, pr, depth, origin, cur, t, e0);
                            assert forall|ds: Seq<Direction>|
                                #[trigger] visited_by(pr, depth, ds) && (ds == t || pre_lt(ds, t))
                                    && spec_is_reachable(self, path_from(origin, ds)) && ds == t
                                    implies false by {
                                assert(spec_could_be_reachable(self, path_from(origin, t)));
                            }
                            assert(inv_complete(self, pr, depth, origin, t, result.entries_seq()));
                            cur = Some(t);
                        }
                    } else {
                        let cost = lp.cost_u32();
                        let reachable = lp.is_reachable();
                        let ghost mut inserted = false;
                        let ghost mut had_prev = false;
                        let ghost mut prev_cost: int = 0;
                        let ghost mut dest_g = origin;
                        if reachable {
                            let dest = path.to();
                            proof {
                                dest_g = dest;
                                assert(dest == path_from(origin, t).last());
                            }
                            let mut replace = true;
                            match result.get(dest) {
                                Some(old_path) => {
                                    proof {
                                        had_prev = true;
                                        let c = cur.unwrap();
                                        let ds = choose|ds: Seq<Direction>|
                                            visited_by(pr, depth, ds) && (ds == c || pre_lt(
                                                ds,
                                                c,
                                            )) && spec_is_reachable(self, path_from(origin, ds))
                                                && pm_value(e0, dest) == path_from(origin, ds)
                                                && path_from(origin, ds).last() == dest;
                                        lemma_roam_cells(origin, ds, budget as int);
                                    }
                                    let lp_old = LivePath::new(old_path, self);
                                    let old_cost = lp_old.cost_u32();
                                    proof {
                                        prev_cost = old_cost as int;
                                        assert(prev_cost == spec_path_cost(
                                            &tm,
                                            pm_value(e0, dest),
                                        ));
                                    }
                                    replace = cost < old_cost;
                                }
                                None => {}
                            }
                            if replace {
                                result.insert(dest, path);
                                proof {
                                    inserted = true;
                                }
                            }
                        }
                        let exhausted = cost >= budget as u32;
                        if exhausted {
                            walker.backoff();
                        }
                        proof {
                            assert(pr(t) == spec_prunes(m, origin, budget as int, t));
                            assert(pr(t) == exhausted);
                            assert(walker.is_backing_off() == pr(t));
                            if inserted {
                                assert(pm_value(result.entries_seq(), dest_g) == path_from(
                                    origin,
                                    t,
                                ));
                                assert(forall|q: Pos|
                                    q != dest_g ==> #[trigger] pm_has_key(
                                        result.entries_seq(),
                                        q,
                                    ) == pm_has_key(e0, q));
                                assert(forall|q: Pos|
                                    q != dest_g && pm_has_key(e0, q) ==> #[trigger] pm_value(
                                        result.entries_seq(),
                                        q,
                                    ) == pm_value(e0, q));
                            } else {
                                assert(result.entries_seq() == e0);
                            }
                            lemma_inv_carry_over(self, pr, depth, origin, cur, t, e0);
                            let e1 = result.entries_seq();
                            // Soundness of the new map.
                            assert forall|dest: Pos|
                                #[trigger] pm_has_key(e1, dest) implies exists|
                                ds: Seq<Direction>,
                            |
                                visited_by(pr, depth, ds) && (ds == t || pre_lt(ds, t))
                                    && spec_is_reachable(self, path_from(origin, ds)) && pm_value(
                                    e1,
                                    dest,
                                ) == path_from(origin, ds) && path_from(origin, ds).last()
                                    == dest by {
                                if inserted && dest == dest_g {
                                    assert(visited_by(pr, depth, t) && spec_is_reachable(
                                        self,
                                        path_from(origin, t),
                                    ) && pm_value(e1, dest) == path_from(origin, t) && path_from(
                                        origin,
                                        t,
                                    ).last() == dest);
                                } else {
                                    assert(pm_has_key(e0, dest));
                                    let ds = choose|ds: Seq<Direction>|
                                        visited_by(pr, depth, ds) && (ds == t || pre_lt(ds, t))
                                            && spec_is_reachable(self, path_from(origin, ds))
                                            && pm_value(e0, dest) == path_from(origin, ds)
                                            && path_from(origin, ds).last() == dest;
                                    assert(pm_value(e1, dest) == pm_value(e0, dest));
                                }
                            }
                            // Completeness and minimality of the new map.
                            assert forall|ds: Seq<Direction>|
                                #[trigger] visited_by(pr, depth, ds) && (ds == t || pre_lt(ds, t))
                                    && spec_is_reachable(self, path_from(origin, ds)) implies
                                pm_has_key(e1, path_from(origin, ds).last()) && spec_path_cost(
                                &tm,
                                pm_value(e1, path_from(origin, ds).last()),
                            ) <= spec_path_cost(&tm, path_from(origin, ds)) by {
                                let last = path_from(origin, ds).last();
                                if ds == t {
                                    assert(last == dest_g);
                                    if inserted {
                                        assert(pm_value(e1, dest_g) == path_from(origin, t));
                                    } else {
                                        assert(had_prev);
                                        assert(prev_cost <= (cost as int));
                                        assert(pm_has_key(e0, dest_g));
                                        assert(pm_value(e1, dest_g) == pm_value(e0, dest_g));
                                    }
                                } else {
                                    assert(pm_has_key(e0, last) && spec_path_cost(
                                        &tm,
                                        pm_value(e0, last),
                                    ) <= spec_path_cost(&tm, path_from(origin, ds)));
                                    if inserted && last == dest_g {
                                        assert(had_prev) by {
                                            if !had_prev {
                                                assert(!pm_has_key(e0, dest_g));
                                            }
                                        }
                                        assert((cost as int) < prev_cost);
                                        assert(pm_value(e1, last) == path_from(origin, t));
                                    } else {
                                        assert(pm_value(e1, last) == pm_value(e0, last));
                                        assert(pm_has_key(e1, last));
                                    }
                                }
                            }
                            cur = Some(t);
                        }
                    }
                }
                None => {
                    proof {
                        match cur {
                            None => {
                                assert(walker_step(pre_state.dirs(), false, depth) is None);
                                assert(depth == 0);
                                lemma_first_visited(pr, depth);
                            }
                            Some(c) => {
                                lemma_step_succ(pr, depth, c);
                                assert forall|ds: Seq<Direction>|
                                    #[trigger] visited_by(pr, depth, ds) implies (ds == c
                                    || pre_lt(ds, c)) by {
                                    lemma_pre_total(ds, c);
                                }
                            }
                        }
                    }
                    return result;
                }
            }
        }
    }
}

/// Every result entry so far is a cheapest visited reachable path already
/// processed (at or before `c` in pre-order) to its destination.
pub open spec fn inv_sound(
    m: &LiveMap,
    pr: spec_fn(Seq<Direction>) -> bool,
    depth: nat,
    origin: Pos,
    c: Seq<Direction>,
    entries: Seq<(Pos, PosPath)>,
) -> bool {
    forall|dest: Pos|
        #[trigger] pm_has_key(entries, dest) ==> exists|ds: Seq<Direction>|
            visited_by(pr, depth, ds) && (ds == c || pre_lt(ds, c)) && spec_is_reachable(
                m,
                path_from(origin, ds),
            ) && pm_value(entries, dest) == path_from(origin, ds) && path_from(origin, ds).last()
                == dest
}

/// Every processed visited reachable path has its destination in the
/// result, at no more than its own cost.
pub open spec fn inv_complete(
    m: &LiveMap,
    pr: spec_fn(Seq<Direction>) -> bool,
    depth: nat,
    origin: Pos,
    c: Seq<Direction>,
    entries: Seq<(Pos, PosPath)>,
) -> bool {
    forall|ds: Seq<Direction>|
        #[trigger] visited_by(pr, depth, ds) && (ds == c || pre_lt(ds, c)) && spec_is_reachable(
            m,
            path_from(origin, ds),
        ) ==> pm_has_key(entries, path_from(origin, ds).last()) && spec_path_cost(
            &m.terrain_map(),
            pm_value(entries, path_from(origin, ds).last()),
        ) <= spec_path_cost(&m.terrain_map(), path_from(origin, ds))
}

/// Extending the processed region from `cur` to its successor `t` keeps
/// what the invariants said of an unchanged entry sequence, for every
/// string other than `t` itself.
proof fn lemma_inv_carry_over(
    m: &LiveMap,
    pr: spec_fn(Seq<Direction>) -> bool,
    depth: nat,
    origin: Pos,
    cur: Option<Seq<Direction>>,
    t: Seq<Direction>,
    entries: Seq<(Pos, PosPath)>,
)
    requires
        visited_by(pr, depth, t),
        match cur {
            None => walker_step(Seq::<Direction>::empty(), false, depth) == Some(t)
                && entries.len() == 0,
            Some(c) => visited_by(pr, depth, c) && walker_step(c, pr(c), depth) == Some(t)
                && inv_sound(m, pr, depth, origin, c, entries) && inv_complete(
                m,
                pr,
                depth,
                origin,
                c,
                entries,
            ),
        },
    ensures
        inv_sound(m, pr, depth, origin, t, entries),
        forall|ds: Seq<Direction>|
            #[trigger] visited_by(pr, depth, ds) && (ds == t || pre_lt(ds, t)) && ds != t
                && spec_is_reachable(m, path_from(origin, ds)) ==> pm_has_key(
                entries,
                path_from(origin, ds).last(),
            ) && spec_path_cost(
                &m.terrain_map(),
                pm_value(entries, path_from(origin, ds).last()),
            ) <= spec_path_cost(&m.terrain_map(), path_from(origin, ds)),
{
    lemma_processed_step(pr, depth, cur, t);
    match cur {
        None => {
            assert forall|dest: Pos| #[trigger] pm_has_key(entries, dest) implies false by {
                let i = pm_index_of(entries, dest);
            }
        }
        Some(c) => {
            assert forall|dest: Pos|
                #[trigger] pm_has_key(entries, dest) implies exists|ds: Seq<Direction>|
                visited_by(pr, depth, ds) && (ds == t || pre_lt(ds, t)) && spec_is_reachable(
                    m,
                    path_from(origin, ds),
                ) && pm_value(entries, dest) == path_from(origin, ds) && path_from(
                    origin,
                    ds,
                ).last() == dest by {
                let ds = choose|ds: Seq<Direction>|
                    visited_by(pr, depth, ds) && (ds == c || pre_lt(ds, c)) && spec_is_reachable(
                        m,
                        path_from(origin, ds),
                    ) && pm_value(entries, dest) == path_from(origin, ds) && path_from(
                        origin,
                        ds,
                    ).last() == dest;
                lemma_step_succ(pr, depth, c);
                if ds == c {
                    assert(pre_lt(ds, t));
                } else {
                    lemma_pre_trans(ds, c, t);
                }
            }
        }
    }
}

/// Handling one freshly yielded string extends the processed region of
/// the pre-order by exactly that string: anything at or before it that is
/// not the string itself was processed before.
proof fn lemma_processed_step(
    pr: spec_fn(Seq<Direction>) -> bool,
    depth: nat,
    cur: Option<Seq<Direction>>,
    t: Seq<Direction>,
)
    requires
        visited_by(pr, depth, t),
        match cur {
            None => walker_step(Seq::<Direction>::empty(), false, depth) == Some(t),
            Some(c) => visited_by(pr, depth, c) && walker_step(c, pr(c), depth) == Some(t),
        },
    ensures
        forall|u: Seq<Direction>|
            #[trigger] visited_by(pr, depth, u) && (u == t || pre_lt(u, t)) && u != t ==> (match cur {
                None => false,
                Some(c) => u == c || pre_lt(u, c),
            }),
{
    assert forall|u: Seq<Direction>|
        #[trigger] visited_by(pr, depth, u) && (u == t || pre_lt(u, t)) && u != t implies (match cur {
        None => false,
        Some(c) => u == c || pre_lt(u, c),
    }) by {
        match cur {
            None => {
                assert(depth >= 1);
                assert(Seq::<Direction>::empty().push(Direction::North) =~= seq![
                    Direction::North,
                ]);
                assert(t == seq![Direction::North]);
                lemma_first_visited(pr, depth);
                assert(pre_lt(t, u));
                lemma_pre_trans(u, t, u);
                lemma_pre_irrefl(u);
            }
            Some(c) => {
                lemma_step_succ(pr, depth, c);
                if u != c && !pre_lt(u, c) {
                    lemma_pre_total(u, c);
                    assert(pre_lt(c, u));
                    assert(pre_lt(t, u));
                    lemma_pre_trans(u, t, u);
                    lemma_pre_irrefl(u);
                }
            }
        }
    }
}

} // verus!

verus! {

/// Number of cells among the first `k` neighbor directions of `pos` whose
/// first live occupant is an enemy of `owner`.
pub open spec fn flank_count_upto(s: Seq<Unit>, pos: Pos, owner: Player, k: int) -> int
    decreases k,
{
    if k <= 0 {
        0
    } else {
        flank_count_upto(s, pos, owner, k - 1) + if enemy_first_at(
            s,
            spec_neighbor(pos, all_directions()[k - 1]),
            owner,
        ) {
            1int
        } else {
            0int
        }
    }
}

/// Number of neighbor cells of `pos` occupied by enemies of `owner`.
pub open spec fn spec_flank_count(s: Seq<Unit>, pos: Pos, owner: Player) -> int {
    flank_count_upto(s, pos, owner, 6)
}

/// The partial flank count never exceeds the number of directions
/// considered.
pub proof fn lemma_flank_count_bounds(s: Seq<Unit>, pos: Pos, owner: Player, k: int)
    requires
        0 <= k,
    ensures
        0 <= flank_count_upto(s, pos, owner, k) <= k,
    decreases k,
{
    if k > 0 {
        lemma_flank_count_bounds(s, pos, owner, k - 1);
    }
}

/// There is a reachable path of the unit's traversal ending on `pos`.
pub open spec fn spec_dest_reachable(m: LiveMap, origin: Pos, budget: nat, pos: Pos) -> bool {
    exists|dirs: Seq<Direction>|
        spec_visited(m, origin, budget, dirs) && spec_is_reachable(&m, path_from(origin, dirs))
            && path_from(origin, dirs).last() == pos
}

impl LiveMap {
    /// The terrain defense modifier the unit would enjoy where it stands,
    /// when there is one.
    fn get_terrain_modifier(&self, unit_id: UnitID) -> (r: Option<Modifier>)
        requires
            self.wf(),
            has_unit_id(self.units_seq(), unit_id),
            offset_ok(unit_by_id(self.units_seq(), unit_id).pos),
        ensures
            ({
                let tmod = spec_defense_modifier(
                    self.terrain_map().spec_at(unit_by_id(self.units_seq(), unit_id).pos),
                );
                match r {
                    Some(md) => tmod != 0 && md.spec_amount() == tmod && md.spec_modtype()
                        == ModifierType::Terrain,
                    None => tmod == 0,
                }
            }),
    {
        let unit = self.units.get(unit_id);
        let terrain = self.terrain.get_terrain(unit.pos());
        let terrain_modifier_amount = terrain.defense_modifier();
        if terrain_modifier_amount != 0 {
            Some(Modifier::new(terrain_modifier_amount, ModifierType::Terrain))
        } else {
            None
        }
    }

    /// The flanking modifier granted against the unit `against_id`: ten
    /// percent per enemy adjacent to it beyond the first.
    fn get_flanking_modifier(&self, against_id: UnitID) -> (r: Option<Modifier>)
        requires
            self.wf(),
            has_unit_id(self.units_seq(), against_id),
            box_fits(unit_by_id(self.units_seq(), against_id).pos, 1),
        ensures
            ({
                let against = unit_by_id(self.units_seq(), against_id);
                let fc = spec_flank_count(self.units_seq(), against.pos, against.owner);
                match r {
                    Some(md) => fc > 1 && md.spec_amount() == (fc - 1) * 10 && md.spec_modtype()
                        == ModifierType::Flanking,
                    None => fc <= 1,
                }
            }),
    {
        let against = *self.units.get(against_id);
        let s = Ghost(self.units_seq());
        let neighbors = against.pos().around();
        let mut flank_count: i8 = 0;
        let mut k: usize = 0;
        while k < 6
            invariant
                s@ == self.units_seq(),
                self.wf(),
                k <= 6,
                neighbors@.len() == 6,
                forall|j: int|
                    0 <= j < 6 ==> #[trigger] neighbors@[j] == spec_neighbor(
                        against.pos,
                        all_directions()[j],
                    ),
                flank_count == flank_count_upto(s@, against.pos, against.owner, k as int),
                0 <= flank_count <= k,
            decreases 6 - k,
        {
            match self.units.get_at_pos(neighbors[k]) {
                Some(u) => {
                    if u.owner() != against.owner() {
                        flank_count = flank_count + 1;
                    }
                }
                None => {}
            }
            k = k + 1;
        }
        if flank_count > 1 {
            Some(Modifier::new((flank_count - 1) * 10, ModifierType::Flanking))
        } else {
            None
        }
    }

    /// The modifier list of one combatant: its terrain defense bonus when
    /// it is the one defending, and the flanking bonus its side enjoys
    /// against `against_id`.
    fn get_unit_modifiers(&self, unit_id: UnitID, against_id: UnitID, defends: bool) -> (r: Vec<
        Modifier,
    >)
        requires
            self.wf(),
            has_unit_id(self.units_seq(), unit_id),
            has_unit_id(self.units_seq(), against_id),
            offset_ok(unit_by_id(self.units_seq(), unit_id).pos),
            box_fits(unit_by_id(self.units_seq(), against_id).pos, 1),
        ensures
            ({
                let tmod = spec_defense_modifier(
                    self.terrain_map().spec_at(unit_by_id(self.units_seq(), unit_id).pos),
                );
                let against = unit_by_id(self.units_seq(), against_id);
                let fc = spec_flank_count(self.units_seq(), against.pos, against.owner);
                let nt: int = if defends && tmod != 0 {
                    1
                } else {
                    0
                };
                let nf: int = if fc > 1 {
                    1
                } else {
                    0
                };
                &&& r@.len() == nt + nf
                &&& nt == 1 ==> r@[0].spec_amount() == tmod && r@[0].spec_modtype()
                    == ModifierType::Terrain
                &&& nf == 1 ==> r@[r@.len() - 1].spec_amount() == (fc - 1) * 10 && r@[r@.len()
                    - 1].spec_modtype() == ModifierType::Flanking
            }),
    {
        let mut result: Vec<Modifier> = Vec::new();
        if defends {
            match self.get_terrain_modifier(unit_id) {
                Some(md) => result.push(md),
                None => {}
            }
        }
        match self.get_flanking_modifier(against_id) {
            Some(md) => result.push(md),
            None => {}
        }
        result
    }
}

} // verus!

verus! {

/// A visited string of at least two steps has a visited, reachable
/// one-step-shorter prefix whose endpoint is the cell before last,
/// provided that cell is free.
proof fn lemma_prefix_reachable(m: &LiveMap, origin: Pos, budget: nat, ds: Seq<Direction>)
    requires
        m.wf(),
        spec_visited(*m, origin, budget, ds),
        ds.len() >= 2,
        spec_is_reachable(m, path_from(origin, ds)),
        !spec_occupied(m.units_seq(), path_from(origin, ds)[path_from(origin, ds).len() - 2]),
    ensures
        spec_visited(*m, origin, budget, ds.drop_last()),
        spec_is_reachable(m, path_from(origin, ds.drop_last())),
        path_from(origin, ds.drop_last()) == path_from(origin, ds).drop_last(),
        path_from(origin, ds.drop_last()).last() == path_from(origin, ds)[path_from(
            origin,
            ds,
        ).len() - 2],
{
    let pr = prune_of(*m, origin, budget as int);
    let sub = ds.drop_last();
    lemma_path_in_box(origin, ds);
    lemma_path_in_box(origin, sub);
    let cells = path_from(origin, ds);
    let subcells = path_from(origin, sub);
    assert(subcells == cells.drop_last());
    assert(visited_by(pr, budget, sub)) by {
        assert forall|k: int| 1 <= k < sub.len() implies !pr(#[trigger] sub.take(k)) by {
            assert(sub.take(k) =~= ds.take(k));
        }
    }
    assert(!pr(ds.take(ds.len() - 1)));
    assert(ds.take(ds.len() - 1) =~= sub);
    assert(!pr(sub));
    assert(spec_could_be_reachable(m, subcells));
    assert(subcells.last() == cells[cells.len() - 2]);
    assert(spec_is_reachable(m, subcells));
}

/// Any percentage a modifier list built by `get_unit_modifiers` carries
/// sums to a small non-negative total.
proof fn lemma_modifier_sum(ms: Seq<Modifier>)
    requires
        ms.len() <= 2,
        forall|i: int| 0 <= i < ms.len() ==> 0 <= (#[trigger] ms[i]).spec_amount() <= 50,
    ensures
        0 <= crate::combat::sum_amounts(ms) <= 100,
{
    if ms.len() == 2 {
        let m1 = ms.drop_last();
        assert(ms.last() == ms[1]);
        assert(crate::combat::sum_amounts(ms) == crate::combat::sum_amounts(m1)
            + ms[1].spec_amount());
        assert(m1.last() == ms[0]);
        assert(m1.drop_last() =~= Seq::<Modifier>::empty());
        assert(crate::combat::sum_amounts(m1.drop_last()) == 0);
        assert(crate::combat::sum_amounts(m1) == ms[0].spec_amount());
    } else if ms.len() == 1 {
        assert(ms.last() == ms[0]);
        assert(ms.drop_last() =~= Seq::<Modifier>::empty());
        assert(crate::combat::sum_amounts(ms.drop_last()) == 0);
    }
}

impl LiveMap {
    /// Moves the unit registered under `unit_id` to `pos`, when `pos` is
    /// reachable for it this turn.
    ///
    /// Onto a free cell the unit moves and pays the path's cost (its whole
    /// remaining budget when the path runs through enemy zones of
    /// control). Onto an enemy-held cell the unit first approaches the
    /// cell before last of the winning path, then a combat snapshot of
    /// attacker and defender is returned for the caller to confirm;
    /// nothing happens for an unreachable destination.
    #[verifier::rlimit(100)]
    pub fn moveunit_to(&mut self, unit_id: UnitID, pos: Pos) -> (r: Option<CombatStats>)
        requires
            old(self).wf(),
            has_unit_id(old(self).units_seq(), unit_id),
            roam_ok(unit_by_id(old(self).units_seq(), unit_id).pos),
            first_live_at(
                old(self).units_seq(),
                unit_by_id(old(self).units_seq(), unit_id).pos,
            ) == Some(unit_by_id(old(self).units_seq(), unit_id)),
        ensures
            final(self).wf(),
            final(self).terrain_map() == old(self).terrain_map(),
            final(self).spec_units().spec_max_id() == old(self).spec_units().spec_max_id(),
            final(self).units_seq().len() == old(self).units_seq().len(),
            forall|i: int|
                0 <= i < old(self).units_seq().len() && (#[trigger] old(self).units_seq()[i]).id
                    != unit_id ==> final(self).units_seq()[i] == old(self).units_seq()[i],
            ({
                let s0 = old(self).units_seq();
                let u0 = unit_by_id(s0, unit_id);
                let origin = u0.pos;
                let budget = u0.movements as nat;
                let u1 = final(self).units_seq()[index_of_id(s0, unit_id)];
                &&& u1.id == u0.id && u1.type_ == u0.type_ && u1.owner == u0.owner && u1.hp
                    == u0.hp
                &&& (!spec_dest_reachable(*old(self), origin, budget, pos) ==> r is None
                    && final(self).units_seq() == s0)
                &&& (r is None && spec_dest_reachable(*old(self), origin, budget, pos)
                    ==> !spec_occupied(s0, pos) && exists|ds: Seq<Direction>|
                    {
                        &&& #[trigger] spec_visited(*old(self), origin, budget, ds)
                        &&& spec_is_reachable(old(self), path_from(origin, ds))
                        &&& path_from(origin, ds).last() == pos
                        &&& forall|ds2: Seq<Direction>|
                            #[trigger] spec_visited(*old(self), origin, budget, ds2)
                                && spec_is_reachable(old(self), path_from(origin, ds2))
                                && path_from(origin, ds2).last() == pos ==> spec_path_cost(
                                &old(self).terrain_map(),
                                path_from(origin, ds),
                            ) <= spec_path_cost(&old(self).terrain_map(), path_from(origin, ds2))
                        &&& u1.pos == pos
                        &&& u1.movements as int == (if spec_is_exhausting(
                            old(self),
                            path_from(origin, ds),
                        ) {
                            0int
                        } else if spec_path_cost(&old(self).terrain_map(), path_from(origin, ds))
                            <= u0.movements {
                            u0.movements - spec_path_cost(
                                &old(self).terrain_map(),
                                path_from(origin, ds),
                            )
                        } else {
                            0int
                        })
                    })
                &&& (r matches Some(stats) ==> spec_occupied(s0, pos) && {
                    let defender = first_live_at(s0, pos).unwrap();
                    let s1 = final(self).units_seq();
                    let tmod = spec_defense_modifier(old(self).terrain_map().spec_at(defender.pos));
                    let fc_att = spec_flank_count(s1, defender.pos, defender.owner);
                    let fc_def = spec_flank_count(s1, u1.pos, u1.owner);
                    &&& defender.owner != u0.owner
                    &&& stats.attacker_id == unit_id
                    &&& stats.defender_id == defender.id
                    &&& stats.dmg_to_attacker == 0 && stats.dmg_to_defender == 0
                    &&& stats.wf()
                    &&& stats.attacker_starting_hp == u0.hp
                    &&& stats.defender_starting_hp == defender.hp
                    &&& stats.ranged == (crate::unit::spec_type_ranged_strength(u0.type_) > 0)
                    &&& stats.attacker_id != stats.defender_id
                    &&& u1.hp == u0.hp && u1.movements <= u0.movements
                    &&& u1.pos != pos
                    &&& stats.attacker_modifiers@.len() == (if fc_att > 1 {
                        1int
                    } else {
                        0int
                    })
                    &&& (fc_att > 1 ==> stats.attacker_modifiers@[0].spec_amount() == (fc_att - 1)
                        * 10 && stats.attacker_modifiers@[0].spec_modtype()
                        == ModifierType::Flanking)
                    &&& stats.defender_modifiers@.len() == (if tmod != 0 {
                        1int
                    } else {
                        0int
                    }) + (if fc_def > 1 {
                        1int
                    } else {
                        0int
                    })
                    &&& (tmod != 0 ==> stats.defender_modifiers@[0].spec_amount() == tmod
                        && stats.defender_modifiers@[0].spec_modtype() == ModifierType::Terrain)
                    &&& (fc_def > 1 ==> stats.defender_modifiers@[stats.defender_modifiers@.len()
                        - 1].spec_amount() == (fc_def - 1) * 10 && stats.defender_modifiers@[
                        stats.defender_modifiers@.len() - 1].spec_modtype()
                        == ModifierType::Flanking)
                })
            }),
    {
        let ghost m0 = *self;
        let ghost s0 = self.units_seq();
        let u0 = *self.units.get(unit_id);
        let origin = u0.pos;
        let ghost budget = u0.movements as nat;
        let ghost idx = index_of_id(s0, unit_id);
        proof {
            crate::unit::lemma_unit_by_id(s0, idx);
            lemma_first_live_at_mem(s0, origin);
        }
        let reachable = self.reachable_pos(unit_id);
        let path = match reachable.get(pos) {
            Some(p) => p.clone(),
            None => {
                proof {
                    if spec_dest_reachable(m0, origin, budget, pos) {
                        let ds = choose|ds: Seq<Direction>|
                            spec_visited(m0, origin, budget, ds) && spec_is_reachable(
                                &m0,
                                path_from(origin, ds),
                            ) && path_from(origin, ds).last() == pos;
                        assert(reachable.spec_has_key(pos));
                    }
                }
                return None;
            }
        };
        let ghost ds = choose|ds: Seq<Direction>|
            spec_visited(m0, origin, budget, ds) && spec_is_reachable(&m0, path_from(origin, ds))
                && reachable.spec_value(pos) == path_from(origin, ds) && path_from(
                origin,
                ds,
            ).last() == pos;
        proof {
            assert(path@ == path_from(origin, ds));
            lemma_roam_cells(origin, ds, u0.movements as int);
            assert(path@.last() == pos);
        }
        match self.units.unit_at_pos(path.to()) {
            Some(defender_id) => {
                proof {
                    lemma_first_live_at_mem(s0, pos);
                    let defender = first_live_at(s0, pos).unwrap();
                    let w = choose|w: int| 0 <= w < s0.len() && s0[w] == defender;
                    assert(has_unit_id(s0, defender_id));
                    crate::unit::lemma_unit_by_id(s0, w);
                    // The destination cannot be the origin: the mover
                    // itself holds the origin, which rules the path out
                    // as an attack there.
                    if pos == origin {
                        assert(spec_is_attack(&m0, path_from(origin, ds)));
                        assert(spec_owner_at(s0, origin) == Some(u0.owner));
                        assert(false);
                    }
                    if defender_id == unit_id {
                        assert(defender == unit_by_id(s0, unit_id));
                        assert(false);
                    }
                }
                let defender = *self.units.get(defender_id);
                if path.steps() > 1 {
                    let before = match path.before_last() {
                        Some(b) => b,
                        None => unreached(),
                    };
                    proof {
                        assert(!spec_occupied(s0, path@[path@.len() - 2])) by {
                            assert(spec_is_reachable(&m0, path_from(origin, ds)));
                            assert(spec_occupied(s0, path_from(origin, ds).last()));
                        }
                        lemma_prefix_reachable(&m0, origin, budget, ds);
                        assert(reachable.spec_has_key(before));
                    }
                    let subpath = match reachable.get(before) {
                        Some(p) => p.clone(),
                        None => unreached(),
                    };
                    let ghost dsub = choose|dsub: Seq<Direction>|
                        spec_visited(m0, origin, budget, dsub) && spec_is_reachable(
                            &m0,
                            path_from(origin, dsub),
                        ) && reachable.spec_value(before) == path_from(origin, dsub) && path_from(
                            origin,
                            dsub,
                        ).last() == before;
                    proof {
                        lemma_roam_cells(origin, dsub, u0.movements as int);
                    }
                    let lp_sub = LivePath::new(&subpath, self);
                    let scost = lp_sub.cost_u32();
                    let sexh = lp_sub.is_exhausting();
                    let c8: u8 = if scost > 255 {
                        255
                    } else {
                        scost as u8
                    };
                    let dcost = if sexh {
                        self.units.get(unit_id).movements()
                    } else {
                        c8
                    };
                    let mover = self.units.get_mut(unit_id);
                    mover.move_to(subpath.to(), dcost);
                    proof {
                        assert(self.units_seq() == s0.update(idx, self.units_seq()[idx]));
                        assert(self.units_seq()[idx].id == unit_id);
                        assert(self.units_seq()[idx].hp == u0.hp);
                        assert forall|j: int, k: int|
                            0 <= j < k < self.units_seq().len() implies (
                        #[trigger] self.units_seq()[j]).id != (#[trigger] self.units_seq()[k]).id by {
                            assert(self.units_seq()[j].id == s0[j].id);
                            assert(self.units_seq()[k].id == s0[k].id);
                        }
                        assert forall|i: int|
                            0 <= i < self.units_seq().len() implies (
                        #[trigger] self.units_seq()[i]).hp <= 100 by {
                            assert(self.units_seq()[i].id == s0[i].id);
                            if i != idx {
                                assert(self.units_seq()[i] == s0[i]);
                            }
                        }
                        assert(self.wf());
                        assert(has_unit_id(self.units_seq(), unit_id)) by {
                            assert(self.units_seq()[idx].id == unit_id);
                        }
                        assert(has_unit_id(self.units_seq(), defender_id)) by {
                            let w = index_of_id(s0, defender_id);
                            assert(self.units_seq()[w].id == defender_id);
                        }
                        crate::unit::lemma_unit_by_id(self.units_seq(), idx);
                        assert(unit_by_id(self.units_seq(), unit_id) == self.units_seq()[idx]);
                        assert(offset_ok(self.units_seq()[idx].pos)) by {
                            assert(self.units_seq()[idx].pos == path_from(origin, dsub).last());
                        }
                    }
                } else {
                    proof {
                        crate::unit::lemma_unit_by_id(self.units_seq(), idx);
                    }
                }
                proof {
                    let w = index_of_id(s0, defender_id);
                    crate::unit::lemma_unit_by_id(self.units_seq(), w);
                    assert(unit_by_id(self.units_seq(), defender_id) == s0[w]);
                    assert(s0[w] == unit_by_id(s0, defender_id));
                    assert(box_fits(unit_by_id(self.units_seq(), defender_id).pos, 1));
                }
                let attacker_modifiers = self.get_unit_modifiers(unit_id, defender_id, false);
                let defender_modifiers = self.get_unit_modifiers(defender_id, unit_id, true);
                proof {
                    let sa = self.units_seq();
                    let against_a = unit_by_id(sa, defender_id);
                    lemma_flank_count_bounds(sa, against_a.pos, against_a.owner, 6);
                    let against_d = unit_by_id(sa, unit_id);
                    lemma_flank_count_bounds(sa, against_d.pos, against_d.owner, 6);
                    lemma_defense_modifier_range(
                        self.terrain_map().spec_at(unit_by_id(sa, defender_id).pos),
                    );
                    assert forall|i: int|
                        0 <= i < attacker_modifiers@.len() implies 0 <= (
                    #[trigger] attacker_modifiers@[i]).spec_amount() <= 50 by {}
                    assert forall|i: int|
                        0 <= i < defender_modifiers@.len() implies 0 <= (
                    #[trigger] defender_modifiers@[i]).spec_amount() <= 50 by {}
                    lemma_modifier_sum(attacker_modifiers@);
                    lemma_modifier_sum(defender_modifiers@);
                }
                let combat_result = CombatStats::new(
                    self.units.get(unit_id),
                    attacker_modifiers,
                    self.units.get(defender_id),
                    defender_modifiers,
                );
                proof {
                    assert(combat_result.wf()) by {
                        assert(1 <= combat_result.attacker_base_strength) by {
                            match u0.type_ {
                                crate::unit::UnitType::Melee => {}
                                crate::unit::UnitType::Ranged => {}
                            }
                        }
                        assert(1 <= combat_result.defender_base_strength) by {
                            match unit_by_id(s0, defender_id).type_ {
                                crate::unit::UnitType::Melee => {}
                                crate::unit::UnitType::Ranged => {}
                            }
                        }
                    }
                }
                Some(combat_result)
            }
            None => {
                let lp = LivePath::new(&path, self);
                let c32 = lp.cost_u32();
                let exh = lp.is_exhausting();
                let c8: u8 = if c32 > 255 {
                    255
                } else {
                    c32 as u8
                };
                let dcost = if exh {
                    self.units.get(unit_id).movements()
                } else {
                    c8
                };
                let target = path.to();
                let mover = self.units.get_mut(unit_id);
                mover.move_to(target, dcost);
                proof {
                    assert(self.units_seq() == s0.update(idx, self.units_seq()[idx]));
                    assert(self.units_seq()[idx].id == unit_id);
                    assert forall|j: int, k: int|
                        0 <= j < k < self.units_seq().len() implies (
                    #[trigger] self.units_seq()[j]).id != (#[trigger] self.units_seq()[k]).id by {
                        assert(self.units_seq()[j].id == s0[j].id);
                        assert(self.units_seq()[k].id == s0[k].id);
                    }
                    assert forall|i: int|
                        0 <= i < self.units_seq().len() implies (
                    #[trigger] self.units_seq()[i]).hp <= 100 by {
                        if i != idx {
                            assert(self.units_seq()[i] == s0[i]);
                        }
                    }
                    assert(self.wf());
                    // The destination really is free and the chosen path
                    // is the cheapest visited reachable one to it.
                    assert(!spec_occupied(s0, pos));
                    assert forall|ds2: Seq<Direction>|
                        #[trigger] spec_visited(m0, origin, budget, ds2) && spec_is_reachable(
                            &m0,
                            path_from(origin, ds2),
                        ) && path_from(origin, ds2).last() == pos implies spec_path_cost(
                        &m0.terrain_map(),
                        path_from(origin, ds),
                    ) <= spec_path_cost(&m0.terrain_map(), path_from(origin, ds2)) by {}
                }
                None
            }
        }
    }
}

/// The defense bonus of any terrain lies between zero and twenty-five
/// percent.
proof fn lemma_defense_modifier_range(t: Terrain)
    ensures
        0 <= spec_defense_modifier(t) <= 25,
{
    match t {
        Terrain::Plain => {}
        Terrain::Grassland => {}
        Terrain::Desert => {}
        Terrain::Hill => {}
        Terrain::Mountain => {}
        Terrain::Water => {}
        Terrain::OutOfBounds => {}
    }
}

} // verus!

verus! {


/// A unit with a movement budget of zero visits no path at all, so its
/// reachable-positions map is empty by the resolver's soundness.
pub proof fn lemma_no_budget_no_visits(m: LiveMap, origin: Pos, dirs: Seq<Direction>)
    ensures
        !spec_visited(m, origin, 0, dirs),
{
}

/// The reachability result never contains the unit's own origin: with
/// every step costing at least one movement point no path re-enters it
/// for free, and the origin is held by the mover itself, which rules out
/// both a free destination and a valid attack there.
pub proof fn lemma_origin_never_reachable(m: &LiveMap, unit_id: UnitID)
    requires
        m.wf(),
        has_unit_id(m.units_seq(), unit_id),
        first_live_at(m.units_seq(), unit_by_id(m.units_seq(), unit_id).pos) == Some(
            unit_by_id(m.units_seq(), unit_id),
        ),
    ensures
        forall|dirs: Seq<Direction>|
            #[trigger] spec_visited(
                *m,
                unit_by_id(m.units_seq(), unit_id).pos,
                unit_by_id(m.units_seq(), unit_id).movements as nat,
                dirs,
            ) ==> !(spec_is_reachable(m, path_from(unit_by_id(m.units_seq(), unit_id).pos, dirs))
                && path_from(unit_by_id(m.units_seq(), unit_id).pos, dirs).last() == unit_by_id(
                m.units_seq(),
                unit_id,
            ).pos),
{
    let u0 = unit_by_id(m.units_seq(), unit_id);
    let origin = u0.pos;
    assert forall|dirs: Seq<Direction>|
        #[trigger] spec_visited(*m, origin, u0.movements as nat, dirs) implies !(
    spec_is_reachable(m, path_from(origin, dirs)) && path_from(origin, dirs).last()
        == origin) by {
        let cells = path_from(origin, dirs);
        lemma_path_in_box(origin, dirs);
        if spec_is_reachable(m, cells) && cells.last() == origin {
            assert(cells[0] == origin);
            assert(spec_occupied(m.units_seq(), origin));
            assert(spec_is_attack(m, cells));
            assert(spec_owner_at(m.units_seq(), cells[0]) == spec_owner_at(
                m.units_seq(),
                cells.last(),
            ));
            assert(false);
        }
    }
}

/// A path that crosses two consecutive enemy-zone-of-control cells, its
/// endpoint counted, blocks every extension: no longer path that begins
/// with it could ever become reachable.
pub proof fn lemma_zoc_run_blocks_extensions(m: &LiveMap, cells: Seq<Pos>, q: Seq<Pos>)
    requires
        cells.len() >= 1,
        spec_owner_at(m.units_seq(), cells[0]) is Some,
        spec_zoc_run(
            m.units_seq(),
            cells,
            spec_owner_at(m.units_seq(), cells[0]).unwrap(),
            cells.len() as int,
        ),
        q.len() > cells.len(),
        q.take(cells.len() as int) == cells,
    ensures
        !spec_could_be_reachable(m, q),
{
    let s = m.units_seq();
    let owner = spec_owner_at(s, cells[0]).unwrap();
    assert(q[0] == cells[0]) by {
        assert(q.take(cells.len() as int)[0] == q[0]);
    }
    let i = choose|i: int|
        0 <= i && i + 1 < cells.len() + 1 && i + 1 < cells.len() && spec_zoc(
            s,
            #[trigger] cells[i],
            owner,
        ) && spec_zoc(s, cells[i + 1], owner);
    assert(q[i] == cells[i] && q[i + 1] == cells[i + 1]) by {
        assert(q.take(cells.len() as int)[i] == q[i]);
        assert(q.take(cells.len() as int)[i + 1] == q[i + 1]);
    }
    assert(i + 1 < q.len() - 1);
    assert(spec_zoc_run(s, q, owner, q.len() - 1));
}

impl LiveMap {
    /// Returns the first passable tile at or after `from`, scanning the
    /// map's tiles row by row from that position on; there must be one.
    pub fn first_passable(&self, from: Pos) -> (r: Pos)
        requires
            self.wf(),
            self.terrain_map().spec_width() >= 1,
            offset_ok(from),
            0 <= crate::hexpos::spec_to_offset(from).0 < self.terrain_map().spec_width(),
            0 <= crate::hexpos::spec_to_offset(from).1 < self.terrain_map().spec_height(),
            exists|j: int|
                tile_index_of(&self.terrain_map(), from) <= j < self.terrain_map().grid().len()
                    && tile_passable(self, j),
        ensures
            ({
                let start = tile_index_of(&self.terrain_map(), from);
                exists|j: int|
                    {
                        &&& start <= j < self.terrain_map().grid().len()
                        &&& #[trigger] tile_passable(self, j)
                        &&& r == TilesIterator::spec_tile_pos(&self.terrain_map(), j)
                        &&& forall|j2: int| start <= j2 < j ==> !tile_passable(self, j2)
                    }
            }),
    {
        let w = self.terrain.size().0 as usize;
        let opos = from.to_offset_pos();
        let ghost start = tile_index_of(&self.terrain_map(), from);
        proof {
            let ww = self.terrain_map().spec_width();
            let hh = self.terrain_map().spec_height();
            assert(opos.y * ww + opos.x < hh * ww) by (nonlinear_arith)
                requires
                    0 <= opos.x < ww,
                    0 <= opos.y < hh,
            ;
            assert(hh * ww == ww * hh) by (nonlinear_arith);
            assert(opos.y * ww >= 0) by (nonlinear_arith)
                requires
                    opos.y >= 0,
                    ww >= 0,
            ;
        }
        let mut j: usize = (opos.y as usize) * w + (opos.x as usize);
        proof {
            assert(j == start);
            let jw = choose|jw: int|
                start <= jw < self.terrain_map().grid().len() && tile_passable(self, jw);
            assert(j <= jw);
        }
        loop
            invariant
                self.wf(),
                self.terrain_map().spec_width() >= 1,
                w == self.terrain_map().spec_width(),
                start == tile_index_of(&self.terrain_map(), from),
                start <= j,
                exists|jw: int|
                    j <= jw < self.terrain_map().grid().len() && #[trigger] tile_passable(
                        self,
                        jw,
                    ),
                forall|j2: int| start <= j2 < j ==> !tile_passable(self, j2),
            decreases self.terrain_map().grid().len() - j,
        {
            proof {
                let jw = choose|jw: int|
                    j <= jw < self.terrain_map().grid().len() && #[trigger] tile_passable(
                        self,
                        jw,
                    );
            }
            let y = (j / w) as i32;
            let x = (j % w) as i32;
            proof {
                lemma_tile_pos_ok(&self.terrain_map(), j as int);
            }
            let pos = crate::hexpos::OffsetPos::new(x, y).to_pos();
            proof {
                assert(pos == TilesIterator::spec_tile_pos(&self.terrain_map(), j as int));
                lemma_tile_round_trip(&self.terrain_map(), j as int);
            }
            if self.is_pos_passable(pos) {
                proof {
                    assert(tile_passable(self, j as int));
                }
                return pos;
            }
            proof {
                assert(!tile_passable(self, j as int));
            }
            j = j + 1;
        }
    }
}

/// The storage index of the tile at `pos` (meaningful only for in-bounds
/// positions).
pub open spec fn tile_index_of(tm: &TerrainMap, pos: Pos) -> int {
    let (ox, oy) = crate::hexpos::spec_to_offset(pos);
    oy * tm.spec_width() + ox
}

/// The tile at storage index `j` is passable terrain with no unit on it.
pub open spec fn tile_passable(m: &LiveMap, j: int) -> bool {
    let pos = TilesIterator::spec_tile_pos(&m.terrain_map(), j);
    spec_is_passable(m.terrain_map().spec_at(pos)) && !spec_occupied(m.units_seq(), pos)
}

/// The position of an in-range tile index is representable and converts
/// back to in-bounds offset coordinates.
proof fn lemma_tile_pos_ok(tm: &TerrainMap, j: int)
    requires
        tm.wf(),
        tm.spec_width() >= 1,
        0 <= j < tm.grid().len(),
    ensures
        0 <= j / tm.spec_width() < tm.spec_height(),
        0 <= j % tm.spec_width() < tm.spec_width(),
        tm.spec_width() <= i32::MAX,
        tm.spec_height() <= i32::MAX,
        ({
            let oy = j / tm.spec_width();
            let ox = j % tm.spec_width();
            &&& i32::MIN <= -oy - crate::hexpos::div2_trunc(ox) - crate::hexpos::rem2_trunc(ox)
                <= i32::MAX
            &&& i32::MIN <= oy - crate::hexpos::div2_trunc(ox) <= i32::MAX
        }),
{
    let w = tm.spec_width();
    let h = tm.spec_height();
    assert(h >= 1) by (nonlinear_arith)
        requires
            0 <= j,
            j < w * h,
            w >= 1,
            h >= 0,
    ;
    assert(w <= w * h && h <= w * h) by (nonlinear_arith)
        requires
            w >= 1,
            h >= 1,
    ;
    assert(j / w < h) by (nonlinear_arith)
        requires
            w >= 1,
            0 <= j,
            j < w * h,
    ;
    assert(0 <= j / w) by (nonlinear_arith)
        requires
            w >= 1,
            0 <= j,
    ;
    assert((w - 1) * (h - 1) >= 0) by (nonlinear_arith)
        requires
            w >= 1,
            h >= 1,
    ;
    assert(w * h - w - h + 1 >= 0) by (nonlinear_arith)
        requires
            (w - 1) * (h - 1) >= 0,
    ;
    let ox = j % w;
    assert(0 <= crate::hexpos::div2_trunc(ox) <= ox);
    assert(0 <= crate::hexpos::rem2_trunc(ox) <= 1);
}

/// Converting an in-bounds tile index to a cube position and back to
/// offset coordinates returns the same tile.
proof fn lemma_tile_round_trip(tm: &TerrainMap, j: int)
    requires
        tm.wf(),
        tm.spec_width() >= 1,
        0 <= j < tm.grid().len(),
    ensures
        tile_index_of(tm, TilesIterator::spec_tile_pos(tm, j)) == j,
        tm.spec_at(TilesIterator::spec_tile_pos(tm, j)) == tm.grid()[j],
{
    lemma_tile_pos_ok(tm, j);
    let w = tm.spec_width();
    let oy = j / w;
    let ox = j % w;
    let (cx, cy, cz) = crate::hexpos::spec_offset_to_cube(ox, oy);
    let p = TilesIterator::spec_tile_pos(tm, j);
    assert(p.x == cx && p.z == cz);
    assert(cz + crate::hexpos::div2_trunc(cx) == oy) by {
        assert(2 * crate::hexpos::div2_trunc(ox) + crate::hexpos::rem2_trunc(ox) == ox);
    }
    assert(crate::hexpos::spec_to_offset(p) == (ox, oy));
    assert(oy * w + ox == j) by (nonlinear_arith)
        requires
            w >= 1,
            0 <= j,
            oy == j / w,
            ox == j % w,
    ;
}

} // verus!
