//! The trivial random-wander behavior of enemy units.

use vstd::prelude::*;
use crate::combat::draw_uniform;
use crate::hexpos::{path_from, Direction, Pos};
use crate::map::{
    roam_ok, spec_dest_reachable, spec_is_attack, spec_is_reachable, spec_visited, LiveMap,
    LivePath,
};
use crate::terrain::spec_path_cost;
use crate::unit::{first_live_at, has_unit_id, index_of_id, unit_by_id, UnitID};

verus! {


/// The destination at one index of the candidate list: some visited
/// reachable non-attack path of cost exactly `mv` ends there, and the map
/// stores that path for it.
spec fn good_choice(
    m0: LiveMap,
    origin: Pos,
    budget: nat,
    mv: int,
    reachable: crate::map::PathMap,
    dest: Pos,
) -> bool {
    exists|ds: Seq<Direction>|
        {
            &&& #[trigger] spec_visited(m0, origin, budget, ds)
            &&& spec_is_reachable(&m0, path_from(origin, ds))
            &&& !spec_is_attack(&m0, path_from(origin, ds))
            &&& path_from(origin, ds).last() == dest
            &&& reachable.spec_value(dest) == path_from(origin, ds)
            &&& spec_path_cost(&m0.terrain_map(), path_from(origin, ds)) == mv
        }
}

/// Makes the unit wander: it picks, uniformly at random, one reachable
/// destination whose path is no attack and costs exactly its remaining
/// movement points, and moves there; with no such destination it stays
/// put.
pub fn wander(unit_id: UnitID, map: &mut LiveMap)
    requires
        old(map).wf(),
        has_unit_id(old(map).units_seq(), unit_id),
        roam_ok(unit_by_id(old(map).units_seq(), unit_id).pos),
        first_live_at(
            old(map).units_seq(),
            unit_by_id(old(map).units_seq(), unit_id).pos,
        ) == Some(unit_by_id(old(map).units_seq(), unit_id)),
    ensures
        final(map).wf(),
        final(map).terrain_map() == old(map).terrain_map(),
        final(map).spec_units().spec_max_id() == old(map).spec_units().spec_max_id(),
        final(map).units_seq().len() == old(map).units_seq().len(),
        forall|i: int|
            0 <= i < old(map).units_seq().len() && (#[trigger] old(map).units_seq()[i]).id
                != unit_id ==> final(map).units_seq()[i] == old(map).units_seq()[i],
        ({
            let s0 = old(map).units_seq();
            let u0 = unit_by_id(s0, unit_id);
            let u1 = final(map).units_seq()[index_of_id(s0, unit_id)];
            &&& u1.id == u0.id && u1.type_ == u0.type_ && u1.owner == u0.owner && u1.hp == u0.hp
            &&& {
                ||| u1 == u0
                ||| (u1.movements == 0 && exists|ds: Seq<Direction>|
                    {
                        &&& #[trigger] spec_visited(*old(map), u0.pos, u0.movements as nat, ds)
                        &&& spec_is_reachable(old(map), path_from(u0.pos, ds))
                        &&& !spec_is_attack(old(map), path_from(u0.pos, ds))
                        &&& path_from(u0.pos, ds).last() == u1.pos
                        &&& spec_path_cost(
                            &old(map).terrain_map(),
                            path_from(u0.pos, ds),
                        ) == u0.movements
                    })
            }
        }),
{
    let ghost m0 = *map;
    let ghost s0 = map.units_seq();
    let u0 = *map.units().get(unit_id);
    let ghost origin = u0.pos;
    let ghost budget = u0.movements as nat;
    proof {
        crate::unit::lemma_unit_by_id(s0, index_of_id(s0, unit_id));
    }
    let target_cost = u0.movements;
    let reachable = map.reachable_pos(unit_id);
    if reachable.is_empty() {
        return;
    }
    let mut choices: Vec<Pos> = Vec::new();
    let mut i: usize = 0;
    let n = reachable.len();
    while i < n
        invariant
            map.wf(),
            m0 == *map,
            s0 == map.units_seq(),
            has_unit_id(s0, unit_id),
            u0 == unit_by_id(s0, unit_id),
            origin == u0.pos,
            budget == u0.movements as nat,
            target_cost == u0.movements,
            roam_ok(origin),
            reachable.wf(),
            n == reachable.entries_seq().len(),
            i <= n,
            forall|dest: Pos|
                #[trigger] reachable.spec_has_key(dest) ==> exists|ds: Seq<Direction>|
                    spec_visited(m0, origin, budget, ds) && spec_is_reachable(
                        &m0,
                        path_from(origin, ds),
                    ) && reachable.spec_value(dest) == path_from(origin, ds) && path_from(
                        origin,
                        ds,
                    ).last() == dest,
            forall|ds: Seq<Direction>|
                #[trigger] spec_visited(m0, origin, budget, ds) && spec_is_reachable(
                    &m0,
                    path_from(origin, ds),
                ) ==> reachable.spec_has_key(path_from(origin, ds).last()) && spec_path_cost(
                    &m0.terrain_map(),
                    reachable.spec_value(path_from(origin, ds).last()),
                ) <= spec_path_cost(&m0.terrain_map(), path_from(origin, ds)),
            forall|k: int|
                0 <= k < choices@.len() ==> #[trigger] good_choice(
                    m0,
                    origin,
                    budget,
                    u0.movements as int,
                    reachable,
                    choices@[k],
                ),
        decreases n - i,
    {
        let entry = reachable.entry_at(i);
        let ghost ds = choose|ds: Seq<Direction>|
            spec_visited(m0, origin, budget, ds) && spec_is_reachable(&m0, path_from(origin, ds))
                && reachable.spec_value(entry.0) == path_from(origin, ds) && path_from(
                origin,
                ds,
            ).last() == entry.0;
        proof {
            crate::map::lemma_roam_cells(origin, ds, u0.movements as int);
        }
        let lp = LivePath::new(&entry.1, map);
        if !lp.is_attack() && lp.cost_u32() == target_cost as u32 {
            let dest = entry.0;
            let ghost c0 = choices@;
            choices.push(dest);
            proof {
                assert(lp.spec_map() == m0);
                assert(lp.cells() == path_from(origin, ds));
                assert(good_choice(m0, origin, budget, u0.movements as int, reachable, dest)) by {
                    assert(spec_visited(m0, origin, budget, ds) && spec_is_reachable(
                        &m0,
                        path_from(origin, ds),
                    ) && !spec_is_attack(&m0, path_from(origin, ds)) && path_from(
                        origin,
                        ds,
                    ).last() == dest && reachable.spec_value(dest) == path_from(origin, ds)
                        && spec_path_cost(&m0.terrain_map(), path_from(origin, ds))
                        == u0.movements);
                }
                assert forall|k: int|
                    0 <= k < choices@.len() implies #[trigger] good_choice(
                    m0,
                    origin,
                    budget,
                    u0.movements as int,
                    reachable,
                    choices@[k],
                ) by {
                    if k < c0.len() {
                        assert(choices@[k] == c0[k]);
                        assert(good_choice(
                            m0,
                            origin,
                            budget,
                            u0.movements as int,
                            reachable,
                            c0[k],
                        ));
                    } else {
                        assert(choices@[k] == dest);
                    }
                }
            }
        }
        i = i + 1;
    }
    if choices.len() == 0 {
        return;
    }
    let k = draw_uniform(0, (choices.len() - 1) as u64) as usize;
    let target = choices[k];
    proof {
        assert(choices@[k as int] == target);
        assert(good_choice(m0, origin, budget, u0.movements as int, reachable, target));
    }
    let ghost ds_w = choose|ds: Seq<Direction>|
        {
            &&& spec_visited(m0, origin, budget, ds)
            &&& spec_is_reachable(&m0, path_from(origin, ds))
            &&& !spec_is_attack(&m0, path_from(origin, ds))
            &&& path_from(origin, ds).last() == target
            &&& reachable.spec_value(target) == path_from(origin, ds)
            &&& spec_path_cost(&m0.terrain_map(), path_from(origin, ds)) == u0.movements
        };
    proof {
        // The chosen destination is free: its path is reachable but no
        // attack, so no live unit holds it and the move below cannot
        // produce a combat snapshot.
        assert(spec_dest_reachable(m0, origin, budget, target));
        assert(!crate::map::spec_occupied(s0, path_from(origin, ds_w).last()));
    }
    let r = map.moveunit_to(unit_id, target);
    proof {
        assert(r is None);
        let ds2 = choose|ds2: Seq<Direction>|
            {
                &&& #[trigger] spec_visited(m0, origin, budget, ds2)
                &&& spec_is_reachable(&m0, path_from(origin, ds2))
                &&& path_from(origin, ds2).last() == target
                &&& forall|ds3: Seq<Direction>|
                    #[trigger] spec_visited(m0, origin, budget, ds3) && spec_is_reachable(
                        &m0,
                        path_from(origin, ds3),
                    ) && path_from(origin, ds3).last() == target ==> spec_path_cost(
                        &m0.terrain_map(),
                        path_from(origin, ds2),
                    ) <= spec_path_cost(&m0.terrain_map(), path_from(origin, ds3))
                &&& map.units_seq()[index_of_id(s0, unit_id)].pos == target
                &&& map.units_seq()[index_of_id(s0, unit_id)].movements as int == (
                if crate::map::spec_is_exhausting(&m0, path_from(origin, ds2)) {
                    0int
                } else if spec_path_cost(&m0.terrain_map(), path_from(origin, ds2))
                    <= u0.movements {
                    u0.movements - spec_path_cost(&m0.terrain_map(), path_from(origin, ds2))
                } else {
                    0int
                })
            };
        // The path the mover took costs exactly the budget: it is minimal
        // among the visited reachable paths to the destination, and the
        // chosen one already costs the budget while the map stores a
        // cheapest one.
        assert(spec_path_cost(&m0.terrain_map(), path_from(origin, ds2)) <= u0.movements);
        assert(spec_path_cost(&m0.terrain_map(), path_from(origin, ds_w)) <= spec_path_cost(
            &m0.terrain_map(),
            path_from(origin, ds2),
        ));
        assert(map.units_seq()[index_of_id(s0, unit_id)].movements == 0);
    }
}

} // verus!
