use civng::hexpos::{Direction, OffsetPos, Pos};
use civng::map::{LiveMap, LivePath};
use civng::selection::Selection;
use civng::terrain::{Terrain, TerrainMap};
use civng::unit::{Player, Unit, UnitType};
use civng::ai::wander;

fn opos(x: i32, y: i32) -> Pos {
    OffsetPos::new(x, y).to_pos()
}

fn map_with_hill(w: i32, h: i32, hill_at: (i32, i32)) -> TerrainMap {
    let mut data = vec![Terrain::Grassland; (w * h) as usize];
    data[(hill_at.1 * w + hill_at.0) as usize] = Terrain::Hill;
    TerrainMap::new(w, h, data)
}

#[test]
fn terrain_properties() {
    assert!(Terrain::Grassland.is_passable());
    assert!(!Terrain::Mountain.is_passable());
    assert!(!Terrain::Water.is_passable());
    assert!(!Terrain::OutOfBounds.is_passable());
    assert_eq!(Terrain::Hill.movement_cost(), 2);
    assert_eq!(Terrain::Plain.movement_cost(), 1);
    assert_eq!(Terrain::Hill.defense_modifier(), 25);
    assert_eq!(Terrain::Desert.defense_modifier(), 0);
    assert_eq!(Terrain::Mountain.map_char(), 'A');
    assert_eq!(Terrain::Water.name(), "Water");
    assert_eq!(Terrain::all().len(), 6);
}

#[test]
fn get_terrain_reports_out_of_bounds() {
    let tm = TerrainMap::empty_map(2, 2);
    assert_eq!(tm.size(), (2, 2));
    assert_eq!(tm.get_terrain(opos(0, 0)), Terrain::Grassland);
    assert_eq!(tm.get_terrain(opos(2, 0)), Terrain::OutOfBounds);
    assert_eq!(tm.get_terrain(opos(-1, 0)), Terrain::OutOfBounds);
}

#[test]
fn tiles_iterator_walks_all_tiles() {
    let tm = map_with_hill(3, 2, (1, 1));
    let mut it = tm.tiles();
    let mut count = 0;
    let mut hills = 0;
    while let Some((pos, t)) = it.next() {
        count += 1;
        if matches!(t, Terrain::Hill) {
            hills += 1;
            assert_eq!(pos, opos(1, 1));
        }
    }
    assert_eq!(count, 6);
    assert_eq!(hills, 1);
}

#[test]
fn units_registry_assigns_ids_and_finds_by_pos() {
    let mut map = LiveMap::new(TerrainMap::empty_map(4, 4));
    map.add_unit(Unit::new(UnitType::Melee, Player::Me, opos(1, 1)));
    map.add_unit(Unit::new(UnitType::Ranged, Player::NotMe, opos(2, 2)));
    assert_eq!(map.units().max_id(), 2);
    assert_eq!(map.units().unit_at_pos(opos(1, 1)), Some(1));
    assert_eq!(map.units().unit_at_pos(opos(2, 2)), Some(2));
    assert_eq!(map.units().unit_at_pos(opos(0, 0)), None);
    assert_eq!(map.units().get(1).owner(), Player::Me);
    assert_eq!(map.units().get(2).map_symbol(), 'R');
    assert_eq!(map.units().get(1).name(), "Melee");
    assert_eq!(map.units().all_units(), vec![1, 2]);
    assert_eq!(map.units().my_units(), vec![1]);
    assert_eq!(map.units().enemy_units(), vec![2]);
}

#[test]
fn refresh_restores_movement_and_purges_dead() {
    let mut units = civng::unit::Units::new();
    units.add_unit(Unit::new(UnitType::Melee, Player::Me, opos(1, 1)));
    units.add_unit(Unit::new(UnitType::Melee, Player::NotMe, opos(2, 2)));
    assert!(units.get(1).is_exhausted());
    units.refresh();
    assert_eq!(units.get(1).movements(), 2);
    assert_eq!(units.all_units(), vec![1, 2]);
    // Kill unit 2 and refresh again: it is purged.
    units.get_mut(2).hp = 0;
    assert!(units.get(2).is_dead());
    assert_eq!(units.all_units(), vec![1]);
    units.refresh();
    assert_eq!(units.all_units(), vec![1]);
    assert_eq!(units.unit_at_pos(opos(2, 2)), None);
    // Moving deducts at most the remaining budget.
    let u = units.get_mut(1);
    u.move_to(opos(1, 2), 5);
    assert_eq!(u.movements(), 0);
    assert_eq!(u.pos(), opos(1, 2));
}

#[test]
fn next_active_unit_cycles() {
    let mut map = LiveMap::new(TerrainMap::empty_map(6, 6));
    map.add_unit(Unit::new(UnitType::Melee, Player::Me, opos(1, 1)));
    map.add_unit(Unit::new(UnitType::Melee, Player::Me, opos(2, 2)));
    map.add_unit(Unit::new(UnitType::Melee, Player::NotMe, opos(3, 3)));
    map.refresh();
    assert_eq!(map.units().next_active_unit(0), Some(1));
    assert_eq!(map.units().next_active_unit(1), Some(2));
    // After the last one, the smallest activatable id comes again.
    assert_eq!(map.units().next_active_unit(2), Some(1));
}

#[test]
fn is_pos_passable_accounts_for_units_and_terrain() {
    let mut data = vec![Terrain::Grassland; 16];
    data[5] = Terrain::Water;
    let mut map = LiveMap::new(TerrainMap::new(4, 4, data));
    map.add_unit(Unit::new(UnitType::Melee, Player::Me, opos(2, 2)));
    assert!(map.is_pos_passable(opos(0, 0)));
    assert!(!map.is_pos_passable(opos(1, 1)));
    assert!(!map.is_pos_passable(opos(2, 2)));
}

#[test]
fn first_passable_skips_taken_and_impassable_cells() {
    let mut data = vec![Terrain::Grassland; 9];
    data[0] = Terrain::Water;
    let mut map = LiveMap::new(TerrainMap::new(3, 3, data));
    map.add_unit(Unit::new(UnitType::Melee, Player::Me, opos(1, 0)));
    // Water at (0,0), a unit at (1,0): the first passable tile is (2,0).
    assert_eq!(map.first_passable(opos(0, 0)), opos(2, 0));
}

#[test]
fn selection_tracks_active_unit() {
    let mut sel = Selection::new();
    assert!(!sel.is_unit_active(1));
    sel.unit_id = Some(1);
    assert!(sel.is_unit_active(1));
    assert!(!sel.is_unit_active(2));
}

#[test]
fn budget_zero_reaches_nothing() {
    let mut map = LiveMap::new(TerrainMap::empty_map(5, 5));
    map.add_unit(Unit::new(UnitType::Melee, Player::Me, opos(2, 2)));
    // A fresh unit has zero movement points until the turn starts.
    let r = map.reachable_pos(1);
    assert!(r.is_empty());
}

#[test]
fn open_ground_reach_covers_two_rings() {
    let mut map = LiveMap::new(TerrainMap::empty_map(7, 7));
    map.add_unit(Unit::new(UnitType::Melee, Player::Me, opos(3, 3)));
    map.refresh();
    let r = map.reachable_pos(1);
    // Six cells at distance one plus twelve at distance two.
    assert_eq!(r.len(), 18);
    // The origin itself is never reachable.
    assert!(!r.contains_key(opos(3, 3)));
}

#[test]
fn hill_step_consumes_whole_budget() {
    // A unit with exactly two movement points steps onto a hill of cost
    // two, succeeds, ends with nothing left, and can then reach nothing.
    let tm = map_with_hill(3, 3, (1, 2));
    let mut map = LiveMap::new(tm);
    map.add_unit(Unit::new(UnitType::Melee, Player::Me, opos(1, 1)));
    map.refresh();
    let hill = opos(1, 2);
    let r = map.moveunit_to(1, hill);
    assert!(r.is_none());
    assert_eq!(map.units().get(1).pos(), hill);
    assert_eq!(map.units().get(1).movements(), 0);
    assert!(map.units().get(1).is_exhausted());
    let r2 = map.reachable_pos(1);
    assert!(r2.is_empty());
    // A further move attempt does nothing.
    assert!(map.moveunit_to(1, opos(1, 1)).is_none());
    assert_eq!(map.units().get(1).pos(), hill);
}

#[test]
fn unreachable_destination_is_refused() {
    let mut map = LiveMap::new(TerrainMap::empty_map(8, 8));
    map.add_unit(Unit::new(UnitType::Melee, Player::Me, opos(1, 1)));
    map.refresh();
    let far = opos(6, 6);
    assert!(map.moveunit_to(1, far).is_none());
    assert_eq!(map.units().get(1).pos(), opos(1, 1));
    assert_eq!(map.units().get(1).movements(), 2);
}

#[test]
fn livepath_classifies_costs_and_attacks() {
    let tm = map_with_hill(4, 4, (1, 2));
    let mut map = LiveMap::new(tm);
    map.add_unit(Unit::new(UnitType::Melee, Player::Me, opos(1, 1)));
    map.add_unit(Unit::new(UnitType::Melee, Player::NotMe, opos(2, 2)));
    map.refresh();
    let mut path = civng::hexpos::PosPath::new(opos(1, 1));
    path.push(opos(1, 2));
    let lp = LivePath::new(&path, &map);
    assert!(lp.could_be_reachable());
    assert!(lp.is_reachable());
    assert!(!lp.is_attack());
    assert_eq!(lp.cost(), 2);
    let mut attack = civng::hexpos::PosPath::new(opos(1, 1));
    attack.push(opos(2, 2));
    let lp2 = LivePath::new(&attack, &map);
    assert!(lp2.is_attack());
    assert!(lp2.is_reachable());
}

#[test]
fn zoc_pair_blocks_extension_beyond_it() {
    // An enemy adjacent to both the first and the second step of a
    // straight line puts both cells under its zone of control: the mover
    // may still end on the second cell (exhausting its budget), but no
    // cell beyond it is reachable through that line.
    let mut map = LiveMap::new(TerrainMap::empty_map(9, 9));
    let start = opos(4, 2);
    let s1 = start.neighbor(Direction::South);
    let s2 = s1.neighbor(Direction::South);
    let s3 = s2.neighbor(Direction::South);
    let blocker = s1.neighbor(Direction::SouthEast);
    let mut mover = Unit::new(UnitType::Melee, Player::Me, start);
    mover.movements = 3;
    mover.hp = 100;
    map.add_unit(mover);
    map.add_unit(Unit::new(UnitType::Melee, Player::NotMe, blocker));
    let r = map.reachable_pos(1);
    assert!(r.contains_key(s1));
    assert!(r.contains_key(s2));
    assert!(!r.contains_key(s3));
    // Without the blocker the third cell is reachable.
    let mut free = LiveMap::new(TerrainMap::empty_map(9, 9));
    let mut mover2 = Unit::new(UnitType::Melee, Player::Me, start);
    mover2.movements = 3;
    free.add_unit(mover2);
    let r2 = free.reachable_pos(1);
    assert!(r2.contains_key(s3));
    // Ending on the second zone-of-control cell consumes the whole
    // budget regardless of its terrain cost.
    assert!(map.moveunit_to(1, s2).is_none());
    assert_eq!(map.units().get(1).pos(), s2);
    assert_eq!(map.units().get(1).movements(), 0);
}

#[test]
fn melee_attack_returns_symmetric_preview_and_resolves() {
    // Unit A (melee, strength 8, 100 hp) attacks a stationary unit B on
    // flat terrain with no flanking: both previewed ranges are [40, 70].
    let mut map = LiveMap::new(TerrainMap::empty_map(5, 5));
    let a_pos = opos(1, 1);
    let b_pos = opos(1, 2);
    map.add_unit(Unit::new(UnitType::Melee, Player::Me, a_pos));
    map.add_unit(Unit::new(UnitType::Melee, Player::NotMe, b_pos));
    map.refresh();
    let stats = map.moveunit_to(1, b_pos);
    assert!(stats.is_some());
    let mut stats = stats.unwrap();
    assert_eq!(stats.attacker_id, 1);
    assert_eq!(stats.defender_id, 2);
    assert_eq!(stats.attacker_modifiers_total(), 0);
    assert_eq!(stats.defender_modifiers_total(), 0);
    assert_eq!(stats.dmgrange_to_defender(), (40, 70));
    assert_eq!(stats.dmgrange_to_attacker(), (40, 70));
    // The attacker has not taken the defender's cell yet.
    assert_eq!(map.units().get(1).pos(), a_pos);
    map.attack(&mut stats);
    let a = map.units().get(1);
    let b = map.units().get(2);
    assert_eq!(a.movements(), 0);
    assert!(a.hp() >= 30 && a.hp() <= 60);
    assert!(b.hp() >= 30 && b.hp() <= 60);
}

#[test]
fn defender_on_hill_gets_terrain_modifier_only_when_defending() {
    let tm = map_with_hill(5, 5, (1, 2));
    let mut map = LiveMap::new(tm);
    map.add_unit(Unit::new(UnitType::Melee, Player::Me, opos(1, 1)));
    map.add_unit(Unit::new(UnitType::Melee, Player::NotMe, opos(1, 2)));
    map.refresh();
    let stats = map.moveunit_to(1, opos(1, 2)).unwrap();
    // The defender sits on a hill: +25% for it, nothing for the attacker.
    assert_eq!(stats.defender_modifiers_total(), 25);
    assert_eq!(stats.attacker_modifiers_total(), 0);
    assert_eq!(stats.defender_modifiers.len(), 1);
    assert_eq!(stats.defender_modifiers[0].amount(), 25);
    assert_eq!(stats.defender_modifiers[0].description(), "+25% Terrain");
    assert_eq!(stats.attacker_modifiers.len(), 0);
    // The defender hits harder than on flat ground.
    let mut flat = LiveMap::new(TerrainMap::empty_map(5, 5));
    flat.add_unit(Unit::new(UnitType::Melee, Player::Me, opos(1, 1)));
    flat.add_unit(Unit::new(UnitType::Melee, Player::NotMe, opos(1, 2)));
    flat.refresh();
    let flat_stats = flat.moveunit_to(1, opos(1, 2)).unwrap();
    let (h_lo, h_hi) = stats.dmgrange_to_attacker();
    let (f_lo, f_hi) = flat_stats.dmgrange_to_attacker();
    assert!(h_lo >= f_lo && h_hi >= f_hi);
    assert!(h_hi > f_hi);
}

#[test]
fn three_flankers_grant_twenty_percent() {
    let mut map = LiveMap::new(TerrainMap::empty_map(7, 7));
    let center = opos(3, 3);
    map.add_unit(Unit::new(UnitType::Melee, Player::NotMe, center));
    map.add_unit(Unit::new(UnitType::Melee, Player::Me, center.neighbor(Direction::North)));
    map.add_unit(Unit::new(UnitType::Melee, Player::Me, center.neighbor(Direction::NorthEast)));
    map.add_unit(Unit::new(UnitType::Melee, Player::Me, center.neighbor(Direction::SouthEast)));
    map.refresh();
    let stats = map.moveunit_to(2, center).unwrap();
    // flank count 3 gives (3 - 1) * 10 percent to the attacking side.
    assert_eq!(stats.attacker_modifiers_total(), 20);
    assert_eq!(stats.defender_modifiers_total(), 0);
    assert_eq!(stats.attacker_modifiers.len(), 1);
    assert_eq!(stats.attacker_modifiers[0].amount(), 20);
    assert_eq!(stats.attacker_modifiers[0].description(), "+20% Flanking");
    assert_eq!(stats.defender_modifiers.len(), 0);
}

#[test]
fn capture_happens_when_defender_dies() {
    let mut map = LiveMap::new(TerrainMap::empty_map(5, 5));
    let a_pos = opos(1, 1);
    let b_pos = opos(1, 2);
    map.add_unit(Unit::new(UnitType::Melee, Player::Me, a_pos));
    let mut weak = Unit::new(UnitType::Melee, Player::NotMe, b_pos);
    weak.hp = 10;
    map.add_unit(weak);
    map.refresh();
    let mut stats = map.moveunit_to(1, b_pos).unwrap();
    map.attack(&mut stats);
    // Damage is at least 40, so the 10-hp defender always dies and the
    // attacker captures its position.
    assert_eq!(map.units().get(2).hp(), 0);
    assert_eq!(map.units().get(1).pos(), b_pos);
    assert_eq!(map.units().get(1).movements(), 0);
    // Refreshing purges the dead defender.
    map.refresh();
    assert_eq!(map.units().all_units(), vec![1]);
}

#[test]
fn wander_spends_the_whole_budget() {
    let mut map = LiveMap::new(TerrainMap::empty_map(9, 9));
    map.add_unit(Unit::new(UnitType::Melee, Player::NotMe, opos(4, 4)));
    map.refresh();
    wander(1, &mut map);
    let u = map.units().get(1);
    assert!(u.is_exhausted());
    assert_ne!(u.pos(), opos(4, 4));
    assert_eq!(u.hp(), 100);
}

#[test]
fn approach_move_precedes_a_two_step_attack() {
    // The defender sits two steps away; the attacker first moves to the
    // free cell before it, then the combat preview is returned.
    let mut map = LiveMap::new(TerrainMap::empty_map(7, 7));
    let start = opos(3, 1);
    let mid = start.neighbor(Direction::South);
    let target = mid.neighbor(Direction::South);
    map.add_unit(Unit::new(UnitType::Melee, Player::Me, start));
    map.add_unit(Unit::new(UnitType::Melee, Player::NotMe, target));
    map.refresh();
    let stats = map.moveunit_to(1, target);
    assert!(stats.is_some());
    assert_eq!(map.units().get(1).pos(), mid);
}

#[test]
fn terrain_map_movement_cost_sums_cells_after_origin() {
    let tm = map_with_hill(4, 4, (1, 2));
    let mut path = civng::hexpos::PosPath::new(opos(1, 1));
    path.push(opos(1, 2));
    path.push(opos(1, 3));
    // One hill (2) plus one grassland (1); the origin cell is free.
    assert_eq!(tm.movement_cost(&path), 3);
}

#[test]
fn unit_type_tables() {
    assert_eq!(UnitType::Melee.strength(), 8);
    assert_eq!(UnitType::Ranged.strength(), 5);
    assert_eq!(UnitType::Melee.ranged_strength(), 0);
    assert_eq!(UnitType::Ranged.ranged_strength(), 5);
    assert_eq!(UnitType::Melee.range(), 0);
    assert_eq!(UnitType::Ranged.range(), 2);
    assert_eq!(UnitType::Melee.movements_per_turn(), 2);
    assert_eq!(UnitType::Ranged.name(), "Ranged");
}

#[test]
fn ranged_attack_takes_no_counter_damage_end_to_end() {
    let mut map = LiveMap::new(TerrainMap::empty_map(5, 5));
    let a_pos = opos(1, 1);
    let b_pos = opos(1, 2);
    map.add_unit(Unit::new(UnitType::Ranged, Player::Me, a_pos));
    map.add_unit(Unit::new(UnitType::Melee, Player::NotMe, b_pos));
    map.refresh();
    let mut stats = map.moveunit_to(1, b_pos).unwrap();
    assert!(stats.ranged);
    assert_eq!(stats.dmgrange_to_attacker(), (0, 0));
    map.attack(&mut stats);
    assert_eq!(map.units().get(1).hp(), 100);
    assert!(map.units().get(2).hp() < 100);
    assert_eq!(map.units().get(1).movements(), 0);
}
