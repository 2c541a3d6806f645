use civng::combat::{CombatStats, Modifier, ModifierType};
use civng::hexpos::Pos;
use civng::unit::{Player, Unit, UnitType};

fn stats(a_str: u8, a_hp: u8, d_str: u8, d_hp: u8, ranged: bool) -> CombatStats {
    CombatStats {
        ranged,
        attacker_id: 1,
        defender_id: 2,
        attacker_name: "Melee".to_string(),
        defender_name: "Melee".to_string(),
        attacker_base_strength: a_str,
        defender_base_strength: d_str,
        attacker_starting_hp: a_hp,
        defender_starting_hp: d_hp,
        dmg_to_attacker: 0,
        dmg_to_defender: 0,
        attacker_modifiers: Vec::new(),
        defender_modifiers: Vec::new(),
    }
}

#[test]
fn equal_strength_full_health_gives_forty_to_seventy() {
    // Two melee units of strength 8 at 100 hit points: m is exactly 1.
    let s = stats(8, 100, 8, 100, false);
    assert_eq!(s.dmgrange_to_defender(), (40, 70));
    assert_eq!(s.dmgrange_to_attacker(), (40, 70));
}

#[test]
fn units_built_from_types_give_the_same_symmetric_range() {
    let a = Unit::new(UnitType::Melee, Player::Me, Pos::origin());
    let d = Unit::new(UnitType::Melee, Player::NotMe, Pos::new(0, -1, 1));
    let s = CombatStats::new(&a, Vec::new(), &d, Vec::new());
    assert!(!s.ranged);
    assert_eq!(s.attacker_base_strength, 8);
    assert_eq!(s.defender_base_strength, 8);
    assert_eq!(s.dmgrange_to_defender(), (40, 70));
    assert_eq!(s.dmgrange_to_attacker(), (40, 70));
}

#[test]
fn ranged_attacker_draws_no_counter_damage() {
    let a = Unit::new(UnitType::Ranged, Player::Me, Pos::origin());
    let d = Unit::new(UnitType::Melee, Player::NotMe, Pos::new(0, -1, 1));
    let s = CombatStats::new(&a, Vec::new(), &d, Vec::new());
    assert!(s.ranged);
    assert_eq!(s.attacker_base_strength, 5);
    // The defender uses the better of its two strengths.
    assert_eq!(s.defender_base_strength, 8);
    assert_eq!(s.dmgrange_to_attacker(), (0, 0));
    let (lo, hi) = s.dmgrange_to_defender();
    assert!(lo >= 1 && lo <= hi);
}

#[test]
fn strong_side_outdamages_weak_side() {
    // Effective strengths three to one: the weak side's minimum is small,
    // the strong side's range stays tight above its floor.
    let s = stats(24, 100, 8, 100, false);
    let (strong_lo, strong_hi) = s.dmgrange_to_defender();
    let (weak_lo, weak_hi) = s.dmgrange_to_attacker();
    assert!(weak_hi < strong_lo);
    assert!(weak_lo * 4 < strong_lo);
    assert!(strong_hi - strong_lo < strong_lo);
    assert!(weak_lo >= 1);
}

#[test]
fn damaged_source_deals_less() {
    let fresh = stats(8, 100, 8, 100, false);
    let hurt = stats(8, 41, 8, 100, false);
    // 41 hit points is two started 20-point bands below full health.
    let (f_lo, f_hi) = fresh.dmgrange_to_defender();
    let (h_lo, h_hi) = hurt.dmgrange_to_defender();
    assert!(h_lo < f_lo && h_hi < f_hi);
    assert_eq!((h_lo, h_hi), (32, 56));
}

#[test]
fn defense_modifier_raises_defender_output() {
    let plain = stats(8, 100, 8, 100, false);
    let mut hill = stats(8, 100, 8, 100, false);
    hill.defender_modifiers = vec![Modifier::new(25, ModifierType::Terrain)];
    let (p_lo, p_hi) = plain.dmgrange_to_attacker();
    let (h_lo, h_hi) = hill.dmgrange_to_attacker();
    assert!(h_lo >= p_lo && h_hi >= p_hi);
    let (pd_lo, pd_hi) = plain.dmgrange_to_defender();
    let (hd_lo, hd_hi) = hill.dmgrange_to_defender();
    assert!(hd_lo <= pd_lo && hd_hi <= pd_hi);
}

#[test]
fn modifiers_total_sums_amounts() {
    let mut s = stats(8, 100, 8, 100, false);
    s.attacker_modifiers = vec![
        Modifier::new(25, ModifierType::Terrain),
        Modifier::new(20, ModifierType::Flanking),
    ];
    assert_eq!(s.attacker_modifiers_total(), 45);
    assert_eq!(s.defender_modifiers_total(), 0);
}

#[test]
fn modifier_accessors_and_description() {
    let m = Modifier::new(20, ModifierType::Flanking);
    assert_eq!(m.amount(), 20);
    assert_eq!(m.description(), "+20% Flanking");
    let t = Modifier::new(-10, ModifierType::Terrain);
    assert_eq!(t.description(), "-10% Terrain");
    assert_eq!(ModifierType::Terrain.description(), "Terrain");
    assert_eq!(ModifierType::Flanking.description(), "Flanking");
}

#[test]
fn roll_stays_in_range_and_never_kills_both() {
    for _ in 0..50 {
        let mut s = stats(8, 100, 8, 100, false);
        s.roll();
        assert!(s.dmg_to_attacker >= 40 && s.dmg_to_attacker <= 70);
        assert!(s.dmg_to_defender >= 40 && s.dmg_to_defender <= 70);
        assert!(s.attacker_remaining_hp() > 0 || s.defender_remaining_hp() > 0);
    }
}

#[test]
fn double_death_revives_the_less_dead() {
    // Both sides at 1 hit point: rolled damage fells both, so exactly one
    // side must be revived to survive.
    for _ in 0..50 {
        let mut s = stats(8, 1, 8, 1, false);
        s.roll();
        let a = s.attacker_remaining_hp();
        let d = s.defender_remaining_hp();
        assert!(a > 0 || d > 0);
        assert!(a == 0 || d == 0);
    }
}

#[test]
fn remaining_hp_clamps_at_zero() {
    let mut s = stats(8, 50, 8, 60, false);
    s.dmg_to_attacker = 80;
    s.dmg_to_defender = 55;
    assert_eq!(s.attacker_remaining_hp(), 0);
    assert_eq!(s.defender_remaining_hp(), 5);
}

#[test]
fn dice_actually_vary() {
    // Sixty rolls over a thirty-one-value range: a generator that handed
    // a constant back would be caught here.
    let mut seen = std::collections::BTreeSet::new();
    for _ in 0..60 {
        let mut s = stats(8, 100, 8, 100, false);
        s.roll();
        seen.insert(s.dmg_to_defender);
    }
    assert!(seen.len() >= 2);
    assert!(seen.iter().all(|&d| (40..=70).contains(&d)));
}
