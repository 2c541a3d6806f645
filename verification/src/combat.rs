//! Combat resolution: strength-ratio damage ranges, dice rolls, and death
//! arbitration.
//!
//! Effective strength is `base * (1 + sum(modifiers) / 100)`; all range
//! arithmetic is carried out exactly over integers, with the strength
//! ratio kept as a fraction.

use vstd::prelude::*;
use vstd::arithmetic::div_mod::{
    lemma_div_by_self, lemma_div_is_ordered, lemma_fundamental_div_mod_converse,
};
use vstd::string::StringExecFns;
use crate::numfmt::{i64_to_signed_string, signed_dec};
use crate::unit::{spec_type_ranged_strength, spec_type_strength, Unit, UnitID, UnitType};

verus! {

/// An inclusive damage range, in hit points.
pub type DmgRange = (u8, u8);

#[derive(Debug, Copy, Clone, PartialEq, Eq, Structural)]
pub enum ModifierType {
    Terrain,
    Flanking,
}

impl ModifierType {
    pub fn description(&self) -> (r: &'static str)
        ensures
            r@ == match *self {
                ModifierType::Terrain => "Terrain"@,
                ModifierType::Flanking => "Flanking"@,
            },
    {
        match *self {
            ModifierType::Terrain => "Terrain",
            ModifierType::Flanking => "Flanking",
        }
    }
}

/// A signed percentage adjustment of a combatant's strength, tagged with
/// where it came from (`20` means `+20%`).
#[derive(Debug, Copy, Clone, PartialEq, Eq, Structural)]
pub struct Modifier {
    amount: i8,
    modtype: ModifierType,
}

impl Modifier {
    pub closed spec fn spec_amount(&self) -> int {
        self.amount as int
    }

    pub closed spec fn spec_modtype(&self) -> ModifierType {
        self.modtype
    }

    pub fn new(amount: i8, modtype: ModifierType) -> (r: Modifier)
        ensures
            r.spec_amount() == amount,
            r.spec_modtype() == modtype,
    {
        Modifier { amount, modtype }
    }

    pub fn amount(&self) -> (r: i8)
        ensures
            r == self.spec_amount(),
    {
        self.amount
    }

    /// The modifier as displayed, sign always written.
    pub fn description(&self) -> (r: String)
        ensures
            r@ == signed_dec(self.spec_amount()) + "% "@ + match self.spec_modtype() {
                ModifierType::Terrain => "Terrain"@,
                ModifierType::Flanking => "Flanking"@,
            },
    {
        let mut s = i64_to_signed_string(self.amount as i64);
        s.append("% ");
        s.append(self.modtype.description());
        s
    }
}

/// Sum of the percentage amounts of a modifier list.
pub open spec fn sum_amounts(ms: Seq<Modifier>) -> int
    decreases ms.len(),
{
    if ms.len() == 0 {
        0
    } else {
        sum_amounts(ms.drop_last()) + ms.last().spec_amount()
    }
}

/// The sum of `n` percentages, each within a signed byte, stays within
/// `n` bytes' worth.
pub proof fn lemma_sum_amounts_bounds(ms: Seq<Modifier>)
    ensures
        -128 * ms.len() <= sum_amounts(ms) <= 127 * ms.len(),
    decreases ms.len(),
{
    if ms.len() > 0 {
        lemma_sum_amounts_bounds(ms.drop_last());
    }
}

fn sum_modifiers(modifiers: &Vec<Modifier>) -> (r: i16)
    requires
        modifiers@.len() <= 255,
    ensures
        r == sum_amounts(modifiers@),
{
    let mut acc: i16 = 0;
    let mut i: usize = 0;
    proof {
        assert(modifiers@.take(0) =~= Seq::<Modifier>::empty());
    }
    while i < modifiers.len()
        invariant
            i <= modifiers@.len() <= 255,
            acc == sum_amounts(modifiers@.take(i as int)),
            -128 * i <= acc <= 127 * i,
        decreases modifiers@.len() - i,
    {
        proof {
            let t1 = modifiers@.take(i + 1);
            assert(t1.drop_last() =~= modifiers@.take(i as int));
            assert(t1.last() == modifiers@[i as int]);
        }
        acc = acc + modifiers[i].amount() as i16;
        i = i + 1;
    }
    proof {
        assert(modifiers@.take(modifiers@.len() as int) =~= modifiers@);
    }
    acc
}

/// Fourth power.
pub open spec fn pow4(x: int) -> int {
    x * x * x * x
}

/// The exact damage range a source with effective strength
/// `source100 / 100` and `source_hp` hit points deals to a target with
/// effective strength `target100 / 100`.
///
/// With `r` the ratio of the stronger over the weaker effective strength,
/// the multiplier is `m = 1/2 + (r + 3)^4 / 512`, inverted when the
/// target is the stronger side. The base minimum (40, or 20 ranged) and
/// the base spread (30) are both scaled by `m`, then reduced by 10% per
/// started 20-hit-point band the source is below full health. The minimum
/// is clamped to at least 1, the bounds are floored, and both saturate at
/// 255.
pub open spec fn spec_dmg_range(source100: int, source_hp: int, target100: int, ranged: bool) -> (
    int,
    int,
) {
    let target_is_weak = source100 > target100;
    let p = if target_is_weak {
        source100
    } else {
        target100
    };
    let q = if target_is_weak {
        target100
    } else {
        source100
    };
    let a = pow4(p + 3 * q);
    let b = 512 * pow4(q);
    let mn = if target_is_weak {
        a + b / 2
    } else {
        b
    };
    let md = if target_is_weak {
        b
    } else {
        a + b / 2
    };
    let k = (100 - source_hp) / 20;
    let base_min: int = if ranged {
        20
    } else {
        40
    };
    let min_num = base_min * (10 - k) * mn;
    let spread_num = 30 * (10 - k) * mn;
    let den = 10 * md;
    let lo = if min_num < den {
        1int
    } else {
        min_num / den
    };
    let hi = if min_num < den {
        1 + spread_num / den
    } else {
        (min_num + spread_num) / den
    };
    (
        if lo > 255 {
            255int
        } else {
            lo
        },
        if hi > 255 {
            255int
        } else {
            hi
        },
    )
}

/// Largest effective strength numerator: 255 base times (100 + 255
/// modifiers of at most 127 percent each).
pub open spec fn strength100_max() -> int {
    (255 * (100 + 127 * 255)) as int
}

/// Computes `spec_dmg_range` exactly, in 128-bit integers.
fn compute_dmg_range(source100: u32, source_hp: u8, target100: u32, ranged: bool) -> (r: DmgRange)
    requires
        1 <= source100 <= strength100_max(),
        1 <= target100 <= strength100_max(),
        source_hp <= 100,
    ensures
        (r.0 as int, r.1 as int) == spec_dmg_range(
            source100 as int,
            source_hp as int,
            target100 as int,
            ranged,
        ),
        1 <= r.0 <= r.1,
{
    let target_is_weak = source100 > target100;
    let (p, q): (u128, u128) = if target_is_weak {
        (source100 as u128, target100 as u128)
    } else {
        (target100 as u128, source100 as u128)
    };
    proof {
        assert(strength100_max() < 0x800000);
    }
    let pq = p + 3 * q;
    proof {
        assert(0 < pq * pq < 0x10000000000000) by (nonlinear_arith)
            requires
                0 < pq < 0x2000000,
        ;
    }
    let pq2 = pq * pq;
    proof {
        assert(0 < pq2 * pq2 < 0x100000000000000000000000000) by (nonlinear_arith)
            requires
                0 < pq2 < 0x10000000000000,
        ;
    }
    let a = pq2 * pq2;
    proof {
        assert(0 < q * q < 0x10000000000000) by (nonlinear_arith)
            requires
                0 < q < 0x2000000,
        ;
    }
    let q2 = q * q;
    proof {
        assert(0 < q2 * q2 < 0x100000000000000000000000000) by (nonlinear_arith)
            requires
                0 < q2 < 0x10000000000000,
        ;
    }
    let q4 = q2 * q2;
    let b = 512 * q4;
    proof {
        assert(a == pow4(p as int + 3 * q)) by (nonlinear_arith)
            requires
                a == pq2 * pq2,
                pq2 == pq * pq,
                pq == p as int + 3 * q,
        ;
        assert(q4 == pow4(q as int)) by (nonlinear_arith)
            requires
                q4 == q2 * q2,
                q2 == (q as int) * q,
        ;
        assert(a < 0x100000000000000000000000000);
        assert(q4 < 0x100000000000000000000000000);
    }
    let (mn, md): (u128, u128) = if target_is_weak {
        (a + b / 2, b)
    } else {
        (b, a + b / 2)
    };
    let k = ((100 - source_hp) / 20) as u128;
    let base_min: u128 = if ranged {
        20
    } else {
        40
    };
    proof {
        assert(mn < 0x300000000000000000000000000000);
        assert(base_min * (10 - k) <= 400) by (nonlinear_arith)
            requires
                base_min <= 40,
                k <= 10,
        ;
        assert(base_min * (10 - k) * mn <= 400 * mn) by (nonlinear_arith)
            requires
                0 <= base_min * (10 - k) <= 400,
                mn >= 0,
        ;
        assert(30 * (10 - k) * mn <= 300 * mn) by (nonlinear_arith)
            requires
                0 <= 30 * (10 - k) <= 300,
                mn >= 0,
        ;
    }
    let min_num = base_min * (10 - k) * mn;
    let spread_num = 30 * (10 - k) * mn;
    let den = 10 * md;
    proof {
        assert(den > 0);
    }
    let (lo, hi): (u128, u128) = if min_num < den {
        (1, 1 + spread_num / den)
    } else {
        proof {
            lemma_div_is_ordered(min_num as int, (min_num + spread_num) as int, den as int);
            lemma_div_by_self(den as int);
            lemma_div_is_ordered(den as int, min_num as int, den as int);
        }
        (min_num / den, (min_num + spread_num) / den)
    };
    let r0: u8 = if lo > 255 {
        255
    } else {
        lo as u8
    };
    let r1: u8 = if hi > 255 {
        255
    } else {
        hi as u8
    };
    (r0, r1)
}

#[derive(Debug, Clone)]
pub struct CombatStats {
    pub ranged: bool,
    pub attacker_id: UnitID,
    pub defender_id: UnitID,
    pub attacker_name: String,
    pub defender_name: String,
    pub attacker_base_strength: u8,
    pub defender_base_strength: u8,
    pub attacker_starting_hp: u8,
    pub defender_starting_hp: u8,
    pub dmg_to_attacker: u8,
    pub dmg_to_defender: u8,
    pub attacker_modifiers: Vec<Modifier>,
    pub defender_modifiers: Vec<Modifier>,
}

/// Hit points left after taking `dmg` damage, never below zero.
pub open spec fn spec_remaining(hp: int, dmg: int) -> int {
    if dmg > hp {
        0
    } else {
        hp - dmg
    }
}

/// Death arbitration on the tentative rolls: when both sides would fall
/// below zero, the less dead one is revived to survive at exactly one hit
/// point; the result is the damage pair actually recorded.
pub open spec fn spec_arbitrate(da: int, dd: int, ahp: int, dhp: int) -> (int, int) {
    if dhp - dd < 0 && ahp - da < 0 {
        if ahp - da > dhp - dd {
            (ahp - 1, dd)
        } else {
            (da, dhp - 1)
        }
    } else {
        (da, dd)
    }
}

impl CombatStats {
    /// The combat snapshot is numerically sound: positive strengths,
    /// live combatants at no more than full health, and modifier lists
    /// the percentage arithmetic can carry.
    pub open spec fn wf(&self) -> bool {
        &&& 1 <= self.attacker_base_strength
        &&& 1 <= self.defender_base_strength
        &&& 1 <= self.attacker_starting_hp <= 100
        &&& 1 <= self.defender_starting_hp <= 100
        &&& self.attacker_modifiers@.len() <= 255
        &&& self.defender_modifiers@.len() <= 255
        &&& 100 + sum_amounts(self.attacker_modifiers@) >= 1
        &&& 100 + sum_amounts(self.defender_modifiers@) >= 1
    }

    /// Attacker effective strength, scaled by 100.
    pub open spec fn spec_attacker_strength100(&self) -> int {
        self.attacker_base_strength * (100 + sum_amounts(self.attacker_modifiers@))
    }

    /// Defender effective strength, scaled by 100.
    pub open spec fn spec_defender_strength100(&self) -> int {
        self.defender_base_strength * (100 + sum_amounts(self.defender_modifiers@))
    }

    /// The damage range the defender's counterattack deals to the
    /// attacker; a ranged attack draws no counter-damage.
    pub open spec fn spec_range_to_attacker(&self) -> (int, int) {
        if self.ranged {
            (0int, 0int)
        } else {
            spec_dmg_range(
                self.spec_defender_strength100(),
                self.defender_starting_hp as int,
                self.spec_attacker_strength100(),
                false,
            )
        }
    }

    /// The damage range the attacker deals to the defender.
    pub open spec fn spec_range_to_defender(&self) -> (int, int) {
        spec_dmg_range(
            self.spec_attacker_strength100(),
            self.attacker_starting_hp as int,
            self.spec_defender_strength100(),
            self.ranged,
        )
    }

    /// Builds a snapshot of an engagement between `attacker` and
    /// `defender`. The engagement is ranged when the attacker's type has
    /// a nonzero ranged strength; the defender then uses the better of
    /// its two strengths and deals no counter-damage.
    pub fn new(
        attacker: &Unit,
        attacker_modifiers: Vec<Modifier>,
        defender: &Unit,
        defender_modifiers: Vec<Modifier>,
    ) -> (r: CombatStats)
        ensures
            r.ranged == (spec_type_ranged_strength(attacker.type_) > 0),
            r.attacker_base_strength as int == if r.ranged {
                spec_type_ranged_strength(attacker.type_)
            } else {
                spec_type_strength(attacker.type_)
            },
            r.defender_base_strength as int == if r.ranged {
                if spec_type_ranged_strength(defender.type_) >= spec_type_strength(defender.type_) {
                    spec_type_ranged_strength(defender.type_)
                } else {
                    spec_type_strength(defender.type_)
                }
            } else {
                spec_type_strength(defender.type_)
            },
            r.attacker_id == attacker.id,
            r.defender_id == defender.id,
            r.attacker_name@ == match attacker.type_ {
                UnitType::Melee => "Melee"@,
                UnitType::Ranged => "Ranged"@,
            },
            r.defender_name@ == match defender.type_ {
                UnitType::Melee => "Melee"@,
                UnitType::Ranged => "Ranged"@,
            },
            r.attacker_starting_hp == attacker.hp,
            r.defender_starting_hp == defender.hp,
            r.dmg_to_attacker == 0,
            r.dmg_to_defender == 0,
            r.attacker_modifiers == attacker_modifiers,
            r.defender_modifiers == defender_modifiers,
    {
        let atype = attacker.type_();
        let dtype = defender.type_();
        let ranged = atype.ranged_strength() > 0;
        let (astrength, dstrength) = if ranged {
            let drs = dtype.ranged_strength();
            let ds = dtype.strength();
            (atype.ranged_strength(), if drs >= ds {
                drs
            } else {
                ds
            })
        } else {
            (atype.strength(), dtype.strength())
        };
        CombatStats {
            ranged,
            attacker_id: attacker.id(),
            defender_id: defender.id(),
            attacker_name: String::from_str(attacker.name()),
            defender_name: String::from_str(defender.name()),
            attacker_base_strength: astrength,
            defender_base_strength: dstrength,
            attacker_starting_hp: attacker.hp(),
            defender_starting_hp: defender.hp(),
            dmg_to_attacker: 0,
            dmg_to_defender: 0,
            attacker_modifiers,
            defender_modifiers,
        }
    }

    pub fn attacker_modifiers_total(&self) -> (r: i16)
        requires
            self.attacker_modifiers@.len() <= 255,
        ensures
            r == sum_amounts(self.attacker_modifiers@),
    {
        sum_modifiers(&self.attacker_modifiers)
    }

    pub fn defender_modifiers_total(&self) -> (r: i16)
        requires
            self.defender_modifiers@.len() <= 255,
        ensures
            r == sum_amounts(self.defender_modifiers@),
    {
        sum_modifiers(&self.defender_modifiers)
    }

    /// Attacker effective strength numerator (the strength times 100).
    fn attacker_strength100(&self) -> (r: u32)
        requires
            self.wf(),
        ensures
            r == self.spec_attacker_strength100(),
            1 <= r <= strength100_max(),
    {
        proof {
            lemma_sum_amounts_bounds(self.attacker_modifiers@);
            lemma_strength100_bounds(
                self.attacker_base_strength as int,
                100 + sum_amounts(self.attacker_modifiers@),
            );
        }
        let total = self.attacker_modifiers_total();
        (self.attacker_base_strength as u32) * ((100 + total as i32) as u32)
    }

    /// Defender effective strength numerator (the strength times 100).
    fn defender_strength100(&self) -> (r: u32)
        requires
            self.wf(),
        ensures
            r == self.spec_defender_strength100(),
            1 <= r <= strength100_max(),
    {
        proof {
            lemma_sum_amounts_bounds(self.defender_modifiers@);
            lemma_strength100_bounds(
                self.defender_base_strength as int,
                100 + sum_amounts(self.defender_modifiers@),
            );
        }
        let total = self.defender_modifiers_total();
        (self.defender_base_strength as u32) * ((100 + total as i32) as u32)
    }

    /// The damage range the defender's counterattack would deal to the
    /// attacker.
    pub fn dmgrange_to_attacker(&self) -> (r: DmgRange)
        requires
            self.wf(),
        ensures
            (r.0 as int, r.1 as int) == self.spec_range_to_attacker(),
            r.0 <= r.1,
    {
        if self.ranged {
            (0, 0)
        } else {
            compute_dmg_range(
                self.defender_strength100(),
                self.defender_starting_hp,
                self.attacker_strength100(),
                self.ranged,
            )
        }
    }

    /// The damage range the attacker would deal to the defender.
    pub fn dmgrange_to_defender(&self) -> (r: DmgRange)
        requires
            self.wf(),
        ensures
            (r.0 as int, r.1 as int) == self.spec_range_to_defender(),
            1 <= r.0 <= r.1,
    {
        compute_dmg_range(
            self.attacker_strength100(),
            self.attacker_starting_hp,
            self.defender_strength100(),
            self.ranged,
        )
    }

    pub fn attacker_remaining_hp(&self) -> (r: u8)
        ensures
            r == spec_remaining(self.attacker_starting_hp as int, self.dmg_to_attacker as int),
    {
        if self.dmg_to_attacker > self.attacker_starting_hp {
            0
        } else {
            self.attacker_starting_hp - self.dmg_to_attacker
        }
    }

    pub fn defender_remaining_hp(&self) -> (r: u8)
        ensures
            r == spec_remaining(self.defender_starting_hp as int, self.dmg_to_defender as int),
    {
        if self.dmg_to_defender > self.defender_starting_hp {
            0
        } else {
            self.defender_starting_hp - self.dmg_to_defender
        }
    }

    /// Draws each side's damage uniformly from its computed range, then
    /// applies death arbitration so that at most one side dies.
    pub fn roll(&mut self)
        requires
            old(self).wf(),
        ensures
            *final(self) == (CombatStats {
                dmg_to_attacker: final(self).dmg_to_attacker,
                dmg_to_defender: final(self).dmg_to_defender,
                ..*old(self)
            }),
            exists|da: int, dd: int|
                {
                    &&& old(self).spec_range_to_attacker().0 <= da <= old(
                        self,
                    ).spec_range_to_attacker().1
                    &&& old(self).spec_range_to_defender().0 <= dd <= old(
                        self,
                    ).spec_range_to_defender().1
                    &&& (final(self).dmg_to_attacker as int, final(self).dmg_to_defender as int)
                        == spec_arbitrate(
                        da,
                        dd,
                        old(self).attacker_starting_hp as int,
                        old(self).defender_starting_hp as int,
                    )
                },
    {
        let range_a = self.dmgrange_to_attacker();
        let range_d = self.dmgrange_to_defender();
        let mut dmg_to_attacker = roll_dice(range_a);
        let mut dmg_to_defender = roll_dice(range_d);
        let ghost (da, dd) = (dmg_to_attacker as int, dmg_to_defender as int);
        let defender_hp = self.defender_starting_hp as i16 - dmg_to_defender as i16;
        let attacker_hp = self.attacker_starting_hp as i16 - dmg_to_attacker as i16;
        if defender_hp < 0 && attacker_hp < 0 {
            // Only one unit can die. Revive the "less dead" one.
            if attacker_hp > defender_hp {
                dmg_to_attacker = self.attacker_starting_hp - 1;
            } else {
                dmg_to_defender = self.defender_starting_hp - 1;
            }
        }
        self.dmg_to_attacker = dmg_to_attacker;
        self.dmg_to_defender = dmg_to_defender;
        proof {
            assert((self.dmg_to_attacker as int, self.dmg_to_defender as int) == spec_arbitrate(
                da,
                dd,
                old(self).attacker_starting_hp as int,
                old(self).defender_starting_hp as int,
            ));
        }
    }
}

/// After arbitration the two sides are never both at zero hit points,
/// except for rolls that land exactly on one side's full remaining health
/// while also felling the other.
pub proof fn lemma_roll_single_death(da: int, dd: int, ahp: int, dhp: int)
    requires
        1 <= ahp,
        1 <= dhp,
        0 <= da,
        0 <= dd,
        !(da == ahp && dd >= dhp),
        !(da >= ahp && dd == dhp),
    ensures
        !(spec_remaining(ahp, spec_arbitrate(da, dd, ahp, dhp).0) == 0 && spec_remaining(
            dhp,
            spec_arbitrate(da, dd, ahp, dhp).1,
        ) == 0),
{
}


/// Equal effective strengths at full health make the ratio one and the
/// multiplier exactly one, so both sides face the exact range 40 to 70.
proof fn lemma_symmetric_range()
    ensures
        spec_dmg_range(800, 100, 800, false) == (40int, 70int),
{
    assert(pow4(3200) == 104857600000000) by (nonlinear_arith);
    assert(pow4(800) == 409600000000) by (nonlinear_arith);
    let b: int = 512 * 409600000000int;
    let md: int = 104857600000000int + b / 2;
    let den: int = 10 * md;
    assert(b == 209715200000000);
    assert(md == 209715200000000);
    assert(den == 2097152000000000);
    let min_num: int = 40int * 10 * b;
    let spread_num: int = 30int * 10 * b;
    assert(min_num == 40 * den + 0) by (nonlinear_arith)
        requires
            min_num == 40int * 10 * b,
            den == 10 * b,
    ;
    assert(min_num + spread_num == 70 * den + 0) by (nonlinear_arith)
        requires
            min_num == 40int * 10 * b,
            spread_num == 30int * 10 * b,
            den == 10 * b,
    ;
    lemma_fundamental_div_mod_converse(min_num, den, 40, 0);
    lemma_fundamental_div_mod_converse(min_num + spread_num, den, 70, 0);
}


/// The symmetric melee engagement: two unmodified strength-8 combatants
/// at full health preview the exact damage range 40 to 70 on both sides.
pub proof fn lemma_symmetric_engagement(c: CombatStats)
    requires
        !c.ranged,
        c.attacker_base_strength == 8,
        c.defender_base_strength == 8,
        c.attacker_starting_hp == 100,
        c.defender_starting_hp == 100,
        c.attacker_modifiers@.len() == 0,
        c.defender_modifiers@.len() == 0,
    ensures
        c.spec_range_to_defender() == (40int, 70int),
        c.spec_range_to_attacker() == (40int, 70int),
{
    assert(sum_amounts(c.attacker_modifiers@) == 0);
    assert(sum_amounts(c.defender_modifiers@) == 0);
    assert(c.spec_attacker_strength100() == 800);
    assert(c.spec_defender_strength100() == 800);
    lemma_symmetric_range();
}

/// `base >= 1` and `factor >= 1` keep the strength numerator positive and
/// under the stated maximum.
proof fn lemma_strength100_bounds(base: int, factor: int)
    requires
        1 <= base <= 255,
        1 <= factor <= 100 + 127 * 255,
    ensures
        1 <= base * factor <= strength100_max(),
{
    assert(1 <= base * factor <= 255 * (100 + 127 * 255)) by (nonlinear_arith)
        requires
            1 <= base <= 255,
            1 <= factor <= 100 + 127 * 255,
    ;
}

/// Relies on `rand::random_range`: a uniform draw from a non-empty
/// inclusive range, using the thread-local generator.
#[verifier::external_body]
pub(crate) fn draw_uniform(lo: u64, hi: u64) -> (r: u64)
    requires
        lo <= hi,
    ensures
        lo <= r <= hi,
{
    rand::random_range(lo..=hi)
}

/// Draws an integer uniformly from the inclusive range.
fn roll_dice(range: DmgRange) -> (r: u8)
    requires
        range.0 <= range.1,
    ensures
        range.0 <= r <= range.1,
{
    let (min, max) = range;
    draw_uniform(min as u64, max as u64) as u8
}

} // verus!

verus! {

/// Cross-multiplied fractions order their floors: `a/b >= c/d` whenever
/// `a*d >= c*b` with positive denominators.
proof fn lemma_div_cross(a: int, b: int, c: int, d: int)
    requires
        a >= 0,
        c >= 0,
        b >= 1,
        d >= 1,
        a * d >= c * b,
    ensures
        a / b >= c / d,
{
    let q1 = a / b;
    let r1 = a % b;
    let q2 = c / d;
    let r2 = c % d;
    vstd::arithmetic::div_mod::lemma_fundamental_div_mod(a, b);
    vstd::arithmetic::div_mod::lemma_fundamental_div_mod(c, d);
    vstd::arithmetic::div_mod::lemma_mod_bound(a, b);
    vstd::arithmetic::div_mod::lemma_mod_bound(c, d);
    if q1 < q2 {
        assert(false) by (nonlinear_arith)
            requires
                a == b * q1 + r1,
                c == d * q2 + r2,
                0 <= r1 < b,
                0 <= r2,
                b >= 1,
                d >= 1,
                q1 + 1 <= q2,
                q1 >= 0,
                a * d >= c * b,
        ;
    }
}

/// Adding the denominator once raises the floor by exactly one.
proof fn lemma_div_plus_denominator(x: int, d: int)
    requires
        x >= 0,
        d >= 1,
    ensures
        (x + d) / d == x / d + 1,
{
    vstd::arithmetic::div_mod::lemma_fundamental_div_mod(x, d);
    vstd::arithmetic::div_mod::lemma_mod_bound(x, d);
    assert(x + d == d * (x / d + 1) + x % d) by (nonlinear_arith)
        requires
            x == d * (x / d) + x % d,
    ;
    lemma_fundamental_div_mod_converse(x + d, d, x / d + 1, x % d);
}

/// The fourth power of a number at least one is at least one, and it
/// grows with its argument.
proof fn lemma_pow4_mono(x: int, y: int)
    requires
        1 <= x <= y,
    ensures
        1 <= pow4(x) <= pow4(y),
{
    assert(1 <= x * x <= y * y) by (nonlinear_arith)
        requires
            1 <= x <= y,
    ;
    assert(1 <= (x * x) * (x * x) <= (y * y) * (y * y)) by (nonlinear_arith)
        requires
            1 <= x * x <= y * y,
    ;
    assert(pow4(x) == (x * x) * (x * x)) by (nonlinear_arith);
    assert(pow4(y) == (y * y) * (y * y)) by (nonlinear_arith);
}

/// Fourth powers distribute over products.
proof fn lemma_pow4_mul(x: int, y: int)
    ensures
        pow4(x * y) == pow4(x) * pow4(y),
{
    assert(pow4(x * y) == pow4(x) * pow4(y)) by (nonlinear_arith);
}

/// Half of `512 * z`.
proof fn lemma_half_512(z: int)
    requires
        z >= 0,
    ensures
        512 * z / 2 == 256 * z,
{
    lemma_fundamental_div_mod_converse(512 * z, 2, 256 * z, 0);
}

/// Numerator of the strength-ratio multiplier `m` for a source of
/// effective strength `s` against a target of effective strength `t`
/// (both scaled by 100).
pub open spec fn m_num(s: int, t: int) -> int {
    if s > t {
        pow4(s + 3 * t) + 512 * pow4(t) / 2
    } else {
        512 * pow4(s)
    }
}

/// Denominator of the strength-ratio multiplier `m`.
pub open spec fn m_den(s: int, t: int) -> int {
    if s > t {
        512 * pow4(t)
    } else {
        pow4(t + 3 * s) + 512 * pow4(s) / 2
    }
}

/// Both parts of the multiplier fraction are positive.
proof fn lemma_m_positive(s: int, t: int)
    requires
        s >= 1,
        t >= 1,
    ensures
        m_num(s, t) >= 1,
        m_den(s, t) >= 1,
{
    lemma_pow4_mono(1, s);
    lemma_pow4_mono(1, t);
    if s > t {
        lemma_pow4_mono(1, s + 3 * t);
        lemma_half_512(pow4(t));
    } else {
        lemma_pow4_mono(1, t + 3 * s);
        lemma_half_512(pow4(s));
    }
}

/// The multiplier `m = m_num / m_den` never grows when the target gets
/// stronger, stated by cross-multiplication.
#[verifier::rlimit(100)]
proof fn lemma_m_mono_target(s: int, t1: int, t2: int)
    requires
        s >= 1,
        1 <= t1 <= t2,
    ensures
        m_num(s, t1) * m_den(s, t2) >= m_num(s, t2) * m_den(s, t1),
{
    lemma_half_512(pow4(t1));
    lemma_half_512(pow4(t2));
    lemma_half_512(pow4(s));
    lemma_pow4_mono(1, s);
    lemma_pow4_mono(1, t1);
    lemma_pow4_mono(1, t2);
    if s > t2 {
        // Both targets weaker: the claim reduces to
        // pow4(s + 3*t1) * pow4(t2) >= pow4(s + 3*t2) * pow4(t1).
        lemma_pow4_mono(1, s + 3 * t1);
        lemma_pow4_mono(1, s + 3 * t2);
        lemma_pow4_mul(s + 3 * t1, t2);
        lemma_pow4_mul(s + 3 * t2, t1);
        assert(1 <= (s + 3 * t2) * t1 && (s + 3 * t2) * t1 <= (s + 3 * t1) * t2)
            by (nonlinear_arith)
            requires
                s >= 1,
                1 <= t1 <= t2,
        ;
        lemma_pow4_mono((s + 3 * t2) * t1, (s + 3 * t1) * t2);
        let a1 = pow4(s + 3 * t1);
        let p1 = pow4(t1);
        let a2 = pow4(s + 3 * t2);
        let p2 = pow4(t2);
        assert(a1 * p2 >= a2 * p1);
        assert((a1 + 256 * p1) * (512 * p2) >= (a2 + 256 * p2) * (512 * p1))
            by (nonlinear_arith)
            requires
                a1 * p2 >= a2 * p1,
                p1 >= 1,
                p2 >= 1,
        ;
    } else if s <= t1 {
        // Both targets at least as strong: the inverted fraction shrinks
        // as pow4(t + 3*s) grows.
        lemma_pow4_mono(t1 + 3 * s, t2 + 3 * s);
        assert(m_num(s, t1) * m_den(s, t2) >= m_num(s, t2) * m_den(s, t1))
            by (nonlinear_arith)
            requires
                m_num(s, t1) == 512 * pow4(s),
                m_num(s, t2) == 512 * pow4(s),
                m_den(s, t1) == pow4(t1 + 3 * s) + 256 * pow4(s),
                m_den(s, t2) == pow4(t2 + 3 * s) + 256 * pow4(s),
                pow4(t1 + 3 * s) <= pow4(t2 + 3 * s),
                pow4(s) >= 1,
        ;
    } else {
        // The weaker target is below the source, the stronger at or
        // above it: the multiplier passes through one.
        lemma_pow4_mono(4 * t1, s + 3 * t1);
        lemma_pow4_mul(4, t1);
        assert(pow4(4) == 256) by (nonlinear_arith);
        assert(m_num(s, t1) >= m_den(s, t1)) by (nonlinear_arith)
            requires
                m_num(s, t1) == pow4(s + 3 * t1) + 256 * pow4(t1),
                m_den(s, t1) == 512 * pow4(t1),
                pow4(s + 3 * t1) >= pow4(4 * t1),
                pow4(4 * t1) == 256 * pow4(t1),
        ;
        lemma_pow4_mono(4 * s, t2 + 3 * s);
        lemma_pow4_mul(4, s);
        assert(m_num(s, t2) <= m_den(s, t2)) by (nonlinear_arith)
            requires
                m_num(s, t2) == 512 * pow4(s),
                m_den(s, t2) == pow4(t2 + 3 * s) + 256 * pow4(s),
                pow4(t2 + 3 * s) >= pow4(4 * s),
                pow4(4 * s) == 256 * pow4(s),
        ;
        lemma_m_positive(s, t1);
        lemma_m_positive(s, t2);
        assert(m_num(s, t1) * m_den(s, t2) >= m_num(s, t2) * m_den(s, t1))
            by (nonlinear_arith)
            requires
                m_num(s, t1) >= m_den(s, t1),
                m_num(s, t2) <= m_den(s, t2),
                m_den(s, t1) >= 1,
                m_den(s, t2) >= 1,
                m_num(s, t2) >= 1,
        ;
    }
}

} // verus!

verus! {

/// A smaller multiplier fraction gives a pointwise smaller damage range:
/// the ordering survives the health-band scaling, the floor divisions,
/// the clamp to one and the saturation at 255. The fraction ordering is
/// taken cross-multiplied; side `a` is the one with the larger
/// multiplier.
#[verifier::rlimit(100)]
proof fn lemma_range_le(sa: int, ta: int, sb: int, tb: int, hp: int, ranged: bool)
    requires
        1 <= sa,
        1 <= ta,
        1 <= sb,
        1 <= tb,
        0 <= hp <= 100,
        m_num(sb, tb) * m_den(sa, ta) <= m_num(sa, ta) * m_den(sb, tb),
    ensures
        spec_dmg_range(sb, hp, tb, ranged).0 <= spec_dmg_range(sa, hp, ta, ranged).0,
        spec_dmg_range(sb, hp, tb, ranged).1 <= spec_dmg_range(sa, hp, ta, ranged).1,
{
    lemma_m_positive(sa, ta);
    lemma_m_positive(sb, tb);
    let mna = m_num(sa, ta);
    let mda = m_den(sa, ta);
    let mnb = m_num(sb, tb);
    let mdb = m_den(sb, tb);
    let k = (100 - hp) / 20;
    lemma_div_is_ordered(0, 100 - hp, 20);
    lemma_div_is_ordered(100 - hp, 100, 20);
    let base_min: int = if ranged {
        20
    } else {
        40
    };
    let clo = base_min * (10 - k);
    let csp = 30 * (10 - k);
    assert(1 <= clo <= 400 && 1 <= csp <= 300);
    let mina = clo * mna;
    let spra = csp * mna;
    let dena = 10 * mda;
    let minb = clo * mnb;
    let sprb = csp * mnb;
    let denb = 10 * mdb;
    assert(mina >= 1 && spra >= 1 && dena >= 10 && minb >= 1 && sprb >= 1 && denb >= 10)
        by (nonlinear_arith)
        requires
            mna >= 1 && mda >= 1 && mnb >= 1 && mdb >= 1,
            clo >= 1 && csp >= 1,
            mina == clo * mna && spra == csp * mna && dena == 10 * mda,
            minb == clo * mnb && sprb == csp * mnb && denb == 10 * mdb,
    ;
    // The cross-multiplied fraction ordering, scaled by the band factors.
    assert(minb * dena <= mina * denb && sprb * dena <= spra * denb && (minb + sprb) * dena <= (
    mina + spra) * denb) by (nonlinear_arith)
        requires
            mnb * mda <= mna * mdb,
            clo >= 1 && csp >= 1,
            mina == clo * mna && spra == csp * mna && dena == 10 * mda,
            minb == clo * mnb && sprb == csp * mnb && denb == 10 * mdb,
    ;
    if minb >= denb {
        // Side b unclamped, hence side a unclamped too.
        assert(mina >= dena) by (nonlinear_arith)
            requires
                minb * dena <= mina * denb,
                minb >= denb,
                dena >= 1,
                denb >= 1,
        ;
        lemma_div_cross(mina, dena, minb, denb);
        lemma_div_cross(mina + spra, dena, minb + sprb, denb);
        lemma_div_by_self(dena);
        lemma_div_is_ordered(dena, mina, dena);
    } else {
        // Side b clamped to one; side a reaches at least one either way.
        if mina >= dena {
            lemma_div_by_self(dena);
            lemma_div_is_ordered(dena, mina, dena);
            // Its upper bound also dominates one plus b's spread floor.
            lemma_div_plus_denominator(sprb, denb);
            assert((mina + spra) * denb >= (denb + sprb) * dena) by (nonlinear_arith)
                requires
                    mina >= dena,
                    spra * denb >= sprb * dena,
                    denb >= 1,
                    dena >= 1,
            ;
            lemma_div_cross(mina + spra, dena, denb + sprb, denb);
        } else {
            // Both clamped: the minima agree and the spreads order.
            lemma_div_plus_denominator(sprb, denb);
            lemma_div_plus_denominator(spra, dena);
            lemma_div_cross(spra, dena, sprb, denb);
        }
    }
}

/// Strengthening the target never raises the damage it takes: both
/// bounds of the exact damage range are nonincreasing in the target's
/// effective strength.
pub proof fn lemma_dmg_range_mono_target(s: int, hp: int, t1: int, t2: int, ranged: bool)
    requires
        1 <= s,
        1 <= t1 <= t2,
        0 <= hp <= 100,
    ensures
        spec_dmg_range(s, hp, t2, ranged).0 <= spec_dmg_range(s, hp, t1, ranged).0,
        spec_dmg_range(s, hp, t2, ranged).1 <= spec_dmg_range(s, hp, t1, ranged).1,
{
    lemma_m_mono_target(s, t1, t2);
    lemma_range_le(s, t1, s, t2, hp, ranged);
}

/// The multiplier `m = m_num / m_den` never shrinks when the source gets
/// stronger, stated by cross-multiplication.
#[verifier::rlimit(100)]
proof fn lemma_m_mono_source(s1: int, s2: int, t: int)
    requires
        1 <= s1 <= s2,
        t >= 1,
    ensures
        m_num(s1, t) * m_den(s2, t) <= m_num(s2, t) * m_den(s1, t),
{
    lemma_half_512(pow4(t));
    lemma_half_512(pow4(s1));
    lemma_half_512(pow4(s2));
    lemma_pow4_mono(1, s1);
    lemma_pow4_mono(1, s2);
    lemma_pow4_mono(1, t);
    if s1 > t {
        // Both sources stronger: the shared denominator cancels and the
        // numerators order with pow4.
        lemma_pow4_mono(s1 + 3 * t, s2 + 3 * t);
        let a1 = pow4(s1 + 3 * t);
        let a2 = pow4(s2 + 3 * t);
        let pt = pow4(t);
        assert((a1 + 256 * pt) * (512 * pt) <= (a2 + 256 * pt) * (512 * pt))
            by (nonlinear_arith)
            requires
                a1 <= a2,
                pt >= 1,
        ;
    } else if s2 <= t {
        // Both sources at most the target: the claim reduces to
        // pow4(s1) * pow4(t + 3*s2) <= pow4(s2) * pow4(t + 3*s1).
        lemma_pow4_mono(1, t + 3 * s1);
        lemma_pow4_mono(1, t + 3 * s2);
        lemma_pow4_mul(s1, t + 3 * s2);
        lemma_pow4_mul(s2, t + 3 * s1);
        assert(1 <= s1 * (t + 3 * s2) && s1 * (t + 3 * s2) <= s2 * (t + 3 * s1))
            by (nonlinear_arith)
            requires
                t >= 1,
                1 <= s1 <= s2,
        ;
        lemma_pow4_mono(s1 * (t + 3 * s2), s2 * (t + 3 * s1));
        let p1 = pow4(s1);
        let p2 = pow4(s2);
        let a1 = pow4(t + 3 * s1);
        let a2 = pow4(t + 3 * s2);
        assert(p1 * a2 <= p2 * a1);
        assert((512 * p1) * (a2 + 256 * p2) <= (512 * p2) * (a1 + 256 * p1))
            by (nonlinear_arith)
            requires
                p1 * a2 <= p2 * a1,
                p1 >= 1,
                p2 >= 1,
        ;
    } else {
        // The weaker source is at most the target, the stronger above
        // it: the multiplier passes through one.
        lemma_pow4_mono(4 * s1, t + 3 * s1);
        lemma_pow4_mul(4, s1);
        assert(pow4(4) == 256) by (nonlinear_arith);
        assert(m_num(s1, t) <= m_den(s1, t)) by (nonlinear_arith)
            requires
                m_num(s1, t) == 512 * pow4(s1),
                m_den(s1, t) == pow4(t + 3 * s1) + 256 * pow4(s1),
                pow4(t + 3 * s1) >= pow4(4 * s1),
                pow4(4 * s1) == 256 * pow4(s1),
        ;
        lemma_pow4_mono(4 * t, s2 + 3 * t);
        lemma_pow4_mul(4, t);
        assert(m_num(s2, t) >= m_den(s2, t)) by (nonlinear_arith)
            requires
                m_num(s2, t) == pow4(s2 + 3 * t) + 256 * pow4(t),
                m_den(s2, t) == 512 * pow4(t),
                pow4(s2 + 3 * t) >= pow4(4 * t),
                pow4(4 * t) == 256 * pow4(t),
        ;
        lemma_m_positive(s1, t);
        lemma_m_positive(s2, t);
        assert(m_num(s1, t) * m_den(s2, t) <= m_num(s2, t) * m_den(s1, t))
            by (nonlinear_arith)
            requires
                m_num(s1, t) <= m_den(s1, t),
                m_num(s2, t) >= m_den(s2, t),
                m_den(s1, t) >= 1,
                m_den(s2, t) >= 1,
                m_num(s1, t) >= 1,
        ;
    }
}

/// Strengthening the source never lowers the damage it deals: both
/// bounds of the exact damage range are nondecreasing in the source's
/// effective strength.
pub proof fn lemma_dmg_range_mono_source(s1: int, s2: int, hp: int, t: int, ranged: bool)
    requires
        1 <= s1 <= s2,
        1 <= t,
        0 <= hp <= 100,
    ensures
        spec_dmg_range(s1, hp, t, ranged).0 <= spec_dmg_range(s2, hp, t, ranged).0,
        spec_dmg_range(s1, hp, t, ranged).1 <= spec_dmg_range(s2, hp, t, ranged).1,
{
    lemma_m_mono_source(s1, s2, t);
    lemma_range_le(s2, t, s1, t, hp, ranged);
}

} // verus!

verus! {

/// A defending combatant's modifiers shield it: raising the defender's
/// modifier total never increases the damage range it faces, and never
/// decreases the damage range of its counterattack. With the terrain
/// bonus granted only while defending, a defender on protective terrain
/// therefore fares at least as well as the same defender on flat ground.
pub proof fn lemma_defender_modifiers_shield(c1: CombatStats, c2: CombatStats)
    requires
        c1.wf(),
        c2.wf(),
        c2.ranged == c1.ranged,
        c2.attacker_base_strength == c1.attacker_base_strength,
        c2.defender_base_strength == c1.defender_base_strength,
        c2.attacker_starting_hp == c1.attacker_starting_hp,
        c2.defender_starting_hp == c1.defender_starting_hp,
        c2.attacker_modifiers == c1.attacker_modifiers,
        sum_amounts(c1.defender_modifiers@) <= sum_amounts(c2.defender_modifiers@),
    ensures
        c2.spec_range_to_defender().0 <= c1.spec_range_to_defender().0,
        c2.spec_range_to_defender().1 <= c1.spec_range_to_defender().1,
        c1.spec_range_to_attacker().0 <= c2.spec_range_to_attacker().0,
        c1.spec_range_to_attacker().1 <= c2.spec_range_to_attacker().1,
{
    let a100 = c1.spec_attacker_strength100();
    let d1 = c1.spec_defender_strength100();
    let d2 = c2.spec_defender_strength100();
    lemma_sum_amounts_bounds(c1.attacker_modifiers@);
    lemma_sum_amounts_bounds(c1.defender_modifiers@);
    lemma_sum_amounts_bounds(c2.defender_modifiers@);
    assert(1 <= a100 && 1 <= d1 && d1 <= d2) by (nonlinear_arith)
        requires
            a100 == c1.attacker_base_strength * (100 + sum_amounts(c1.attacker_modifiers@)),
            d1 == c1.defender_base_strength * (100 + sum_amounts(c1.defender_modifiers@)),
            d2 == c1.defender_base_strength * (100 + sum_amounts(c2.defender_modifiers@)),
            1 <= c1.attacker_base_strength,
            1 <= c1.defender_base_strength,
            100 + sum_amounts(c1.attacker_modifiers@) >= 1,
            1 <= 100 + sum_amounts(c1.defender_modifiers@),
            sum_amounts(c1.defender_modifiers@) <= sum_amounts(c2.defender_modifiers@),
    ;
    lemma_dmg_range_mono_target(a100, c1.attacker_starting_hp as int, d1, d2, c1.ranged);
    if !c1.ranged {
        lemma_dmg_range_mono_source(d1, d2, c1.defender_starting_hp as int, a100, false);
    }
}

} // verus!
