//! User's current selections among the game elements.

use vstd::prelude::*;
use crate::hexpos::Pos;
use crate::unit::UnitID;

verus! {

/// User's current selections among the game elements.
pub struct Selection {
    pub unit_id: Option<UnitID>,
    pub pos: Option<Pos>,
}

impl Selection {
    pub fn new() -> (r: Selection)
        ensures
            r.unit_id is None,
            r.pos is None,
    {
        Selection { unit_id: None, pos: None }
    }

    /// Whether `unit_id` is the currently active unit.
    pub fn is_unit_active(&self, unit_id: UnitID) -> (r: bool)
        ensures
            r == (self.unit_id == Some(unit_id)),
    {
        match self.unit_id {
            Some(uid) => unit_id == uid,
            None => false,
        }
    }
}

} // verus!
