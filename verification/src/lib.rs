//! Tactical core of a turn-based hex-grid strategy simulation: cube-coordinate
//! positions, exhaustive path enumeration with pruning, reachability of a unit
//! under terrain cost and zone-of-control rules, and strength-ratio combat
//! resolution.

pub mod hexpos;
pub mod preorder;
pub mod terrain;
pub mod unit;
pub mod numfmt;
pub mod combat;
pub mod map;
pub mod selection;
pub mod ai;
