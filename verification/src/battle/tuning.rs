//! Tuning constants of the battle rules, in one place.

use vstd::prelude::*;

use crate::battle::Weapon;

verus! {

pub const SOLDIER_AP: i32 = 6;

pub const ENEMY_AP: i32 = 5;

/// AP per cell moved, diagonals included.
pub const MOVE_COST: i32 = 1;

pub const RIFLE_AP_COST: i32 = 3;

pub const HEALTH: i32 = 100;

pub open spec fn spec_soldier_weapon() -> Weapon {
    Weapon { range: 8, damage_min: 20, damage_max: 35, ap_cost: RIFLE_AP_COST }
}

pub open spec fn spec_enemy_weapon() -> Weapon {
    Weapon { range: 7, damage_min: 10, damage_max: 25, ap_cost: RIFLE_AP_COST }
}

/// The soldiers' rifle.
pub fn soldier_weapon() -> (w: Weapon)
    ensures
        w == spec_soldier_weapon(),
{
    Weapon { range: 8, damage_min: 20, damage_max: 35, ap_cost: RIFLE_AP_COST }
}

/// The raiders' rifle.
pub fn enemy_weapon() -> (w: Weapon)
    ensures
        w == spec_enemy_weapon(),
{
    Weapon { range: 7, damage_min: 10, damage_max: 25, ap_cost: RIFLE_AP_COST }
}

} // verus!
