//! The mathematical model of the battle engine: what every action does to the state,
//! and which events it reports, written over the state's view.

use vstd::prelude::*;

use crate::battle::tuning;
use crate::battle::{
    other_side, Action, ActionError, BattleEvent, Outcome, Side, Unit, UnitId,
};
use crate::grid::{abs, chebyshev, covered, sight, GridPos, GridView};
use crate::search::{least_cost, units_walk};
use crate::rules::{chance_of_hit, roll_damage_result, roll_hit_result};

verus! {

/// Coordinates of a unit stay within this bound, so distances and lines between units fit.
pub const POS_LIMIT: i32 = 0x1000_0000;

/// Weapon damage and the health of a living unit stay within this bound.
pub const DAMAGE_LIMIT: i32 = 0x4000_0000;

/// The state of a battle.
pub struct BattleView {
    pub grid: GridView,
    pub units: Seq<Unit>,
    pub turn: Side,
    pub turn_number: u32,
    /// The generator's seed and the number of words it has yielded.
    pub rng: (u64, nat),
    pub outcome: Option<Outcome>,
}

/// A unit's numbers stay where the engine's arithmetic cannot overflow:
/// its position is near the origin, its weapon does between 0 and `DAMAGE_LIMIT` damage,
/// a shot costs no negative AP, and a living unit's health is above `-DAMAGE_LIMIT`.
pub open spec fn unit_ok(u: Unit) -> bool {
    &&& abs(u.pos.x as int) <= POS_LIMIT
    &&& abs(u.pos.y as int) <= POS_LIMIT
    &&& 0 <= u.weapon.damage_min <= u.weapon.damage_max <= DAMAGE_LIMIT
    &&& 0 <= u.weapon.ap_cost
    &&& u.alive ==> -DAMAGE_LIMIT <= u.health
}

/// Unit ids index the unit list, and every unit's numbers are in range.
pub open spec fn units_ok(units: Seq<Unit>) -> bool {
    &&& units.len() <= u32::MAX
    &&& forall|i: int| 0 <= i < units.len() ==> (#[trigger] units[i]).id.0 == i
    &&& forall|i: int| 0 <= i < units.len() ==> unit_ok(#[trigger] units[i])
}

impl BattleView {
    pub open spec fn wf(self) -> bool {
        &&& self.grid.wf()
        &&& units_ok(self.units)
    }

    pub open spec fn has(self, id: UnitId) -> bool {
        id.0 < self.units.len()
    }

    pub open spec fn unit(self, id: UnitId) -> Unit {
        self.units[id.0 as int]
    }

    pub open spec fn with_units(self, units: Seq<Unit>) -> BattleView {
        BattleView { units, ..self }
    }
}

/// The index of the first living unit on `p` at or after index `i`.
pub open spec fn first_living_at(units: Seq<Unit>, p: GridPos, i: int) -> Option<int>
    decreases units.len() - i,
{
    if i < 0 || i >= units.len() {
        None
    } else if units[i].alive && units[i].pos == p {
        Some(i)
    } else {
        first_living_at(units, p, i + 1)
    }
}

/// What `first_living_at` finds: a living unit on `p`, with none on `p` between `i` and it;
/// or, when it finds nothing, that no living unit from `i` on stands on `p`.
pub proof fn lemma_first_living_at(units: Seq<Unit>, p: GridPos, i: int)
    requires
        0 <= i,
    ensures
        match first_living_at(units, p, i) {
            Some(k) => i <= k < units.len() && units[k].alive && units[k].pos == p && forall|j: int|
                i <= j < k ==> !(#[trigger] units[j].alive && units[j].pos == p),
            None => forall|j: int| i <= j < units.len() ==> !(#[trigger] units[j].alive && units[j].pos == p),
        },
    decreases units.len() - i,
{
    if i < units.len() {
        lemma_first_living_at(units, p, i + 1);
    }
}

/// The index of the living unit standing on `p`, if any (the first one in id order).
pub open spec fn unit_index_at(units: Seq<Unit>, p: GridPos) -> Option<int> {
    first_living_at(units, p, 0)
}

/// The unit `id`, provided it exists and is alive.
pub open spec fn living_unit(s: BattleView, id: UnitId) -> Result<Unit, ActionError> {
    if !s.has(id) {
        Err(ActionError::NoSuchUnit)
    } else if !s.unit(id).alive {
        Err(ActionError::UnitDead)
    } else {
        Ok(s.unit(id))
    }
}

/// `cell` can be reached this turn by the living unit `unit` at AP cost `k`: it is not the
/// unit's own cell, and `k` is the least number of steps over walkable, unoccupied cells
/// (each costing `MOVE_COST`), no more than the unit's AP.
pub open spec fn reach_cost(s: BattleView, unit: UnitId, cell: GridPos, k: int) -> bool {
    &&& s.has(unit)
    &&& s.unit(unit).alive
    &&& cell != s.unit(unit).pos
    &&& least_cost(s.grid, s.units, true, s.unit(unit).pos, cell, k)
    &&& k * tuning::MOVE_COST <= s.unit(unit).ap
}

/// The path `Battle::path_to` gives `unit` to `goal`: the A* walk among units without its
/// start, when the unit lives, the goal is another walkable cell no living unit stands on,
/// a walk reaches it, and its cost fits the unit's AP.
pub open spec fn path_to_result(s: BattleView, unit: UnitId, goal: GridPos) -> Option<Seq<GridPos>> {
    if !(s.has(unit) && s.unit(unit).alive) || goal == s.unit(unit).pos || unit_index_at(
        s.units,
        goal,
    ) is Some || !s.grid.walkable(goal) {
        None
    } else {
        match units_walk(s.grid, s.units, s.unit(unit).pos, goal) {
            Some((p, c)) => if c * tuning::MOVE_COST <= s.unit(unit).ap {
                Some(p)
            } else {
                None
            },
            None => None,
        }
    }
}

/// `shooter` could fire at `target` right now with its AP aside: both alive, different
/// sides, within range and in line of sight.
pub open spec fn can_target(s: BattleView, shooter: UnitId, target: UnitId) -> bool {
    &&& s.has(shooter)
    &&& s.has(target)
    &&& s.unit(shooter).alive
    &&& s.unit(target).alive
    &&& s.unit(shooter).side != s.unit(target).side
    &&& chebyshev(s.unit(shooter).pos, s.unit(target).pos) <= s.unit(shooter).weapon.range
    &&& sight(s.grid, s.unit(shooter).pos, s.unit(target).pos)
}

/// The target's cell shelters it from the shooter's position; false when either is missing.
pub open spec fn in_cover(s: BattleView, shooter: UnitId, target: UnitId) -> bool {
    s.has(shooter) && s.has(target) && covered(s.grid, s.unit(target).pos, s.unit(shooter).pos)
}

/// The hit chance `Battle::hit_chance` reports: `None` when the shot is impossible.
pub open spec fn hit_chance_result(s: BattleView, shooter: UnitId, target: UnitId) -> Option<u32> {
    if can_target(s, shooter, target) {
        Some(
            chance_of_hit(
                chebyshev(s.unit(shooter).pos, s.unit(target).pos),
                s.unit(shooter).weapon.range as int,
                in_cover(s, shooter, target),
            ),
        )
    } else {
        None
    }
}

/// Order for listing visible enemies: nearer first, then lower id.
pub open spec fn nearer(s: BattleView, unit: UnitId, a: UnitId, b: UnitId) -> bool {
    let p = s.unit(unit).pos;
    let da = chebyshev(p, s.unit(a).pos);
    let db = chebyshev(p, s.unit(b).pos);
    da < db || (da == db && a.0 < b.0)
}

/// `ids` lists exactly the units `unit` could fire at, each once, nearest first, ties by id.
pub open spec fn visible_list(s: BattleView, unit: UnitId, ids: Seq<UnitId>) -> bool {
    &&& forall|i: int| 0 <= i < ids.len() ==> can_target(s, unit, #[trigger] ids[i])
    &&& forall|t: UnitId| can_target(s, unit, t) ==> #[trigger] ids.contains(t)
    &&& forall|i: int, j: int| 0 <= i < j < ids.len() ==> nearer(s, unit, ids[i], ids[j])
}

/// Whether `shooter` may fire at `target` now, checked in this order: both exist and live,
/// it is the shooter's turn (not asked of reaction shots), they are on different sides,
/// the shooter has the AP, the target is within range, and in line of sight.
pub open spec fn shot_check(s: BattleView, shooter: UnitId, target: UnitId, reaction: bool) -> Result<
    (),
    ActionError,
> {
    match living_unit(s, shooter) {
        Err(e) => Err(e),
        Ok(sh) => match living_unit(s, target) {
            Err(e) => Err(e),
            Ok(t) => {
                let distance = chebyshev(sh.pos, t.pos);
                if !reaction && sh.side != s.turn {
                    Err(ActionError::NotYourTurn)
                } else if sh.side == t.side {
                    Err(ActionError::SameSide)
                } else if sh.ap < sh.weapon.ap_cost {
                    Err(ActionError::NotEnoughAp { need: sh.weapon.ap_cost, have: sh.ap })
                } else if distance > sh.weapon.range {
                    Err(ActionError::OutOfRange { distance: distance as i32, range: sh.weapon.range })
                } else if !sight(s.grid, sh.pos, t.pos) {
                    Err(ActionError::TargetNotVisible)
                } else {
                    Ok(())
                }
            },
        },
    }
}

/// The hit chance of `shooter` against `target` where they stand.
pub open spec fn shot_chance(s: BattleView, shooter: UnitId, target: UnitId) -> u32 {
    let sh = s.unit(shooter);
    let t = s.unit(target);
    chance_of_hit(
        chebyshev(sh.pos, t.pos),
        sh.weapon.range as int,
        covered(s.grid, t.pos, sh.pos),
    )
}

/// A validated shot: the shooter pays its weapon's AP cost, the hit is rolled against the
/// hit chance, damage is rolled only on a hit (0 on a miss), the target loses that much
/// health, and dies when its health reaches 0.
pub open spec fn shot_result(s: BattleView, shooter: UnitId, target: UnitId, reaction: bool) -> (
    BattleView,
    Seq<BattleEvent>,
) {
    let sh = s.unit(shooter);
    let (hit, r1) = roll_hit_result(s.rng, shot_chance(s, shooter, target));
    let (damage, r2) = if hit {
        roll_damage_result(r1, sh.weapon.damage_min, sh.weapon.damage_max)
    } else {
        (0i32, r1)
    };
    let units1 = s.units.update(shooter.0 as int, Unit { ap: (sh.ap - sh.weapon.ap_cost) as i32, ..sh });
    let t = units1[target.0 as int];
    let health = t.health - damage;
    let dies = health <= 0 && t.alive;
    let units2 = units1.update(
        target.0 as int,
        Unit { health: health as i32, alive: if dies { false } else { t.alive }, ..t },
    );
    let shot = if reaction {
        BattleEvent::ReactionShot { shooter, target, hit, damage }
    } else {
        BattleEvent::Shot { shooter, target, hit, damage }
    };
    let events = if dies {
        seq![shot, BattleEvent::Died(target)]
    } else {
        seq![shot]
    };
    (BattleView { units: units2, rng: r2, ..s }, events)
}

/// The step from `prev` to `cell` is a diagonal that squeezes past a blocked corner.
pub open spec fn cuts_corner(g: GridView, prev: GridPos, cell: GridPos) -> bool {
    let dx = cell.x - prev.x;
    let dy = cell.y - prev.y;
    dx != 0 && dy != 0 && !(g.walkable(GridPos { x: (prev.x + dx) as i32, y: prev.y })
        && g.walkable(GridPos { x: prev.x, y: (prev.y + dy) as i32 }))
}

/// Checks the cells of `path` from index `i` on, the previous cell being `prev`: each
/// must be walkable, one king move from the previous without cutting a corner, and free
/// of living units. The first failure is reported.
pub open spec fn path_check_from(s: BattleView, prev: GridPos, path: Seq<GridPos>, i: int) -> Result<
    (),
    ActionError,
>
    decreases path.len() - i,
{
    if i < 0 || i >= path.len() {
        Ok(())
    } else {
        let cell = path[i];
        if !s.grid.walkable(cell) {
            Err(ActionError::PathNotWalkable(cell))
        } else if chebyshev(prev, cell) != 1 {
            Err(ActionError::PathNotContiguous)
        } else if cuts_corner(s.grid, prev, cell) {
            Err(ActionError::PathNotContiguous)
        } else if unit_index_at(s.units, cell) is Some {
            Err(ActionError::CellOccupied(cell))
        } else {
            path_check_from(s, cell, path, i + 1)
        }
    }
}

/// A path that passes the checks from index `i` on has only walkable cells there.
pub proof fn lemma_path_check_walkable(s: BattleView, prev: GridPos, path: Seq<GridPos>, i: int)
    requires
        0 <= i,
        path_check_from(s, prev, path, i) is Ok,
    ensures
        forall|k: int| i <= k < path.len() ==> s.grid.walkable(#[trigger] path[k]),
    decreases path.len() - i,
{
    if i < path.len() {
        lemma_path_check_walkable(s, path[i], path, i + 1);
    }
}

/// Whether `unit` may walk `path` now, checked in this order: the unit exists and lives,
/// it is its side's turn, the path is not empty, the unit has the AP for every cell,
/// and every cell passes `path_check_from`.
pub open spec fn move_check(s: BattleView, unit: UnitId, path: Seq<GridPos>) -> Result<(), ActionError> {
    match living_unit(s, unit) {
        Err(e) => Err(e),
        Ok(u) => {
            let need = path.len() * tuning::MOVE_COST;
            if u.side != s.turn {
                Err(ActionError::NotYourTurn)
            } else if path.len() == 0 {
                Err(ActionError::EmptyPath)
            } else if u.ap < need {
                Err(ActionError::NotEnoughAp { need: need as i32, have: u.ap })
            } else {
                path_check_from(s, u.pos, path, 0)
            }
        },
    }
}

/// Reaction fire against `mover`, by the units from index `j` on in id order: each living
/// unit of the other side with the AP, in range and in line of sight of the mover's cell
/// fires once; firing stops as soon as the mover is dead.
pub open spec fn react_from(s: BattleView, mover: UnitId, j: int) -> (BattleView, Seq<BattleEvent>)
    decreases s.units.len() - j,
{
    if j < 0 || j >= s.units.len() || !s.unit(mover).alive {
        (s, seq![])
    } else {
        let reactor = UnitId(j as u32);
        if shot_check(s, reactor, mover, true) is Ok {
            let (s1, e1) = shot_result(s, reactor, mover, true);
            let (s2, e2) = react_from(s1, mover, j + 1);
            (s2, e1 + e2)
        } else {
            react_from(s, mover, j + 1)
        }
    }
}

/// Walks `unit` along `path` from index `i` on: each step moves it one cell and costs
/// `MOVE_COST`, is reported as `Stepped`, and draws reaction fire; the walk ends early
/// where the unit dies.
pub open spec fn walk_from(s: BattleView, unit: UnitId, path: Seq<GridPos>, i: int) -> (
    BattleView,
    Seq<BattleEvent>,
)
    decreases path.len() - i,
{
    if i < 0 || i >= path.len() {
        (s, seq![])
    } else {
        let u = s.unit(unit);
        let cell = path[i];
        let s1 = s.with_units(
            s.units.update(
                unit.0 as int,
                Unit { pos: cell, ap: (u.ap - tuning::MOVE_COST) as i32, ..u },
            ),
        );
        let step = BattleEvent::Stepped { unit, from: u.pos, to: cell };
        let (s2, e2) = react_from(s1, unit, 0);
        if !s2.unit(unit).alive {
            (s2, seq![step] + e2)
        } else {
            let (s3, e3) = walk_from(s2, unit, path, i + 1);
            (s3, seq![step] + e2 + e3)
        }
    }
}

/// The units after the turn passes to `side`: each of its living units gets full AP.
pub open spec fn refill_ap(units: Seq<Unit>, side: Side) -> Seq<Unit> {
    Seq::new(
        units.len(),
        |i: int|
            if units[i].alive && units[i].side == side {
                Unit { ap: units[i].ap_max, ..units[i] }
            } else {
                units[i]
            },
    )
}

/// The turn passes to the other side; the turn number grows when the player's turn begins.
pub open spec fn switch_turn(s: BattleView) -> (BattleView, Seq<BattleEvent>) {
    let side = other_side(s.turn);
    let number = if side == Side::Player { s.turn_number + 1 } else { s.turn_number as int };
    (
        BattleView {
            units: refill_ap(s.units, side),
            turn: side,
            turn_number: number as u32,
            ..s
        },
        seq![
            BattleEvent::TurnEnded(s.turn),
            BattleEvent::TurnStarted { side, turn_number: number as u32 },
        ],
    )
}

/// A side that has units has no living unit left.
pub open spec fn wiped_out(units: Seq<Unit>, side: Side) -> bool {
    &&& exists|i: int| 0 <= i < units.len() && (#[trigger] units[i]).side == side
    &&& !exists|i: int| 0 <= i < units.len() && (#[trigger] units[i]).side == side && units[i].alive
}

/// Settles the outcome once: defeat when the player's side is wiped out, else victory
/// when the enemy's is.
pub open spec fn settle(s: BattleView) -> (BattleView, Seq<BattleEvent>) {
    if s.outcome is Some {
        (s, seq![])
    } else if wiped_out(s.units, Side::Player) {
        (BattleView { outcome: Some(Outcome::Defeat), ..s }, seq![BattleEvent::BattleOver(Outcome::Defeat)])
    } else if wiped_out(s.units, Side::Enemy) {
        (BattleView { outcome: Some(Outcome::Victory), ..s }, seq![BattleEvent::BattleOver(Outcome::Victory)])
    } else {
        (s, seq![])
    }
}

/// Runs `f`'s result through `settle`, joining the events.
pub open spec fn then_settle(r: (BattleView, Seq<BattleEvent>)) -> (BattleView, Seq<BattleEvent>) {
    let (s2, e2) = settle(r.0);
    (s2, r.1 + e2)
}

/// What applying `action` does: an error (and no change), or the new state and the events
/// in the order they happened.
pub open spec fn apply_result(s: BattleView, action: Action) -> Result<(BattleView, Seq<BattleEvent>), ActionError> {
    if s.outcome is Some {
        Err(ActionError::BattleOver)
    } else {
        match action {
            Action::EndTurn => if s.turn != Side::Player {
                Err(ActionError::EndTurnOnlyOnPlayerTurn)
            } else {
                Ok(then_settle(switch_turn(s)))
            },
            Action::Shoot { unit, target } => match shot_check(s, unit, target, false) {
                Err(e) => Err(e),
                Ok(_) => Ok(then_settle(shot_result(s, unit, target, false))),
            },
            Action::Move { unit, path } => match move_check(s, unit, path@) {
                Err(e) => Err(e),
                Ok(_) => Ok(then_settle(walk_from(s, unit, path@, 0))),
            },
        }
    }
}

/// Ending the enemy's turn: the turn passes to the player, unless it is not the enemy's
/// turn or the battle is over, when nothing happens.
pub open spec fn end_enemy_turn_result(s: BattleView) -> (BattleView, Seq<BattleEvent>) {
    if s.turn == Side::Enemy && s.outcome is None {
        switch_turn(s)
    } else {
        (s, seq![])
    }
}

} // verus!
