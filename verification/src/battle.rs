//! The turn-based battle engine. Units are addressed by `UnitId`, which indexes
//! `Battle::units`. Presentation applies `Action`s and animates the returned
//! `BattleEvent`s; nothing else mutates state.

use vstd::prelude::*;

use crate::battle::model::{
    apply_result, can_target, end_enemy_turn_result, hit_chance_result, in_cover, nearer,
    path_to_result, reach_cost, visible_list, first_living_at, living_unit, move_check,
    path_check_from, react_from, refill_ap, settle, shot_check, shot_chance, shot_result,
    switch_turn, unit_index_at, unit_ok, units_ok, walk_from, wiped_out, BattleView, POS_LIMIT,
};
use crate::grid::{abs, chebyshev, inner_pos, line_fits, Grid, GridPos};
use crate::search::{astar_search, dijkstra_reach, lemma_least_cost_unique, units_walk, connected, shortest_walk, least_cost};
use crate::rules::{hit_chance, roll_damage, roll_hit, GameRng};
use crate::battle::laws::{
    damage_in_bounds, law_action_keeps, lemma_damage_bounds_weapons, shot_damage_ok, unit_kept,
};

pub mod laws;
pub mod model;
pub mod tuning;

verus! {

#[derive(Clone, Copy, PartialEq, Eq, Hash, Debug, PartialOrd, Ord, Structural)]
pub struct UnitId(pub u32);

#[derive(Clone, Copy, PartialEq, Eq, Debug, Structural)]
pub enum Side {
    Player,
    Enemy,
}

pub open spec fn other_side(s: Side) -> Side {
    match s {
        Side::Player => Side::Enemy,
        Side::Enemy => Side::Player,
    }
}

impl Side {
    pub fn other(self) -> (o: Side)
        ensures
            o == other_side(self),
            o != self,
    {
        match self {
            Side::Player => Side::Enemy,
            Side::Enemy => Side::Player,
        }
    }
}

#[derive(Clone, Copy, PartialEq, Eq, Debug, Structural)]
pub struct Weapon {
    /// Maximum Chebyshev distance in cells.
    pub range: i32,
    pub damage_min: i32,
    pub damage_max: i32,
    pub ap_cost: i32,
}

#[derive(Clone, Copy, Debug, PartialEq, Eq, Structural)]
pub struct Unit {
    pub id: UnitId,
    pub side: Side,
    pub pos: GridPos,
    pub health: i32,
    pub health_max: i32,
    pub weapon: Weapon,
    pub ap: i32,
    pub ap_max: i32,
    pub alive: bool,
}

/// A fresh unit of the given side: full health and AP, the side's rifle.
pub open spec fn new_unit(id: UnitId, side: Side, pos: GridPos) -> Unit {
    let (ap_max, weapon) = match side {
        Side::Player => (tuning::SOLDIER_AP, tuning::spec_soldier_weapon()),
        Side::Enemy => (tuning::ENEMY_AP, tuning::spec_enemy_weapon()),
    };
    Unit {
        id,
        side,
        pos,
        health: tuning::HEALTH,
        health_max: tuning::HEALTH,
        weapon,
        ap: ap_max,
        ap_max,
        alive: true,
    }
}

impl Unit {
    pub fn new(id: UnitId, side: Side, pos: GridPos) -> (u: Unit)
        ensures
            u == new_unit(id, side, pos),
    {
        let (ap_max, weapon) = match side {
            Side::Player => (tuning::SOLDIER_AP, tuning::soldier_weapon()),
            Side::Enemy => (tuning::ENEMY_AP, tuning::enemy_weapon()),
        };
        Unit {
            id,
            side,
            pos,
            health: tuning::HEALTH,
            health_max: tuning::HEALTH,
            weapon,
            ap: ap_max,
            ap_max,
            alive: true,
        }
    }
}

#[derive(Clone, Copy, PartialEq, Eq, Debug, Structural)]
pub enum Outcome {
    Victory,
    Defeat,
}

#[derive(Clone, Debug, PartialEq, Eq)]
pub enum Action {
    /// `path` excludes the unit's current cell and ends at the destination.
    Move { unit: UnitId, path: Vec<GridPos> },
    Shoot { unit: UnitId, target: UnitId },
    EndTurn,
}

#[derive(Clone, Copy, Debug, PartialEq, Eq, Structural)]
pub enum BattleEvent {
    Stepped { unit: UnitId, from: GridPos, to: GridPos },
    Shot { shooter: UnitId, target: UnitId, hit: bool, damage: i32 },
    ReactionShot { shooter: UnitId, target: UnitId, hit: bool, damage: i32 },
    Died(UnitId),
    TurnEnded(Side),
    TurnStarted { side: Side, turn_number: u32 },
    BattleOver(Outcome),
}

#[derive(Clone, Copy, Debug, PartialEq, Eq, Structural)]
pub enum ActionError {
    BattleOver,
    NotYourTurn,
    NoSuchUnit,
    UnitDead,
    NotEnoughAp { need: i32, have: i32 },
    EmptyPath,
    PathNotWalkable(GridPos),
    PathNotContiguous,
    CellOccupied(GridPos),
    TargetNotVisible,
    OutOfRange { distance: i32, range: i32 },
    SameSide,
    EndTurnOnlyOnPlayerTurn,
}


/// All battle state. Mutated only through `apply` and `end_enemy_turn`.
#[derive(Clone)]
pub struct Battle {
    grid: Grid,
    units: Vec<Unit>,
    turn: Side,
    turn_number: u32,
    rng: GameRng,
    outcome: Option<Outcome>,
}

impl View for Battle {
    type V = BattleView;

    closed spec fn view(&self) -> BattleView {
        BattleView {
            grid: self.grid@,
            units: self.units@,
            turn: self.turn,
            turn_number: self.turn_number,
            rng: self.rng@,
            outcome: self.outcome,
        }
    }
}

/// Positions within `POS_LIMIT` are close enough for every distance and line between them.
pub(crate) proof fn lemma_positions_fit(a: GridPos, b: GridPos)
    requires
        abs(a.x as int) <= POS_LIMIT,
        abs(a.y as int) <= POS_LIMIT,
        abs(b.x as int) <= POS_LIMIT,
        abs(b.y as int) <= POS_LIMIT,
    ensures
        crate::grid::distance_fits(a, b),
        line_fits(a, b),
        line_fits(b, a),
        chebyshev(a, b) <= 2 * POS_LIMIT,
{
}

impl Battle {
    /// The engine's invariant: see `BattleView::wf`.
    pub open spec fn wf(&self) -> bool {
        self@.wf()
    }

    /// `units` must be ordered so that `units[i].id == UnitId(i)`.
    pub fn new(grid: Grid, units: Vec<Unit>, seed: u64) -> (b: Battle)
        requires
            grid.wf(),
            units_ok(units@),
        ensures
            b.wf(),
            b@ == (BattleView {
                grid: grid@,
                units: units@,
                turn: Side::Player,
                turn_number: 1,
                rng: (seed, 0nat),
                outcome: None,
            }),
    {
        Battle {
            grid,
            units,
            turn: Side::Player,
            turn_number: 1,
            rng: GameRng::seeded(seed),
            outcome: None,
        }
    }

    pub fn grid(&self) -> (g: &Grid)
        ensures
            g@ == self@.grid,
            self.wf() ==> g.wf(),
    {
        &self.grid
    }

    pub fn units(&self) -> (u: &[Unit])
        ensures
            u@ == self@.units,
    {
        self.units.as_slice()
    }

    pub fn unit(&self, id: UnitId) -> (u: Option<&Unit>)
        ensures
            match u {
                Some(u) => self@.has(id) && *u == self@.unit(id),
                None => !self@.has(id),
            },
    {
        if (id.0 as usize) < self.units.len() {
            Some(&self.units[id.0 as usize])
        } else {
            None
        }
    }

    pub fn turn(&self) -> (t: Side)
        ensures
            t == self@.turn,
    {
        self.turn
    }

    pub fn turn_number(&self) -> (n: u32)
        ensures
            n == self@.turn_number,
    {
        self.turn_number
    }

    pub fn outcome(&self) -> (o: Option<Outcome>)
        ensures
            o == self@.outcome,
    {
        self.outcome
    }

    /// The living units of `side`, in id order.
    pub fn living(&self, side: Side) -> (out: Vec<Unit>)
        ensures
            out@ == self@.units.filter(|u: Unit| u.alive && u.side == side),
    {
        let ghost keep = |u: Unit| u.alive && u.side == side;
        let mut out: Vec<Unit> = Vec::new();
        let mut i: usize = 0;
        while i < self.units.len()
            invariant
                i <= self.units@.len(),
                keep == (|u: Unit| u.alive && u.side == side),
                out@ == self.units@.take(i as int).filter(keep),
            decreases self.units.len() - i,
        {
            let u = self.units[i];
            proof {
                reveal_with_fuel(Seq::filter, 1);
                assert(self.units@.take(i + 1).drop_last() =~= self.units@.take(i as int));
            }
            if u.alive && u.side == side {
                out.push(u);
            }
            i = i + 1;
        }
        proof {
            assert(self.units@.take(self.units@.len() as int) =~= self.units@);
        }
        out
    }

    fn unit_index_at(&self, p: GridPos) -> (r: Option<usize>)
        ensures
            match r {
                Some(i) => unit_index_at(self@.units, p) == Some(i as int),
                None => unit_index_at(self@.units, p) is None,
            },
    {
        let mut i: usize = 0;
        while i < self.units.len()
            invariant
                i <= self.units@.len(),
                unit_index_at(self@.units, p) == first_living_at(self@.units, p, i as int),
            decreases self.units.len() - i,
        {
            if self.units[i].alive && self.units[i].pos == p {
                return Some(i);
            }
            i = i + 1;
        }
        None
    }

    /// The living unit standing on `pos`, if any.
    pub fn unit_at(&self, pos: GridPos) -> (u: Option<&Unit>)
        ensures
            match u {
                Some(u) => unit_index_at(self@.units, pos) matches Some(i) && *u == self@.units[i],
                None => unit_index_at(self@.units, pos) is None,
            },
    {
        proof {
            crate::battle::model::lemma_first_living_at(self@.units, pos, 0);
        }
        match self.unit_index_at(pos) {
            Some(i) => Some(&self.units[i]),
            None => None,
        }
    }

    fn living_unit(&self, id: UnitId) -> (r: Result<Unit, ActionError>)
        ensures
            r == living_unit(self@, id),
    {
        match self.unit(id) {
            None => Err(ActionError::NoSuchUnit),
            Some(u) => if !u.alive {
                Err(ActionError::UnitDead)
            } else {
                Ok(*u)
            },
        }
    }

    /// Shared by ordinary and reaction shots. Reaction shots skip the turn check.
    fn validate_shot(&self, shooter: UnitId, target: UnitId, reaction: bool) -> (r: Result<
        (),
        ActionError,
    >)
        requires
            self.wf(),
        ensures
            r == shot_check(self@, shooter, target, reaction),
    {
        let s = self.living_unit(shooter)?;
        let t = self.living_unit(target)?;
        proof {
            lemma_positions_fit(s.pos, t.pos);
        }
        if !reaction && s.side != self.turn {
            return Err(ActionError::NotYourTurn);
        }
        if s.side == t.side {
            return Err(ActionError::SameSide);
        }
        if s.ap < s.weapon.ap_cost {
            return Err(ActionError::NotEnoughAp { need: s.weapon.ap_cost, have: s.ap });
        }
        let distance = s.pos.distance(t.pos);
        if distance > s.weapon.range {
            return Err(ActionError::OutOfRange { distance, range: s.weapon.range });
        }
        if !self.grid.has_line_of_sight(s.pos, t.pos) {
            return Err(ActionError::TargetNotVisible);
        }
        Ok(())
    }

    /// Resolves an already-validated shot: spends AP, rolls, applies damage, emits events.
    fn fire(&mut self, shooter: UnitId, target: UnitId, reaction: bool, events: &mut Vec<BattleEvent>)
        requires
            old(self).wf(),
            shot_check(old(self)@, shooter, target, reaction) is Ok,
            damage_in_bounds(old(self)@.units, old(events)@),
        ensures
            final(self).wf(),
            final(self)@ == shot_result(old(self)@, shooter, target, reaction).0,
            final(events)@ == old(events)@ + shot_result(old(self)@, shooter, target, reaction).1,
            damage_in_bounds(final(self)@.units, final(events)@),
    {
        let ghost s0 = self@;
        let ghost e0 = events@;
        let sh = self.units[shooter.0 as usize];
        let shooter_pos = sh.pos;
        let weapon = sh.weapon;
        let target_pos = self.units[target.0 as usize].pos;
        proof {
            assert(unit_ok(s0.units[shooter.0 as int]));
            assert(unit_ok(s0.units[target.0 as int]));
            lemma_positions_fit(shooter_pos, target_pos);
        }
        let distance = shooter_pos.distance(target_pos);
        let in_cover = self.grid.cover_against(target_pos, shooter_pos);
        let chance = hit_chance(distance, weapon.range, in_cover);
        assert(chance == shot_chance(s0, shooter, target));
        let hit = roll_hit(&mut self.rng, chance);
        let damage = if hit {
            roll_damage(&mut self.rng, weapon.damage_min, weapon.damage_max)
        } else {
            0
        };
        let mut s = self.units[shooter.0 as usize];
        s.ap = s.ap - weapon.ap_cost;
        self.units.set(shooter.0 as usize, s);
        let mut t = self.units[target.0 as usize];
        t.health = t.health - damage;
        let dies = t.health <= 0 && t.alive;
        if dies {
            t.alive = false;
        }
        self.units.set(target.0 as usize, t);
        proof {
            assert forall|i: int| 0 <= i < s0.units.len() implies (#[trigger] s0.units[i]).weapon
                == self@.units[i].weapon by {}
            lemma_damage_bounds_weapons(s0.units, self@.units, e0);
        }
        let shot = if reaction {
            BattleEvent::ReactionShot { shooter, target, hit, damage }
        } else {
            BattleEvent::Shot { shooter, target, hit, damage }
        };
        events.push(shot);
        if dies {
            events.push(BattleEvent::Died(target));
        }
        proof {
            let (s1, e1) = shot_result(s0, shooter, target, reaction);
            assert(self@.units =~= s1.units);
            assert forall|i: int| 0 <= i < events@.len() implies (match #[trigger] events@[i] {
                BattleEvent::Shot { shooter, hit, damage, .. } => shot_damage_ok(self@.units, shooter, hit, damage),
                BattleEvent::ReactionShot { shooter, hit, damage, .. } => shot_damage_ok(self@.units, shooter, hit, damage),
                _ => true,
            }) by {
                if i < e0.len() {
                    assert(events@[i] == e0[i]);
                }
            }
            assert forall|i: int| 0 <= i < self@.units.len() implies unit_ok(
                #[trigger] self@.units[i],
            ) by {
                assert(unit_ok(s0.units[i]));
            }
            assert forall|i: int| 0 <= i < self@.units.len() implies (
            #[trigger] self@.units[i]).id.0 == i by {
                assert(s0.units[i].id.0 == i);
            }
        }
    }
}


impl Battle {
    fn validate_path(&self, unit: UnitId, path: &Vec<GridPos>) -> (r: Result<(), ActionError>)
        requires
            self.wf(),
        ensures
            r == move_check(self@, unit, path@),
    {
        let u = self.living_unit(unit)?;
        if u.side != self.turn {
            return Err(ActionError::NotYourTurn);
        }
        if path.len() == 0 {
            return Err(ActionError::EmptyPath);
        }
        if path.len() > 0x7fff_ffff {
            // More cells than any unit can have AP for; the reported need wraps as an `i32`.
            return Err(ActionError::NotEnoughAp { need: #[verifier::truncate] (path.len() as i32), have: u.ap });
        }
        let need = path.len() as i32 * tuning::MOVE_COST;
        if u.ap < need {
            return Err(ActionError::NotEnoughAp { need, have: u.ap });
        }
        proof {
            assert(unit_ok(self@.units[unit.0 as int]));
        }
        let mut prev = u.pos;
        let mut i: usize = 0;
        while i < path.len()
            invariant
                self.wf(),
                i <= path@.len(),
                abs(prev.x as int) <= POS_LIMIT,
                abs(prev.y as int) <= POS_LIMIT,
                move_check(self@, unit, path@) == path_check_from(self@, prev, path@, i as int),
            decreases path.len() - i,
        {
            let cell = path[i];
            if !self.grid.is_walkable(cell) {
                return Err(ActionError::PathNotWalkable(cell));
            }
            proof {
                lemma_positions_fit(prev, cell);
            }
            if prev.distance(cell) != 1 {
                return Err(ActionError::PathNotContiguous);
            }
            let dx = cell.x - prev.x;
            let dy = cell.y - prev.y;
            let diagonal = dx != 0 && dy != 0;
            if diagonal && !(self.grid.is_walkable(GridPos::new(prev.x + dx, prev.y))
                && self.grid.is_walkable(GridPos::new(prev.x, prev.y + dy))) {
                return Err(ActionError::PathNotContiguous);
            }
            if self.unit_at(cell).is_some() {
                return Err(ActionError::CellOccupied(cell));
            }
            prev = cell;
            i = i + 1;
        }
        Ok(())
    }

    /// After `mover` steps: every living unit of the other side, in ascending id order,
    /// with enough AP, in range and with line of sight to the mover's new cell fires once.
    /// Stops as soon as the mover dies.
    fn react_to(&mut self, mover: UnitId, events: &mut Vec<BattleEvent>)
        requires
            old(self).wf(),
            old(self)@.has(mover),
            damage_in_bounds(old(self)@.units, old(events)@),
        ensures
            final(self).wf(),
            damage_in_bounds(final(self)@.units, final(events)@),
            final(self)@ == react_from(old(self)@, mover, 0).0,
            final(events)@ == old(events)@ + react_from(old(self)@, mover, 0).1,
            final(self)@.grid == old(self)@.grid,
            final(self)@.turn == old(self)@.turn,
            final(self)@.turn_number == old(self)@.turn_number,
            final(self)@.outcome == old(self)@.outcome,
            final(self)@.units.len() == old(self)@.units.len(),
            final(self)@.unit(mover).pos == old(self)@.unit(mover).pos,
            final(self)@.unit(mover).ap == old(self)@.unit(mover).ap,
    {
        let ghost s0 = self@;
        let ghost e0 = events@;
        let mut j: usize = 0;
        while j < self.units.len() && self.units[mover.0 as usize].alive
            invariant
                self.wf(),
                self@.has(mover),
                damage_in_bounds(self@.units, events@),
                j <= self@.units.len(),
                self@.units.len() == s0.units.len(),
                self@.grid == s0.grid,
                self@.turn == s0.turn,
                self@.turn_number == s0.turn_number,
                self@.outcome == s0.outcome,
                self@.unit(mover).pos == s0.unit(mover).pos,
                self@.unit(mover).ap == s0.unit(mover).ap,
                react_from(self@, mover, j as int).0 == react_from(s0, mover, 0).0,
                events@ + react_from(self@, mover, j as int).1 == e0 + react_from(s0, mover, 0).1,
            decreases self.units.len() - j,
        {
            let ghost sj = self@;
            let ghost ej = events@;
            let reactor = UnitId(j as u32);
            proof {
                assert(self@.units[j as int].id.0 == j);
            }
            if self.validate_shot(reactor, mover, true).is_ok() {
                self.fire(reactor, mover, true, events);
                proof {
                    let (s1, e1) = shot_result(sj, reactor, mover, true);
                    assert(react_from(sj, mover, j as int) == (react_from(s1, mover, j + 1).0, e1
                        + react_from(s1, mover, j + 1).1));
                    assert(events@ + react_from(self@, mover, j + 1).1 =~= ej + react_from(
                        sj,
                        mover,
                        j as int,
                    ).1);
                }
            } else {
                proof {
                    assert(react_from(sj, mover, j as int) == react_from(sj, mover, j + 1));
                }
            }
            j = j + 1;
        }
        proof {
            assert(react_from(self@, mover, j as int) == (self@, Seq::<BattleEvent>::empty()));
            assert(events@ =~= events@ + Seq::<BattleEvent>::empty());
        }
    }
}


/// What is left of a walk from index `i` in state `s`: nothing once the path is done or
/// the walker has died.
pub open spec fn walk_rest(s: BattleView, unit: UnitId, path: Seq<GridPos>, i: int) -> (
    BattleView,
    Seq<BattleEvent>,
) {
    if i < path.len() && s.unit(unit).alive {
        walk_from(s, unit, path, i)
    } else {
        (s, seq![])
    }
}

impl Battle {
    fn walk(&mut self, unit: UnitId, path: &Vec<GridPos>, events: &mut Vec<BattleEvent>)
        requires
            old(self).wf(),
            move_check(old(self)@, unit, path@) is Ok,
            damage_in_bounds(old(self)@.units, old(events)@),
        ensures
            final(self).wf(),
            damage_in_bounds(final(self)@.units, final(events)@),
            final(self)@ == walk_from(old(self)@, unit, path@, 0).0,
            final(events)@ == old(events)@ + walk_from(old(self)@, unit, path@, 0).1,
    {
        let ghost s0 = self@;
        let ghost e0 = events@;
        proof {
            crate::battle::model::lemma_path_check_walkable(s0, s0.unit(unit).pos, path@, 0);
        }
        let mut i: usize = 0;
        while i < path.len() && self.units[unit.0 as usize].alive
            invariant
                self.wf(),
                self@.has(unit),
                damage_in_bounds(self@.units, events@),
                i <= path@.len(),
                self@.grid == s0.grid,
                self@.units.len() == s0.units.len(),
                self@.unit(unit).ap >= path@.len() - i,
                forall|k: int| 0 <= k < path@.len() ==> s0.grid.walkable(#[trigger] path@[k]),
                walk_rest(self@, unit, path@, i as int).0 == walk_from(s0, unit, path@, 0).0,
                events@ + walk_rest(self@, unit, path@, i as int).1 == e0 + walk_from(
                    s0,
                    unit,
                    path@,
                    0,
                ).1,
            decreases path.len() - i,
        {
            let ghost si = self@;
            let ghost ei = events@;
            let cell = path[i];
            let mut u = self.units[unit.0 as usize];
            let from = u.pos;
            u.pos = cell;
            u.ap = u.ap - tuning::MOVE_COST;
            self.units.set(unit.0 as usize, u);
            proof {
                assert(s0.grid.walkable(path@[i as int]));
                assert(unit_ok(si.units[unit.0 as int]));
                assert forall|k: int| 0 <= k < self@.units.len() implies unit_ok(
                    #[trigger] self@.units[k],
                ) && self@.units[k].id.0 == k by {
                    assert(unit_ok(si.units[k]));
                    assert(si.units[k].id.0 == k);
                }
                assert forall|k: int| 0 <= k < si.units.len() implies (#[trigger] si.units[k]).weapon
                    == self@.units[k].weapon by {}
                lemma_damage_bounds_weapons(si.units, self@.units, ei);
            }
            let ghost s1 = self@;
            events.push(BattleEvent::Stepped { unit, from, to: cell });
            proof {
                assert forall|k: int| 0 <= k < events@.len() implies (match #[trigger] events@[k] {
                    BattleEvent::Shot { shooter, hit, damage, .. } => shot_damage_ok(self@.units, shooter, hit, damage),
                    BattleEvent::ReactionShot { shooter, hit, damage, .. } => shot_damage_ok(self@.units, shooter, hit, damage),
                    _ => true,
                }) by {
                    if k < ei.len() {
                        assert(events@[k] == ei[k]);
                    }
                }
            }
            self.react_to(unit, events);
            proof {
                let step = BattleEvent::Stepped { unit, from, to: cell };
                let (s2, e2) = react_from(s1, unit, 0);
                assert(s1 == si.with_units(
                    si.units.update(
                        unit.0 as int,
                        Unit { pos: cell, ap: (si.unit(unit).ap - tuning::MOVE_COST) as i32, ..si.unit(unit) },
                    ),
                ));
                if !s2.unit(unit).alive {
                    assert(walk_from(si, unit, path@, i as int) == (s2, seq![step] + e2));
                    assert(events@ =~= ei + (seq![step] + e2));
                } else {
                    let (s3, e3) = walk_from(s2, unit, path@, i + 1);
                    assert(walk_from(si, unit, path@, i as int) == (s3, seq![step] + e2 + e3));
                    if i + 1 < path@.len() {
                        assert(walk_rest(self@, unit, path@, i + 1) == (s3, e3));
                    } else {
                        assert(walk_from(s2, unit, path@, i + 1) == (s2, Seq::<BattleEvent>::empty()));
                    }
                    assert(events@ + walk_rest(self@, unit, path@, i + 1).1 =~= ei + (seq![step] + e2 + e3));
                }
            }
            i = i + 1;
        }
        proof {
            assert(events@ =~= events@ + Seq::<BattleEvent>::empty());
        }
    }

    fn switch_turn(&mut self, events: &mut Vec<BattleEvent>)
        requires
            old(self).wf(),
            old(self)@.turn == Side::Enemy ==> old(self)@.turn_number < u32::MAX,
            damage_in_bounds(old(self)@.units, old(events)@),
        ensures
            final(self).wf(),
            damage_in_bounds(final(self)@.units, final(events)@),
            final(self)@ == switch_turn(old(self)@).0,
            final(events)@ == old(events)@ + switch_turn(old(self)@).1,
    {
        let ghost s0 = self@;
        events.push(BattleEvent::TurnEnded(self.turn));
        self.turn = self.turn.other();
        if self.turn == Side::Player {
            self.turn_number = self.turn_number + 1;
        }
        let side = self.turn;
        let ghost e1 = events@;
        let mut i: usize = 0;
        while i < self.units.len()
            invariant
                i <= self.units@.len(),
                events@ == e1,
                self.turn_number == switch_turn(s0).0.turn_number,
                self.rng@ == s0.rng,
                self.outcome == s0.outcome,
                self.units@.len() == s0.units.len(),
                self.grid@ == s0.grid,
                self.turn == side,
                side == crate::battle::other_side(s0.turn),
                forall|k: int|
                    0 <= k < i ==> self.units@[k] == refill_ap(s0.units, side)[k],
                forall|k: int| i <= k < self.units@.len() ==> self.units@[k] == s0.units[k],
            decreases self.units.len() - i,
        {
            let mut u = self.units[i];
            if u.alive && u.side == side {
                u.ap = u.ap_max;
                self.units.set(i, u);
            }
            i = i + 1;
        }
        events.push(BattleEvent::TurnStarted { side: self.turn, turn_number: self.turn_number });
        proof {
            assert(self.units@ =~= refill_ap(s0.units, side));
            assert forall|k: int| 0 <= k < self@.units.len() implies unit_ok(
                #[trigger] self@.units[k],
            ) && self@.units[k].id.0 == k by {
                assert(unit_ok(s0.units[k]));
                assert(s0.units[k].id.0 == k);
            }
            assert(events@ =~= old(events)@ + switch_turn(s0).1);
            assert forall|k: int| 0 <= k < s0.units.len() implies (#[trigger] s0.units[k]).weapon
                == self@.units[k].weapon by {}
            lemma_damage_bounds_weapons(s0.units, self@.units, old(events)@);
            assert forall|k: int| 0 <= k < events@.len() implies (match #[trigger] events@[k] {
                BattleEvent::Shot { shooter, hit, damage, .. } => shot_damage_ok(self@.units, shooter, hit, damage),
                BattleEvent::ReactionShot { shooter, hit, damage, .. } => shot_damage_ok(self@.units, shooter, hit, damage),
                _ => true,
            }) by {
                if k < old(events)@.len() {
                    assert(events@[k] == old(events)@[k]);
                }
            }
        }
    }

    fn wiped_out(&self, side: Side) -> (r: bool)
        ensures
            r == wiped_out(self@.units, side),
    {
        let mut any = false;
        let mut alive = false;
        let mut i: usize = 0;
        while i < self.units.len()
            invariant
                i <= self.units@.len(),
                any == exists|k: int| 0 <= k < i && (#[trigger] self.units@[k]).side == side,
                alive == exists|k: int|
                    0 <= k < i && (#[trigger] self.units@[k]).side == side && self.units@[k].alive,
            decreases self.units.len() - i,
        {
            if self.units[i].side == side {
                any = true;
                if self.units[i].alive {
                    alive = true;
                }
            }
            i = i + 1;
        }
        any && !alive
    }

    fn check_outcome(&mut self, events: &mut Vec<BattleEvent>)
        requires
            old(self).wf(),
            damage_in_bounds(old(self)@.units, old(events)@),
        ensures
            final(self).wf(),
            damage_in_bounds(final(self)@.units, final(events)@),
            final(self)@ == settle(old(self)@).0,
            final(events)@ == old(events)@ + settle(old(self)@).1,
    {
        if self.outcome.is_some() {
            proof {
                assert(events@ =~= events@ + Seq::<BattleEvent>::empty());
            }
            return;
        }
        let outcome = if self.wiped_out(Side::Player) {
            Outcome::Defeat
        } else if self.wiped_out(Side::Enemy) {
            Outcome::Victory
        } else {
            proof {
                assert(events@ =~= events@ + Seq::<BattleEvent>::empty());
            }
            return;
        };
        self.outcome = Some(outcome);
        let ghost e0 = events@;
        events.push(BattleEvent::BattleOver(outcome));
        proof {
            assert forall|k: int| 0 <= k < events@.len() implies (match #[trigger] events@[k] {
                BattleEvent::Shot { shooter, hit, damage, .. } => shot_damage_ok(self@.units, shooter, hit, damage),
                BattleEvent::ReactionShot { shooter, hit, damage, .. } => shot_damage_ok(self@.units, shooter, hit, damage),
                _ => true,
            }) by {
                if k < e0.len() {
                    assert(events@[k] == e0[k]);
                }
            }
        }
    }

    /// Validates and applies one action. On `Err` the state is unchanged.
    /// Every shot it reports did no damage on a miss, and on a hit damage within the
    /// shooter's weapon's range.
    pub fn apply(&mut self, action: Action) -> (r: Result<Vec<BattleEvent>, ActionError>)
        requires
            old(self).wf(),
        ensures
            final(self).wf(),
            match apply_result(old(self)@, action) {
                Ok((s, ev)) => r matches Ok(v) && v@ == ev && final(self)@ == s,
                Err(e) => r == Err::<Vec<BattleEvent>, ActionError>(e) && final(self)@ == old(self)@,
            },
            r matches Ok(v) ==> damage_in_bounds(old(self)@.units, v@),
    {
        let ghost s0 = self@;
        proof {
            law_action_keeps(s0, action);
        }
        if self.outcome.is_some() {
            return Err(ActionError::BattleOver);
        }
        let mut events: Vec<BattleEvent> = Vec::new();
        assert(damage_in_bounds(self@.units, events@));
        match action {
            Action::EndTurn => {
                if self.turn != Side::Player {
                    return Err(ActionError::EndTurnOnlyOnPlayerTurn);
                }
                self.switch_turn(&mut events);
            },
            Action::Shoot { unit, target } => {
                self.validate_shot(unit, target, false)?;
                self.fire(unit, target, false, &mut events);
            },
            Action::Move { unit, path } => {
                self.validate_path(unit, &path)?;
                self.walk(unit, &path, &mut events);
            },
        }
        self.check_outcome(&mut events);
        proof {
            assert forall|k: int| 0 <= k < self@.units.len() implies (#[trigger] self@.units[k]).weapon
                == s0.units[k].weapon by {
                assert(unit_kept(s0.units[k], self@.units[k]));
            }
            lemma_damage_bounds_weapons(self@.units, s0.units, events@);
        }
        Ok(events)
    }

    /// Ends the enemy turn. Only the phase driver calls this; the UI cannot.
    /// A no-op (empty vec) when it is not the enemy's turn or the battle is over.
    pub fn end_enemy_turn(&mut self) -> (ev: Vec<BattleEvent>)
        requires
            old(self).wf(),
            old(self)@.turn == Side::Enemy ==> old(self)@.turn_number < u32::MAX,
        ensures
            final(self).wf(),
            (final(self)@, ev@) == end_enemy_turn_result(old(self)@),
    {
        let mut events: Vec<BattleEvent> = Vec::new();
        if self.turn == Side::Enemy && self.outcome.is_none() {
            self.switch_turn(&mut events);
        }
        proof {
            assert(events@ =~= Seq::<BattleEvent>::empty() + events@);
        }
        events
    }
}


impl Battle {
    /// Every cell the unit can reach this turn, with its AP cost. Excludes the start cell.
    /// The order of the list is left open.
    pub fn reachable(&self, unit: UnitId) -> (r: Vec<(GridPos, i32)>)
        requires
            self.wf(),
        ensures
            forall|i: int| 0 <= i < r@.len() ==> reach_cost(self@, unit, r@[i].0, r@[i].1 as int),
            forall|c: GridPos, k: int| #[trigger] reach_cost(self@, unit, c, k) ==> r@.contains((c, k as i32)),
            forall|i: int, j: int| 0 <= i < j < r@.len() ==> r@[i].0 != r@[j].0,
    {
        let mut out: Vec<(GridPos, i32)> = Vec::new();
        let u = match self.unit(unit) {
            Some(u) => *u,
            None => {
                return out;
            },
        };
        if !u.alive {
            return out;
        }
        proof {
            assert(unit_ok(self@.units[unit.0 as int]));
        }
        let budget = u.ap / tuning::MOVE_COST;
        let found = dijkstra_reach(&self.grid, &self.units, u.pos);
        let mut i: usize = 0;
        while i < found.len()
            invariant
                self.wf(),
                self@.has(unit),
                self@.unit(unit) == u,
                u.alive,
                budget == u.ap,
                i <= found@.len(),
                forall|a: int|
                    0 <= a < found@.len() ==> #[trigger] found@[a].0 != u.pos && least_cost(
                        self@.grid,
                        self@.units,
                        true,
                        u.pos,
                        found@[a].0,
                        found@[a].1 as int,
                    ),
                forall|a: int, b: int| 0 <= a < b < found@.len() ==> found@[a].0 != found@[b].0,
                forall|a: int| 0 <= a < out@.len() ==> reach_cost(self@, unit, out@[a].0, out@[a].1 as int),
                forall|a: int| #![trigger out@[a]] 0 <= a < out@.len() ==> exists|b: int| 0 <= b < i && #[trigger] found@[b].0 == out@[a].0,
                forall|b: int| 0 <= b < i && found@[b].1 as int <= budget ==> #[trigger] out@.contains((found@[b].0, found@[b].1 as i32)),
                forall|a: int, b: int| 0 <= a < b < out@.len() ==> out@[a].0 != out@[b].0,
            decreases found.len() - i,
        {
            let (cell, steps) = found[i];
            if (steps as i64) <= (budget as i64) {
                let ghost before = out@;
                out.push((cell, steps as i32 * tuning::MOVE_COST));
                proof {
                    assert(out@[out@.len() - 1] == (found@[i as int].0, found@[i as int].1 as i32));
                    assert forall|a: int| 0 <= a < before.len() implies #[trigger] out@[a] == before[a] by {}
                    assert forall|b: int| 0 <= b < i + 1 && found@[b].1 as int <= budget implies #[trigger] out@.contains((found@[b].0, found@[b].1 as i32)) by {
                        if b < i {
                            assert(before.contains((found@[b].0, found@[b].1 as i32)));
                            let a = choose|a: int| 0 <= a < before.len() && before[a] == (found@[b].0, found@[b].1 as i32);
                            assert(out@[a] == before[a]);
                        } else {
                            assert(out@[out@.len() - 1] == (found@[b].0, found@[b].1 as i32));
                        }
                    }
                    assert forall|a: int| #![trigger out@[a]] 0 <= a < out@.len() implies exists|b: int| 0 <= b < i + 1 && #[trigger] found@[b].0 == out@[a].0 by {
                        if a < before.len() {
                            assert(out@[a] == before[a]);
                        } else {
                            assert(found@[i as int].0 == out@[a].0);
                        }
                    }
                    assert forall|a: int, b: int| 0 <= a < b < out@.len() implies out@[a].0 != out@[b].0 by {
                        if b == out@.len() - 1 {
                            assert(out@[a] == before[a]);
                            let c = choose|c: int| 0 <= c < i && #[trigger] found@[c].0 == before[a].0;
                        } else {
                            assert(out@[a] == before[a]);
                            assert(out@[b] == before[b]);
                        }
                    }
                }
            }
            i = i + 1;
        }
        proof {
            assert forall|c: GridPos, k: int| #[trigger] reach_cost(self@, unit, c, k) implies out@.contains((c, k as i32)) by {
                lemma_least_cost_unique(self@.grid, self@.units, true, u.pos, c, k, k);
                let b = choose|b: int| 0 <= b < found@.len() && found@[b].0 == c;
                lemma_least_cost_unique(self@.grid, self@.units, true, u.pos, c, k, found@[b].1 as int);
            }
        }
        out
    }

    /// Cheapest path to `goal` avoiding units, or `None` if unreachable or over the unit's AP.
    pub fn path_to(&self, unit: UnitId, goal: GridPos) -> (r: Option<Vec<GridPos>>)
        requires
            self.wf(),
        ensures
            r is None <==> path_to_result(self@, unit, goal) is None,
            r matches Some(p) ==> path_to_result(self@, unit, goal) == Some(p@),
            r matches Some(p) ==> shortest_walk(
                self@.grid,
                self@.units,
                true,
                seq![self@.unit(unit).pos] + p@,
                self@.unit(unit).pos,
                goal,
            ) && reach_cost(self@, unit, goal, p@.len() as int),
            r is None && self@.has(unit) && self@.unit(unit).alive && goal != self@.unit(unit).pos ==> !(exists|k: int| reach_cost(self@, unit, goal, k)),
    {
        let u = match self.unit(unit) {
            Some(u) => *u,
            None => {
                return None;
            },
        };
        if !u.alive {
            return None;
        }
        proof {
            assert(unit_ok(self@.units[unit.0 as int]));
        }
        if (goal.x == u.pos.x && goal.y == u.pos.y) || self.unit_at(goal).is_some() || !self.grid.is_walkable(goal) {
            proof {
                if exists|k: int| reach_cost(self@, unit, goal, k) {
                    let k = choose|k: int| reach_cost(self@, unit, goal, k);
                    lemma_least_cost_unique(self@.grid, self@.units, true, u.pos, goal, k, k);
                    let w = choose|w: Seq<GridPos>| #[trigger] crate::search::walk_between(self@.grid, self@.units, true, w, u.pos, goal);
                    crate::battle::model::lemma_first_living_at(self@.units, goal, 0);
                    if !(goal.x == u.pos.x && goal.y == u.pos.y) {
                        let n = w.len() - 2;
                        assert(crate::search::path_step(self@.grid, self@.units, true, w[n], w[n + 1]) is Some);
                    }
                }
            }
            return None;
        }
        match astar_search(&self.grid, &self.units, true, u.pos, goal) {
            None => {
                proof {
                    if exists|k: int| reach_cost(self@, unit, goal, k) {
                        let k = choose|k: int| reach_cost(self@, unit, goal, k);
                        lemma_least_cost_unique(self@.grid, self@.units, true, u.pos, goal, k, k);
                    }
                }
                None
            },
            Some((path, steps)) => {
                let mut path = path;
                let ghost full = path@;
                path.remove(0);
                proof {
                    assert(full.drop_first() =~= path@);
                    assert(seq![u.pos] + path@ =~= full);
                }
                if (steps as i64) * (tuning::MOVE_COST as i64) <= (u.ap as i64) {
                    proof {
                        crate::search::lemma_walk_cost_len(self@.grid, self@.units, full);
                    }
                    Some(path)
                } else {
                    proof {
                        if exists|k: int| reach_cost(self@, unit, goal, k) {
                            let k = choose|k: int| reach_cost(self@, unit, goal, k);
                            lemma_least_cost_unique(self@.grid, self@.units, true, u.pos, goal, k, steps as int);
                        }
                    }
                    None
                }
            },
        }
    }
}


impl Battle {
    /// Whether the target's cell shelters it from the shooter; false when either is missing.
    pub fn target_in_cover(&self, shooter: UnitId, target: UnitId) -> (r: bool)
        requires
            self.wf(),
        ensures
            r == in_cover(self@, shooter, target),
    {
        match (self.unit(shooter), self.unit(target)) {
            (Some(s), Some(t)) => {
                proof {
                    assert(unit_ok(self@.units[shooter.0 as int]));
                    assert(unit_ok(self@.units[target.0 as int]));
                    lemma_positions_fit(s.pos, t.pos);
                }
                self.grid.cover_against(t.pos, s.pos)
            },
            _ => false,
        }
    }

    /// Hit probability (units of 2^-28) for a direct shot, or `None` when the shot is
    /// impossible (dead, same side, out of range, no line of sight).
    pub fn hit_chance(&self, shooter: UnitId, target: UnitId) -> (r: Option<u32>)
        requires
            self.wf(),
        ensures
            r == hit_chance_result(self@, shooter, target),
    {
        let s = match self.unit(shooter) {
            Some(u) => *u,
            None => {
                return None;
            },
        };
        let t = match self.unit(target) {
            Some(u) => *u,
            None => {
                return None;
            },
        };
        if !s.alive || !t.alive {
            return None;
        }
        if s.side == t.side {
            return None;
        }
        proof {
            assert(unit_ok(self@.units[shooter.0 as int]));
            assert(unit_ok(self@.units[target.0 as int]));
            lemma_positions_fit(s.pos, t.pos);
        }
        let distance = s.pos.distance(t.pos);
        if distance > s.weapon.range || !self.grid.has_line_of_sight(s.pos, t.pos) {
            return None;
        }
        Some(hit_chance(distance, s.weapon.range, self.target_in_cover(shooter, target)))
    }

    /// Living units of the other side this unit could shoot right now, nearest first,
    /// ties by id.
    pub fn visible_enemies(&self, unit: UnitId) -> (r: Vec<UnitId>)
        requires
            self.wf(),
        ensures
            visible_list(self@, unit, r@),
    {
        let mut out: Vec<UnitId> = Vec::new();
        let mut dists: Vec<i32> = Vec::new();
        let u = match self.unit(unit) {
            Some(u) => *u,
            None => {
                return out;
            },
        };
        if !u.alive {
            return out;
        }
        proof {
            assert(unit_ok(self@.units[unit.0 as int]));
        }
        let mut i: usize = 0;
        while i < self.units.len()
            invariant
                self.wf(),
                self@.has(unit),
                self@.unit(unit) == u,
                i <= self@.units.len(),
                dists@.len() == out@.len(),
                forall|a: int| 0 <= a < out@.len() ==> can_target(self@, unit, #[trigger] out@[a]),
                forall|a: int| 0 <= a < out@.len() ==> (#[trigger] out@[a]).0 < i,
                forall|a: int| 0 <= a < out@.len() ==> #[trigger] dists@[a] == chebyshev(u.pos, self@.unit(out@[a]).pos),
                forall|t: UnitId| t.0 < i && can_target(self@, unit, t) ==> #[trigger] out@.contains(t),
                forall|a: int, b: int| 0 <= a < b < out@.len() ==> nearer(self@, unit, out@[a], out@[b]),
            decreases self.units.len() - i,
        {
            let t = UnitId(i as u32);
            proof {
                assert(self@.units[i as int].id.0 == i);
            }
            if self.hit_chance(unit, t).is_some() {
                let tp = self.units[i].pos;
                proof {
                    assert(unit_ok(self@.units[i as int]));
                    lemma_positions_fit(u.pos, tp);
                }
                let d = u.pos.distance(tp);
                // Insert after every entry that is nearer or as near (those have lower ids).
                let mut k: usize = out.len();
                while k > 0 && dists[k - 1] > d
                    invariant
                        k <= out@.len(),
                        dists@.len() == out@.len(),
                        forall|a: int| k <= a < out@.len() ==> dists@[a] > d,
                    decreases k,
                {
                    k = k - 1;
                }
                let ghost before = out@;
                let ghost dbefore = dists@;
                out.insert(k, t);
                dists.insert(k, d);
                proof {
                    assert forall|a: int| 0 <= a < out@.len() implies (#[trigger] out@[a] == if a < k {
                        before[a]
                    } else if a == k {
                        t
                    } else {
                        before[a - 1]
                    }) && dists@[a] == (if a < k {
                        dbefore[a]
                    } else if a == k {
                        d
                    } else {
                        dbefore[a - 1]
                    }) by {}
                    assert forall|a: int| 0 <= a < out@.len() implies can_target(self@, unit, #[trigger] out@[a]) by {
                        if a < k {
                            assert(out@[a] == before[a]);
                        } else if a > k {
                            assert(out@[a] == before[a - 1]);
                        }
                    }
                    assert forall|a: int| 0 <= a < out@.len() implies (#[trigger] out@[a]).0 < i + 1 by {
                        if a < k {
                            assert(out@[a] == before[a]);
                        } else if a > k {
                            assert(out@[a] == before[a - 1]);
                        }
                    }
                    assert forall|a: int| 0 <= a < out@.len() implies #[trigger] dists@[a] == chebyshev(u.pos, self@.unit(out@[a]).pos) by {
                        if a < k {
                            assert(out@[a] == before[a]);
                        } else if a > k {
                            assert(out@[a] == before[a - 1]);
                        }
                    }
                    assert forall|x: UnitId| x.0 < i + 1 && can_target(self@, unit, x) implies #[trigger] out@.contains(x) by {
                        if x.0 < i {
                            assert(before.contains(x));
                            let a = choose|a: int| 0 <= a < before.len() && before[a] == x;
                            if a < k {
                                assert(out@[a] == x);
                            } else {
                                assert(out@[a + 1] == x);
                            }
                        } else {
                            assert(x == t);
                            assert(out@[k as int] == t);
                        }
                    }
                    assert forall|a: int, b: int| 0 <= a < b < out@.len() implies nearer(self@, unit, out@[a], out@[b]) by {
                        if b < k {
                            assert(out@[a] == before[a] && out@[b] == before[b]);
                        } else if a > k {
                            assert(out@[a] == before[a - 1] && out@[b] == before[b - 1]);
                        } else if a < k && b > k {
                            assert(out@[a] == before[a] && out@[b] == before[b - 1]);
                        } else if a == k {
                            assert(out@[b] == before[b - 1]);
                            assert(dbefore[b - 1] > d);
                        } else {
                            assert(b == k);
                            assert(out@[a] == before[a]);
                            assert(before[a].0 < i);
                            if a == k - 1 {
                                assert(dbefore[a] <= d);
                            } else {
                                assert(dbefore[k - 1] <= d);
                                assert(nearer(self@, unit, before[a], before[k - 1]));
                            }
                        }
                    }
                }
            }
            i = i + 1;
        }
        out
    }
}


impl Battle {
    /// Direct access to the units, for tests that set up a situation by hand.
    /// The engine's invariant is the caller's to keep.
    pub fn units_mut_for_test(&mut self) -> (r: &mut Vec<Unit>)
        ensures
            r@ == old(self)@.units,
            final(self)@ == old(self)@.with_units(final(r)@),
    {
        &mut self.units
    }

    /// Ends the battle by hand, for tests.
    pub fn force_outcome_for_test(&mut self, outcome: Outcome)
        ensures
            final(self)@ == (BattleView { outcome: Some(outcome), ..old(self)@ }),
    {
        self.outcome = Some(outcome);
    }
}

} // verus!
