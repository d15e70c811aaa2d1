//! Enemy turn planner: returns the single next action for the enemy side,
//! or `None` when no enemy has anything useful left to do (= end the turn).
//! Pure: reads only `Battle`'s public queries.

use vstd::prelude::*;

use crate::battle::model::{
    apply_result, can_target, lemma_first_living_at, move_check, nearer, path_check_from,
    path_to_result, reach_cost, unit_index_at, unit_ok, visible_list, BattleView, cuts_corner,
};
use crate::battle::laws::{law_action_spends_ap, side_ap};
use crate::battle::{lemma_positions_fit, tuning, Action, Battle, Side, Unit, UnitId};
use crate::grid::{chebyshev, covered, grid_step, sight, GridPos, GridView};
use crate::search::{
    is_walk, least_cost, lemma_least_cost_unique, living_at, path_step, terrain_path, walk_between,
};

verus! {

/// An enemy action as the contracts speak of it: a move along a path, or a shot.
pub enum Plan {
    Move { unit: UnitId, path: Seq<GridPos> },
    Shoot { unit: UnitId, target: UnitId },
}

/// `r` is the action that `p` describes, and nothing when `p` is nothing.
pub open spec fn plans(r: Option<Action>, p: Option<Plan>) -> bool {
    match r {
        None => p is None,
        Some(Action::Move { unit, path }) => p == Some(Plan::Move { unit, path: path@ }),
        Some(Action::Shoot { unit, target }) => p == Some(Plan::Shoot { unit, target }),
        Some(Action::EndTurn) => false,
    }
}

/// `t` is a unit that `unit` could fire at, nearer than every other such unit (ties by id).
pub open spec fn first_target_is(s: BattleView, unit: UnitId, t: UnitId) -> bool {
    &&& can_target(s, unit, t)
    &&& forall|t2: UnitId| #[trigger] can_target(s, unit, t2) && t2 != t ==> nearer(s, unit, t, t2)
}

/// The nearest unit `unit` could fire at (ties by id), or `None` when it sees none:
/// the head of `Battle::visible_enemies`.
pub open spec fn first_target(s: BattleView, unit: UnitId) -> Option<UnitId> {
    if exists|t: UnitId| can_target(s, unit, t) {
        Some(choose|t: UnitId| first_target_is(s, unit, t))
    } else {
        None
    }
}

/// `t` is a living soldier.
pub open spec fn living_player(s: BattleView, t: UnitId) -> bool {
    &&& s.has(t)
    &&& s.unit(t).alive
    &&& s.unit(t).side == Side::Player
}

/// `t` is the living soldier nearest to `unit`, ties by id.
pub open spec fn nearest_player_is(s: BattleView, unit: UnitId, t: UnitId) -> bool {
    &&& living_player(s, t)
    &&& forall|t2: UnitId| #[trigger] living_player(s, t2) && t2 != t ==> nearer(s, unit, t, t2)
}

/// The living soldier nearest to `unit` (ties by id), or `None` when none is left.
pub open spec fn nearest_player(s: BattleView, unit: UnitId) -> Option<UnitId> {
    if exists|t: UnitId| living_player(s, t) {
        Some(choose|t: UnitId| nearest_player_is(s, unit, t))
    } else {
        None
    }
}

/// `c` shelters the enemy `unit` from a shooter at `tp`: it can reach `c` this turn at AP
/// cost `k` and still afford a shot, `tp` is within its weapon's range and line of sight
/// from `c`, and `c` gives cover against `tp`.
pub open spec fn cover_spot(s: BattleView, unit: UnitId, tp: GridPos, c: GridPos, k: int) -> bool {
    let e = s.unit(unit);
    &&& reach_cost(s, unit, c, k)
    &&& e.ap - k >= e.weapon.ap_cost
    &&& chebyshev(c, tp) <= e.weapon.range
    &&& covered(s.grid, c, tp)
    &&& sight(s.grid, c, tp)
}

/// The order of cover spots: cheaper first, then lower y, then lower x.
pub open spec fn spot_before(k1: int, c1: GridPos, k2: int, c2: GridPos) -> bool {
    k1 < k2 || (k1 == k2 && (c1.y < c2.y || (c1.y == c2.y && c1.x < c2.x)))
}

/// `c`, at cost `k`, is a cover spot that no other comes before.
pub open spec fn best_spot(s: BattleView, unit: UnitId, tp: GridPos, c: GridPos, k: int) -> bool {
    &&& cover_spot(s, unit, tp, c, k)
    &&& forall|c2: GridPos, k2: int| #[trigger] cover_spot(s, unit, tp, c2, k2) ==> !spot_before(k2, c2, k, c)
}

/// `c` is a cover spot of least AP cost for `unit` against a shooter at `tp`, among
/// equally cheap ones the one with the lowest y, then the lowest x.
pub open spec fn cheapest_cover(s: BattleView, unit: UnitId, tp: GridPos, c: GridPos) -> bool {
    exists|k: int|
        #[trigger] cover_spot(s, unit, tp, c, k) && forall|c2: GridPos, k2: int|
            #[trigger] cover_spot(s, unit, tp, c2, k2) ==> k <= k2 && (k2 == k ==> c.y < c2.y || (c.y
                == c2.y && c.x <= c2.x))
}

/// The cover spot the enemy `unit` picks against a shooter at `tp`, if there is one.
pub open spec fn best_cover(s: BattleView, unit: UnitId, tp: GridPos) -> Option<GridPos> {
    if exists|c: GridPos, k: int| cover_spot(s, unit, tp, c, k) {
        Some((choose|c: GridPos, k: int| best_spot(s, unit, tp, c, k)).0)
    } else {
        None
    }
}

/// The path to that cover spot, as `Battle::path_to` gives it.
pub open spec fn cover_path(s: BattleView, unit: UnitId, tp: GridPos) -> Option<Seq<GridPos>> {
    match best_cover(s, unit, tp) {
        Some(goal) => path_to_result(s, unit, goal),
        None => None,
    }
}

/// The index of the first cell of `cells`, from `i` on, that a living unit stands on;
/// the length when there is none.
pub open spec fn free_len(units: Seq<Unit>, cells: Seq<GridPos>, i: int) -> int
    decreases cells.len() - i,
{
    if i < 0 || i >= cells.len() || unit_index_at(units, cells[i]) is Some {
        i
    } else {
        free_len(units, cells, i + 1)
    }
}

/// The advance of `unit` toward `goal`: the terrain path there, cut to its first `steps`
/// cells and before the first cell a living unit stands on.
pub open spec fn advance_path(s: BattleView, unit: UnitId, goal: GridPos, steps: int) -> Option<Seq<GridPos>> {
    match terrain_path(s.grid, s.unit(unit).pos, goal) {
        None => None,
        Some(full) => {
            let cells = if steps < full.len() { full.take(steps) } else { full };
            Some(cells.take(free_len(s.units, cells, 0)))
        },
    }
}

/// What the enemy `unit` does next.
/// Seeing a soldier (the nearest visible one is the target): shoot when it can afford the
/// shot and either already shelters from the target or has no path to a cover spot;
/// otherwise move to the best cover spot, if a path leads there.
/// Seeing none: advance toward the nearest living soldier, keeping the AP for one shot,
/// when that leaves at least one step and the advance is not empty.
pub open spec fn plan_for_result(s: BattleView, unit: UnitId) -> Option<Plan> {
    let e = s.unit(unit);
    match first_target(s, unit) {
        Some(target) => {
            let tp = s.unit(target).pos;
            let sheltered = covered(s.grid, e.pos, tp);
            let path = if sheltered {
                None
            } else {
                cover_path(s, unit, tp)
            };
            if e.ap >= e.weapon.ap_cost && (sheltered || path is None) {
                Some(Plan::Shoot { unit, target })
            } else {
                match path {
                    Some(p) => Some(Plan::Move { unit, path: p }),
                    None => None,
                }
            }
        },
        None => match nearest_player(s, unit) {
            None => None,
            Some(n) => {
                let steps = (e.ap - e.weapon.ap_cost) / (tuning::MOVE_COST as int);
                if steps <= 0 {
                    None
                } else {
                    match advance_path(s, unit, s.unit(n).pos, steps) {
                        Some(p) => if p.len() == 0 {
                            None
                        } else {
                            Some(Plan::Move { unit, path: p })
                        },
                        None => None,
                    }
                }
            },
        },
    }
}

/// The first plan of the enemies from index `i` on, in id order, among the living ones
/// with AP left.
pub open spec fn plan_from(s: BattleView, i: int) -> Option<Plan>
    decreases s.units.len() - i,
{
    if i < 0 || i >= s.units.len() {
        None
    } else {
        let u = s.units[i];
        let here = if u.alive && u.side == Side::Enemy && u.ap > 0 {
            plan_for_result(s, UnitId(i as u32))
        } else {
            None
        };
        if here is Some {
            here
        } else {
            plan_from(s, i + 1)
        }
    }
}

/// The enemy side's next action: nothing unless it is the enemy's turn of a battle still
/// going on; then the plan of the first enemy, in id order, that has one.
pub open spec fn plan_enemy_result(s: BattleView) -> Option<Plan> {
    if s.turn != Side::Enemy || s.outcome is Some {
        None
    } else {
        plan_from(s, 0)
    }
}

/// Every enemy's weapon costs AP to fire, so that each enemy action spends AP.
pub open spec fn enemy_shots_cost_ap(s: BattleView) -> bool {
    forall|i: int|
        0 <= i < s.units.len() && (#[trigger] s.units[i]).side == Side::Enemy ==> s.units[i].weapon.ap_cost
            > 0
}

/// The head of a list of visible enemies is the first target.
proof fn lemma_first_target(s: BattleView, unit: UnitId, ids: Seq<UnitId>)
    requires
        visible_list(s, unit, ids),
    ensures
        ids.len() == 0 ==> first_target(s, unit) is None,
        ids.len() > 0 ==> first_target(s, unit) == Some(ids[0]),
{
    if ids.len() > 0 {
        let t0 = ids[0];
        assert(can_target(s, unit, t0));
        assert forall|t2: UnitId| #[trigger] can_target(s, unit, t2) && t2 != t0 implies nearer(s, unit, t0, t2) by {
            assert(ids.contains(t2));
            let j = choose|j: int| 0 <= j < ids.len() && ids[j] == t2;
            assert(j != 0);
        }
        assert(first_target_is(s, unit, t0));
        let t = choose|t: UnitId| first_target_is(s, unit, t);
        if t != t0 {
            assert(nearer(s, unit, t, t0));
            assert(nearer(s, unit, t0, t));
        }
    } else {
        if exists|t: UnitId| can_target(s, unit, t) {
            let t = choose|t: UnitId| can_target(s, unit, t);
            assert(ids.contains(t));
        }
    }
}

/// A cell `unit` can reach lies on the grid.
proof fn lemma_reach_in_bounds(s: BattleView, unit: UnitId, c: GridPos, k: int)
    requires
        reach_cost(s, unit, c, k),
    ensures
        s.grid.in_bounds(c),
{
    let from = s.unit(unit).pos;
    let w = choose|w: Seq<GridPos>|
        #[trigger] walk_between(s.grid, s.units, true, w, from, c) && crate::search::walk_cost(
            s.grid,
            s.units,
            true,
            w,
        ) == k;
    assert(w.len() >= 2);
    let n = w.len() - 2;
    assert(path_step(s.grid, s.units, true, w[n], w[n + 1]) is Some);
    lemma_step_checks(s.grid, w[n], w[n + 1]);
}

/// A legal king move ends on a walkable cell one step away, without cutting a corner.
proof fn lemma_step_checks(g: GridView, a: GridPos, b: GridPos)
    requires
        grid_step(g, a, b) is Some,
    ensures
        g.walkable(b),
        chebyshev(a, b) == 1,
        !cuts_corner(g, a, b),
{
    let dx = b.x - a.x;
    let dy = b.y - a.y;
    assert(crate::grid::pos(a.x + dx, a.y + dy) == b);
    assert(crate::grid::pos(a.x + dx, a.y as int) == GridPos { x: (a.x + dx) as i32, y: a.y });
    assert(crate::grid::pos(a.x as int, a.y + dy) == GridPos { x: a.x, y: (a.y + dy) as i32 });
}

/// A path each of whose steps is legal and which crosses no living unit passes the move
/// checks from index `i` on.
proof fn lemma_steps_pass(s: BattleView, units: Seq<Unit>, avoid: bool, from: GridPos, p: Seq<GridPos>, i: int)
    requires
        0 <= i <= p.len(),
        forall|k: int|
            0 <= k < p.len() ==> path_step(
                s.grid,
                units,
                avoid,
                if k == 0 {
                    from
                } else {
                    p[k - 1]
                },
                #[trigger] p[k],
            ) is Some,
        forall|k: int| 0 <= k < p.len() ==> unit_index_at(s.units, #[trigger] p[k]) is None,
    ensures
        path_check_from(
            s,
            if i == 0 {
                from
            } else {
                p[i - 1]
            },
            p,
            i,
        ) is Ok,
    decreases p.len() - i,
{
    if i < p.len() {
        let prev = if i == 0 {
            from
        } else {
            p[i - 1]
        };
        assert(path_step(s.grid, units, avoid, prev, p[i]) is Some);
        lemma_step_checks(s.grid, prev, p[i]);
        lemma_steps_pass(s, units, avoid, from, p, i + 1);
    }
}

/// The cells of a walk after its start, read as a path from the start.
proof fn lemma_walk_steps(g: GridView, units: Seq<Unit>, avoid: bool, from: GridPos, p: Seq<GridPos>, m: int)
    requires
        is_walk(g, units, avoid, seq![from] + p),
        0 <= m <= p.len(),
    ensures
        forall|k: int|
            0 <= k < p.take(m).len() ==> path_step(
                g,
                units,
                avoid,
                if k == 0 {
                    from
                } else {
                    p.take(m)[k - 1]
                },
                #[trigger] p.take(m)[k],
            ) is Some,
{
    let w = seq![from] + p;
    assert forall|k: int| 0 <= k < p.take(m).len() implies path_step(
        g,
        units,
        avoid,
        if k == 0 {
            from
        } else {
            p.take(m)[k - 1]
        },
        #[trigger] p.take(m)[k],
    ) is Some by {
        assert(path_step(g, units, avoid, w[k], w[k + 1]) is Some);
        assert(w[k + 1] == p[k]);
        if k > 0 {
            assert(w[k] == p[k - 1]);
        }
    }
}

/// Every cell before `free_len` is free of living units.
proof fn lemma_free_len(units: Seq<Unit>, cells: Seq<GridPos>, i: int)
    requires
        0 <= i <= cells.len(),
    ensures
        i <= free_len(units, cells, i) <= cells.len(),
        forall|k: int| i <= k < free_len(units, cells, i) ==> unit_index_at(units, #[trigger] cells[k]) is None,
    decreases cells.len() - i,
{
    if i < cells.len() && unit_index_at(units, cells[i]) is None {
        lemma_free_len(units, cells, i + 1);
    }
}

/// The living soldier nearest to `enemy`'s cell, ties by id: its cell.
fn nearest_player_pos(battle: &Battle, enemy: &Unit) -> (r: Option<GridPos>)
    requires
        battle.wf(),
        battle@.has(enemy.id),
        battle@.unit(enemy.id) == *enemy,
    ensures
        match nearest_player(battle@, enemy.id) {
            Some(t) => r == Some(battle@.unit(t).pos),
            None => r is None,
        },
{
    let ghost s = battle@;
    let units = battle.units();
    proof {
        assert(unit_ok(s.units[enemy.id.0 as int]));
    }
    let mut best: Option<(usize, i32)> = None;
    let mut i: usize = 0;
    while i < units.len()
        invariant
            battle.wf(),
            s == battle@,
            units@ == s.units,
            s.unit(enemy.id) == *enemy,
            unit_ok(*enemy),
            i <= units@.len(),
            match best {
                Some((b, bd)) => {
                    &&& b < i
                    &&& living_player(s, UnitId(b as u32))
                    &&& bd == chebyshev(enemy.pos, s.units[b as int].pos)
                    &&& forall|t2: UnitId|
                        #[trigger] living_player(s, t2) && t2.0 < i && t2 != UnitId(b as u32) ==> nearer(
                            s,
                            enemy.id,
                            UnitId(b as u32),
                            t2,
                        )
                },
                None => forall|t2: UnitId| #[trigger] living_player(s, t2) ==> t2.0 >= i,
            },
        decreases units.len() - i,
    {
        let u = units[i];
        proof {
            assert(s.units[i as int].id.0 == i);
            assert(unit_ok(s.units[i as int]));
            lemma_positions_fit(enemy.pos, u.pos);
        }
        if u.alive && u.side == Side::Player {
            let d = enemy.pos.distance(u.pos);
            let replace = match best {
                None => true,
                Some((_, bd)) => d < bd,
            };
            let ghost t = UnitId(i as u32);
            assert(living_player(s, t));
            if replace {
                best = Some((i, d));
            }
        }
        i = i + 1;
    }
    match best {
        None => {
            proof {
                if exists|t: UnitId| living_player(s, t) {
                    let t = choose|t: UnitId| living_player(s, t);
                }
            }
            None
        },
        Some((b, _)) => {
            proof {
                let tb = UnitId(b as u32);
                assert(nearest_player_is(s, enemy.id, tb));
                let t = choose|t: UnitId| nearest_player_is(s, enemy.id, t);
                if t != tb {
                    assert(nearer(s, enemy.id, t, tb));
                    assert(nearer(s, enemy.id, tb, t));
                }
            }
            Some(units[b].pos)
        },
    }
}


/// Cheapest reachable cell that shelters the enemy from `target_pos`, keeps line of sight
/// and range to it, and leaves AP for a shot. Ties: lowest y, then lowest x.
/// The path there, as `Battle::path_to` gives it.
fn best_cover_path(battle: &Battle, enemy: &Unit, target_pos: GridPos) -> (r: Option<Vec<GridPos>>)
    requires
        battle.wf(),
        battle@.has(enemy.id),
        battle@.unit(enemy.id) == *enemy,
        enemy.alive,
        crate::grid::abs(target_pos.x as int) <= crate::battle::model::POS_LIMIT,
        crate::grid::abs(target_pos.y as int) <= crate::battle::model::POS_LIMIT,
    ensures
        r is None <==> cover_path(battle@, enemy.id, target_pos) is None,
        r matches Some(p) ==> {
            &&& cover_path(battle@, enemy.id, target_pos) == Some(p@)
            &&& p@.len() > 0
            &&& p@.len() * tuning::MOVE_COST <= enemy.ap
            &&& path_check_from(battle@, enemy.pos, p@, 0) is Ok
            &&& cheapest_cover(battle@, enemy.id, target_pos, p@.last())
        },
{
    let ghost s = battle@;
    let ghost id = enemy.id;
    let grid = battle.grid();
    let reach = battle.reachable(enemy.id);
    let mut best: Option<(i32, GridPos)> = None;
    let mut i: usize = 0;
    while i < reach.len()
        invariant
            battle.wf(),
            s == battle@,
            grid@ == s.grid,
            grid.wf(),
            s.has(id),
            s.unit(id) == *enemy,
            id == enemy.id,
            crate::grid::abs(target_pos.x as int) <= crate::battle::model::POS_LIMIT,
            crate::grid::abs(target_pos.y as int) <= crate::battle::model::POS_LIMIT,
            i <= reach@.len(),
            forall|a: int| 0 <= a < reach@.len() ==> reach_cost(s, id, reach@[a].0, reach@[a].1 as int),
            match best {
                Some((bk, bc)) => {
                    &&& cover_spot(s, id, target_pos, bc, bk as int)
                    &&& forall|a: int|
                        0 <= a < i && #[trigger] cover_spot(s, id, target_pos, reach@[a].0, reach@[a].1 as int)
                            ==> !spot_before(reach@[a].1 as int, reach@[a].0, bk as int, bc)
                },
                None => forall|a: int|
                    0 <= a < i ==> !#[trigger] cover_spot(s, id, target_pos, reach@[a].0, reach@[a].1 as int),
            },
        decreases reach.len() - i,
    {
        let (cell, cost) = reach[i];
        proof {
            assert(reach_cost(s, id, cell, cost as int));
            lemma_reach_in_bounds(s, id, cell, cost as int);
            lemma_positions_fit(cell, target_pos);
        }
        if (enemy.ap as i64) - (cost as i64) >= (enemy.weapon.ap_cost as i64) && cell.distance(target_pos)
            <= enemy.weapon.range && grid.cover_against(cell, target_pos) && grid.has_line_of_sight(
            cell,
            target_pos,
        ) {
            let better = match best {
                None => true,
                Some((bk, bc)) => cost < bk || (cost == bk && (cell.y < bc.y || (cell.y == bc.y
                    && cell.x < bc.x))),
            };
            if better {
                best = Some((cost, cell));
            }
        }
        i = i + 1;
    }
    match best {
        None => {
            proof {
                if exists|c: GridPos, k: int| cover_spot(s, id, target_pos, c, k) {
                    let (c, k) = choose|c: GridPos, k: int| cover_spot(s, id, target_pos, c, k);
                    assert(reach@.contains((c, k as i32)));
                    let a = choose|a: int| 0 <= a < reach@.len() && reach@[a] == (c, k as i32);
                    lemma_least_cost_unique(s.grid, s.units, true, enemy.pos, c, k, reach@[a].1 as int);
                    assert(cover_spot(s, id, target_pos, reach@[a].0, reach@[a].1 as int));
                }
            }
            None
        },
        Some((bk, goal)) => {
            proof {
                assert forall|c2: GridPos, k2: int| #[trigger] cover_spot(s, id, target_pos, c2, k2) implies !spot_before(
                    k2,
                    c2,
                    bk as int,
                    goal,
                ) by {
                    assert(reach@.contains((c2, k2 as i32)));
                    let a = choose|a: int| 0 <= a < reach@.len() && reach@[a] == (c2, k2 as i32);
                    lemma_least_cost_unique(s.grid, s.units, true, enemy.pos, c2, k2, reach@[a].1 as int);
                    assert(cover_spot(s, id, target_pos, reach@[a].0, reach@[a].1 as int));
                }
                assert(best_spot(s, id, target_pos, goal, bk as int));
                let (c, k) = choose|c: GridPos, k: int| best_spot(s, id, target_pos, c, k);
                assert(!spot_before(k, c, bk as int, goal));
                assert(!spot_before(bk as int, goal, k, c));
                assert(c == goal);
                assert(best_cover(s, id, target_pos) == Some(goal));
                assert(cover_spot(s, id, target_pos, goal, bk as int));
                assert(cheapest_cover(s, id, target_pos, goal));
            }
            let r = battle.path_to(enemy.id, goal);
            proof {
                if r is Some {
                    let p = r.unwrap();
                    let from = enemy.pos;
                    crate::search::lemma_walk_cost_len(s.grid, s.units, seq![from] + p@);
                    lemma_walk_steps(s.grid, s.units, true, from, p@, p@.len() as int);
                    assert(p@.take(p@.len() as int) =~= p@);
                    assert forall|k: int| 0 <= k < p@.len() implies unit_index_at(s.units, #[trigger] p@[k]) is None by {
                        let prev = if k == 0 {
                            from
                        } else {
                            p@[k - 1]
                        };
                        assert(path_step(s.grid, s.units, true, prev, p@[k]) is Some);
                        lemma_first_living_at(s.units, p@[k], 0);
                        if unit_index_at(s.units, p@[k]) is Some {
                            let j = unit_index_at(s.units, p@[k])->0;
                            assert(s.units[j].alive && s.units[j].pos == p@[k]);
                            assert(living_at(s.units, p@[k]));
                        }
                    }
                    lemma_steps_pass(s, s.units, true, from, p@, 0);
                    assert((seq![from] + p@).last() == goal);
                    assert(p@.len() > 0 ==> p@.last() == (seq![from] + p@).last());
                    if p@.len() == 0 {
                        assert((seq![from] + p@).last() == from);
                    }
                }
            }
            r
        },
    }
}


/// The next action of one enemy, or `None` when it has nothing useful to do.
fn plan_for(battle: &Battle, enemy: &Unit) -> (r: Option<Action>)
    requires
        battle.wf(),
        battle@.has(enemy.id),
        battle@.unit(enemy.id) == *enemy,
        enemy.alive,
        enemy.side == Side::Enemy,
    ensures
        plans(r, plan_for_result(battle@, enemy.id)),
        battle@.turn == Side::Enemy && battle@.outcome is None ==> (r matches Some(a) ==> apply_result(
            battle@,
            a,
        ) is Ok),
        first_target(battle@, enemy.id) matches Some(t) ==> (r matches Some(Action::Move { path, .. })
            ==> cheapest_cover(battle@, enemy.id, battle@.unit(t).pos, path@.last())),
{
    let ghost s = battle@;
    let shot_cost = enemy.weapon.ap_cost;
    proof {
        assert(unit_ok(s.units[enemy.id.0 as int]));
    }
    let visible = battle.visible_enemies(enemy.id);
    proof {
        lemma_first_target(s, enemy.id, visible@);
    }
    if visible.len() > 0 {
        let target = visible[0];
        proof {
            assert(can_target(s, enemy.id, target));
        }
        let target_pos = match battle.unit(target) {
            Some(u) => u.pos,
            None => {
                return None;
            },
        };
        proof {
            assert(unit_ok(s.units[target.0 as int]));
            lemma_positions_fit(enemy.pos, target_pos);
        }
        let in_cover = battle.grid().cover_against(enemy.pos, target_pos);
        let cover_path = if in_cover {
            None
        } else {
            best_cover_path(battle, enemy, target_pos)
        };
        if enemy.ap >= shot_cost && (in_cover || cover_path.is_none()) {
            return Some(Action::Shoot { unit: enemy.id, target });
        }
        return match cover_path {
            Some(path) => Some(Action::Move { unit: enemy.id, path }),
            None => None,
        };
    }
    // Nothing visible: close in on the nearest soldier, keeping enough AP for one shot.
    let nearest = match nearest_player_pos(battle, enemy) {
        Some(p) => p,
        None => {
            return None;
        },
    };
    let steps: i64 = (enemy.ap as i64 - shot_cost as i64) / (tuning::MOVE_COST as i64);
    if steps <= 0 {
        return None;
    }
    let full = match battle.grid().find_path(enemy.pos, nearest) {
        Some(p) => p,
        None => {
            return None;
        },
    };
    proof {
        assert(steps <= i32::MAX);
    }
    let k: usize = steps as usize;
    let n: usize = if k < full.len() {
        k
    } else {
        full.len()
    };
    let ghost cells = if steps < full@.len() {
        full@.take(steps as int)
    } else {
        full@
    };
    proof {
        assert(cells =~= full@.take(n as int));
        lemma_free_len(s.units, cells, 0);
    }
    let mut path: Vec<GridPos> = Vec::new();
    let mut open = true;
    let mut i: usize = 0;
    while open && i < n
        invariant
            battle.wf(),
            s == battle@,
            n <= full@.len(),
            cells =~= full@.take(n as int),
            i <= n,
            open ==> path@ == cells.take(i as int) && free_len(s.units, cells, 0) == free_len(
                s.units,
                cells,
                i as int,
            ),
            !open ==> path@ == cells.take(free_len(s.units, cells, 0)),
        decreases n - i + (if open { 1int } else { 0int }),
    {
        if battle.unit_at(full[i]).is_some() {
            open = false;
        } else {
            path.push(full[i]);
            proof {
                assert(path@ =~= cells.take(i + 1));
            }
            i = i + 1;
        }
    }
    proof {
        if open {
            assert(cells.take(n as int) =~= cells);
        }
        assert(path@ == cells.take(free_len(s.units, cells, 0)));
    }
    if path.len() == 0 {
        return None;
    }
    proof {
        let from = enemy.pos;
        let m = free_len(s.units, cells, 0);
        lemma_walk_steps(s.grid, Seq::empty(), false, from, full@, m);
        assert(full@.take(m) =~= path@);
        assert forall|k: int| 0 <= k < path@.len() implies unit_index_at(s.units, #[trigger] path@[k]) is None by {
            assert(path@[k] == cells[k]);
        }
        lemma_steps_pass(s, Seq::empty(), false, from, path@, 0);
    }
    Some(Action::Move { unit: enemy.id, path })
}

/// The enemy side's next action, or `None` when no enemy has anything useful left to do
/// (the enemy turn should end). Every action it returns is one `apply` accepts.
pub fn plan_enemy_action(battle: &Battle) -> (r: Option<Action>)
    requires
        battle.wf(),
    ensures
        plans(r, plan_enemy_result(battle@)),
        r matches Some(a) ==> apply_result(battle@, a) is Ok,
        r matches Some(Action::Move { unit, path }) ==> (first_target(battle@, unit) matches Some(t)
            ==> cheapest_cover(battle@, unit, battle@.unit(t).pos, path@.last())),
        enemy_shots_cost_ap(battle@) ==> (r matches Some(a) ==> (apply_result(battle@, a) matches Ok(
            (s2, _),
        ) ==> side_ap(s2.units, Side::Enemy) < side_ap(battle@.units, Side::Enemy))),
{
    if battle.turn() != Side::Enemy || battle.outcome().is_some() {
        return None;
    }
    let ghost s = battle@;
    let units = battle.units();
    let mut i: usize = 0;
    while i < units.len()
        invariant
            battle.wf(),
            s == battle@,
            units@ == s.units,
            s.turn == Side::Enemy,
            s.outcome is None,
            i <= units@.len(),
            plan_enemy_result(s) == plan_from(s, i as int),
        decreases units.len() - i,
    {
        let e = units[i];
        proof {
            assert(s.units[i as int].id.0 == i);
        }
        if e.alive && e.side == Side::Enemy && e.ap > 0 {
            let r = plan_for(battle, &e);
            if r.is_some() {
                proof {
                    let a = r.unwrap();
                    if enemy_shots_cost_ap(s) {
                        if let Action::Shoot { unit, .. } = a {
                            assert(s.units[unit.0 as int].side == Side::Enemy);
                        }
                        law_action_spends_ap(s, a);
                    }
                }
                return r;
            }
        }
        i = i + 1;
    }
    None
}

} // verus!
