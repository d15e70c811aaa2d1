//! The battle's phases: the player's input applies actions, every action's events are
//! animated, and the enemy turn alternates one planned action with its animation.
//! The window's loop runs the phases; which phase follows, and what the enemy does in
//! its phase, is decided here.

use vstd::prelude::*;

use crate::battle::model::{
    end_enemy_turn_result, shot_result, then_settle, walk_from, BattleView,
};
use crate::battle::{Battle, BattleEvent, Outcome, Side};
use crate::planner::{enemy_shots_cost_ap, plan_enemy_action, plan_enemy_result, Plan};
use crate::battle::laws::{law_action_spends_ap, lemma_side_ap_nonneg, side_ap};

verus! {

/// Where the battle is in its loop.
#[derive(Clone, Copy, PartialEq, Eq, Debug, Structural)]
pub enum Phase {
    Loading,
    PlayerInput,
    Animating,
    EnemyTurn,
}

/// The phase that follows once the animation queue has drained: whichever side's turn it
/// is. While events are still queued, or once the battle is over, the phase stays.
pub open spec fn next_phase(s: BattleView, queue_empty: bool) -> Option<Phase> {
    if !queue_empty || s.outcome is Some {
        None
    } else {
        match s.turn {
            Side::Enemy => Some(Phase::EnemyTurn),
            Side::Player => Some(Phase::PlayerInput),
        }
    }
}

/// Once the queue is drained: hand control to whichever side's turn it is.
/// A finished battle stays in `Animating` with an empty queue until a restart.
pub fn after_animation(battle: &Battle, queue_empty: bool) -> (r: Option<Phase>)
    ensures
        r == next_phase(battle@, queue_empty),
{
    if !queue_empty || battle.outcome().is_some() {
        return None;
    }
    match battle.turn() {
        Side::Enemy => Some(Phase::EnemyTurn),
        Side::Player => Some(Phase::PlayerInput),
    }
}

/// What carrying out a plan of the planner does: the shot or the walk, then the outcome check.
pub open spec fn plan_step(s: BattleView, p: Plan) -> (BattleView, Seq<BattleEvent>) {
    match p {
        Plan::Shoot { unit, target } => then_settle(shot_result(s, unit, target, false)),
        Plan::Move { unit, path } => then_settle(walk_from(s, unit, path, 0)),
    }
}

/// One enemy step: carry out the planner's next action, or end the enemy turn when it has none.
pub open spec fn enemy_step(s: BattleView) -> (BattleView, Seq<BattleEvent>) {
    match plan_enemy_result(s) {
        Some(p) => plan_step(s, p),
        None => end_enemy_turn_result(s),
    }
}

/// One planner step per visit: apply the next enemy action (or end the enemy turn),
/// and return its events for the animation queue.
/// The enemy turn ends: when every enemy's weapon costs AP to fire, each step of the
/// enemy's turn either hands the turn to the player or lowers the AP the enemy side holds,
/// a natural number.
pub fn drive_enemy_turn(battle: &mut Battle) -> (ev: Vec<BattleEvent>)
    requires
        old(battle).wf(),
        old(battle)@.turn == Side::Enemy ==> old(battle)@.turn_number < u32::MAX,
    ensures
        final(battle).wf(),
        (final(battle)@, ev@) == enemy_step(old(battle)@),
        old(battle)@.turn == Side::Enemy && old(battle)@.outcome is None && enemy_shots_cost_ap(
            old(battle)@,
        ) ==> final(battle)@.turn == Side::Player || (final(battle)@.turn == Side::Enemy && 0
            <= side_ap(final(battle)@.units, Side::Enemy) < side_ap(
            old(battle)@.units,
            Side::Enemy,
        )),
{
    let ghost s = battle@;
    match plan_enemy_action(battle) {
        Some(action) => {
            proof {
                if s.turn == Side::Enemy && s.outcome is None && enemy_shots_cost_ap(s) {
                    if let crate::battle::Action::Shoot { unit, .. } = action {
                        assert(s.units[unit.0 as int].side == Side::Enemy);
                    }
                    law_action_spends_ap(s, action);
                }
            }
            let ev = match battle.apply(action) {
                Ok(events) => events,
                Err(_) => battle.end_enemy_turn(),
            };
            proof {
                lemma_side_ap_nonneg(battle@.units, Side::Enemy);
            }
            ev
        },
        None => battle.end_enemy_turn(),
    }
}

/// The status line above the battle.
#[derive(Clone, Copy, PartialEq, Eq, Debug, Structural)]
pub enum Status {
    Loading,
    Victory,
    Defeat,
    EnemyTurn,
    YourTurn(u32),
}

/// The status line for the phase and the battle, when there is one yet.
pub fn status(phase: Phase, battle: Option<&Battle>) -> (r: Status)
    ensures
        r == match (phase, battle) {
            (Phase::Loading, _) | (_, None) => Status::Loading,
            (_, Some(b)) => match b@.outcome {
                Some(Outcome::Victory) => Status::Victory,
                Some(Outcome::Defeat) => Status::Defeat,
                None => match b@.turn {
                    Side::Enemy => Status::EnemyTurn,
                    Side::Player => Status::YourTurn(b@.turn_number),
                },
            },
        },
{
    match (phase, battle) {
        (Phase::Loading, _) | (_, None) => Status::Loading,
        (_, Some(b)) => match (b.outcome(), b.turn()) {
            (Some(Outcome::Victory), _) => Status::Victory,
            (Some(Outcome::Defeat), _) => Status::Defeat,
            (None, Side::Enemy) => Status::EnemyTurn,
            (None, Side::Player) => Status::YourTurn(b.turn_number()),
        },
    }
}

} // verus!
