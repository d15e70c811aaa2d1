use std::collections::VecDeque;

use wasteland_tactics::battle::{Action, Battle, BattleEvent, Outcome, UnitId};
use wasteland_tactics::grid::GridPos;
use wasteland_tactics::phase::{after_animation, drive_enemy_turn, status, Phase, Status};

/// One frame of the phase loop, with an animator that drains the queue at once.
fn update(battle: &mut Battle, queue: &mut VecDeque<BattleEvent>, phase: &mut Phase) {
    match *phase {
        Phase::Animating => {
            queue.clear();
            if let Some(next) = after_animation(battle, queue.is_empty()) {
                *phase = next;
            }
        }
        Phase::EnemyTurn => {
            queue.extend(drive_enemy_turn(battle));
            *phase = Phase::Animating;
        }
        Phase::Loading | Phase::PlayerInput => {}
    }
}

#[test]
fn end_turn_runs_the_enemy_turn_and_returns_control() {
    let mut battle = Battle::from_ascii("P.......E", 1);
    let mut queue = VecDeque::new();
    let mut phase = Phase::PlayerInput;
    // What submitting `EndTurn` does: apply it, queue its events, animate.
    queue.extend(battle.apply(Action::EndTurn).unwrap());
    phase = match phase {
        Phase::PlayerInput => Phase::Animating,
        other => other,
    };
    for _ in 0..60 {
        update(&mut battle, &mut queue, &mut phase);
        if phase == Phase::PlayerInput && battle.turn_number() == 2 {
            break;
        }
    }
    assert_eq!(phase, Phase::PlayerInput);
    assert_eq!(battle.turn_number(), 2);
    assert!(queue.is_empty());
    // The enemy did something on its turn (it saw the soldier at distance 8 > range 7, so it advanced).
    assert_ne!(battle.unit(UnitId(1)).unwrap().pos, GridPos::new(8, 0));
}

#[test]
fn a_finished_battle_stays_in_animating() {
    let mut battle = Battle::from_ascii("P", 1);
    battle.force_outcome_for_test(Outcome::Defeat);
    let mut queue = VecDeque::new();
    let mut phase = Phase::Animating;
    for _ in 0..5 {
        update(&mut battle, &mut queue, &mut phase);
    }
    assert_eq!(phase, Phase::Animating);
}

#[test]
fn the_status_line_follows_the_battle() {
    let mut battle = Battle::from_ascii("P.E", 1);
    assert_eq!(status(Phase::Loading, Some(&battle)), Status::Loading);
    assert_eq!(status(Phase::PlayerInput, None), Status::Loading);
    assert_eq!(status(Phase::PlayerInput, Some(&battle)), Status::YourTurn(1));
    battle.apply(Action::EndTurn).unwrap();
    assert_eq!(status(Phase::Animating, Some(&battle)), Status::EnemyTurn);
    battle.force_outcome_for_test(Outcome::Victory);
    assert_eq!(status(Phase::Animating, Some(&battle)), Status::Victory);
}

#[test]
fn an_enemy_with_nothing_to_do_ends_its_turn() {
    let mut battle = Battle::from_ascii("P.E", 1);
    battle.apply(Action::EndTurn).unwrap();
    battle.units_mut_for_test()[1].ap = 0;
    let ev = drive_enemy_turn(&mut battle);
    assert_eq!(ev.len(), 2);
    assert_eq!(battle.turn_number(), 2);
    assert_eq!(after_animation(&battle, true), Some(Phase::PlayerInput));
    assert_eq!(after_animation(&battle, false), None);
}
