use std::collections::HashMap;

use wasteland_tactics::battle::tuning;
use wasteland_tactics::battle::{
    Action, ActionError, Battle, BattleEvent, Outcome, Side, Unit, UnitId,
};
use wasteland_tactics::grid::GridPos;

#[test]
fn ascii_builder_assigns_ids_in_reading_order_and_full_ap() {
    let b = Battle::from_ascii("P.E\n.#.\nP..", 1);
    assert_eq!(b.units().len(), 3);
    assert_eq!(b.unit(UnitId(0)).unwrap().side, Side::Player);
    assert_eq!(b.unit(UnitId(0)).unwrap().pos, GridPos::new(0, 2));
    assert_eq!(b.unit(UnitId(1)).unwrap().side, Side::Enemy);
    assert_eq!(b.unit(UnitId(1)).unwrap().pos, GridPos::new(2, 2));
    assert_eq!(b.unit(UnitId(2)).unwrap().pos, GridPos::new(0, 0));
    assert_eq!(b.unit(UnitId(0)).unwrap().ap, tuning::SOLDIER_AP);
    assert_eq!(b.unit(UnitId(1)).unwrap().ap, tuning::ENEMY_AP);
    assert!(
        !b.grid().is_walkable(GridPos::new(1, 1)),
        "walls still parse"
    );
    assert_eq!(b.turn(), Side::Player);
    assert_eq!(b.turn_number(), 1);
    assert_eq!(b.outcome(), None);
    assert_eq!(b.unit_at(GridPos::new(2, 2)).map(|u| u.id), Some(UnitId(1)));
    assert!(b.unit_at(GridPos::new(1, 0)).is_none());
}

#[test]
fn end_turn_hands_control_to_the_enemy_and_back() {
    let mut b = Battle::from_ascii("P...E", 1);
    // Spend some player AP so we can see it is NOT refilled at the end of the player's turn.
    b.units_mut_for_test()[0].ap = 2;
    let events = b.apply(Action::EndTurn).unwrap();
    assert_eq!(
        events,
        vec![
            BattleEvent::TurnEnded(Side::Player),
            BattleEvent::TurnStarted {
                side: Side::Enemy,
                turn_number: 1
            }
        ]
    );
    assert_eq!(b.turn(), Side::Enemy);
    assert_eq!(
        b.unit(UnitId(0)).unwrap().ap,
        2,
        "unspent AP carries into the enemy turn"
    );
    assert_eq!(
        b.apply(Action::EndTurn),
        Err(ActionError::EndTurnOnlyOnPlayerTurn)
    );

    b.units_mut_for_test()[1].ap = 0;
    let events = b.end_enemy_turn();
    assert_eq!(
        events,
        vec![
            BattleEvent::TurnEnded(Side::Enemy),
            BattleEvent::TurnStarted {
                side: Side::Player,
                turn_number: 2
            }
        ]
    );
    assert_eq!(b.turn(), Side::Player);
    assert_eq!(b.turn_number(), 2);
    assert_eq!(
        b.unit(UnitId(0)).unwrap().ap,
        tuning::SOLDIER_AP,
        "player AP refilled on their turn"
    );
    assert_eq!(
        b.unit(UnitId(1)).unwrap().ap,
        0,
        "enemy AP untouched until its turn"
    );
    assert!(b.end_enemy_turn().is_empty(), "no-op on the player's turn");
}

#[test]
fn dead_units_do_not_get_ap_and_are_not_at_their_cell() {
    let mut b = Battle::from_ascii("P.E", 1);
    b.units_mut_for_test()[1].alive = false;
    b.apply(Action::EndTurn).unwrap();
    assert_eq!(
        b.unit(UnitId(1)).unwrap().ap,
        tuning::ENEMY_AP,
        "unchanged, not refilled"
    );
    assert!(b.unit_at(GridPos::new(2, 0)).is_none());
    assert_eq!(b.living(Side::Enemy).len(), 0);
    assert_eq!(b.unit(UnitId(7)), None);
}

fn shoot(b: &mut Battle, shooter: u32, target: u32) -> Result<Vec<BattleEvent>, ActionError> {
    b.apply(Action::Shoot {
        unit: UnitId(shooter),
        target: UnitId(target),
    })
}

#[test]
fn shooting_costs_ap_rolls_damage_and_emits_shot() {
    let mut b = Battle::from_ascii("P.E", 3);
    let events = shoot(&mut b, 0, 1).unwrap();
    assert_eq!(events.len(), 1);
    let BattleEvent::Shot {
        shooter,
        target,
        hit,
        damage,
    } = events[0]
    else {
        panic!("expected Shot, got {:?}", events[0]);
    };
    assert_eq!((shooter, target), (UnitId(0), UnitId(1)));
    assert_eq!(hit, damage > 0, "damage is 0 exactly when the shot missed");
    assert_eq!(
        b.unit(UnitId(0)).unwrap().ap,
        tuning::SOLDIER_AP - tuning::RIFLE_AP_COST
    );
    assert_eq!(b.unit(UnitId(1)).unwrap().health, tuning::HEALTH - damage);
    // Second shot allowed (6 - 3 = 3 AP left), third is not.
    shoot(&mut b, 0, 1).unwrap();
    assert_eq!(
        shoot(&mut b, 0, 1),
        Err(ActionError::NotEnoughAp { need: 3, have: 0 })
    );
}

#[test]
fn shot_validation_errors_leave_state_untouched() {
    let mut b = Battle::from_ascii("P.#.E\nP....", 1);
    let before = b.clone();
    assert_eq!(
        shoot(&mut b, 0, 1),
        Err(ActionError::TargetNotVisible),
        "wall between (0,1) and (4,1)"
    );
    assert_eq!(shoot(&mut b, 0, 2), Err(ActionError::SameSide));
    assert_eq!(shoot(&mut b, 1, 0), Err(ActionError::NotYourTurn));
    assert_eq!(shoot(&mut b, 9, 0), Err(ActionError::NoSuchUnit));
    b.units_mut_for_test()[2].alive = false;
    assert_eq!(shoot(&mut b, 0, 2), Err(ActionError::UnitDead));
    b.units_mut_for_test()[2].alive = true;
    assert_eq!(b.units(), before.units());
    assert_eq!(b.turn(), before.turn());

    let mut far = Battle::from_ascii("P.........E", 1); // distance 10 > range 8
    assert_eq!(
        shoot(&mut far, 0, 1),
        Err(ActionError::OutOfRange {
            distance: 10,
            range: 8
        })
    );
}

#[test]
fn killing_the_last_enemy_ends_the_battle_and_locks_it() {
    let mut b = Battle::from_ascii("PE", 5);
    b.units_mut_for_test()[1].health = 1;
    // Keep shooting until it dies; with 0.9 hit chance at distance 1 this takes a shot or two.
    let mut all = Vec::new();
    loop {
        match shoot(&mut b, 0, 1) {
            Ok(ev) => all.extend(ev),
            Err(ActionError::NotEnoughAp { .. }) => {
                b.apply(Action::EndTurn).unwrap();
                b.end_enemy_turn();
            }
            Err(e) => panic!("{e:?}"),
        }
        if b.outcome().is_some() {
            break;
        }
    }
    assert!(all.contains(&BattleEvent::Died(UnitId(1))));
    assert_eq!(all.last(), Some(&BattleEvent::BattleOver(Outcome::Victory)));
    assert!(!b.unit(UnitId(1)).unwrap().alive);
    assert_eq!(b.apply(Action::EndTurn), Err(ActionError::BattleOver));
    assert!(b.end_enemy_turn().is_empty());
}

#[test]
fn a_battle_with_one_side_never_ends() {
    let mut b = Battle::from_ascii("P.P", 1);
    let events = b.apply(Action::EndTurn).unwrap();
    assert!(!events
        .iter()
        .any(|e| matches!(e, BattleEvent::BattleOver(_))));
    assert_eq!(b.outcome(), None);
}

fn mv(b: &mut Battle, unit: u32, path: &[(i32, i32)]) -> Result<Vec<BattleEvent>, ActionError> {
    b.apply(Action::Move {
        unit: UnitId(unit),
        path: path.iter().map(|&(x, y)| GridPos::new(x, y)).collect(),
    })
}

#[test]
fn moving_emits_one_step_per_cell_and_spends_ap() {
    let mut b = Battle::from_ascii("P....", 1);
    let events = mv(&mut b, 0, &[(1, 0), (2, 0), (3, 0)]).unwrap();
    assert_eq!(
        events,
        vec![
            BattleEvent::Stepped {
                unit: UnitId(0),
                from: GridPos::new(0, 0),
                to: GridPos::new(1, 0)
            },
            BattleEvent::Stepped {
                unit: UnitId(0),
                from: GridPos::new(1, 0),
                to: GridPos::new(2, 0)
            },
            BattleEvent::Stepped {
                unit: UnitId(0),
                from: GridPos::new(2, 0),
                to: GridPos::new(3, 0)
            },
        ]
    );
    assert_eq!(b.unit(UnitId(0)).unwrap().pos, GridPos::new(3, 0));
    assert_eq!(b.unit(UnitId(0)).unwrap().ap, tuning::SOLDIER_AP - 3);
    assert_eq!(
        mv(&mut b, 0, &[(4, 0), (3, 0), (4, 0), (3, 0)]),
        Err(ActionError::NotEnoughAp { need: 4, have: 3 })
    );
}

#[test]
fn move_validation_errors_leave_state_untouched() {
    let mut b = Battle::from_ascii("P#.\n.P.\n..E", 1);
    let before = b.clone();
    assert_eq!(mv(&mut b, 0, &[]), Err(ActionError::EmptyPath));
    assert_eq!(
        mv(&mut b, 0, &[(1, 2)]),
        Err(ActionError::PathNotWalkable(GridPos::new(1, 2)))
    );
    assert_eq!(
        mv(&mut b, 0, &[(2, 2)]),
        Err(ActionError::PathNotContiguous),
        "two cells away"
    );
    // (0,2)->(1,1) is a diagonal past the wall at (1,2): corner cutting is checked before occupancy.
    assert_eq!(
        mv(&mut b, 0, &[(1, 1)]),
        Err(ActionError::PathNotContiguous)
    );
    // (1,1)->(2,0) is a legal diagonal, but the enemy stands on (2,0).
    assert_eq!(
        mv(&mut b, 1, &[(2, 0)]),
        Err(ActionError::CellOccupied(GridPos::new(2, 0)))
    );
    assert_eq!(mv(&mut b, 2, &[(1, 0)]), Err(ActionError::NotYourTurn));
    assert_eq!(b.units(), before.units());
}

#[test]
fn no_corner_cutting_on_moves() {
    let mut b = Battle::from_ascii("#.\nP#", 1);
    assert_eq!(
        mv(&mut b, 0, &[(1, 1)]),
        Err(ActionError::PathNotContiguous)
    );
}

#[test]
fn reachable_respects_ap_and_occupancy() {
    let mut b = Battle::from_ascii(".......\n..P.E..\n.......", 1);
    b.units_mut_for_test()[0].ap = 2;
    let reach: HashMap<GridPos, i32> = b.reachable(UnitId(0)).into_iter().collect();
    assert_eq!(reach.get(&GridPos::new(3, 1)), Some(&1));
    assert_eq!(reach.get(&GridPos::new(0, 1)), Some(&2));
    assert_eq!(
        reach.get(&GridPos::new(5, 1)),
        None,
        "3 cells away with 2 AP"
    );
    assert_eq!(
        reach.get(&GridPos::new(4, 1)),
        None,
        "the enemy stands there"
    );
    assert_eq!(reach.get(&GridPos::new(2, 1)), None, "start cell excluded");
    // Every in-bounds cell within Chebyshev distance 2 of (2,1): x 0..=4, y 0..=2 = 15,
    // minus the start cell and the enemy's cell.
    assert_eq!(reach.len(), 13);
}

#[test]
fn path_to_is_within_ap_and_avoids_units() {
    let b = Battle::from_ascii("P.E..", 1);
    assert_eq!(
        b.path_to(UnitId(0), GridPos::new(2, 0)),
        None,
        "occupied goal"
    );
    assert_eq!(
        b.path_to(UnitId(0), GridPos::new(3, 0)),
        None,
        "only route is through the enemy on a 1-row map"
    );
    let mut open = Battle::from_ascii("P....\n.....", 1);
    assert_eq!(
        open.path_to(UnitId(0), GridPos::new(2, 0)),
        Some(vec![GridPos::new(1, 0), GridPos::new(2, 0)])
    );
    open.units_mut_for_test()[0].ap = 1;
    assert_eq!(
        open.path_to(UnitId(0), GridPos::new(2, 0)),
        None,
        "costs 2, has 1"
    );
}

#[test]
fn reaction_fire_triggers_on_the_step_that_enters_sight() {
    // Wall column at x=2 on rows 1-2; the enemy at (4,1) sits level with it, so (0,2) and (0,1)
    // are hidden and (0,0) is the first cell it can see. Player walks down the left column, then east.
    let mut b = Battle::from_ascii("P.#..\n..#.E\n.....", 7);
    b.apply(Action::EndTurn).unwrap(); // enemy has full AP (5) = one reaction shot
    b.end_enemy_turn(); // back to player, turn 2, enemy AP still 5
    assert_eq!(b.unit(UnitId(1)).unwrap().ap, tuning::ENEMY_AP);
    let events = mv(&mut b, 0, &[(0, 1), (0, 0), (1, 0)]).unwrap();
    let steps: Vec<_> = events
        .iter()
        .filter(|e| matches!(e, BattleEvent::Stepped { .. }))
        .collect();
    assert_eq!(steps.len(), 3);
    let reactions: Vec<_> = events
        .iter()
        .enumerate()
        .filter(|(_, e)| matches!(e, BattleEvent::ReactionShot { .. }))
        .collect();
    assert_eq!(
        reactions.len(),
        1,
        "one shot: 5 AP - 3 = 2, not enough for a second"
    );
    // The reaction comes right after the step into (0,0), which is the first cell with LOS to (4,0).
    let (idx, _) = reactions[0];
    assert_eq!(
        events[idx - 1],
        BattleEvent::Stepped {
            unit: UnitId(0),
            from: GridPos::new(0, 1),
            to: GridPos::new(0, 0)
        }
    );
    assert_eq!(
        b.unit(UnitId(1)).unwrap().ap,
        tuning::ENEMY_AP - tuning::RIFLE_AP_COST
    );
}

#[test]
fn no_reaction_without_ap_or_line_of_sight() {
    let mut b = Battle::from_ascii("P...E", 7);
    b.units_mut_for_test()[1].ap = 2;
    let events = mv(&mut b, 0, &[(1, 0)]).unwrap();
    assert!(!events
        .iter()
        .any(|e| matches!(e, BattleEvent::ReactionShot { .. })));
    let mut walled = Battle::from_ascii("P.#.E", 7);
    let events = mv(&mut walled, 0, &[(1, 0)]).unwrap();
    assert!(!events
        .iter()
        .any(|e| matches!(e, BattleEvent::ReactionShot { .. })));
}

#[test]
fn a_mover_killed_by_reaction_fire_stops_where_it_fell() {
    let mut b = Battle::from_ascii("P.........E", 2);
    b.units_mut_for_test()[0].health = 1;
    b.units_mut_for_test()[0].ap = 20;
    b.units_mut_for_test()[1].ap = 30; // a reaction on every in-range step (from (3,0) on); the first hit kills
    let path: Vec<(i32, i32)> = (1..=9).map(|x| (x, 0)).collect();
    let events = mv(&mut b, 0, &path).unwrap();
    let died_at = events
        .iter()
        .position(|e| *e == BattleEvent::Died(UnitId(0)))
        .expect("dies");
    let steps_after = events[died_at..]
        .iter()
        .filter(|e| matches!(e, BattleEvent::Stepped { .. }))
        .count();
    assert_eq!(steps_after, 0, "no more steps after death");
    assert_eq!(
        events.last(),
        Some(&BattleEvent::BattleOver(Outcome::Defeat))
    );
    assert!(!b.unit(UnitId(0)).unwrap().alive);
    assert!(
        b.unit(UnitId(0)).unwrap().pos.x < 9,
        "fell before the end of the path"
    );
}

fn damage_after(seed: u64, target_glyph: char) -> i32 {
    let art = format!("..{target_glyph}..\n.....\n..P..");
    let mut b = Battle::from_ascii(&art, seed);
    // Put the enemy on the cover cell by hand (from_ascii can't stack a unit on a glyph).
    b.units_mut_for_test()
        .push(Unit::new(UnitId(1), Side::Enemy, GridPos::new(2, 2)));
    b.units_mut_for_test()[1].health = 1_000_000;
    let mut total = 0;
    for _ in 0..400 {
        b.units_mut_for_test()[0].ap = 3;
        let ev = b
            .apply(Action::Shoot {
                unit: UnitId(0),
                target: UnitId(1),
            })
            .unwrap();
        if let BattleEvent::Shot { damage, .. } = ev[0] {
            total += damage;
        }
    }
    total
}

#[test]
fn cover_halves_reaction_and_direct_hits_over_a_seeded_volley() {
    // Shooter at (2,0) fires north at a target on (2,2). 'v' shelters the south side.
    let open = damage_after(11, '.');
    let covered = damage_after(11, 'v');
    let wrong_side = damage_after(11, '^');
    assert!(covered < open * 7 / 10, "cover {covered} vs open {open}");
    assert!(
        (wrong_side - open).abs() < open / 5,
        "wrong side {wrong_side} vs open {open}"
    );
}

fn play(seed: u64) -> Vec<BattleEvent> {
    let mut b = Battle::from_ascii("P.....\n......\nE.....", seed);
    let mut log = Vec::new();
    log.extend(
        b.apply(Action::Move {
            unit: UnitId(0),
            path: vec![GridPos::new(1, 2), GridPos::new(2, 2)],
        })
        .unwrap(),
    );
    log.extend(
        b.apply(Action::Shoot {
            unit: UnitId(0),
            target: UnitId(1),
        })
        .unwrap(),
    );
    log.extend(b.apply(Action::EndTurn).unwrap());
    log.extend(
        b.apply(Action::Shoot {
            unit: UnitId(1),
            target: UnitId(0),
        })
        .unwrap_or_default(),
    );
    log
}

#[test]
fn same_seed_and_actions_replay_identically() {
    assert_eq!(play(42), play(42));
    assert_ne!(play(42), play(43), "different seeds diverge (hit rolls)");
}
