use wasteland_tactics::battle::tuning;
use wasteland_tactics::battle::{Action, Battle, Side, Unit, UnitId};
use wasteland_tactics::grid::GridPos;
use wasteland_tactics::planner::plan_enemy_action;

fn enemy_turn(art: &str) -> Battle {
    let mut b = Battle::from_ascii(art, 1);
    b.apply(Action::EndTurn).unwrap();
    b
}

#[test]
fn none_on_the_player_turn_or_when_over() {
    let b = Battle::from_ascii("P.E", 1);
    assert_eq!(plan_enemy_action(&b), None);
}

#[test]
fn shoots_when_already_in_cover_against_the_target() {
    // Enemy stands on '<' which shelters its west side; player is west.
    let mut b = enemy_turn("P...<");
    b.units_mut_for_test()
        .push(Unit::new(UnitId(1), Side::Enemy, GridPos::new(4, 0)));
    b.units_mut_for_test()[1].ap = tuning::ENEMY_AP;
    assert_eq!(
        plan_enemy_action(&b),
        Some(Action::Shoot {
            unit: UnitId(1),
            target: UnitId(0)
        })
    );
}

#[test]
fn takes_reachable_cover_facing_the_player_then_shoots() {
    // '<' at (4,1) shelters its west side from the player at (0,1). Enemy at (5,1) is 1 step away.
    let mut b = enemy_turn(".......\nP...<.E\n.......");
    let action = plan_enemy_action(&b).expect("moves");
    let Action::Move { unit, ref path } = action else {
        panic!("expected Move, got {action:?}")
    };
    assert_eq!(unit, UnitId(1));
    assert_eq!(path.len(), 2, "two cells from (6,1) to the cover at (4,1)");
    assert_eq!(path.last(), Some(&GridPos::new(4, 1)));
    b.apply(action).unwrap();
    assert_eq!(
        plan_enemy_action(&b),
        Some(Action::Shoot {
            unit: UnitId(1),
            target: UnitId(0)
        }),
        "now in cover with 5-2=3 AP: shoot"
    );
    b.apply(plan_enemy_action(&b).unwrap()).unwrap();
    assert_eq!(plan_enemy_action(&b), None, "0 AP left: end turn");
}

#[test]
fn shoots_directly_when_no_cover_is_reachable() {
    let b = enemy_turn("P....E");
    assert_eq!(
        plan_enemy_action(&b),
        Some(Action::Shoot {
            unit: UnitId(1),
            target: UnitId(0)
        })
    );
}

#[test]
fn advances_toward_an_unseen_player_keeping_a_shot_in_hand() {
    // A long open row where the player is simply out of range (distance 10 > range 7).
    let b = enemy_turn("P.........E");
    let action = plan_enemy_action(&b).expect("advances");
    let Action::Move { unit, path } = action else {
        panic!("expected Move, got {action:?}")
    };
    assert_eq!(unit, UnitId(1));
    assert_eq!(
        path.len(),
        (tuning::ENEMY_AP - tuning::RIFLE_AP_COST) as usize,
        "5 AP - 3 for a shot = 2 steps"
    );
    assert_eq!(path.last(), Some(&GridPos::new(8, 0)));
}

#[test]
fn skips_spent_enemies_and_ends_when_all_are_spent() {
    let mut b = enemy_turn("P...E\n....E");
    b.units_mut_for_test()[1].ap = 0;
    assert_eq!(
        plan_enemy_action(&b),
        Some(Action::Shoot {
            unit: UnitId(2),
            target: UnitId(0)
        })
    );
    b.units_mut_for_test()[2].ap = 0;
    assert_eq!(plan_enemy_action(&b), None);
}
