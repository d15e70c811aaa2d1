use wasteland_tactics::battle::tuning;
use wasteland_tactics::battle::{
    Action, ActionError, Battle, BattleEvent, Outcome, Side, Unit, UnitId,
};
use wasteland_tactics::grid;
use wasteland_tactics::grid::{Cell, CoverSides, Grid, GridPos};
use wasteland_tactics::planner::plan_enemy_action;
use wasteland_tactics::rules::{hit_chance, roll_hit, GameRng, CHANCE_ONE};

#[test]
fn a_finished_battle_refuses_everything() {
    let mut b = Battle::from_ascii("P.E", 1);
    b.force_outcome_for_test(Outcome::Defeat);
    let before = b.units().to_vec();
    assert_eq!(b.apply(Action::EndTurn), Err(ActionError::BattleOver));
    assert_eq!(
        b.apply(Action::Shoot { unit: UnitId(0), target: UnitId(1) }),
        Err(ActionError::BattleOver)
    );
    assert_eq!(
        b.apply(Action::Move { unit: UnitId(0), path: vec![GridPos::new(1, 0)] }),
        Err(ActionError::BattleOver)
    );
    assert!(b.end_enemy_turn().is_empty());
    assert_eq!(b.units(), &before[..]);
    assert_eq!(b.outcome(), Some(Outcome::Defeat));
}

#[test]
fn one_sided_battle_stays_open_through_moves_and_turns() {
    let mut b = Battle::from_ascii("P.P..", 1);
    b.apply(Action::Move { unit: UnitId(0), path: vec![GridPos::new(1, 0)] }).unwrap();
    assert_eq!(
        b.apply(Action::Shoot { unit: UnitId(0), target: UnitId(1) }),
        Err(ActionError::SameSide)
    );
    b.apply(Action::EndTurn).unwrap();
    b.end_enemy_turn();
    assert_eq!(b.outcome(), None);
    assert_eq!(b.living(Side::Player).len(), 2);
}

#[test]
fn shot_damage_stays_within_the_weapon() {
    let mut b = Battle::from_ascii("PE", 9);
    b.units_mut_for_test()[1].health = 1_000_000;
    let w = b.unit(UnitId(0)).unwrap().weapon;
    let mut hits = 0;
    for _ in 0..200 {
        b.units_mut_for_test()[0].ap = 3;
        let ev = b.apply(Action::Shoot { unit: UnitId(0), target: UnitId(1) }).unwrap();
        match ev[0] {
            BattleEvent::Shot { hit: true, damage, .. } => {
                hits += 1;
                assert!(w.damage_min <= damage && damage <= w.damage_max);
            }
            BattleEvent::Shot { hit: false, damage, .. } => assert_eq!(damage, 0),
            ref e => panic!("expected Shot, got {e:?}"),
        }
        assert!(!ev.iter().any(|e| matches!(e, BattleEvent::ReactionShot { .. })));
    }
    assert!(hits > 100);
}

#[test]
fn moves_do_not_draw_from_the_generator() {
    let shot = Action::Shoot { unit: UnitId(0), target: UnitId(1) };
    let mut direct = Battle::from_ascii("P....\n.....\n....E", 21);
    let mut after_move = Battle::from_ascii("P....\n.....\n....E", 21);
    // No reaction fire: the enemy has no AP left for it.
    direct.units_mut_for_test()[1].ap = 0;
    after_move.units_mut_for_test()[1].ap = 0;
    after_move
        .apply(Action::Move { unit: UnitId(0), path: vec![GridPos::new(0, 1)] })
        .unwrap();
    after_move
        .apply(Action::Move { unit: UnitId(0), path: vec![GridPos::new(0, 2)] })
        .unwrap();
    let a = direct.apply(shot.clone()).unwrap();
    let b = after_move.apply(shot).unwrap();
    assert_eq!(a, b);
}

#[test]
fn a_surviving_walker_ends_on_the_last_cell_having_paid_for_each() {
    let mut b = Battle::from_ascii(".....\nP....", 4);
    let path = vec![GridPos::new(1, 1), GridPos::new(2, 0), GridPos::new(3, 0)];
    let ev = b.apply(Action::Move { unit: UnitId(0), path: path.clone() }).unwrap();
    assert_eq!(
        ev[0],
        BattleEvent::Stepped { unit: UnitId(0), from: GridPos::new(0, 0), to: GridPos::new(1, 1) }
    );
    let u = b.unit(UnitId(0)).unwrap();
    assert_eq!(u.pos, GridPos::new(3, 0));
    assert_eq!(u.ap, tuning::SOLDIER_AP - 3 * tuning::MOVE_COST);
}

#[test]
fn enemy_turn_end_refills_only_living_soldiers() {
    let mut b = Battle::from_ascii("P.P..E", 1);
    b.units_mut_for_test()[0].ap = 1;
    b.units_mut_for_test()[1].ap = 0;
    b.units_mut_for_test()[1].alive = false;
    b.apply(Action::EndTurn).unwrap();
    b.units_mut_for_test()[2].ap = 1;
    let ev = b.end_enemy_turn();
    assert_eq!(
        ev,
        vec![
            BattleEvent::TurnEnded(Side::Enemy),
            BattleEvent::TurnStarted { side: Side::Player, turn_number: 2 }
        ]
    );
    assert_eq!(b.unit(UnitId(0)).unwrap().ap, tuning::SOLDIER_AP);
    assert_eq!(b.unit(UnitId(1)).unwrap().ap, 0);
    assert_eq!(b.unit(UnitId(2)).unwrap().ap, 1);
}

#[test]
fn sight_is_the_same_from_either_end() {
    let g = Grid::from_ascii(".#...\n..#..\n...#.\n.....");
    for ax in 0..5 {
        for ay in 0..4 {
            for bx in 0..5 {
                for by in 0..4 {
                    let a = GridPos::new(ax, ay);
                    let b = GridPos::new(bx, by);
                    assert_eq!(g.has_line_of_sight(a, b), g.has_line_of_sight(b, a));
                }
            }
        }
    }
    assert!(!g.has_line_of_sight(GridPos::new(0, 3), GridPos::new(2, 3)));
}

#[test]
fn lines_have_one_cell_per_chebyshev_step() {
    for (a, b) in [
        (GridPos::new(0, 0), GridPos::new(7, 3)),
        (GridPos::new(5, -2), GridPos::new(-3, 4)),
        (GridPos::new(1, 1), GridPos::new(1, -6)),
    ] {
        let l = grid::line(a, b);
        assert_eq!(l.len() as i32, a.distance(b) + 1);
        assert_eq!(l[0], a);
        assert_eq!(*l.last().unwrap(), b);
    }
}

#[test]
fn hit_chance_exact_values() {
    assert_eq!(hit_chance(0, 8, false), 241591904);
    assert_eq!(hit_chance(0, 8, true), 120795952);
    assert_eq!(hit_chance(10, 20, false), CHANCE_ONE / 2);
    assert_eq!(hit_chance(30, 40, false), 26843546);
    assert_eq!(hit_chance(-1, 8, false), 0);
    for d in 0..8 {
        assert!(hit_chance(d + 1, 8, false) < hit_chance(d, 8, false));
    }
}

#[test]
fn battle_hit_chance_and_cover_queries() {
    let mut b = Battle::from_ascii("P...<", 1);
    b.units_mut_for_test().push(Unit::new(UnitId(1), Side::Enemy, GridPos::new(4, 0)));
    assert!(b.target_in_cover(UnitId(0), UnitId(1)));
    assert!(!b.target_in_cover(UnitId(1), UnitId(0)));
    assert_eq!(b.hit_chance(UnitId(0), UnitId(1)), Some(hit_chance(4, 8, true)));
    assert_eq!(b.hit_chance(UnitId(1), UnitId(0)), Some(hit_chance(4, 7, false)));
    assert_eq!(b.hit_chance(UnitId(0), UnitId(0)), None);
    assert_eq!(b.hit_chance(UnitId(0), UnitId(5)), None);
    assert!(!b.target_in_cover(UnitId(0), UnitId(5)));
}

#[test]
fn visible_enemies_nearest_first_then_by_id() {
    let b = Battle::from_ascii("..E..\nE.P.E\n.....\n..#..\n..E..", 1);
    // Units in reading order: 0 E(2,4), 1 E(0,3), 2 P(2,3), 3 E(4,3), 4 E(2,0).
    assert_eq!(b.visible_enemies(UnitId(2)), vec![UnitId(0), UnitId(1), UnitId(3)]);
    assert!(b.visible_enemies(UnitId(9)).is_empty());
}

#[test]
fn every_planned_enemy_action_is_accepted() {
    let mut b = Battle::from_ascii("P.....\n..#...\n...<.E\n......\nP....E", 5);
    b.apply(Action::EndTurn).unwrap();
    let mut taken = 0;
    while let Some(a) = plan_enemy_action(&b) {
        b.apply(a).unwrap();
        taken += 1;
        assert!(taken < 50);
    }
    assert!(taken > 0);
}

#[test]
fn moves_by_missing_or_dead_units_are_refused() {
    let mut b = Battle::from_ascii("P.P", 1);
    assert_eq!(
        b.apply(Action::Move { unit: UnitId(4), path: vec![GridPos::new(1, 0)] }),
        Err(ActionError::NoSuchUnit)
    );
    b.units_mut_for_test()[1].alive = false;
    assert_eq!(
        b.apply(Action::Move { unit: UnitId(1), path: vec![GridPos::new(1, 0)] }),
        Err(ActionError::UnitDead)
    );
}

#[test]
fn side_other_flips() {
    assert_eq!(Side::Player.other(), Side::Enemy);
    assert_eq!(Side::Enemy.other(), Side::Player);
}

#[test]
fn fresh_units_carry_their_side_rifle() {
    let p = Unit::new(UnitId(3), Side::Player, GridPos::new(1, 2));
    assert_eq!((p.ap, p.ap_max, p.health, p.alive), (6, 6, 100, true));
    assert_eq!((p.weapon.range, p.weapon.damage_min, p.weapon.damage_max), (8, 20, 35));
    let e = Unit::new(UnitId(4), Side::Enemy, GridPos::new(0, 0));
    assert_eq!((e.ap, e.weapon.range, e.weapon.damage_min, e.weapon.damage_max), (5, 7, 10, 25));
    assert_eq!(e.weapon.ap_cost, tuning::RIFLE_AP_COST);
}

#[test]
fn path_to_takes_a_shortest_route_around_units() {
    let b = Battle::from_ascii(".....\nP.E..\n.....", 1);
    let p = b.path_to(UnitId(0), GridPos::new(4, 1)).unwrap();
    assert_eq!(p.len(), 4);
    assert_eq!(*p.last().unwrap(), GridPos::new(4, 1));
    assert!(!p.contains(&GridPos::new(2, 1)));
    let reach = b.reachable(UnitId(0));
    assert!(reach.contains(&(GridPos::new(4, 1), 4)));
}

#[test]
fn find_path_prefers_diagonals_and_returns_none_when_walled_in() {
    let g = Grid::new(5, 5);
    let p = g.find_path(GridPos::new(0, 0), GridPos::new(4, 4)).unwrap();
    assert_eq!(p.len(), 4);
    let boxed = Grid::from_ascii("###\n#.#\n###\n...");
    assert_eq!(boxed.find_path(GridPos::new(1, 2), GridPos::new(0, 0)), None);
}

#[test]
fn a_cloned_battle_rolls_the_same_dice() {
    let mut a = Battle::from_ascii("P...E", 17);
    a.apply(Action::Shoot { unit: UnitId(0), target: UnitId(1) }).unwrap();
    let mut b = a.clone();
    let shot = Action::Shoot { unit: UnitId(0), target: UnitId(1) };
    assert_eq!(a.apply(shot.clone()).unwrap(), b.apply(shot).unwrap());
    assert_eq!(a.units(), b.units());
}

#[test]
fn grid_cells_can_be_read_and_replaced() {
    let mut g = Grid::new(3, 2);
    assert!(g.in_bounds(GridPos::new(2, 1)));
    assert!(!g.in_bounds(GridPos::new(3, 0)));
    assert_eq!(g.get(GridPos::new(1, 1)), Some(&Cell::floor()));
    let sandbag = Cell::cover(CoverSides { e: true, ..Default::default() });
    g.set(GridPos::new(1, 1), sandbag);
    g.set(GridPos::new(7, 7), Cell::wall());
    assert_eq!(g.get(GridPos::new(1, 1)), Some(&sandbag));
    assert_eq!(g.get(GridPos::new(7, 7)), None);
    g.set(GridPos::new(0, 0), Cell::wall());
    assert!(!g.is_walkable(GridPos::new(0, 0)));
    assert!(g.is_walkable(GridPos::new(1, 1)));
}

#[test]
fn chances_above_certainty_always_hit() {
    let mut rng = GameRng::seeded(3);
    for _ in 0..50 {
        assert!(roll_hit(&mut rng, CHANCE_ONE + 1));
        assert!(roll_hit(&mut rng, u32::MAX));
    }
}

#[test]
fn each_enemy_step_spends_ap_until_the_turn_ends() {
    let mut b = Battle::from_ascii("P.......E\n.........\nP.....E..", 8);
    b.apply(Action::EndTurn).unwrap();
    let total = |b: &Battle| -> i32 {
        b.units().iter().filter(|u| u.side == Side::Enemy && u.ap > 0).map(|u| u.ap).sum()
    };
    let mut steps = 0;
    while b.turn() == Side::Enemy && b.outcome().is_none() {
        let before = total(&b);
        wasteland_tactics::phase::drive_enemy_turn(&mut b);
        assert!(b.turn() == Side::Player || total(&b) < before);
        steps += 1;
        assert!(steps <= 20);
    }
}
