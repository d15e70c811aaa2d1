use wasteland_tactics::battle::{Action, Battle, UnitId};
use wasteland_tactics::grid::GridPos;
use wasteland_tactics::orders::{player_input, PlayerInput};

#[test]
fn hotkeys_pick_living_soldiers_in_id_order() {
    let mut b = Battle::from_ascii("P.P.E.P", 1);
    b.units_mut_for_test()[1].alive = false;
    assert_eq!(player_input(&b, None, PlayerInput::Hotkey(0)), (Some(UnitId(0)), None));
    assert_eq!(player_input(&b, None, PlayerInput::Hotkey(1)), (Some(UnitId(3)), None));
    assert_eq!(
        player_input(&b, Some(UnitId(0)), PlayerInput::Hotkey(2)),
        (Some(UnitId(0)), None)
    );
}

#[test]
fn left_click_selects_soldiers_only() {
    let b = Battle::from_ascii("P.E", 1);
    assert_eq!(player_input(&b, None, PlayerInput::Select(Some(UnitId(0)))).0, Some(UnitId(0)));
    assert_eq!(player_input(&b, Some(UnitId(0)), PlayerInput::Select(Some(UnitId(1)))).0, None);
    assert_eq!(player_input(&b, Some(UnitId(0)), PlayerInput::Select(None)).0, None);
}

#[test]
fn right_click_shoots_an_enemy_or_moves_to_a_cell() {
    let b = Battle::from_ascii("P...E", 1);
    let sel = Some(UnitId(0));
    assert_eq!(
        player_input(&b, sel, PlayerInput::Order { under: Some(UnitId(1)), cell: GridPos::new(4, 0) }),
        (sel, Some(Action::Shoot { unit: UnitId(0), target: UnitId(1) }))
    );
    assert_eq!(
        player_input(&b, sel, PlayerInput::Order { under: None, cell: GridPos::new(2, 0) }),
        (sel, Some(Action::Move { unit: UnitId(0), path: vec![GridPos::new(1, 0), GridPos::new(2, 0)] }))
    );
    assert_eq!(
        player_input(&b, sel, PlayerInput::Order { under: None, cell: GridPos::new(4, 0) }),
        (sel, None)
    );
    assert_eq!(
        player_input(&b, None, PlayerInput::Order { under: Some(UnitId(1)), cell: GridPos::new(4, 0) }),
        (None, None)
    );
    assert_eq!(player_input(&b, sel, PlayerInput::EndTurn), (sel, Some(Action::EndTurn)));
}
