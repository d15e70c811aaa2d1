//! Player input during the player's turn: selection, and turning clicks into actions.
//! The caller reads the keys and the cursor; what they mean is decided here.

use vstd::prelude::*;

use crate::battle::model::{path_to_result, BattleView};
use crate::battle::{Action, Battle, Side, Unit, UnitId};
use crate::grid::GridPos;

verus! {

/// One input of the player, as the window reports it.
pub enum PlayerInput {
    /// Enter: end the turn.
    EndTurn,
    /// A number key: select the soldier with this index (0 for key 1) among the living
    /// soldiers in id order.
    Hotkey(usize),
    /// Left click, on the living unit under the cursor if any.
    Select(Option<UnitId>),
    /// Right click, on the living unit under the cursor if any, over `cell`.
    Order { under: Option<UnitId>, cell: GridPos },
}

/// The living soldiers, in id order.
pub open spec fn living_soldiers(s: BattleView) -> Seq<Unit> {
    s.units.filter(|u: Unit| u.alive && u.side == Side::Player)
}

/// `id` names a unit of `side`.
pub open spec fn is_of_side(s: BattleView, id: UnitId, side: Side) -> bool {
    s.has(id) && s.unit(id).side == side
}

/// What an input does: the selection after it, and the action to submit, if any.
/// A hotkey selects the soldier with that index among the living ones (nothing changes
/// when there is none); a left click selects the soldier under the cursor, or clears the
/// selection; a right click with a soldier selected shoots at the enemy under the cursor,
/// or else moves along `path_to` the clicked cell, when there is such a path.
pub open spec fn input_result(s: BattleView, selected: Option<UnitId>, input: PlayerInput) -> (
    Option<UnitId>,
    Option<OrderPlan>,
) {
    match input {
        PlayerInput::EndTurn => (selected, Some(OrderPlan::EndTurn)),
        PlayerInput::Hotkey(i) => if i < living_soldiers(s).len() {
            (Some(living_soldiers(s)[i as int].id), None)
        } else {
            (selected, None)
        },
        PlayerInput::Select(under) => (
            match under {
                Some(id) => if is_of_side(s, id, Side::Player) {
                    Some(id)
                } else {
                    None
                },
                None => None,
            },
            None,
        ),
        PlayerInput::Order { under, cell } => match selected {
            None => (selected, None),
            Some(unit) => {
                if under matches Some(t) && is_of_side(s, t, Side::Enemy) {
                    (selected, Some(OrderPlan::Shoot { unit, target: under->0 }))
                } else {
                    match path_to_result(s, unit, cell) {
                        Some(path) => (selected, Some(OrderPlan::Move { unit, path })),
                        None => (selected, None),
                    }
                }
            },
        },
    }
}

/// An action as the contracts speak of it.
pub enum OrderPlan {
    Move { unit: UnitId, path: Seq<GridPos> },
    Shoot { unit: UnitId, target: UnitId },
    EndTurn,
}

/// `a` is the action `p` describes, and nothing when `p` is nothing.
pub open spec fn orders(a: Option<Action>, p: Option<OrderPlan>) -> bool {
    match a {
        None => p is None,
        Some(Action::Move { unit, path }) => p == Some(OrderPlan::Move { unit, path: path@ }),
        Some(Action::Shoot { unit, target }) => p == Some(OrderPlan::Shoot { unit, target }),
        Some(Action::EndTurn) => p == Some(OrderPlan::EndTurn),
    }
}

/// Decides what one input does: the new selection, and the action to submit, if any.
pub fn player_input(battle: &Battle, selected: Option<UnitId>, input: PlayerInput) -> (r: (
    Option<UnitId>,
    Option<Action>,
))
    requires
        battle.wf(),
    ensures
        r.0 == input_result(battle@, selected, input).0,
        orders(r.1, input_result(battle@, selected, input).1),
{
    match input {
        PlayerInput::EndTurn => (selected, Some(Action::EndTurn)),
        PlayerInput::Hotkey(i) => {
            let soldiers = battle.living(Side::Player);
            if i < soldiers.len() {
                (Some(soldiers[i].id), None)
            } else {
                (selected, None)
            }
        },
        PlayerInput::Select(under) => {
            let pick = match under {
                Some(id) => match battle.unit(id) {
                    Some(u) => if u.side == Side::Player {
                        Some(id)
                    } else {
                        None
                    },
                    None => None,
                },
                None => None,
            };
            (pick, None)
        },
        PlayerInput::Order { under, cell } => {
            let unit = match selected {
                Some(u) => u,
                None => {
                    return (selected, None);
                },
            };
            if let Some(target) = under {
                if let Some(t) = battle.unit(target) {
                    if t.side == Side::Enemy {
                        return (selected, Some(Action::Shoot { unit, target }));
                    }
                }
            }
            match battle.path_to(unit, cell) {
                Some(path) => (selected, Some(Action::Move { unit, path })),
                None => (selected, None),
            }
        },
    }
}

} // verus!
