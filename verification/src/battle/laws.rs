//! What every action of the engine keeps, stated over the model and proved.

use vstd::prelude::*;

use crate::rules::{roll_damage_result, roll_hit_result};
use crate::battle::model::{
    shot_chance, apply_result, end_enemy_turn_result, react_from, refill_ap, settle, shot_check, shot_result,
    switch_turn, then_settle, walk_from, wiped_out, BattleView,
};
use crate::battle::{tuning, Action, ActionError, BattleEvent, Outcome, Side, Unit, UnitId};
use crate::grid::{sight, GridPos, GridView};

verus! {

/// A shot, ordinary or reaction, is among the events.
pub open spec fn fires(ev: Seq<BattleEvent>) -> bool {
    exists|i: int| 0 <= i < ev.len() && (#[trigger] ev[i] is Shot || ev[i] is ReactionShot)
}

/// A reaction shot is among the events.
pub open spec fn reacts(ev: Seq<BattleEvent>) -> bool {
    exists|i: int| 0 <= i < ev.len() && #[trigger] ev[i] is ReactionShot
}

/// `v` is what `u` may become: the same unit of the same side with the same weapon and
/// maxima; a dead unit stays exactly as it was.
pub open spec fn unit_kept(u: Unit, v: Unit) -> bool {
    &&& v.id == u.id
    &&& v.side == u.side
    &&& v.weapon == u.weapon
    &&& v.ap_max == u.ap_max
    &&& v.health_max == u.health_max
    &&& !u.alive ==> v == u
}

/// What no action changes: the grid, the roster and each unit's kept fields, the seed;
/// and the generator stays where it was unless a shot was fired.
pub open spec fn kept(s: BattleView, s2: BattleView, ev: Seq<BattleEvent>) -> bool {
    &&& s2.grid == s.grid
    &&& s2.units.len() == s.units.len()
    &&& forall|i: int| 0 <= i < s.units.len() ==> unit_kept(s.units[i], #[trigger] s2.units[i])
    &&& s2.rng.0 == s.rng.0
    &&& !fires(ev) ==> s2.rng == s.rng
}

/// `kept`, with the turn, its number and the outcome unchanged too.
pub open spec fn framed(s: BattleView, s2: BattleView, ev: Seq<BattleEvent>) -> bool {
    &&& kept(s, s2, ev)
    &&& s2.turn == s.turn
    &&& s2.turn_number == s.turn_number
    &&& s2.outcome == s.outcome
}

/// The outcome `settle` gives units with no outcome yet.
pub open spec fn outcome_of(units: Seq<Unit>) -> Option<Outcome> {
    if wiped_out(units, Side::Player) {
        Some(Outcome::Defeat)
    } else if wiped_out(units, Side::Enemy) {
        Some(Outcome::Victory)
    } else {
        None
    }
}

proof fn lemma_fires_join(a: Seq<BattleEvent>, b: Seq<BattleEvent>)
    ensures
        fires(a + b) == (fires(a) || fires(b)),
        reacts(a + b) == (reacts(a) || reacts(b)),
{
    let ab = a + b;
    if fires(ab) {
        let i = choose|i: int| 0 <= i < ab.len() && (#[trigger] ab[i] is Shot || ab[i] is ReactionShot);
        if i < a.len() {
            assert(a[i] == ab[i]);
        } else {
            assert(b[i - a.len()] == ab[i]);
        }
    }
    if fires(a) {
        let i = choose|i: int| 0 <= i < a.len() && (#[trigger] a[i] is Shot || a[i] is ReactionShot);
        assert(ab[i] == a[i]);
    }
    if fires(b) {
        let i = choose|i: int| 0 <= i < b.len() && (#[trigger] b[i] is Shot || b[i] is ReactionShot);
        assert(ab[i + a.len()] == b[i]);
    }
    if reacts(ab) {
        let i = choose|i: int| 0 <= i < ab.len() && #[trigger] ab[i] is ReactionShot;
        if i < a.len() {
            assert(a[i] == ab[i]);
        } else {
            assert(b[i - a.len()] == ab[i]);
        }
    }
    if reacts(a) {
        let i = choose|i: int| 0 <= i < a.len() && #[trigger] a[i] is ReactionShot;
        assert(ab[i] == a[i]);
    }
    if reacts(b) {
        let i = choose|i: int| 0 <= i < b.len() && #[trigger] b[i] is ReactionShot;
        assert(ab[i + a.len()] == b[i]);
    }
}

proof fn lemma_framed_trans(
    s: BattleView,
    s1: BattleView,
    e1: Seq<BattleEvent>,
    s2: BattleView,
    e2: Seq<BattleEvent>,
)
    requires
        framed(s, s1, e1),
        framed(s1, s2, e2),
    ensures
        framed(s, s2, e1 + e2),
{
    lemma_fires_join(e1, e2);
    assert forall|i: int| 0 <= i < s.units.len() implies unit_kept(s.units[i], #[trigger] s2.units[i]) by {
        assert(unit_kept(s.units[i], s1.units[i]));
        assert(unit_kept(s1.units[i], s2.units[i]));
    }
}

/// Every event is a reaction shot or a death.
pub open spec fn reaction_only(ev: Seq<BattleEvent>) -> bool {
    forall|n: int| 0 <= n < ev.len() ==> #[trigger] ev[n] is ReactionShot || ev[n] is Died
}

/// Every event is a step, a reaction shot or a death.
pub open spec fn walk_kinds(ev: Seq<BattleEvent>) -> bool {
    forall|n: int|
        0 <= n < ev.len() ==> #[trigger] ev[n] is Stepped || ev[n] is ReactionShot || ev[n] is Died
}

/// The `Stepped` events among `ev`, in order.
pub open spec fn steps_of(ev: Seq<BattleEvent>) -> Seq<BattleEvent> {
    ev.filter(|e: BattleEvent| e is Stepped)
}

/// The steps of `unit` from `start` along `path`, from index `i` through index `k`.
pub open spec fn walk_steps(unit: UnitId, start: GridPos, path: Seq<GridPos>, i: int, k: int) -> Seq<
    BattleEvent,
> {
    Seq::new(
        (k + 1 - i) as nat,
        |j: int|
            BattleEvent::Stepped {
                unit,
                from: if j == 0 {
                    start
                } else {
                    path[i + j - 1]
                },
                to: path[i + j],
            },
    )
}

proof fn lemma_reaction_only_join(a: Seq<BattleEvent>, b: Seq<BattleEvent>)
    requires
        reaction_only(a),
        reaction_only(b),
    ensures
        reaction_only(a + b),
{
    assert forall|n: int| 0 <= n < (a + b).len() implies #[trigger] (a + b)[n] is ReactionShot || (a
        + b)[n] is Died by {
        if n < a.len() {
            assert((a + b)[n] == a[n]);
        } else {
            assert((a + b)[n] == b[n - a.len()]);
        }
    }
}

proof fn lemma_walk_kinds_join(a: Seq<BattleEvent>, b: Seq<BattleEvent>)
    requires
        walk_kinds(a),
        walk_kinds(b),
    ensures
        walk_kinds(a + b),
{
    assert forall|n: int| 0 <= n < (a + b).len() implies #[trigger] (a + b)[n] is Stepped || (a
        + b)[n] is ReactionShot || (a + b)[n] is Died by {
        if n < a.len() {
            assert((a + b)[n] == a[n]);
        } else {
            assert((a + b)[n] == b[n - a.len()]);
        }
    }
}

/// Reaction fire and deaths contain no step.
proof fn lemma_no_steps(ev: Seq<BattleEvent>)
    requires
        forall|n: int| 0 <= n < ev.len() ==> !(#[trigger] ev[n] is Stepped),
    ensures
        steps_of(ev) == Seq::<BattleEvent>::empty(),
{
    let p = |e: BattleEvent| e is Stepped;
    if ev.filter(p).len() > 0 {
        ev.lemma_filter_pred(p, 0);
        ev.lemma_filter_contains_rev(p, ev.filter(p)[0]);
    }
    assert(ev.filter(p) =~= Seq::<BattleEvent>::empty());
}

/// A validated shot: the shooter pays its AP, only the target's health and life change
/// besides, a shot event comes first, and no reaction shot follows unless it is one.
proof fn lemma_shot(s: BattleView, shooter: UnitId, target: UnitId, reaction: bool)
    requires
        shot_check(s, shooter, target, reaction) is Ok,
    ensures
        ({
            let (s2, ev) = shot_result(s, shooter, target, reaction);
            &&& framed(s, s2, ev)
            &&& fires(ev)
            &&& !reaction ==> !reacts(ev)
            &&& reaction ==> reaction_only(ev)
            &&& s.unit(shooter).side != s.unit(target).side
            &&& shooter != target
            &&& s2.unit(shooter).ap == (s.unit(shooter).ap - s.unit(shooter).weapon.ap_cost) as i32
            &&& s2.unit(target).pos == s.unit(target).pos
            &&& s2.unit(target).ap == s.unit(target).ap
            &&& forall|i: int|
                0 <= i < s.units.len() && i != shooter.0 && i != target.0 ==> #[trigger] s2.units[i]
                    == s.units[i]
        }),
{
    let (s2, ev) = shot_result(s, shooter, target, reaction);
    let sh = s.unit(shooter);
    let units1 = s.units.update(shooter.0 as int, Unit { ap: (sh.ap - sh.weapon.ap_cost) as i32, ..sh });
    assert(s2.units.len() == s.units.len());
    assert forall|i: int| 0 <= i < s.units.len() implies unit_kept(s.units[i], #[trigger] s2.units[i]) by {
        if i == target.0 {
            assert(units1[i] == s.units[i]);
        }
    }
    assert(s2.rng.0 == s.rng.0);
    assert(ev[0] is Shot || ev[0] is ReactionShot);
    assert(fires(ev));
    if !reaction {
        if reacts(ev) {
            let i = choose|i: int| 0 <= i < ev.len() && #[trigger] ev[i] is ReactionShot;
        }
    }
    if reaction {
        assert(reaction_only(ev));
    }
}

/// Reaction fire moves nobody and spends none of the mover's AP; only shots happen in it.
proof fn lemma_react(s: BattleView, mover: UnitId, j: int)
    requires
        s.has(mover),
        0 <= j,
    ensures
        ({
            let (s2, ev) = react_from(s, mover, j);
            &&& framed(s, s2, ev)
            &&& s2.unit(mover).pos == s.unit(mover).pos
            &&& s2.unit(mover).ap == s.unit(mover).ap
            &&& reaction_only(ev)
            &&& forall|k: int|
                0 <= k < s.units.len() && k != mover.0 && s.units[k].side == s.unit(mover).side
                    ==> #[trigger] s2.units[k] == s.units[k]
        }),
    decreases s.units.len() - j,
{
    if j < 0 || j >= s.units.len() || !s.unit(mover).alive {
        assert(!fires(Seq::<BattleEvent>::empty()));
        assert(reaction_only(Seq::<BattleEvent>::empty()));
    } else {
        let reactor = UnitId(j as u32);
        if shot_check(s, reactor, mover, true) is Ok {
            let (s1, e1) = shot_result(s, reactor, mover, true);
            lemma_shot(s, reactor, mover, true);
            lemma_react(s1, mover, j + 1);
            let (s2, e2) = react_from(s1, mover, j + 1);
            lemma_framed_trans(s, s1, e1, s2, e2);
            lemma_reaction_only_join(e1, e2);
            assert(unit_kept(s.units[mover.0 as int], s1.units[mover.0 as int]));
            assert forall|k: int|
                0 <= k < s.units.len() && k != mover.0 && s.units[k].side == s.unit(mover).side
                    implies #[trigger] s2.units[k] == s.units[k] by {
                assert(k != reactor.0);
                assert(s1.units[k] == s.units[k]);
            }
        } else {
            lemma_react(s, mover, j + 1);
        }
    }
}

/// The id of the unit firing a reaction shot; -1 for any other event.
pub open spec fn reaction_shooter(e: BattleEvent) -> int {
    match e {
        BattleEvent::ReactionShot { shooter, .. } => shooter.0 as int,
        _ => -1,
    }
}

/// Reaction fire against `mover` by units from index `j` on: every event is a reaction
/// shot at the mover by a unit of the other side (as `units` has them), or the mover's
/// death; the shooters come in ascending id order, each at most once.
pub open spec fn reaction_events(ev: Seq<BattleEvent>, mover: UnitId, units: Seq<Unit>, j: int) -> bool {
    &&& forall|n: int|
        0 <= n < ev.len() ==> match #[trigger] ev[n] {
            BattleEvent::ReactionShot { shooter, target, .. } => {
                &&& target == mover
                &&& j <= shooter.0 < units.len()
                &&& units[shooter.0 as int].side != units[mover.0 as int].side
            },
            BattleEvent::Died(u) => u == mover,
            _ => false,
        }
    &&& forall|n: int, m: int|
        0 <= n < m < ev.len() && ev[n] is ReactionShot && ev[m] is ReactionShot ==> reaction_shooter(
            #[trigger] ev[n],
        ) < reaction_shooter(#[trigger] ev[m])
}

proof fn lemma_react_events(s: BattleView, mover: UnitId, j: int)
    requires
        s.has(mover),
        s.units.len() <= u32::MAX,
        0 <= j,
    ensures
        reaction_events(react_from(s, mover, j).1, mover, s.units, j),
    decreases s.units.len() - j,
{
    if j < 0 || j >= s.units.len() || !s.unit(mover).alive {
    } else {
        let reactor = UnitId(j as u32);
        if shot_check(s, reactor, mover, true) is Ok {
            let (s1, e1) = shot_result(s, reactor, mover, true);
            assert(reactor.0 == j);
            lemma_shot(s, reactor, mover, true);
            lemma_react_events(s1, mover, j + 1);
            let e2 = react_from(s1, mover, j + 1).1;
            let ev = e1 + e2;
            assert(react_from(s, mover, j).1 == ev);
            assert(e1[0] == BattleEvent::ReactionShot {
                shooter: reactor,
                target: mover,
                hit: e1[0]->ReactionShot_hit,
                damage: e1[0]->ReactionShot_damage,
            });
            assert(unit_kept(s.units[mover.0 as int], s1.units[mover.0 as int]));
            assert forall|n: int| 0 <= n < ev.len() implies match #[trigger] ev[n] {
                BattleEvent::ReactionShot { shooter, target, .. } => {
                    &&& target == mover
                    &&& j <= shooter.0 < s.units.len()
                    &&& s.units[shooter.0 as int].side != s.units[mover.0 as int].side
                },
                BattleEvent::Died(u) => u == mover,
                _ => false,
            } by {
                if n < e1.len() {
                    assert(ev[n] == e1[n]);
                } else {
                    assert(ev[n] == e2[n - e1.len()]);
                    if let BattleEvent::ReactionShot { shooter, .. } = e2[n - e1.len()] {
                        assert(unit_kept(s.units[shooter.0 as int], s1.units[shooter.0 as int]));
                    }
                }
            }
            assert forall|n: int, m: int|
                0 <= n < m < ev.len() && ev[n] is ReactionShot && ev[m] is ReactionShot implies reaction_shooter(
                #[trigger] ev[n]) < reaction_shooter(#[trigger] ev[m]) by {
                assert(ev[m] == e2[m - e1.len()]) by {
                    if m < e1.len() {
                        assert(e1.len() == 2 && m == 1 && e1[1] is Died);
                    }
                }
                if n >= e1.len() {
                    assert(ev[n] == e2[n - e1.len()]);
                } else {
                    assert(n == 0 && ev[n] == e1[0]);
                }
            }
        } else {
            lemma_react_events(s, mover, j + 1);
        }
    }
}

/// Reaction fire after a step: only reaction shots at the mover and its death happen;
/// the shooters are units of the other side, in ascending id, each firing at most once
/// (exactly those whose reaction shot is allowed when their turn to fire comes, while the
/// mover lives); the mover keeps its cell and AP, and the other units of its side are
/// untouched.
pub proof fn law_reaction_fire(s: BattleView, mover: UnitId)
    requires
        s.wf(),
        s.has(mover),
    ensures
        ({
            let (s2, ev) = react_from(s, mover, 0);
            &&& reaction_events(ev, mover, s.units, 0)
            &&& framed(s, s2, ev)
            &&& s2.unit(mover).pos == s.unit(mover).pos
            &&& s2.unit(mover).ap == s.unit(mover).ap
            &&& forall|k: int|
                0 <= k < s.units.len() && k != mover.0 && s.units[k].side == s.unit(mover).side
                    ==> #[trigger] s2.units[k] == s.units[k]
        }),
{
    lemma_react(s, mover, 0);
    lemma_react_events(s, mover, 0);
}

/// A walk from index `i` that took the path's cells through index `k`: the walker stands
/// on cell `k`, has paid `MOVE_COST` for each cell taken, is dead if it stopped short, and
/// the walk's steps are exactly those cells, in order.
pub open spec fn walked_to(
    s: BattleView,
    s2: BattleView,
    ev: Seq<BattleEvent>,
    unit: UnitId,
    path: Seq<GridPos>,
    i: int,
    k: int,
) -> bool {
    &&& i <= k < path.len()
    &&& s2.unit(unit).pos == path[k]
    &&& s2.unit(unit).ap == s.unit(unit).ap - (k + 1 - i) * tuning::MOVE_COST
    &&& k + 1 < path.len() ==> !s2.unit(unit).alive
    &&& steps_of(ev) == walk_steps(unit, s.unit(unit).pos, path, i, k)
}

proof fn lemma_steps_one(step: BattleEvent, e2: Seq<BattleEvent>)
    requires
        step is Stepped,
        reaction_only(e2),
    ensures
        steps_of(seq![step] + e2) == seq![step],
        walk_kinds(seq![step] + e2),
{
    let p = |e: BattleEvent| e is Stepped;
    Seq::filter_distributes_over_add(seq![step], e2, p);
    reveal_with_fuel(Seq::filter, 2);
    assert(seq![step].filter(p) =~= seq![step]);
    lemma_no_steps(e2);
    assert(seq![step].filter(p) + e2.filter(p) =~= seq![step]);
    assert(walk_kinds(seq![step]));
    assert(walk_kinds(e2));
    lemma_walk_kinds_join(seq![step], e2);
}

/// A walk from index `i`: each step moves the walker one cell for `MOVE_COST` and is
/// reported as `Stepped`; between steps come only reaction shots and deaths; the walk ends
/// on the cell where the walker fell or on the last cell; the other units of its side are
/// untouched.
#[verifier::spinoff_prover]
#[verifier::rlimit(40)]
proof fn lemma_walk(s: BattleView, unit: UnitId, path: Seq<GridPos>, i: int)
    requires
        s.has(unit),
        s.unit(unit).alive,
        0 <= i <= path.len(),
        s.unit(unit).ap >= (path.len() - i) * tuning::MOVE_COST,
    ensures
        ({
            let (s2, ev) = walk_from(s, unit, path, i);
            &&& framed(s, s2, ev)
            &&& walk_kinds(ev)
            &&& forall|m: int|
                0 <= m < s.units.len() && m != unit.0 && s.units[m].side == s.unit(unit).side
                    ==> #[trigger] s2.units[m] == s.units[m]
            &&& i < path.len() ==> exists|k: int| #[trigger] walked_to(s, s2, ev, unit, path, i, k)
        }),
    decreases path.len() - i,
{
    if i < path.len() {
        let u = s.unit(unit);
        let cell = path[i];
        let s1 = s.with_units(
            s.units.update(
                unit.0 as int,
                Unit { pos: cell, ap: (u.ap - tuning::MOVE_COST) as i32, ..u },
            ),
        );
        let step = BattleEvent::Stepped { unit, from: u.pos, to: cell };
        assert(!fires(seq![step]));
        assert(framed(s, s1, seq![step]));
        lemma_react(s1, unit, 0);
        let (s2, e2) = react_from(s1, unit, 0);
        lemma_framed_trans(s, s1, seq![step], s2, e2);
        lemma_steps_one(step, e2);
        assert forall|m: int|
            0 <= m < s.units.len() && m != unit.0 && s.units[m].side == s.unit(unit).side
                implies #[trigger] s2.units[m] == s.units[m] by {
            assert(s1.units[m] == s.units[m]);
        }
        assert(walk_steps(unit, u.pos, path, i, i) =~= seq![step]);
        if s2.unit(unit).alive && i + 1 < path.len() {
            lemma_walk(s2, unit, path, i + 1);
            let (s3, e3) = walk_from(s2, unit, path, i + 1);
            lemma_framed_trans(s, s2, seq![step] + e2, s3, e3);
            lemma_walk_kinds_join(seq![step] + e2, e3);
            let k = choose|k: int| #[trigger] walked_to(s2, s3, e3, unit, path, i + 1, k);
            Seq::filter_distributes_over_add(seq![step] + e2, e3, |e: BattleEvent| e is Stepped);
            assert(walk_steps(unit, u.pos, path, i, k) =~= seq![step] + walk_steps(
                unit,
                path[i],
                path,
                i + 1,
                k,
            ));
            assert(walked_to(s, s3, seq![step] + e2 + e3, unit, path, i, k));
            assert(walk_from(s, unit, path, i) == (s3, seq![step] + e2 + e3));
            assert forall|m: int|
                0 <= m < s.units.len() && m != unit.0 && s.units[m].side == s.unit(unit).side
                    implies #[trigger] s3.units[m] == s.units[m] by {
                assert(s2.units[m] == s.units[m]);
                assert(s2.units[m].side == s2.unit(unit).side);
            }
        } else if s2.unit(unit).alive {
            assert(walk_from(s2, unit, path, i + 1) == (s2, Seq::<BattleEvent>::empty()));
            assert(seq![step] + e2 + Seq::<BattleEvent>::empty() =~= seq![step] + e2);
            assert(walked_to(s, s2, seq![step] + e2, unit, path, i, i));
            assert(walk_from(s, unit, path, i) == (s2, seq![step] + e2));
        } else {
            assert(walked_to(s, s2, seq![step] + e2, unit, path, i, i));
            assert(walk_from(s, unit, path, i) == (s2, seq![step] + e2));
        }
    } else {
        assert(!fires(Seq::<BattleEvent>::empty()));
        assert(walk_kinds(Seq::<BattleEvent>::empty()));
    }
}

proof fn lemma_settle(s: BattleView)
    ensures
        ({
            let (s2, ev) = settle(s);
            &&& s2 == BattleView { outcome: s2.outcome, ..s }
            &&& !fires(ev)
            &&& !reacts(ev)
            &&& s.outcome is None ==> s2.outcome == outcome_of(s.units)
            &&& s.outcome is None ==> (s2.outcome matches Some(o) ==> ev == seq![BattleEvent::BattleOver(o)])
            &&& s.outcome is Some ==> s2 == s && ev.len() == 0
        }),
{
    let (s2, ev) = settle(s);
    if fires(ev) {
        let i = choose|i: int| 0 <= i < ev.len() && (#[trigger] ev[i] is Shot || ev[i] is ReactionShot);
    }
    if reacts(ev) {
        let i = choose|i: int| 0 <= i < ev.len() && #[trigger] ev[i] is ReactionShot;
    }
}

/// What `then_settle` adds to a framed step.
proof fn lemma_then_settle(s: BattleView, r: (BattleView, Seq<BattleEvent>))
    requires
        r.0.outcome is None,
        kept(s, r.0, r.1),
        forall|n: int| 0 <= n < r.1.len() ==> !(#[trigger] r.1[n] is BattleOver),
    ensures
        ({
            let (s2, ev) = then_settle(r);
            &&& kept(s, s2, ev)
            &&& forall|n: int|
                0 <= n < ev.len() && #[trigger] ev[n] is BattleOver ==> n == ev.len() - 1
                    && s2.outcome is Some
            &&& s2.turn == r.0.turn
            &&& s2.turn_number == r.0.turn_number
            &&& s2.units == r.0.units
            &&& s2.outcome == outcome_of(s2.units)
            &&& s2.outcome matches Some(o) ==> ev.len() > 0 && ev.last() == BattleEvent::BattleOver(o)
            &&& fires(ev) == fires(r.1)
            &&& reacts(ev) == reacts(r.1)
        }),
{
    lemma_settle(r.0);
    let (s1, e1) = settle(r.0);
    lemma_fires_join(r.1, e1);
    if s1.outcome is Some {
        assert((r.1 + e1).last() == e1.last());
    }
    let ev = r.1 + e1;
    assert forall|n: int| 0 <= n < ev.len() && #[trigger] ev[n] is BattleOver implies n == ev.len() - 1
        && s1.outcome is Some by {
        if n < r.1.len() {
            assert(ev[n] == r.1[n]);
        }
    }
}

/// After any accepted action the grid, the roster (ids, sides, weapons, maxima) and the
/// seed are unchanged, a dead unit stays dead and untouched, the generator moves only
/// when a shot is fired, and the battle is over exactly when a side that has units has
/// none left alive (defeat when that side is the player's), announced by a final
/// `BattleOver` event, the only one.
pub proof fn law_action_keeps(s: BattleView, a: Action)
    requires
        s.wf(),
    ensures
        apply_result(s, a) matches Ok((s2, ev)) ==> {
            &&& kept(s, s2, ev)
            &&& s2.outcome == outcome_of(s2.units)
            &&& s2.outcome matches Some(o) ==> ev.len() > 0 && ev.last() == BattleEvent::BattleOver(o)
            &&& forall|n: int|
                0 <= n < ev.len() && #[trigger] ev[n] is BattleOver ==> n == ev.len() - 1
                    && s2.outcome is Some
        },
{
    if apply_result(s, a) is Ok {
        match a {
            Action::EndTurn => {
                lemma_end_turn_framed(s);
                let r = switch_turn(s);
                assert forall|n: int| 0 <= n < r.1.len() implies !(#[trigger] r.1[n] is BattleOver) by {}
                lemma_then_settle(s, r);
            },
            Action::Shoot { unit, target } => {
                lemma_shot(s, unit, target, false);
                let r = shot_result(s, unit, target, false);
                assert forall|n: int| 0 <= n < r.1.len() implies !(#[trigger] r.1[n] is BattleOver) by {}
                lemma_then_settle(s, r);
            },
            Action::Move { unit, path } => {
                lemma_walk(s, unit, path@, 0);
                let r = walk_from(s, unit, path@, 0);
                assert forall|n: int| 0 <= n < r.1.len() implies !(#[trigger] r.1[n] is BattleOver) by {
                    assert(r.1[n] is Stepped || r.1[n] is ReactionShot || r.1[n] is Died);
                }
                lemma_then_settle(s, r);
            },
        }
    }
}

/// Switching turns keeps the roster, only refilling AP; `framed` but for the turn.
proof fn lemma_end_turn_framed(s: BattleView)
    ensures
        ({
            let (s2, ev) = switch_turn(s);
            &&& kept(s, s2, ev)
            &&& !fires(ev)
            &&& !reacts(ev)
            &&& s2.outcome == s.outcome
        }),
{
    let (s2, ev) = switch_turn(s);
    if fires(ev) {
        let i = choose|i: int| 0 <= i < ev.len() && (#[trigger] ev[i] is Shot || ev[i] is ReactionShot);
    }
    if reacts(ev) {
        let i = choose|i: int| 0 <= i < ev.len() && #[trigger] ev[i] is ReactionShot;
    }
}


/// Once the battle is over every action is refused with `BattleOver`, and ending the
/// enemy turn does nothing.
pub proof fn law_over_is_final(s: BattleView, a: Action)
    requires
        s.outcome is Some,
    ensures
        apply_result(s, a) == Err::<(BattleView, Seq<BattleEvent>), ActionError>(ActionError::BattleOver),
        end_enemy_turn_result(s) == (s, Seq::<BattleEvent>::empty()),
{
}

/// An ordinary shot: the `Shot` event comes first and names the shooter and target. The
/// hit is rolled on the shot's chance (distance, range, cover); damage is drawn in the
/// weapon's range only on a hit, a miss does none, and no other draw is made. The shooter
/// pays its weapon's AP cost, the target loses the damage and lives exactly while its
/// health stays above 0 (`Died` follows the shot when it dies), no other unit changes,
/// nobody moves, and no reaction fire follows.
pub proof fn law_shot(s: BattleView, unit: UnitId, target: UnitId)
    requires
        s.wf(),
    ensures
        apply_result(s, Action::Shoot { unit, target }) matches Ok((s2, ev)) ==> {
            &&& ev.len() > 0
            &&& ev[0] matches BattleEvent::Shot { shooter, target: t, hit, damage } && {
                let w = s.unit(unit).weapon;
                let (rolled, r1) = roll_hit_result(s.rng, shot_chance(s, unit, target));
                &&& shooter == unit
                &&& t == target
                &&& hit == rolled
                &&& !hit ==> damage == 0 && s2.rng == r1
                &&& hit ==> (damage, s2.rng) == roll_damage_result(r1, w.damage_min, w.damage_max)
                &&& s2.unit(target).health == (s.unit(target).health - damage) as i32
                &&& s2.unit(target).alive == (s.unit(target).health - damage > 0)
                &&& (ev.len() > 1 && ev[1] == BattleEvent::Died(target)) == !s2.unit(target).alive
            }
            &&& s2.unit(unit).ap == s.unit(unit).ap - s.unit(unit).weapon.ap_cost
            &&& forall|i: int|
                0 <= i < s.units.len() && i != unit.0 && i != target.0 ==> #[trigger] s2.units[i]
                    == s.units[i]
            &&& forall|i: int| 0 <= i < s.units.len() ==> (#[trigger] s2.units[i]).pos == s.units[i].pos
            &&& !reacts(ev)
        },
{
    let a = Action::Shoot { unit, target };
    if apply_result(s, a) is Ok {
        lemma_shot(s, unit, target, false);
        let r = shot_result(s, unit, target, false);
        lemma_then_settle(s, r);
        let (s2, ev) = apply_result(s, a)->Ok_0;
        assert(ev[0] == r.1[0]);
        if r.1.len() > 1 {
            assert(ev[1] == r.1[1]);
        } else if ev.len() > 1 {
            assert(ev[1] is BattleOver);
        }
        assert(crate::battle::model::unit_ok(s.units[unit.0 as int]));
        assert forall|i: int| 0 <= i < s.units.len() implies (#[trigger] s2.units[i]).pos == s.units[i].pos by {
            if i != unit.0 && i != target.0 {
                assert(r.0.units[i] == s.units[i]);
            }
        }
    }
}

/// A move: the walk takes the path's cells through some index `k`, one `Stepped` event
/// per cell taken, from the walker's cell along the path, in order; between the steps come
/// only reaction shots and deaths, with a final `BattleOver` when the battle ends. The
/// walker pays `MOVE_COST` per cell taken and stands on cell `k`; it stops short of the
/// last cell only when reaction fire killed it. The other units of its side are untouched.
pub proof fn law_move(s: BattleView, unit: UnitId, path: Vec<GridPos>)
    requires
        s.wf(),
    ensures
        apply_result(s, Action::Move { unit, path }) matches Ok((s2, ev)) ==> {
            &&& ev.len() > 0
            &&& ev[0] == BattleEvent::Stepped { unit, from: s.unit(unit).pos, to: path@[0] }
            &&& exists|k: int| #[trigger] walked_to(s, s2, ev, unit, path@, 0, k)
            &&& s2.unit(unit).alive ==> {
                &&& s2.unit(unit).pos == path@.last()
                &&& s2.unit(unit).ap == s.unit(unit).ap - path@.len() * tuning::MOVE_COST
            }
            &&& forall|n: int|
                0 <= n < ev.len() ==> #[trigger] ev[n] is Stepped || ev[n] is ReactionShot
                    || ev[n] is Died || (n == ev.len() - 1 && ev[n] is BattleOver)
            &&& forall|m: int|
                0 <= m < s.units.len() && m != unit.0 && s.units[m].side == s.unit(unit).side
                    ==> #[trigger] s2.units[m] == s.units[m]
        },
{
    let a = Action::Move { unit, path };
    if apply_result(s, a) is Ok {
        lemma_walk(s, unit, path@, 0);
        let r = walk_from(s, unit, path@, 0);
        lemma_then_settle(s, r);
        lemma_settle(r.0);
        let (s1, e1) = settle(r.0);
        let (s2, ev) = apply_result(s, a)->Ok_0;
        assert(ev == r.1 + e1);
        assert(ev[0] == r.1[0]);
        let k = choose|k: int| #[trigger] walked_to(s, r.0, r.1, unit, path@, 0, k);
        Seq::filter_distributes_over_add(r.1, e1, |e: BattleEvent| e is Stepped);
        assert forall|n: int| 0 <= n < e1.len() implies !(#[trigger] e1[n] is Stepped) by {
            assert(e1.len() == 1 && e1[0] is BattleOver);
        }
        lemma_no_steps(e1);
        assert(steps_of(ev) =~= steps_of(r.1));
        assert(walked_to(s, s2, ev, unit, path@, 0, k));
        assert forall|n: int| 0 <= n < ev.len() implies #[trigger] ev[n] is Stepped || ev[n] is ReactionShot
            || ev[n] is Died || (n == ev.len() - 1 && ev[n] is BattleOver) by {
            if n < r.1.len() {
                assert(ev[n] == r.1[n]);
            } else {
                assert(e1.len() == 1 && ev[n] == e1[0]);
            }
        }
        assert forall|m: int|
            0 <= m < s.units.len() && m != unit.0 && s.units[m].side == s.unit(unit).side
                implies #[trigger] s2.units[m] == s.units[m] by {
            assert(r.0.units[m] == s.units[m]);
        }
    }
}

/// The player ends the turn: the enemy's turn begins with the same turn number, every
/// living enemy gets its full AP, and every other unit keeps its AP (unspent AP carries
/// over as the reaction budget). The events are `TurnEnded` then `TurnStarted`.
pub proof fn law_end_turn(s: BattleView)
    requires
        s.wf(),
    ensures
        apply_result(s, Action::EndTurn) matches Ok((s2, ev)) ==> {
            &&& s2.turn == Side::Enemy
            &&& s2.turn_number == s.turn_number
            &&& ev.len() >= 2
            &&& ev[0] == BattleEvent::TurnEnded(Side::Player)
            &&& ev[1] == BattleEvent::TurnStarted { side: Side::Enemy, turn_number: s.turn_number }
            &&& forall|i: int|
                0 <= i < s.units.len() ==> #[trigger] s2.units[i] == if s.units[i].alive
                    && s.units[i].side == Side::Enemy {
                    Unit { ap: s.units[i].ap_max, ..s.units[i] }
                } else {
                    s.units[i]
                }
        },
{
    if apply_result(s, Action::EndTurn) is Ok {
        lemma_end_turn_framed(s);
        let r = switch_turn(s);
        lemma_settle(r.0);
        let (s2, ev) = apply_result(s, Action::EndTurn)->Ok_0;
        assert(ev[0] == r.1[0] && ev[1] == r.1[1]);
    }
}

/// Ending the enemy's turn: the player's next turn begins, numbered one higher, every
/// living soldier gets its full AP and every other unit keeps its AP; the events are
/// `TurnEnded(Enemy)` then `TurnStarted`. On the player's turn, or once the battle is
/// over, nothing happens.
pub proof fn law_enemy_turn_end(s: BattleView)
    requires
        s.turn_number < u32::MAX,
    ensures
        ({
            let (s2, ev) = end_enemy_turn_result(s);
            if s.turn == Side::Enemy && s.outcome is None {
                &&& s2.turn == Side::Player
                &&& s2.turn_number == s.turn_number + 1
                &&& s2.outcome is None
                &&& s2.grid == s.grid
                &&& s2.rng == s.rng
                &&& ev == seq![
                    BattleEvent::TurnEnded(Side::Enemy),
                    BattleEvent::TurnStarted { side: Side::Player, turn_number: s2.turn_number },
                ]
                &&& s2.units.len() == s.units.len()
                &&& forall|i: int|
                    0 <= i < s.units.len() ==> #[trigger] s2.units[i] == if s.units[i].alive
                        && s.units[i].side == Side::Player {
                        Unit { ap: s.units[i].ap_max, ..s.units[i] }
                    } else {
                        s.units[i]
                    }
            } else {
                s2 == s && ev.len() == 0
            }
        }),
{
}

/// A battle in which every unit is on one side, some of them alive, never ends: every
/// accepted action leaves it so, with no outcome.
pub proof fn law_one_side_never_ends(s: BattleView, a: Action, side: Side)
    requires
        s.wf(),
        s.outcome is None,
        forall|i: int| 0 <= i < s.units.len() ==> (#[trigger] s.units[i]).side == side,
        exists|i: int| 0 <= i < s.units.len() && (#[trigger] s.units[i]).alive,
    ensures
        apply_result(s, a) matches Ok((s2, ev)) ==> {
            &&& s2.outcome is None
            &&& forall|i: int| 0 <= i < s2.units.len() ==> (#[trigger] s2.units[i]).side == side
            &&& exists|i: int| 0 <= i < s2.units.len() && (#[trigger] s2.units[i]).alive
        },
{
    if apply_result(s, a) is Ok {
        law_action_keeps(s, a);
        let (s2, ev) = apply_result(s, a)->Ok_0;
        let k = choose|i: int| 0 <= i < s.units.len() && (#[trigger] s.units[i]).alive;
        match a {
            Action::EndTurn => {
                assert(s2.units[k].alive);
            },
            Action::Shoot { unit, target } => {
                assert(s.units[unit.0 as int].side == s.units[target.0 as int].side);
            },
            Action::Move { unit, path } => {
                lemma_walk_one_side(s, unit, path@, 0, side);
                assert(s2.units[k].alive);
            },
        }
        assert(forall|i: int| 0 <= i < s2.units.len() ==> (#[trigger] s2.units[i]).side == side);
        assert(unit_kept(s.units[k], s2.units[k]));
        assert(s2.units[k].alive);
        if wiped_out(s2.units, side) {
            assert(s2.units[k].side == side);
        }
        if wiped_out(s2.units, crate::battle::other_side(side)) {
            let j = choose|j: int| 0 <= j < s2.units.len() && (#[trigger] s2.units[j]).side == crate::battle::other_side(side);
        }
    }
}

/// Line of sight does not depend on which end looks.
pub proof fn law_sight_symmetric(g: GridView, a: GridPos, b: GridPos)
    ensures
        sight(g, a, b) == sight(g, b, a),
{
}


/// With every unit on one side no reaction shot is possible.
proof fn lemma_react_one_side(s: BattleView, mover: UnitId, j: int, side: Side)
    requires
        s.has(mover),
        forall|i: int| 0 <= i < s.units.len() ==> (#[trigger] s.units[i]).side == side,
    ensures
        react_from(s, mover, j) == (s, Seq::<BattleEvent>::empty()),
    decreases s.units.len() - j,
{
    if 0 <= j < s.units.len() && s.unit(mover).alive {
        assert(s.units[j].side == side);
        assert(s.units[mover.0 as int].side == side);
        lemma_react_one_side(s, mover, j + 1, side);
    }
}

/// With every unit on one side a walk kills nobody.
proof fn lemma_walk_one_side(s: BattleView, unit: UnitId, path: Seq<GridPos>, i: int, side: Side)
    requires
        s.has(unit),
        s.unit(unit).alive,
        forall|k: int| 0 <= k < s.units.len() ==> (#[trigger] s.units[k]).side == side,
    ensures
        walk_from(s, unit, path, i).0.units.len() == s.units.len(),
        forall|k: int|
            0 <= k < s.units.len() ==> (#[trigger] walk_from(s, unit, path, i).0.units[k]).alive
                == s.units[k].alive && walk_from(s, unit, path, i).0.units[k].side == side,
    decreases path.len() - i,
{
    if 0 <= i < path.len() {
        let u = s.unit(unit);
        let cell = path[i];
        let s1 = s.with_units(
            s.units.update(
                unit.0 as int,
                Unit { pos: cell, ap: (u.ap - tuning::MOVE_COST) as i32, ..u },
            ),
        );
        assert forall|k: int| 0 <= k < s1.units.len() implies (#[trigger] s1.units[k]).side == side by {
            assert(s.units[k].side == side);
        }
        lemma_react_one_side(s1, unit, 0, side);
        lemma_walk_one_side(s1, unit, path, i + 1, side);
    }
}


/// Every shot among `ev`, ordinary or reaction, did no damage when it missed, and on a hit
/// did damage within its shooter's weapon's range (weapons as in `units`).
pub open spec fn damage_in_bounds(units: Seq<Unit>, ev: Seq<BattleEvent>) -> bool {
    forall|i: int|
        0 <= i < ev.len() ==> match #[trigger] ev[i] {
            BattleEvent::Shot { shooter, hit, damage, .. } => shot_damage_ok(units, shooter, hit, damage),
            BattleEvent::ReactionShot { shooter, hit, damage, .. } => shot_damage_ok(
                units,
                shooter,
                hit,
                damage,
            ),
            _ => true,
        }
}

/// The shooter is one of `units`; no damage on a miss; on a hit, damage within the
/// shooter's weapon's range.
pub open spec fn shot_damage_ok(units: Seq<Unit>, shooter: UnitId, hit: bool, damage: i32) -> bool {
    let w = units[shooter.0 as int].weapon;
    &&& shooter.0 < units.len()
    &&& if hit {
        w.damage_min <= damage <= w.damage_max
    } else {
        damage == 0
    }
}

/// Units with the same weapons bound shot damage alike.
pub proof fn lemma_damage_bounds_weapons(u1: Seq<Unit>, u2: Seq<Unit>, ev: Seq<BattleEvent>)
    requires
        u1.len() == u2.len(),
        forall|i: int| 0 <= i < u1.len() ==> (#[trigger] u1[i]).weapon == u2[i].weapon,
        damage_in_bounds(u1, ev),
    ensures
        damage_in_bounds(u2, ev),
{
    assert forall|i: int| 0 <= i < ev.len() implies (match #[trigger] ev[i] {
        BattleEvent::Shot { shooter, hit, damage, .. } => shot_damage_ok(u2, shooter, hit, damage),
        BattleEvent::ReactionShot { shooter, hit, damage, .. } => shot_damage_ok(u2, shooter, hit, damage),
        _ => true,
    }) by {
        match ev[i] {
            BattleEvent::Shot { shooter, .. } => {
                assert(u1[shooter.0 as int].weapon == u2[shooter.0 as int].weapon);
            },
            BattleEvent::ReactionShot { shooter, .. } => {
                assert(u1[shooter.0 as int].weapon == u2[shooter.0 as int].weapon);
            },
            _ => {},
        }
    }
}


/// What a unit adds to its side's AP: its AP when positive and of that side, else nothing.
pub open spec fn ap_share(u: Unit, side: Side) -> int {
    if u.side == side && u.ap > 0 {
        u.ap as int
    } else {
        0
    }
}

/// The AP a side still holds: the sum of its units' positive AP.
pub open spec fn side_ap(units: Seq<Unit>, side: Side) -> int
    decreases units.len(),
{
    if units.len() == 0 {
        0
    } else {
        side_ap(units.drop_last(), side) + ap_share(units.last(), side)
    }
}

/// A side's AP is never negative.
pub proof fn lemma_side_ap_nonneg(units: Seq<Unit>, side: Side)
    ensures
        side_ap(units, side) >= 0,
    decreases units.len(),
{
    if units.len() > 0 {
        lemma_side_ap_nonneg(units.drop_last(), side);
    }
}

proof fn lemma_side_ap_same(u1: Seq<Unit>, u2: Seq<Unit>, side: Side)
    requires
        u1.len() == u2.len(),
        forall|j: int| 0 <= j < u1.len() ==> ap_share(#[trigger] u2[j], side) == ap_share(u1[j], side),
    ensures
        side_ap(u2, side) == side_ap(u1, side),
    decreases u1.len(),
{
    if u1.len() > 0 {
        let (d1, d2) = (u1.drop_last(), u2.drop_last());
        assert forall|j: int| 0 <= j < d1.len() implies ap_share(#[trigger] d2[j], side) == ap_share(d1[j], side) by {
            assert(d1[j] == u1[j] && d2[j] == u2[j]);
        }
        lemma_side_ap_same(d1, d2, side);
        assert(ap_share(u2[u2.len() - 1], side) == ap_share(u1[u1.len() - 1], side));
    }
}

proof fn lemma_side_ap_less(u1: Seq<Unit>, u2: Seq<Unit>, side: Side, k: int)
    requires
        u1.len() == u2.len(),
        0 <= k < u1.len(),
        forall|j: int|
            0 <= j < u1.len() && j != k ==> ap_share(#[trigger] u2[j], side) == ap_share(u1[j], side),
        ap_share(u2[k], side) < ap_share(u1[k], side),
    ensures
        side_ap(u2, side) < side_ap(u1, side),
    decreases u1.len(),
{
    let n = u1.len() - 1;
    let (d1, d2) = (u1.drop_last(), u2.drop_last());
    if k == n {
        assert forall|j: int| 0 <= j < d1.len() implies ap_share(#[trigger] d2[j], side) == ap_share(d1[j], side) by {
            assert(d1[j] == u1[j] && d2[j] == u2[j]);
        }
        lemma_side_ap_same(d1, d2, side);
    } else {
        assert forall|j: int| 0 <= j < d1.len() && j != k implies ap_share(#[trigger] d2[j], side) == ap_share(d1[j], side) by {
            assert(d1[j] == u1[j] && d2[j] == u2[j]);
        }
        assert(d1[k] == u1[k] && d2[k] == u2[k]);
        lemma_side_ap_less(d1, d2, side, k);
        assert(ap_share(u2[n], side) == ap_share(u1[n], side));
    }
}

/// The unit an action moves or shoots with; none for ending the turn.
pub open spec fn actor(a: Action) -> Option<UnitId> {
    match a {
        Action::Move { unit, .. } => Some(unit),
        Action::Shoot { unit, .. } => Some(unit),
        Action::EndTurn => None,
    }
}

/// Progress: an accepted move or shot spends AP. The acting unit ends with less AP than
/// it had (a shot needs a weapon that costs AP), the other units of its side are untouched,
/// the turn stays, and so the AP the side to move holds, a natural number, falls. A side
/// that only moves and shoots therefore runs out of actions.
pub proof fn law_action_spends_ap(s: BattleView, a: Action)
    requires
        s.wf(),
        a matches Action::Shoot { unit, .. } ==> s.unit(unit).weapon.ap_cost > 0,
    ensures
        side_ap(s.units, s.turn) >= 0,
        apply_result(s, a) matches Ok((s2, ev)) ==> actor(a) matches Some(u) ==> {
            &&& s2.unit(u).ap < s.unit(u).ap
            &&& s2.turn == s.turn
            &&& s2.units.len() == s.units.len()
            &&& forall|m: int|
                0 <= m < s.units.len() && m != u.0 && s.units[m].side == s.turn ==> #[trigger] s2.units[m]
                    == s.units[m]
            &&& side_ap(s2.units, s.turn) < side_ap(s.units, s.turn)
        },
{
    lemma_side_ap_nonneg(s.units, s.turn);
    if apply_result(s, a) is Ok && actor(a) is Some {
        law_action_keeps(s, a);
        let (s2, ev) = apply_result(s, a)->Ok_0;
        let u = actor(a)->0;
        match a {
            Action::Shoot { unit, target } => {
                law_shot(s, unit, target);
                lemma_shot(s, unit, target, false);
                let r = shot_result(s, unit, target, false);
                lemma_then_settle(s, r);
            },
            Action::Move { unit, path } => {
                law_move(s, unit, path);
                let k = choose|k: int| #[trigger] walked_to(s, s2, ev, unit, path@, 0, k);
                lemma_walk(s, unit, path@, 0);
                lemma_then_settle(s, walk_from(s, unit, path@, 0));
            },
            Action::EndTurn => {},
        }
        assert(s.units[u.0 as int].side == s.turn);
        assert(unit_kept(s.units[u.0 as int], s2.units[u.0 as int]));
        assert forall|j: int| 0 <= j < s.units.len() && j != u.0 implies ap_share(#[trigger] s2.units[j], s.turn)
            == ap_share(s.units[j], s.turn) by {
            assert(unit_kept(s.units[j], s2.units[j]));
        }
        lemma_side_ap_less(s.units, s2.units, s.turn, u.0 as int);
    }
}


/// Plays `actions` in order from `s`: an accepted action moves the state on and gives its
/// events, a refused one leaves the state and gives its error. The final state and the
/// results, in order.
pub open spec fn replay(s: BattleView, actions: Seq<Action>) -> (
    BattleView,
    Seq<Result<Seq<BattleEvent>, ActionError>>,
)
    decreases actions.len(),
{
    if actions.len() == 0 {
        (s, seq![])
    } else {
        let (s1, r) = match apply_result(s, actions[0]) {
            Ok((s1, ev)) => (s1, Ok(ev)),
            Err(e) => (s, Err(e)),
        };
        let (s2, rs) = replay(s1, actions.drop_first());
        (s2, seq![r] + rs)
    }
}

/// Replay: two battles in the same state (grid, units, turn, outcome, and the generator's
/// seed and draw count) given the same actions give the same results, one by one, and end
/// in the same state; `Battle::new` and `Battle::apply` compute exactly this.
pub proof fn law_replay(s: BattleView, t: BattleView, actions: Seq<Action>)
    requires
        s == t,
    ensures
        replay(s, actions) == replay(t, actions),
        replay(s, actions).1.len() == actions.len(),
    decreases actions.len(),
{
    if actions.len() > 0 {
        let s1 = match apply_result(s, actions[0]) {
            Ok((s1, ev)) => s1,
            Err(e) => s,
        };
        law_replay(s1, s1, actions.drop_first());
    }
}


/// Refusals: once the battle is over every action is refused with `BattleOver`; otherwise
/// ending the turn is refused exactly off the player's turn, a shot exactly with the first
/// failing check of `shot_check` (shooter, target, turn, sides, AP, range, sight, in that
/// order), and a move exactly with the first failing check of `move_check` (unit, turn,
/// empty path, AP, then cell by cell: walkable, one king step without cutting a corner,
/// unoccupied). A refused action changes nothing (`Battle::apply`).
pub proof fn law_refusals(s: BattleView, a: Action)
    ensures
        s.outcome is Some ==> apply_result(s, a) == Err::<(BattleView, Seq<BattleEvent>), ActionError>(
            ActionError::BattleOver,
        ),
        s.outcome is None ==> match a {
            Action::EndTurn => (apply_result(s, a) is Err) == (s.turn != Side::Player),
            Action::Shoot { unit, target } => match shot_check(s, unit, target, false) {
                Err(e) => apply_result(s, a) == Err::<(BattleView, Seq<BattleEvent>), ActionError>(e),
                Ok(_) => apply_result(s, a) is Ok,
            },
            Action::Move { unit, path } => match crate::battle::model::move_check(s, unit, path@) {
                Err(e) => apply_result(s, a) == Err::<(BattleView, Seq<BattleEvent>), ActionError>(e),
                Ok(_) => apply_result(s, a) is Ok,
            },
        },
{
}


/// The chance a shot is rolled on, ordinary or reaction, is the hit chance the battle
/// reports for the pair (`Battle::hit_chance`): the rules' chance at the Chebyshev
/// distance (the larger of the two coordinate differences), with the shooter's weapon
/// range and the target's cover against the shooter.
pub proof fn law_shot_chance(s: BattleView, shooter: UnitId, target: UnitId, reaction: bool)
    requires
        shot_check(s, shooter, target, reaction) is Ok,
    ensures
        ({
            let a = s.unit(shooter).pos;
            let b = s.unit(target).pos;
            let dx = crate::grid::abs(a.x - b.x);
            let dy = crate::grid::abs(a.y - b.y);
            &&& shot_chance(s, shooter, target) == crate::rules::chance_of_hit(
                if dx >= dy {
                    dx
                } else {
                    dy
                },
                s.unit(shooter).weapon.range as int,
                crate::grid::covered(s.grid, b, a),
            )
            &&& crate::battle::model::hit_chance_result(s, shooter, target) == Some(
                shot_chance(s, shooter, target),
            )
        }),
{
}


/// `r` may fire a reaction shot at `mover` where they stand: both alive, on different
/// sides, `r` has the AP for a shot, and `mover` is within its weapon's range and in sight.
pub open spec fn may_react(s: BattleView, r: UnitId, mover: UnitId) -> bool {
    &&& s.has(r)
    &&& s.has(mover)
    &&& s.unit(r).alive
    &&& s.unit(mover).alive
    &&& s.unit(r).side != s.unit(mover).side
    &&& s.unit(r).ap >= s.unit(r).weapon.ap_cost
    &&& crate::grid::chebyshev(s.unit(r).pos, s.unit(mover).pos) <= s.unit(r).weapon.range
    &&& crate::grid::sight(s.grid, s.unit(r).pos, s.unit(mover).pos)
}

proof fn lemma_react_complete(s: BattleView, mover: UnitId, j: int)
    requires
        s.has(mover),
        s.units.len() <= u32::MAX,
        0 <= j,
    ensures
        ({
            let (s2, ev) = react_from(s, mover, j);
            &&& forall|n: int|
                0 <= n < ev.len() && #[trigger] ev[n] is ReactionShot ==> j <= reaction_shooter(ev[n])
                    && may_react(s, UnitId(reaction_shooter(ev[n]) as u32), mover)
            &&& forall|r: UnitId|
                j <= r.0 && #[trigger] may_react(s, r, mover) && s2.unit(mover).alive ==> {
                    &&& exists|n: int| 0 <= n < ev.len() && #[trigger] reaction_shooter(ev[n]) == r.0
                    &&& s2.unit(r).ap == (s.unit(r).ap - s.unit(r).weapon.ap_cost) as i32
                }
            &&& forall|k: int| 0 <= k < j && k < s.units.len() && k != mover.0 ==> #[trigger] s2.units[k] == s.units[k]
        }),
    decreases s.units.len() - j,
{
    if j < 0 || j >= s.units.len() || !s.unit(mover).alive {
    } else {
        let reactor = UnitId(j as u32);
        assert(reactor.0 == j);
        if shot_check(s, reactor, mover, true) is Ok {
            let (s1, e1) = shot_result(s, reactor, mover, true);
            lemma_shot(s, reactor, mover, true);
            lemma_react(s1, mover, j + 1);
            lemma_react_complete(s1, mover, j + 1);
            let (s2, e2) = react_from(s1, mover, j + 1);
            let ev = e1 + e2;
            assert(react_from(s, mover, j) == (s2, ev));
            assert(e1[0] is ReactionShot && reaction_shooter(e1[0]) == j);
            assert(may_react(s, reactor, mover));
            assert forall|n: int|
                0 <= n < ev.len() && #[trigger] ev[n] is ReactionShot implies j <= reaction_shooter(ev[n])
                    && may_react(s, UnitId(reaction_shooter(ev[n]) as u32), mover) by {
                if n < e1.len() {
                    assert(ev[n] == e1[n]);
                    assert(n == 0);
                } else {
                    assert(ev[n] == e2[n - e1.len()]);
                    let r = UnitId(reaction_shooter(ev[n]) as u32);
                    assert(may_react(s1, r, mover));
                    assert(r.0 != j);
                    assert(s1.units[r.0 as int] == s.units[r.0 as int]);
                }
            }
            assert forall|r: UnitId|
                j <= r.0 && #[trigger] may_react(s, r, mover) && s2.unit(mover).alive implies {
                    &&& exists|n: int| 0 <= n < ev.len() && #[trigger] reaction_shooter(ev[n]) == r.0
                    &&& s2.unit(r).ap == (s.unit(r).ap - s.unit(r).weapon.ap_cost) as i32
                } by {
                assert(unit_kept(s1.units[mover.0 as int], s2.units[mover.0 as int]));
                if r.0 == j {
                    assert(r == reactor);
                    assert(ev[0] == e1[0]);
                    assert(s2.units[j] == s1.units[j]);
                } else {
                    assert(s1.units[r.0 as int] == s.units[r.0 as int]);
                    assert(may_react(s1, r, mover));
                    let n = choose|n: int| 0 <= n < e2.len() && #[trigger] reaction_shooter(e2[n]) == r.0;
                    assert(ev[n + e1.len()] == e2[n]);
                }
            }
            assert forall|k: int| 0 <= k < j && k < s.units.len() && k != mover.0 implies #[trigger] s2.units[k]
                == s.units[k] by {
                assert(s1.units[k] == s.units[k]);
                assert(s2.units[k] == s1.units[k]);
            }
        } else {
            lemma_react_complete(s, mover, j + 1);
            assert(!may_react(s, reactor, mover));
        }
    }
}

/// Reaction fire is complete: after a step, every unit that may fire a reaction shot at
/// the mover where they stand does fire exactly one, paying its weapon's AP cost, unless
/// reaction fire kills the mover first; and only such units fire.
pub proof fn law_reaction_fire_complete(s: BattleView, mover: UnitId)
    requires
        s.wf(),
        s.has(mover),
    ensures
        ({
            let (s2, ev) = react_from(s, mover, 0);
            &&& forall|n: int|
                0 <= n < ev.len() && #[trigger] ev[n] is ReactionShot ==> may_react(
                    s,
                    UnitId(reaction_shooter(ev[n]) as u32),
                    mover,
                )
            &&& forall|r: UnitId|
                #[trigger] may_react(s, r, mover) && s2.unit(mover).alive ==> {
                    &&& exists|n: int| 0 <= n < ev.len() && #[trigger] reaction_shooter(ev[n]) == r.0
                    &&& s2.unit(r).ap == s.unit(r).ap - s.unit(r).weapon.ap_cost
                }
            &&& reaction_events(ev, mover, s.units, 0)
        }),
{
    lemma_react_complete(s, mover, 0);
    lemma_react_events(s, mover, 0);
    let (s2, ev) = react_from(s, mover, 0);
    assert forall|r: UnitId| #[trigger] may_react(s, r, mover) && s2.unit(mover).alive implies {
        &&& exists|n: int| 0 <= n < ev.len() && #[trigger] reaction_shooter(ev[n]) == r.0
        &&& s2.unit(r).ap == s.unit(r).ap - s.unit(r).weapon.ap_cost
    } by {
        assert(crate::battle::model::unit_ok(s.units[r.0 as int]));
    }
}

} // verus!
