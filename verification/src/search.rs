//! Shortest walks over the grid, found by the `pathfinding` crate's A* and Dijkstra.
//! The step rule is the library's own; the searches are called, not rebuilt.

use vstd::prelude::*;

use crate::battle::Unit;
use crate::grid::{
    chebyshev, distance_fits, grid_step, inner_pos, lemma_neighbour_list, neighbour_list, Grid,
    GridPos, GridView, MAX_SIDE,
};

verus! {

/// A living unit stands on `p`.
pub open spec fn living_at(units: Seq<Unit>, p: GridPos) -> bool {
    exists|i: int| 0 <= i < units.len() && #[trigger] units[i].alive && units[i].pos == p
}

/// One step of a walk from `a` to `b` and its cost. Over terrain alone (`avoid_units` false)
/// it is a legal king move costing 10 or 14. Among units it is a legal king move onto a cell
/// no living unit stands on, costing 1.
pub open spec fn path_step(
    g: GridView,
    units: Seq<Unit>,
    avoid_units: bool,
    a: GridPos,
    b: GridPos,
) -> Option<u32> {
    match grid_step(g, a, b) {
        None => None,
        Some(c) => if !avoid_units {
            Some(c)
        } else if living_at(units, b) {
            None
        } else {
            Some(1u32)
        },
    }
}

/// `s` is a walk: at least one cell, each next cell one legal step from the previous.
pub open spec fn is_walk(g: GridView, units: Seq<Unit>, avoid_units: bool, s: Seq<GridPos>) -> bool {
    &&& s.len() >= 1
    &&& forall|i: int|
        0 <= i < s.len() - 1 ==> #[trigger] path_step(g, units, avoid_units, s[i], s[i + 1]) is Some
}

/// The summed step costs of a walk.
pub open spec fn walk_cost(g: GridView, units: Seq<Unit>, avoid_units: bool, s: Seq<GridPos>) -> int
    decreases s.len(),
{
    if s.len() <= 1 {
        0
    } else {
        let here: int = match path_step(g, units, avoid_units, s[0], s[1]) {
            Some(c) => c as int,
            None => 0,
        };
        here + walk_cost(g, units, avoid_units, s.drop_first())
    }
}

/// `s` is a walk from `from` to `to`.
pub open spec fn walk_between(
    g: GridView,
    units: Seq<Unit>,
    avoid_units: bool,
    s: Seq<GridPos>,
    from: GridPos,
    to: GridPos,
) -> bool {
    &&& is_walk(g, units, avoid_units, s)
    &&& s[0] == from
    &&& s.last() == to
}

/// Some walk leads from `from` to `to`.
pub open spec fn connected(
    g: GridView,
    units: Seq<Unit>,
    avoid_units: bool,
    from: GridPos,
    to: GridPos,
) -> bool {
    exists|s: Seq<GridPos>| #[trigger] walk_between(g, units, avoid_units, s, from, to)
}

/// `k` is the least cost of a walk from `from` to `to`.
pub open spec fn least_cost(
    g: GridView,
    units: Seq<Unit>,
    avoid_units: bool,
    from: GridPos,
    to: GridPos,
    k: int,
) -> bool {
    &&& exists|s: Seq<GridPos>|
        #[trigger] walk_between(g, units, avoid_units, s, from, to) && walk_cost(
            g,
            units,
            avoid_units,
            s,
        ) == k
    &&& forall|s: Seq<GridPos>|
        #[trigger] walk_between(g, units, avoid_units, s, from, to) ==> walk_cost(
            g,
            units,
            avoid_units,
            s,
        ) >= k
}

/// The least cost of walks between two cells is unique, and a least cost means the cells
/// are connected.
pub proof fn lemma_least_cost_unique(
    g: GridView,
    units: Seq<Unit>,
    avoid_units: bool,
    from: GridPos,
    to: GridPos,
    k1: int,
    k2: int,
)
    requires
        least_cost(g, units, avoid_units, from, to, k1),
        least_cost(g, units, avoid_units, from, to, k2),
    ensures
        k1 == k2,
        connected(g, units, avoid_units, from, to),
{
    let s1 = choose|s: Seq<GridPos>|
        #[trigger] walk_between(g, units, avoid_units, s, from, to) && walk_cost(
            g,
            units,
            avoid_units,
            s,
        ) == k1;
    let s2 = choose|s: Seq<GridPos>|
        #[trigger] walk_between(g, units, avoid_units, s, from, to) && walk_cost(
            g,
            units,
            avoid_units,
            s,
        ) == k2;
}

/// Among units every step costs 1, so a walk costs one less than its length.
pub proof fn lemma_walk_cost_len(g: GridView, units: Seq<Unit>, s: Seq<GridPos>)
    requires
        is_walk(g, units, true, s),
    ensures
        walk_cost(g, units, true, s) == s.len() - 1,
    decreases s.len(),
{
    if s.len() > 1 {
        let z: int = 0;
        assert(path_step(g, units, true, s[z], s[z + 1]) is Some);
        let t = s.drop_first();
        assert forall|i: int| 0 <= i < t.len() - 1 implies #[trigger] path_step(g, units, true, t[i], t[i + 1]) is Some by {
            assert(t[i] == s[i + 1] && t[i + 1] == s[i + 2]);
        }
        lemma_walk_cost_len(g, units, t);
    }
}

/// `s` is a cheapest walk from `from` to `to`.
pub open spec fn shortest_walk(
    g: GridView,
    units: Seq<Unit>,
    avoid_units: bool,
    s: Seq<GridPos>,
    from: GridPos,
    to: GridPos,
) -> bool {
    &&& walk_between(g, units, avoid_units, s, from, to)
    &&& least_cost(g, units, avoid_units, from, to, walk_cost(g, units, avoid_units, s))
}

/// The successors of `p` under the step rule, as pairs of cell and step cost.
pub open spec fn successor_list(g: GridView, units: Seq<Unit>, avoid_units: bool, p: GridPos) -> Seq<
    (GridPos, u32),
> {
    if avoid_units {
        neighbour_list(g, p).filter(|e: (GridPos, u32)| !living_at(units, e.0)).map_values(
            |e: (GridPos, u32)| (e.0, 1u32),
        )
    } else {
        neighbour_list(g, p)
    }
}

/// The walk that the `pathfinding` crate's A* search returns from `from` to `to` under the
/// step rule (with the library's successor order and an admissible Chebyshev heuristic),
/// start included, with its cost.
pub uninterp spec fn astar_outcome(
    g: GridView,
    units: Seq<Unit>,
    avoid_units: bool,
    from: GridPos,
    to: GridPos,
) -> Option<(Seq<GridPos>, u32)>;

/// True when a living unit stands on `p`.
pub fn living_unit_at(units: &Vec<Unit>, p: GridPos) -> (r: bool)
    ensures
        r == living_at(units@, p),
{
    let mut i: usize = 0;
    while i < units.len()
        invariant
            i <= units@.len(),
            forall|j: int| 0 <= j < i ==> !(#[trigger] units@[j].alive && units@[j].pos == p),
        decreases units.len() - i,
    {
        if units[i].alive && units[i].pos == p {
            return true;
        }
        i = i + 1;
    }
    false
}

/// The successors of `p` under the step rule. Over terrain these are the grid's
/// neighbours; among units, the neighbours no living unit stands on, each at cost 1.
pub fn successors(grid: &Grid, units: &Vec<Unit>, avoid_units: bool, p: GridPos) -> (out: Vec<
    (GridPos, u32),
>)
    requires
        grid.wf(),
        inner_pos(p),
    ensures
        out@ == successor_list(grid@, units@, avoid_units, p),
        forall|n: GridPos, c: u32|
            out@.contains((n, c)) <==> path_step(grid@, units@, avoid_units, p, n) == Some(c),
{
    let all = grid.neighbours(p);
    proof {
        lemma_neighbour_list(grid@, p);
    }
    if !avoid_units {
        return all;
    }
    let ghost full = neighbour_list(grid@, p);
    let ghost keep = |e: (GridPos, u32)| !living_at(units@, e.0);
    let mut out: Vec<(GridPos, u32)> = Vec::new();
    let mut i: usize = 0;
    while i < all.len()
        invariant
            all@ == full,
            full == neighbour_list(grid@, p),
            keep == (|e: (GridPos, u32)| !living_at(units@, e.0)),
            i <= all@.len(),
            out@ == full.take(i as int).filter(keep).map_values(|e: (GridPos, u32)| (e.0, 1u32)),
        decreases all.len() - i,
    {
        let (n, _c) = all[i];
        proof {
            reveal_with_fuel(Seq::filter, 1);
            assert(full.take(i + 1).drop_last() =~= full.take(i as int));
        }
        if !living_unit_at(units, n) {
            out.push((n, 1));
        }
        proof {
            assert(out@ =~= full.take(i + 1).filter(keep).map_values(
                |e: (GridPos, u32)| (e.0, 1u32),
            ));
        }
        i = i + 1;
    }
    proof {
        assert(full.take(all@.len() as int) =~= full);
        let res = full.filter(keep).map_values(|e: (GridPos, u32)| (e.0, 1u32));
        assert forall|n: GridPos, c: u32|
            res.contains((n, c)) <==> path_step(grid@, units@, true, p, n) == Some(c) by {
            if res.contains((n, c)) {
                let k = choose|k: int| 0 <= k < res.len() && res[k] == (n, c);
                let e = full.filter(keep)[k];
                full.lemma_filter_pred(keep, k);
                assert(full.filter(keep).contains(e));
                full.lemma_filter_contains_rev(keep, e);
                assert(full.contains(e));
                assert(e == (e.0, e.1));
                assert(full.contains((e.0, e.1)));
                assert(grid_step(grid@, p, e.0) == Some(e.1));
                assert(!living_at(units@, e.0));
                assert(res[k] == (e.0, 1u32));
                assert(n == e.0 && c == 1);
            }
            if path_step(grid@, units@, true, p, n) == Some(c) {
                let c0 = grid_step(grid@, p, n)->0;
                assert(full.contains((n, c0)));
                let i = choose|i: int| 0 <= i < full.len() && full[i] == (n, c0);
                full.lemma_filter_contains(keep, i);
                let k = choose|k: int|
                    0 <= k < full.filter(keep).len() && full.filter(keep)[k] == (n, c0);
                assert(res[k] == (n, 1u32));
            }
        }
    }
    out
}

/// The lower bound on the remaining cost from `p` to `to` that the A* search uses.
pub fn heuristic(avoid_units: bool, p: GridPos, to: GridPos) -> (h: u32)
    requires
        chebyshev(p, to) <= MAX_SIDE,
        distance_fits(p, to),
    ensures
        h == (if avoid_units { chebyshev(p, to) } else { 10 * chebyshev(p, to) }),
{
    let d = p.distance(to) as u32;
    if avoid_units {
        d
    } else {
        d * 10
    }
}

/// Whether `p` is the goal cell.
pub fn is_goal(p: GridPos, to: GridPos) -> (r: bool)
    ensures
        r == (p == to),
{
    p.x == to.x && p.y == to.y
}

/// The walk `astar_search` finds among units, from `from` to `to`, without its start cell,
/// together with its cost.
pub open spec fn units_walk(g: GridView, units: Seq<Unit>, from: GridPos, to: GridPos) -> Option<(Seq<GridPos>, u32)> {
    match astar_outcome(g, units, true, from, to) {
        Some((p, c)) => Some((p.drop_first(), c)),
        None => None,
    }
}

/// Calls `pathfinding::directed::astar::astar` from `from` with `successors` as the
/// successor function, `heuristic` as the estimate and `is_goal` as the goal test.
/// Claimed, as the crate documents it: the result is `None` exactly when no walk reaches
/// `to`, and otherwise a cheapest walk from `from` to `to` (start included) with its cost;
/// the heuristic never overestimates, which the crate requires for this.
/// The walk chosen among equally cheap ones is named, not stated: `astar_outcome`.
#[verifier::external_body]
pub(crate) fn astar_search(grid: &Grid, units: &Vec<Unit>, avoid_units: bool, from: GridPos, to: GridPos) -> (r:
    Option<(Vec<GridPos>, u32)>)
    requires
        grid.wf(),
        inner_pos(from),
        grid@.in_bounds(to),
    ensures
        r is None <==> astar_outcome(grid@, units@, avoid_units, from, to) is None,
        r is None <==> !connected(grid@, units@, avoid_units, from, to),
        r matches Some((p, c)) ==> {
            &&& astar_outcome(grid@, units@, avoid_units, from, to) == Some((p@, c))
            &&& shortest_walk(grid@, units@, avoid_units, p@, from, to)
            &&& c == walk_cost(grid@, units@, avoid_units, p@)
        },
{
    pathfinding::directed::astar::astar(
        &from,
        |p| successors(grid, units, avoid_units, *p),
        |p| heuristic(avoid_units, *p, to),
        |p| is_goal(*p, to),
    )
}

/// Calls `pathfinding::directed::dijkstra::dijkstra_all` from `from` with the among-units
/// `successors` and lists each reached cell with its cost.
/// Claimed, as the crate documents it: every cell reachable from `from` other than `from`
/// itself appears exactly once, with the least cost of a walk to it. The order of the list
/// comes from a `HashMap` walk and is left open.
#[verifier::external_body]
pub(crate) fn dijkstra_reach(grid: &Grid, units: &Vec<Unit>, from: GridPos) -> (r: Vec<(GridPos, u32)>)
    requires
        grid.wf(),
        inner_pos(from),
    ensures
        forall|i: int|
            0 <= i < r@.len() ==> #[trigger] r@[i].0 != from && least_cost(
                grid@,
                units@,
                true,
                from,
                r@[i].0,
                r@[i].1 as int,
            ),
        forall|p: GridPos|
            p != from && #[trigger] connected(grid@, units@, true, from, p) ==> exists|i: int|
                0 <= i < r@.len() && r@[i].0 == p,
        forall|i: int, j: int| 0 <= i < j < r@.len() ==> r@[i].0 != r@[j].0,
{
    pathfinding::directed::dijkstra::dijkstra_all(&from, |p| successors(grid, units, true, *p))
        .into_iter()
        .map(|(n, (_, c))| (n, c))
        .collect()
}


/// The path `Grid::find_path` returns: the A* walk over terrain without its start cell,
/// or `None` when the goal is not walkable or not reached.
pub open spec fn terrain_path(g: GridView, from: GridPos, to: GridPos) -> Option<Seq<GridPos>> {
    if !g.walkable(to) {
        None
    } else {
        match astar_outcome(g, Seq::empty(), false, from, to) {
            Some((p, _)) => Some(p.drop_first()),
            None => None,
        }
    }
}

impl Grid {
    /// A* path from `from` to `to`, excluding `from`, ending at `to`.
    pub fn find_path(&self, from: GridPos, to: GridPos) -> (r: Option<Vec<GridPos>>)
        requires
            self.wf(),
            inner_pos(from),
        ensures
            r is None <==> terrain_path(self@, from, to) is None,
            r matches Some(p) ==> terrain_path(self@, from, to) == Some(p@),
            r is None <==> !self@.walkable(to) || !connected(
                self@,
                Seq::empty(),
                false,
                from,
                to,
            ),
            r matches Some(p) ==> shortest_walk(
                self@,
                Seq::empty(),
                false,
                seq![from] + p@,
                from,
                to,
            ),
    {
        if !self.is_walkable(to) {
            return None;
        }
        let none: Vec<Unit> = Vec::new();
        match astar_search(self, &none, false, from, to) {
            None => None,
            Some((path, _cost)) => {
                let mut path = path;
                let ghost full = path@;
                path.remove(0);
                proof {
                    assert(full.drop_first() =~= path@);
                    assert(seq![from] + path@ =~= full);
                    assert(none@ =~= Seq::<Unit>::empty());
                }
                Some(path)
            },
        }
    }
}

} // verus!
