//! Turns a Tiled map into the grid and the unit spawn list.
//!
//! The map arrives as plain data (`MapData`): for every tile layer, in the map's layer
//! order, the properties of the tile on each cell; and every spawn object's cell and
//! `faction` property. Reading the `.tmx` file is the caller's part.

use vstd::prelude::*;
use vstd::string::StrSliceExecFns;

use crate::battle::model::{units_ok, BattleView, POS_LIMIT};
use crate::battle::{new_unit, Battle, Side, Unit, UnitId};
use crate::grid::{
    abs, floor_cell, lemma_all_floor, lemma_with_cell, parsed_cover, Cell, CoverSides, Grid, GridPos,
    GridView, MAX_CELLS, MAX_SIDE,
};

verus! {

/// The properties a tile carries, each present only when the map gives it with the right type.
pub struct TileProps {
    pub walkable: Option<bool>,
    pub blocks_sight: Option<bool>,
    pub cover: Option<String>,
}

/// One tile layer: for each cell, row by row from the TOP row (Tiled's y = 0), the tile's
/// properties, or `None` where the layer has no tile with tileset data.
pub struct TileLayer {
    pub tiles: Vec<Option<TileProps>>,
}

/// A point object of an object layer: the cell it lies in (column, and row counted from
/// the top) and its `faction` property when that is a string.
pub struct SpawnPoint {
    pub column: i32,
    pub row: i32,
    pub faction: Option<String>,
}

/// The parts of a Tiled map the battle reads.
pub struct MapData {
    pub width: u32,
    pub height: u32,
    /// Tile layers in the map's order.
    pub layers: Vec<TileLayer>,
    /// Objects of the object layers, in the map's order.
    pub spawns: Vec<SpawnPoint>,
}

/// The tile of `layer` at column `x` of Tiled row `ty`, if any.
pub open spec fn tile_at(layer: TileLayer, width: int, x: int, ty: int) -> Option<TileProps> {
    let i = ty * width + x;
    if 0 <= i < layer.tiles@.len() {
        layer.tiles@[i]
    } else {
        None
    }
}

/// A cell as a tile's properties leave it: each present property replaces the old value.
pub open spec fn apply_props(c: Cell, t: TileProps) -> Cell {
    Cell {
        walkable: match t.walkable {
            Some(b) => b,
            None => c.walkable,
        },
        blocks_sight: match t.blocks_sight {
            Some(b) => b,
            None => c.blocks_sight,
        },
        cover: match t.cover {
            Some(s) => parsed_cover(s@),
            None => c.cover,
        },
    }
}

/// The cell at column `x`, Tiled row `ty` after the first `k` layers: floor, then each
/// layer's tile, later layers over earlier ones.
pub open spec fn layered_cell(layers: Seq<TileLayer>, width: int, k: int, x: int, ty: int) -> Cell
    decreases k,
{
    if k <= 0 {
        floor_cell()
    } else {
        let below = layered_cell(layers, width, k - 1, x, ty);
        match tile_at(layers[k - 1], width, x, ty) {
            Some(t) => apply_props(below, t),
            None => below,
        }
    }
}

/// The map's size fits a grid.
pub open spec fn map_fits(m: MapData) -> bool {
    &&& m.width <= MAX_SIDE
    &&& m.height <= MAX_SIDE
    &&& m.width * m.height <= MAX_CELLS
}

/// The grid a map describes: its size, and at each cell (grid y counted from the bottom)
/// the cell its tile layers build.
pub open spec fn map_grid(m: MapData, g: GridView) -> bool {
    &&& g.width == m.width
    &&& g.height == m.height
    &&& forall|p: GridPos|
        g.in_bounds(p) ==> g.cell(p) == Some(
            layered_cell(m.layers@, m.width as int, m.layers@.len() as int, p.x as int, m.height - 1 - p.y),
        )
}

/// `a` and `b` hold the same text.
pub fn same_text(a: &str, b: &str) -> (r: bool)
    ensures
        r == (a@ == b@),
{
    let n = a.unicode_len();
    if n != b.unicode_len() {
        return false;
    }
    let mut i: usize = 0;
    while i < n
        invariant
            n == a@.len(),
            n == b@.len(),
            i <= n,
            forall|k: int| 0 <= k < i ==> a@[k] == b@[k],
        decreases n - i,
    {
        if a.get_char(i) != b.get_char(i) {
            return false;
        }
        i = i + 1;
    }
    proof {
        assert(a@ =~= b@);
    }
    true
}

fn apply_props_exec(c: Cell, t: &TileProps) -> (r: Cell)
    ensures
        r == apply_props(c, *t),
{
    let mut r = c;
    if let Some(b) = t.walkable {
        r.walkable = b;
    }
    if let Some(b) = t.blocks_sight {
        r.blocks_sight = b;
    }
    if let Some(s) = &t.cover {
        r.cover = CoverSides::parse(s.as_str());
    }
    r
}

/// Builds the walkability/sight/cover grid from every tile layer's tile properties.
/// Later layers override earlier ones for the same cell (walls layer sits above ground).
pub fn grid_from_tiled(map: &MapData) -> (g: Grid)
    requires
        map_fits(*map),
    ensures
        g.wf(),
        map_grid(*map, g@),
{
    let w = map.width as i32;
    let h = map.height as i32;
    let mut grid = Grid::new(w, h);
    proof {
        assert forall|p: GridPos| grid@.in_bounds(p) implies grid@.cell(p) == Some(
            layered_cell(map.layers@, w as int, 0, p.x as int, h - 1 - p.y),
        ) by {
            lemma_all_floor(w, h, p);
        }
    }
    let mut k: usize = 0;
    while k < map.layers.len()
        invariant
            grid.wf(),
            w == map.width,
            h == map.height,
            grid@.width == w,
            grid@.height == h,
            map_fits(*map),
            k <= map.layers@.len(),
            forall|p: GridPos|
                grid@.in_bounds(p) ==> #[trigger] grid@.cell(p) == Some(
                    layered_cell(map.layers@, w as int, k as int, p.x as int, h - 1 - p.y),
                ),
        decreases map.layers.len() - k,
    {
        let layer = &map.layers[k];
        let mut ty: i32 = 0;
        while ty < h
            invariant
                grid.wf(),
                grid@.width == w,
                grid@.height == h,
                0 <= w <= MAX_SIDE,
                0 <= h <= MAX_SIDE,
                w * h <= MAX_CELLS,
                k < map.layers@.len(),
                *layer == map.layers@[k as int],
                0 <= ty <= h,
                forall|p: GridPos|
                    grid@.in_bounds(p) ==> #[trigger] grid@.cell(p) == Some(
                        layered_cell(
                            map.layers@,
                            w as int,
                            if h - 1 - p.y < ty { k + 1 } else { k as int },
                            p.x as int,
                            h - 1 - p.y,
                        ),
                    ),
            decreases h - ty,
        {
            let mut x: i32 = 0;
            while x < w
                invariant
                    grid.wf(),
                    grid@.width == w,
                    grid@.height == h,
                    0 <= w <= MAX_SIDE,
                    0 <= h <= MAX_SIDE,
                    w * h <= MAX_CELLS,
                    k < map.layers@.len(),
                    *layer == map.layers@[k as int],
                    0 <= ty < h,
                    0 <= x <= w,
                    forall|p: GridPos|
                        grid@.in_bounds(p) ==> #[trigger] grid@.cell(p) == Some(
                            layered_cell(
                                map.layers@,
                                w as int,
                                if h - 1 - p.y < ty || (h - 1 - p.y == ty && p.x < x) {
                                    k + 1
                                } else {
                                    k as int
                                },
                                p.x as int,
                                h - 1 - p.y,
                            ),
                        ),
                decreases w - x,
            {
                proof {
                    assert(0 <= ty * w + x < w * h) by (nonlinear_arith)
                        requires
                            0 <= x < w,
                            0 <= ty < h,
                    {
                        assert(ty * w + w <= h * w) by (nonlinear_arith)
                            requires ty < h, 0 <= w;
                        assert(h * w == w * h) by (nonlinear_arith);
                    }
                }
                let idx = (ty * w + x) as usize;
                let p = GridPos::new(x, h - 1 - ty);
                if idx < layer.tiles.len() {
                    match &layer.tiles[idx] {
                        Some(t) => {
                            let old = match grid.get(p) {
                                Some(c) => *c,
                                None => Cell::floor(),
                            };
                            let c = apply_props_exec(old, t);
                            let ghost g0 = grid@;
                            grid.set(p, c);
                            proof {
                                assert forall|q: GridPos| grid@.in_bounds(q) implies #[trigger] grid@.cell(q) == Some(
                                    layered_cell(
                                        map.layers@,
                                        w as int,
                                        if h - 1 - q.y < ty || (h - 1 - q.y == ty && q.x < x + 1) {
                                            k + 1
                                        } else {
                                            k as int
                                        },
                                        q.x as int,
                                        h - 1 - q.y,
                                    ),
                                ) by {
                                    lemma_with_cell(g0, p, c, q);
                                }
                            }
                        },
                        None => {},
                    }
                }
                x = x + 1;
            }
            ty = ty + 1;
        }
        k = k + 1;
    }
    grid
}

/// The units a map's spawn points place, in the map's order: objects whose `faction` is
/// `player` or `enemy`, at the cell they lie in (grid y counted from the bottom).
pub open spec fn map_spawns_from(m: MapData, i: int) -> Seq<(Side, GridPos)>
    decreases m.spawns@.len() - i,
{
    if i < 0 || i >= m.spawns@.len() {
        seq![]
    } else {
        let o = m.spawns@[i];
        let p = GridPos { x: o.column, y: (m.height - 1 - o.row) as i32 };
        let here = match o.faction {
            Some(f) => if f@ == "player"@ {
                seq![(Side::Player, p)]
            } else if f@ == "enemy"@ {
                seq![(Side::Enemy, p)]
            } else {
                seq![]
            },
            None => seq![],
        };
        here + map_spawns_from(m, i + 1)
    }
}

pub open spec fn map_spawns(m: MapData) -> Seq<(Side, GridPos)> {
    map_spawns_from(m, 0)
}

/// Every spawn point lies within `POS_LIMIT` of the origin, in grid coordinates.
pub open spec fn spawns_fit(m: MapData) -> bool {
    &&& m.height <= MAX_SIDE
    &&& m.spawns@.len() <= u32::MAX
    &&& forall|i: int|
        0 <= i < m.spawns@.len() ==> abs((#[trigger] m.spawns@[i]).column as int) <= POS_LIMIT && abs(
            m.height - 1 - m.spawns@[i].row,
        ) <= POS_LIMIT
}

proof fn lemma_map_spawns_from(m: MapData, i: int)
    requires
        0 <= i,
        spawns_fit(m),
    ensures
        map_spawns_from(m, i).len() <= m.spawns@.len() - i || i >= m.spawns@.len(),
        forall|k: int| 0 <= k < map_spawns_from(m, i).len() ==> {
            let p = (#[trigger] map_spawns_from(m, i)[k]).1;
            abs(p.x as int) <= POS_LIMIT && abs(p.y as int) <= POS_LIMIT
        },
    decreases m.spawns@.len() - i,
{
    if i < m.spawns@.len() {
        lemma_map_spawns_from(m, i + 1);
        let o = m.spawns@[i];
        let rest = map_spawns_from(m, i + 1);
        let all = map_spawns_from(m, i);
        assert(abs(o.column as int) <= POS_LIMIT);
        assert forall|k: int| 0 <= k < all.len() implies {
            let p = (#[trigger] all[k]).1;
            abs(p.x as int) <= POS_LIMIT && abs(p.y as int) <= POS_LIMIT
        } by {
            if k >= all.len() - rest.len() {
                assert(all[k] == rest[k - (all.len() - rest.len())]);
            }
        }
    }
}

/// Reads point objects with a `faction` property from every object layer.
pub fn spawns_from_tiled(map: &MapData) -> (out: Vec<(Side, GridPos)>)
    requires
        spawns_fit(*map),
    ensures
        out@ == map_spawns(*map),
{
    let h = map.height as i32;
    let mut out: Vec<(Side, GridPos)> = Vec::new();
    let mut i: usize = 0;
    while i < map.spawns.len()
        invariant
            spawns_fit(*map),
            h == map.height,
            i <= map.spawns@.len(),
            map_spawns(*map) == out@ + map_spawns_from(*map, i as int),
        decreases map.spawns.len() - i,
    {
        let o = &map.spawns[i];
        proof {
            assert(abs(map.height - 1 - map.spawns@[i as int].row) <= POS_LIMIT);
        }
        let p = GridPos::new(o.column, h - 1 - o.row);
        let ghost before = out@;
        match &o.faction {
            Some(f) => {
                if same_text(f.as_str(), "player") {
                    out.push((Side::Player, p));
                } else if same_text(f.as_str(), "enemy") {
                    out.push((Side::Enemy, p));
                }
            },
            None => {},
        }
        proof {
            let rest = map_spawns_from(*map, i + 1);
            assert(out@ + rest =~= before + map_spawns_from(*map, i as int));
        }
        i = i + 1;
    }
    proof {
        assert(out@ =~= out@ + map_spawns_from(*map, i as int));
    }
    out
}

impl Battle {
    /// Builds the battle from a Tiled map: tile properties give the grid, the spawn
    /// objects give the units, in the order the map lists them.
    pub fn from_tiled(map: &MapData, seed: u64) -> (b: Battle)
        requires
            map_fits(*map),
            spawns_fit(*map),
        ensures
            b.wf(),
            map_grid(*map, b@.grid),
            b@.units.len() == map_spawns(*map).len(),
            forall|i: int|
                0 <= i < b@.units.len() ==> #[trigger] b@.units[i] == new_unit(
                    UnitId(i as u32),
                    map_spawns(*map)[i].0,
                    map_spawns(*map)[i].1,
                ),
            b@.turn == Side::Player,
            b@.turn_number == 1,
            b@.rng == (seed, 0nat),
            b@.outcome is None,
    {
        let grid = grid_from_tiled(map);
        let spawns = spawns_from_tiled(map);
        proof {
            lemma_map_spawns_from(*map, 0);
        }
        let mut units: Vec<Unit> = Vec::new();
        let mut i: usize = 0;
        while i < spawns.len()
            invariant
                spawns@ == map_spawns(*map),
                spawns@.len() <= u32::MAX,
                i <= spawns@.len(),
                units@.len() == i,
                forall|k: int| 0 <= k < spawns@.len() ==> {
                    let p = (#[trigger] spawns@[k]).1;
                    abs(p.x as int) <= POS_LIMIT && abs(p.y as int) <= POS_LIMIT
                },
                forall|k: int|
                    0 <= k < i ==> #[trigger] units@[k] == new_unit(UnitId(k as u32), spawns@[k].0, spawns@[k].1),
            decreases spawns.len() - i,
        {
            let (side, p) = spawns[i];
            units.push(Unit::new(UnitId(i as u32), side, p));
            i = i + 1;
        }
        proof {
            assert forall|k: int| 0 <= k < units@.len() implies crate::battle::model::unit_ok(#[trigger] units@[k]) && units@[k].id.0 == k by {
                assert(units@[k] == new_unit(UnitId(k as u32), spawns@[k].0, spawns@[k].1));
            }
        }
        Battle::new(grid, units, seed)
    }
}

} // verus!
