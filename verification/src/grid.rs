//! Grid model: cells, coordinates, line of sight, cover and the king-move step rule.
//! No presentation here, only data and functions.

use vstd::prelude::*;
use vstd::string::StrSliceExecFns;

verus! {

/// The largest width or height a grid may have.
pub const MAX_SIDE: i32 = 0x0400_0000;

/// The largest number of cells a grid may have. Path costs are summed in `u32`
/// (14 per diagonal step), which this bound keeps from overflowing.
pub const MAX_CELLS: i32 = 0x0400_0000;

/// A cell coordinate. Origin is the bottom-left cell; y grows upward.
#[derive(Clone, Copy, PartialEq, Eq, Hash, Debug, Structural)]
pub struct GridPos {
    pub x: i32,
    pub y: i32,
}

/// Absolute value of an integer.
pub open spec fn abs(v: int) -> int {
    if v < 0 {
        -v
    } else {
        v
    }
}

/// The larger of two integers.
pub open spec fn max(a: int, b: int) -> int {
    if a >= b {
        a
    } else {
        b
    }
}

/// Chebyshev (king-move) distance between two cells.
pub open spec fn chebyshev(a: GridPos, b: GridPos) -> int {
    max(abs(a.x - b.x), abs(a.y - b.y))
}

/// The coordinates of two cells differ by amounts an `i32` can hold.
pub open spec fn distance_fits(a: GridPos, b: GridPos) -> bool {
    &&& i32::MIN < a.x - b.x <= i32::MAX
    &&& i32::MIN < a.y - b.y <= i32::MAX
}

/// Both coordinates are strictly inside the `i32` range, so each king-move neighbour exists.
pub open spec fn inner_pos(p: GridPos) -> bool {
    &&& i32::MIN < p.x < i32::MAX
    &&& i32::MIN < p.y < i32::MAX
}

pub open spec fn pos(x: int, y: int) -> GridPos {
    GridPos { x: x as i32, y: y as i32 }
}

impl GridPos {
    pub fn new(x: i32, y: i32) -> (p: GridPos)
        ensures
            p.x == x,
            p.y == y,
    {
        GridPos { x, y }
    }

    /// Chebyshev (king-move) distance. Weapon range and sight range use this.
    pub fn distance(self, other: GridPos) -> (d: i32)
        requires
            distance_fits(self, other),
        ensures
            d == chebyshev(self, other),
    {
        let dx = self.x - other.x;
        let dy = self.y - other.y;
        let ax = if dx < 0 {
            -dx
        } else {
            dx
        };
        let ay = if dy < 0 {
            -dy
        } else {
            dy
        };
        if ax >= ay {
            ax
        } else {
            ay
        }
    }
}

/// Which sides of a cell give cover to a unit standing in it.
#[derive(Clone, Copy, PartialEq, Eq, Debug, Structural)]
pub struct CoverSides {
    pub n: bool,
    pub e: bool,
    pub s: bool,
    pub w: bool,
}

/// No side sheltered.
pub open spec fn no_cover() -> CoverSides {
    CoverSides { n: false, e: false, s: false, w: false }
}

/// The sides named in a cover property: `n`, `e`, `s`, `w` anywhere in the text.
pub open spec fn parsed_cover(s: Seq<char>) -> CoverSides {
    CoverSides {
        n: s.contains('n'),
        e: s.contains('e'),
        s: s.contains('s'),
        w: s.contains('w'),
    }
}

pub proof fn lemma_contains_push<A>(s: Seq<A>, a: A, x: A)
    ensures
        s.push(a).contains(x) <==> (s.contains(x) || a == x),
{
    if s.contains(x) {
        let i = choose|i: int| 0 <= i < s.len() && s[i] == x;
        assert(s.push(a)[i] == x);
    }
    if a == x {
        assert(s.push(a)[s.len() as int] == x);
    }
    if s.push(a).contains(x) {
        let i = choose|i: int| 0 <= i < s.push(a).len() && s.push(a)[i] == x;
        if i < s.len() {
            assert(s[i] == x);
        }
    }
}

impl Default for CoverSides {
    fn default() -> (c: CoverSides)
        ensures
            c == no_cover(),
    {
        CoverSides { n: false, e: false, s: false, w: false }
    }
}

impl CoverSides {
    /// Parses a Tiled property such as `"n"`, `"ne"` or `"n,e"`. Unknown characters are ignored.
    pub fn parse(s: &str) -> (c: CoverSides)
        ensures
            c == parsed_cover(s@),
    {
        let mut c = CoverSides { n: false, e: false, s: false, w: false };
        let len = s.unicode_len();
        let mut i: usize = 0;
        while i < len
            invariant
                len == s@.len(),
                i <= len,
                c == parsed_cover(s@.take(i as int)),
            decreases len - i,
        {
            let ch = s.get_char(i);
            proof {
                assert(s@.take(i + 1) =~= s@.take(i as int).push(ch));
                lemma_contains_push(s@.take(i as int), ch, 'n');
                lemma_contains_push(s@.take(i as int), ch, 'e');
                lemma_contains_push(s@.take(i as int), ch, 's');
                lemma_contains_push(s@.take(i as int), ch, 'w');
            }
            if ch == 'n' {
                c.n = true;
            } else if ch == 'e' {
                c.e = true;
            } else if ch == 's' {
                c.s = true;
            } else if ch == 'w' {
                c.w = true;
            }
            i = i + 1;
        }
        proof {
            assert(s@.take(len as int) =~= s@);
        }
        c
    }

    pub fn any(self) -> (r: bool)
        ensures
            r == (self.n || self.e || self.s || self.w),
    {
        self.n || self.e || self.s || self.w
    }
}

#[derive(Clone, Copy, PartialEq, Eq, Debug, Structural)]
pub struct Cell {
    pub walkable: bool,
    pub blocks_sight: bool,
    pub cover: CoverSides,
}

/// Open ground: walkable, see-through, no cover.
pub open spec fn floor_cell() -> Cell {
    Cell { walkable: true, blocks_sight: false, cover: no_cover() }
}

/// A wall: not walkable, blocks sight, no cover.
pub open spec fn wall_cell() -> Cell {
    Cell { walkable: false, blocks_sight: true, cover: no_cover() }
}

impl Cell {
    pub fn floor() -> (c: Cell)
        ensures
            c == floor_cell(),
    {
        Cell {
            walkable: true,
            blocks_sight: false,
            cover: CoverSides { n: false, e: false, s: false, w: false },
        }
    }

    pub fn wall() -> (c: Cell)
        ensures
            c == wall_cell(),
    {
        Cell {
            walkable: false,
            blocks_sight: true,
            cover: CoverSides { n: false, e: false, s: false, w: false },
        }
    }

    /// A walkable, see-through tile (sandbags, low wall) that shelters the given sides.
    pub fn cover(sides: CoverSides) -> (c: Cell)
        ensures
            c == (Cell { walkable: true, blocks_sight: false, cover: sides }),
    {
        Cell { walkable: true, blocks_sight: false, cover: sides }
    }
}

/// The mathematical content of a grid.
pub struct GridView {
    pub width: i32,
    pub height: i32,
    pub cells: Seq<Cell>,
}

impl GridView {
    /// Dimensions are in range and the cell list is row-major, one entry per cell.
    pub open spec fn wf(self) -> bool {
        &&& 0 <= self.width <= MAX_SIDE
        &&& 0 <= self.height <= MAX_SIDE
        &&& self.width * self.height <= MAX_CELLS
        &&& self.cells.len() == self.width * self.height
    }

    pub open spec fn in_bounds(self, p: GridPos) -> bool {
        0 <= p.x < self.width && 0 <= p.y < self.height
    }

    pub open spec fn index(self, p: GridPos) -> int {
        p.y * self.width + p.x
    }

    /// The cell at `p`, or `None` outside the grid.
    pub open spec fn cell(self, p: GridPos) -> Option<Cell> {
        if self.in_bounds(p) {
            Some(self.cells[self.index(p)])
        } else {
            None
        }
    }

    pub open spec fn walkable(self, p: GridPos) -> bool {
        self.cell(p) matches Some(c) && c.walkable
    }

    pub open spec fn blocks_sight(self, p: GridPos) -> bool {
        self.cell(p) matches Some(c) && c.blocks_sight
    }

    /// The grid with the cell at `p` replaced; unchanged when `p` is outside.
    pub open spec fn with_cell(self, p: GridPos, c: Cell) -> GridView {
        if self.in_bounds(p) {
            GridView { cells: self.cells.update(self.index(p), c), ..self }
        } else {
            self
        }
    }

    /// A grid of the given size where every cell is floor.
    pub open spec fn all_floor(width: i32, height: i32) -> GridView {
        GridView { width, height, cells: Seq::new((width * height) as nat, |i: int| floor_cell()) }
    }
}

pub proof fn lemma_index_in_range(g: GridView, p: GridPos)
    requires
        g.wf(),
        g.in_bounds(p),
    ensures
        0 <= g.index(p) < g.cells.len(),
{
    assert(0 <= p.y * g.width) by (nonlinear_arith)
        requires
            0 <= p.y,
            0 <= g.width,
    ;
    assert(p.y * g.width + p.x < g.width * g.height) by (nonlinear_arith)
        requires
            0 <= p.x < g.width,
            0 <= p.y < g.height,
    ;
}

/// Replacing the cell at `p` changes what `cell` reports at `p` and nowhere else.
pub proof fn lemma_with_cell(g: GridView, p: GridPos, c: Cell, q: GridPos)
    requires
        g.wf(),
    ensures
        g.with_cell(p, c).wf(),
        g.with_cell(p, c).width == g.width,
        g.with_cell(p, c).height == g.height,
        g.with_cell(p, c).cell(q) == (if q == p && g.in_bounds(p) {
            Some(c)
        } else {
            g.cell(q)
        }),
{
    if g.in_bounds(p) {
        lemma_index_in_range(g, p);
        if g.in_bounds(q) {
            lemma_index_in_range(g, q);
            if q != p {
                assert(g.index(q) != g.index(p)) by (nonlinear_arith)
                    requires
                        0 <= p.x < g.width,
                        0 <= q.x < g.width,
                        q != p,
                        g.index(q) == q.y * g.width + q.x,
                        g.index(p) == p.y * g.width + p.x,
                {
                    if q.y == p.y {
                    } else if q.y < p.y {
                        assert(q.y * g.width + g.width <= p.y * g.width) by (nonlinear_arith)
                            requires q.y < p.y, 0 <= g.width;
                    } else {
                        assert(p.y * g.width + g.width <= q.y * g.width) by (nonlinear_arith)
                            requires p.y < q.y, 0 <= g.width;
                    }
                }
            }
        }
    }
}

/// A product of two non-negative numbers within the cell bound.
pub proof fn lemma_mul_bound(a: int, b: int)
    requires
        0 <= a,
        0 <= b,
        b * a <= MAX_CELLS || a * b <= MAX_CELLS,
    ensures
        a * b <= MAX_CELLS,
        b * a == a * b,
{
    assert(b * a == a * b) by (nonlinear_arith);
}

/// An all-floor grid shows floor in every cell.
pub proof fn lemma_all_floor(width: i32, height: i32, q: GridPos)
    requires
        0 <= width,
        0 <= height,
        GridView::all_floor(width, height).in_bounds(q),
    ensures
        GridView::all_floor(width, height).cell(q) == Some(floor_cell()),
{
    let g = GridView::all_floor(width, height);
    assert(0 <= g.index(q) < width * height) by (nonlinear_arith)
        requires
            0 <= q.x < width,
            0 <= q.y < height,
            g.index(q) == q.y * width + q.x,
    {
        assert(q.y * width + width <= height * width) by (nonlinear_arith)
            requires q.y < height, 0 <= width;
        assert(height * width == width * height) by (nonlinear_arith);
    }
}

#[derive(Clone, Debug)]
pub struct Grid {
    width: i32,
    height: i32,
    cells: Vec<Cell>,
}

impl View for Grid {
    type V = GridView;

    closed spec fn view(&self) -> GridView {
        GridView { width: self.width, height: self.height, cells: self.cells@ }
    }
}

impl Grid {
    /// Dimensions in range and one cell per coordinate; every constructor establishes it.
    pub open spec fn wf(&self) -> bool {
        self@.wf()
    }

    /// An all-floor grid.
    pub fn new(width: i32, height: i32) -> (g: Grid)
        requires
            0 <= width <= MAX_SIDE,
            0 <= height <= MAX_SIDE,
            width * height <= MAX_CELLS,
        ensures
            g@ == GridView::all_floor(width, height),
            g.wf(),
    {
        assert(0 <= width * height) by (nonlinear_arith)
            requires
                0 <= width,
                0 <= height,
        ;
        let n = (width * height) as usize;
        let cells = vec![Cell::floor(); n];
        let g = Grid { width, height, cells };
        assert(g.cells@ =~= GridView::all_floor(width, height).cells);
        g
    }

    pub fn width(&self) -> (w: i32)
        ensures
            w == self@.width,
    {
        self.width
    }

    pub fn height(&self) -> (h: i32)
        ensures
            h == self@.height,
    {
        self.height
    }

    pub fn in_bounds(&self, p: GridPos) -> (b: bool)
        ensures
            b == self@.in_bounds(p),
    {
        p.x >= 0 && p.y >= 0 && p.x < self.width && p.y < self.height
    }

    fn index_of(&self, p: GridPos) -> (i: usize)
        requires
            self.wf(),
            self@.in_bounds(p),
        ensures
            i == self@.index(p),
            i < self@.cells.len(),
    {
        proof {
            lemma_index_in_range(self@, p);
        }
        (p.y * self.width + p.x) as usize
    }

    pub fn get(&self, p: GridPos) -> (c: Option<&Cell>)
        requires
            self.wf(),
        ensures
            match c {
                Some(c) => self@.cell(p) == Some(*c),
                None => self@.cell(p) is None,
            },
    {
        if self.in_bounds(p) {
            let i = self.index_of(p);
            Some(&self.cells[i])
        } else {
            None
        }
    }

    pub fn set(&mut self, p: GridPos, cell: Cell)
        requires
            old(self).wf(),
        ensures
            final(self).wf(),
            final(self)@ == old(self)@.with_cell(p, cell),
    {
        if self.in_bounds(p) {
            let i = self.index_of(p);
            self.cells.set(i, cell);
        }
    }

    pub fn is_walkable(&self, p: GridPos) -> (b: bool)
        requires
            self.wf(),
        ensures
            b == self@.walkable(p),
    {
        match self.get(p) {
            Some(c) => c.walkable,
            None => false,
        }
    }

    pub fn blocks_sight_at(&self, p: GridPos) -> (b: bool)
        requires
            self.wf(),
        ensures
            b == self@.blocks_sight(p),
    {
        match self.get(p) {
            Some(c) => c.blocks_sight,
            None => false,
        }
    }
}


/// The coordinates of two cells are close enough for Bresenham's error term to fit in an `i32`.
pub open spec fn line_fits(a: GridPos, b: GridPos) -> bool {
    &&& abs(b.x - a.x) <= 0x2000_0000
    &&& abs(b.y - a.y) <= 0x2000_0000
}

/// The cells after `(x, y)` that Bresenham's walk from `a` to `b` visits, given the error term `err`.
/// Each step moves one cell along x, along y, or both, towards `b`.
pub open spec fn line_walk(a: GridPos, b: GridPos, x: int, y: int, err: int) -> Seq<GridPos>
    decreases abs(b.x - x) + abs(b.y - y),
{
    if x == b.x && y == b.y {
        seq![]
    } else {
        let dx = abs(b.x - a.x);
        let dy = -abs(b.y - a.y);
        let sx: int = if a.x < b.x { 1 } else { -1 };
        let sy: int = if a.y < b.y { 1 } else { -1 };
        let e2 = 2 * err;
        let x1 = if e2 >= dy { x + sx } else { x };
        let err1 = if e2 >= dy { err + dy } else { err };
        let y1 = if e2 <= dx { y + sy } else { y };
        let err2 = if e2 <= dx { err1 + dx } else { err1 };
        if abs(b.x - x1) + abs(b.y - y1) < abs(b.x - x) + abs(b.y - y) {
            seq![pos(x1, y1)] + line_walk(a, b, x1, y1, err2)
        } else {
            seq![pos(x1, y1)]
        }
    }
}

/// Bresenham line from `a` to `b`, inclusive of both ends.
pub open spec fn line_cells(a: GridPos, b: GridPos) -> Seq<GridPos> {
    seq![a] + line_walk(a, b, a.x as int, a.y as int, abs(b.x - a.x) - abs(b.y - a.y))
}

/// `v` lies between `lo` and `hi` (in either order), inclusive.
pub open spec fn between(lo: int, v: int, hi: int) -> bool {
    (lo <= v <= hi) || (hi <= v <= lo)
}

/// The state `(x, y, err)` reached by Bresenham's walk from `a` towards `b`.
pub open spec fn line_state(a: GridPos, b: GridPos, x: int, y: int, err: int) -> bool {
    let big_dx = abs(b.x - a.x);
    let big_dy = abs(b.y - a.y);
    let steps_x = abs(x - a.x);
    let steps_y = abs(y - a.y);
    &&& between(a.x as int, x, b.x as int)
    &&& between(a.y as int, y, b.y as int)
    &&& err == big_dx * (1 + steps_y) - big_dy * (1 + steps_x)
    &&& -3 * big_dy <= 2 * err <= 3 * big_dx
    &&& big_dx >= big_dy ==> 2 * err >= -big_dy && big_dy - steps_y <= big_dx - steps_x
    &&& big_dy >= big_dx ==> 2 * err <= big_dx && big_dx - steps_x <= big_dy - steps_y
}

proof fn lemma_line_start(a: GridPos, b: GridPos)
    ensures
        line_state(a, b, a.x as int, a.y as int, abs(b.x - a.x) - abs(b.y - a.y)),
{
    let big_dx = abs(b.x - a.x);
    let big_dy = abs(b.y - a.y);
    assert(big_dx * (1 + 0int) == big_dx) by (nonlinear_arith);
    assert(big_dy * (1 + 0int) == big_dy) by (nonlinear_arith);
    assert(abs(a.x - a.x) == 0 && abs(a.y - a.y) == 0);
}

/// One step of the walk keeps the walk's state, moves to a king-adjacent cell,
/// and advances along the longer axis.
#[verifier::spinoff_prover]
proof fn lemma_line_step(a: GridPos, b: GridPos, x: int, y: int, err: int)
    requires
        line_state(a, b, x, y, err),
        !(x == b.x && y == b.y),
    ensures
        ({
            let dx = abs(b.x - a.x);
            let dy = -abs(b.y - a.y);
            let sx: int = if a.x < b.x { 1 } else { -1 };
            let sy: int = if a.y < b.y { 1 } else { -1 };
            let e2 = 2 * err;
            let x1 = if e2 >= dy { x + sx } else { x };
            let err1 = if e2 >= dy { err + dy } else { err };
            let y1 = if e2 <= dx { y + sy } else { y };
            let err2 = if e2 <= dx { err1 + dx } else { err1 };
            &&& line_state(a, b, x1, y1, err2)
            &&& abs(b.x - x1) + abs(b.y - y1) < abs(b.x - x) + abs(b.y - y)
            &&& max(abs(x1 - x), abs(y1 - y)) == 1
            &&& max(abs(b.x - x1), abs(b.y - y1)) == max(abs(b.x - x), abs(b.y - y)) - 1
        }),
{
    let big_dx = abs(b.x - a.x);
    let big_dy = abs(b.y - a.y);
    let steps_x = abs(x - a.x);
    let steps_y = abs(y - a.y);
    let e2 = 2 * err;
    let xs = e2 >= -big_dy;
    let ys = e2 <= big_dx;
    assert(abs(b.x - x) == big_dx - steps_x);
    assert(abs(b.y - y) == big_dy - steps_y);
    assert(0 <= steps_x <= big_dx);
    assert(0 <= steps_y <= big_dy);
    if steps_x == big_dx && steps_y < big_dy {
        assert(big_dx * (1 + steps_y) <= big_dx * big_dy) by (nonlinear_arith)
            requires
                0 <= big_dx,
                1 + steps_y <= big_dy,
        ;
        assert(big_dy * (1 + steps_x) == big_dy + big_dy * big_dx) by (nonlinear_arith)
            requires
                steps_x == big_dx,
        ;
        assert(big_dx * big_dy == big_dy * big_dx) by (nonlinear_arith);
        assert(!xs);
    }
    if steps_y == big_dy && steps_x < big_dx {
        assert(big_dy * (1 + steps_x) <= big_dy * big_dx) by (nonlinear_arith)
            requires
                0 <= big_dy,
                1 + steps_x <= big_dx,
        ;
        assert(big_dx * (1 + steps_y) == big_dx + big_dx * big_dy) by (nonlinear_arith)
            requires
                steps_y == big_dy,
        ;
        assert(big_dx * big_dy == big_dy * big_dx) by (nonlinear_arith);
        assert(!ys);
    }
    assert(xs || ys);
    if big_dy - steps_y == big_dx - steps_x {
        let r = big_dx - steps_x;
        assert(err == (big_dx - big_dy) * (1 - r)) by (nonlinear_arith)
            requires
                err == big_dx * (1 + steps_y) - big_dy * (1 + steps_x),
                r == big_dx - steps_x,
                r == big_dy - steps_y,
        ;
        if r >= 1 {
            if big_dx >= big_dy {
                assert((big_dx - big_dy) * (1 - r) <= 0) by (nonlinear_arith)
                    requires
                        big_dx - big_dy >= 0,
                        1 - r <= 0,
                ;
            }
            if big_dy >= big_dx {
                assert((big_dx - big_dy) * (1 - r) >= 0) by (nonlinear_arith)
                    requires
                        big_dx - big_dy <= 0,
                        1 - r <= 0,
                ;
            }
        }
    }
    let nsx = if xs { steps_x + 1 } else { steps_x };
    let nsy = if ys { steps_y + 1 } else { steps_y };
    let err2 = err + (if xs { -big_dy } else { 0 }) + (if ys { big_dx } else { 0 });
    let sx: int = if a.x < b.x { 1 } else { -1 };
    let sy: int = if a.y < b.y { 1 } else { -1 };
    let x1 = if xs { x + sx } else { x };
    let y1 = if ys { y + sy } else { y };
    if xs {
        assert(steps_x < big_dx);
        assert(abs(x1 - a.x) == nsx);
        assert(between(a.x as int, x1, b.x as int));
    } else {
        assert(abs(x1 - a.x) == nsx);
    }
    if ys {
        assert(steps_y < big_dy);
        assert(abs(y1 - a.y) == nsy);
        assert(between(a.y as int, y1, b.y as int));
    } else {
        assert(abs(y1 - a.y) == nsy);
    }
    assert(abs(b.x - x1) == big_dx - nsx);
    assert(abs(b.y - y1) == big_dy - nsy);
    assert(-3 * big_dy <= 2 * err2 <= 3 * big_dx);
    if big_dx >= big_dy {
        assert(xs);
        assert(2 * err2 >= -big_dy);
        assert(big_dy - nsy <= big_dx - nsx);
    }
    if big_dy >= big_dx {
        assert(ys);
        assert(2 * err2 <= big_dx);
        assert(big_dx - nsx <= big_dy - nsy);
    }
    assert(err2 == big_dx * (1 + nsy) - big_dy * (1 + nsx)) by (nonlinear_arith)
        requires
            err == big_dx * (1 + steps_y) - big_dy * (1 + steps_x),
            nsx == if xs { steps_x + 1 } else { steps_x },
            nsy == if ys { steps_y + 1 } else { steps_y },
            err2 == err + (if xs { -big_dy } else { 0 }) + (if ys { big_dx } else { 0 }),
    ;
}

/// The walk from a reached state: its length is the remaining Chebyshev distance,
/// each cell is king-adjacent to the previous one, and it ends at `b`.
#[verifier::spinoff_prover]
#[verifier::rlimit(40)]
proof fn lemma_line_walk(a: GridPos, b: GridPos, x: int, y: int, err: int)
    requires
        line_state(a, b, x, y, err),
    ensures
        line_walk(a, b, x, y, err).len() == max(abs(b.x - x), abs(b.y - y)),
        line_walk(a, b, x, y, err).len() > 0 ==> line_walk(a, b, x, y, err).last() == b,
        line_walk(a, b, x, y, err).len() > 0 ==> chebyshev(
            pos(x, y),
            line_walk(a, b, x, y, err)[0],
        ) == 1,
        forall|i: int|
            0 <= i < line_walk(a, b, x, y, err).len() - 1 ==> chebyshev(
                #[trigger] line_walk(a, b, x, y, err)[i],
                line_walk(a, b, x, y, err)[i + 1],
            ) == 1,
    decreases abs(b.x - x) + abs(b.y - y),
{
    if x == b.x && y == b.y {
    } else {
        let dx = abs(b.x - a.x);
        let dy = -abs(b.y - a.y);
        let sx: int = if a.x < b.x { 1 } else { -1 };
        let sy: int = if a.y < b.y { 1 } else { -1 };
        let e2 = 2 * err;
        let x1 = if e2 >= dy { x + sx } else { x };
        let err1 = if e2 >= dy { err + dy } else { err };
        let y1 = if e2 <= dx { y + sy } else { y };
        let err2 = if e2 <= dx { err1 + dx } else { err1 };
        lemma_line_step(a, b, x, y, err);
        lemma_line_walk(a, b, x1, y1, err2);
        let rest = line_walk(a, b, x1, y1, err2);
        let w = line_walk(a, b, x, y, err);
        assert(w == seq![pos(x1, y1)] + rest);
        assert(pos(x1, y1).x == x1 && pos(x1, y1).y == y1);
        assert forall|i: int| 0 <= i < w.len() - 1 implies chebyshev(#[trigger] w[i], w[i + 1])
            == 1 by {
            if i > 0 {
                assert(w[i] == rest[i - 1]);
                assert(w[i + 1] == rest[i]);
            } else {
                assert(w[1] == rest[0]);
            }
        }
        if rest.len() == 0 {
            assert(x1 == b.x && y1 == b.y);
        }
    }
}

/// The Bresenham line from `a` to `b` starts at `a`, ends at `b`, has one cell more than
/// the Chebyshev distance, and each cell is king-adjacent to the next.
pub proof fn law_line_shape(a: GridPos, b: GridPos)
    ensures
        line_cells(a, b).len() == chebyshev(a, b) + 1,
        line_cells(a, b)[0] == a,
        line_cells(a, b).last() == b,
        forall|i: int|
            0 <= i < line_cells(a, b).len() - 1 ==> chebyshev(
                #[trigger] line_cells(a, b)[i],
                line_cells(a, b)[i + 1],
            ) == 1,
{
    let e0 = abs(b.x - a.x) - abs(b.y - a.y);
    lemma_line_start(a, b);
    lemma_line_walk(a, b, a.x as int, a.y as int, e0);
    let w = line_walk(a, b, a.x as int, a.y as int, e0);
    let l = line_cells(a, b);
    assert(pos(a.x as int, a.y as int) == a);
    assert(chebyshev(a, b) == max(abs(b.x - a.x), abs(b.y - a.y)));
    assert forall|i: int| 0 <= i < l.len() - 1 implies chebyshev(#[trigger] l[i], l[i + 1]) == 1 by {
        if i > 0 {
            assert(l[i] == w[i - 1]);
            assert(l[i + 1] == w[i]);
        } else {
            assert(l[1] == w[0]);
        }
    }
    if w.len() == 0 {
        assert(a == b);
    } else {
        assert(l.last() == w.last());
    }
}

/// Bresenham line from `a` to `b`, inclusive of both ends, one cell per step.
pub fn line(a: GridPos, b: GridPos) -> (out: Vec<GridPos>)
    requires
        line_fits(a, b),
    ensures
        out@ == line_cells(a, b),
{
    let mut x = a.x;
    let mut y = a.y;
    let dx = if b.x >= a.x { b.x - a.x } else { a.x - b.x };
    let dy = -(if b.y >= a.y { b.y - a.y } else { a.y - b.y });
    let sx: i32 = if a.x < b.x { 1 } else { -1 };
    let sy: i32 = if a.y < b.y { 1 } else { -1 };
    let mut err = dx + dy;
    let mut out = vec![a];
    proof {
        lemma_line_start(a, b);
    }
    while !(x == b.x && y == b.y)
        invariant
            line_fits(a, b),
            dx == abs(b.x - a.x),
            dy == -abs(b.y - a.y),
            sx == (if a.x < b.x { 1int } else { -1int }),
            sy == (if a.y < b.y { 1int } else { -1int }),
            line_state(a, b, x as int, y as int, err as int),
            out@ + line_walk(a, b, x as int, y as int, err as int) == line_cells(a, b),
        decreases abs(b.x - x) + abs(b.y - y),
    {
        proof {
            lemma_line_step(a, b, x as int, y as int, err as int);
        }
        let ghost old_out = out@;
        let ghost (ox, oy, oerr) = (x as int, y as int, err as int);
        let e2 = 2 * err;
        if e2 >= dy {
            err = err + dy;
            x = x + sx;
        }
        if e2 <= dx {
            err = err + dx;
            y = y + sy;
        }
        let next = GridPos::new(x, y);
        out.push(next);
        proof {
            assert(pos(x as int, y as int) == next);
            assert(line_walk(a, b, ox, oy, oerr) == seq![pos(x as int, y as int)] + line_walk(
                a,
                b,
                x as int,
                y as int,
                err as int,
            ));
            assert(out@ + line_walk(a, b, x as int, y as int, err as int) =~= old_out
                + line_walk(a, b, ox, oy, oerr));
        }
    }
    proof {
        assert(line_walk(a, b, x as int, y as int, err as int) == Seq::<GridPos>::empty());
        assert(out@ =~= out@ + Seq::<GridPos>::empty());
    }
    out
}


/// No sight-blocking cell lies strictly between the ends of the Bresenham line from `a` to `b`.
pub open spec fn clear_between(g: GridView, a: GridPos, b: GridPos) -> bool {
    let cells = line_cells(a, b);
    forall|i: int| 1 <= i < cells.len() - 1 ==> !g.blocks_sight(#[trigger] cells[i])
}

/// Line of sight: the Bresenham line is clear in at least one direction.
pub open spec fn sight(g: GridView, a: GridPos, b: GridPos) -> bool {
    clear_between(g, a, b) || clear_between(g, b, a)
}

/// The cell before `target` on the line from `shooter`: the cell the shot enters from.
pub open spec fn entry_cell(shooter: GridPos, target: GridPos) -> GridPos {
    let cells = line_cells(shooter, target);
    cells[cells.len() - 2]
}

/// The last step of the shooter-to-target line enters the target's cell through a side
/// that cell shelters. Diagonal entries count either side.
pub open spec fn covered(g: GridView, target: GridPos, shooter: GridPos) -> bool {
    match g.cell(target) {
        None => false,
        Some(cell) => {
            let c = cell.cover;
            if !(c.n || c.e || c.s || c.w) || line_cells(shooter, target).len() < 2 {
                false
            } else {
                let prev = entry_cell(shooter, target);
                let dx = target.x - prev.x;
                let dy = target.y - prev.y;
                (dy < 0 && c.n) || (dy > 0 && c.s) || (dx < 0 && c.e) || (dx > 0 && c.w)
            }
        },
    }
}

/// Cover by side: when the shot's last step (from the cell before the target on the
/// shooter-to-target line) moves east into a cell sheltered on its west side, the target
/// is covered, whatever the step does north or south; likewise west into an east side,
/// south into a north side, north into a south side. A diagonal step thus counts either side
/// it crosses. Conversely the target is covered only through such a side.
pub proof fn law_cover_by_side(g: GridView, target: GridPos, shooter: GridPos)
    requires
        line_cells(shooter, target).len() >= 2,
    ensures
        ({
            let prev = line_cells(shooter, target)[line_cells(shooter, target).len() - 2];
            let dx = target.x - prev.x;
            let dy = target.y - prev.y;
            g.cell(target) matches Some(c) ==> {
                &&& dx > 0 && c.cover.w ==> covered(g, target, shooter)
                &&& dx < 0 && c.cover.e ==> covered(g, target, shooter)
                &&& dy < 0 && c.cover.n ==> covered(g, target, shooter)
                &&& dy > 0 && c.cover.s ==> covered(g, target, shooter)
                &&& covered(g, target, shooter) ==> (dx > 0 && c.cover.w) || (dx < 0 && c.cover.e)
                    || (dy < 0 && c.cover.n) || (dy > 0 && c.cover.s)
            }
        }),
        g.cell(target) is None ==> !covered(g, target, shooter),
{
}

/// The king-move offset tried in position `k` (0..8) when listing neighbours:
/// x offsets -1, 0, 1 in turn, each with y offsets -1, 0, 1, skipping (0, 0).
pub open spec fn offset(k: int) -> (int, int) {
    if k == 0 {
        (-1, -1)
    } else if k == 1 {
        (-1, 0)
    } else if k == 2 {
        (-1, 1)
    } else if k == 3 {
        (0, -1)
    } else if k == 4 {
        (0, 1)
    } else if k == 5 {
        (1, -1)
    } else if k == 6 {
        (1, 0)
    } else {
        (1, 1)
    }
}

/// The cost of the king move from `p` by `(dx, dy)`: 10 orthogonal, 14 diagonal, or `None`
/// when the destination is not walkable or a diagonal would cut a blocked corner.
pub open spec fn move_cost(g: GridView, p: GridPos, dx: int, dy: int) -> Option<u32> {
    let n = pos(p.x + dx, p.y + dy);
    let diagonal = dx != 0 && dy != 0;
    if !g.walkable(n) {
        None
    } else if diagonal && !(g.walkable(pos(p.x + dx, p.y as int)) && g.walkable(
        pos(p.x as int, p.y + dy),
    )) {
        None
    } else if diagonal {
        Some(14u32)
    } else {
        Some(10u32)
    }
}

/// The legal king moves from `p` with their costs, in the order of `offset(k)` from `k` on.
pub open spec fn neighbours_from(g: GridView, p: GridPos, k: int) -> Seq<(GridPos, u32)>
    decreases 8 - k,
{
    if k >= 8 || k < 0 {
        seq![]
    } else {
        let (dx, dy) = offset(k);
        let here = match move_cost(g, p, dx, dy) {
            Some(c) => seq![(pos(p.x + dx, p.y + dy), c)],
            None => seq![],
        };
        here + neighbours_from(g, p, k + 1)
    }
}

/// The legal king moves from `p` with their costs.
pub open spec fn neighbour_list(g: GridView, p: GridPos) -> Seq<(GridPos, u32)> {
    neighbours_from(g, p, 0)
}

/// A single legal king move from `a` to `b`, with its cost.
pub open spec fn grid_step(g: GridView, a: GridPos, b: GridPos) -> Option<u32> {
    if chebyshev(a, b) == 1 {
        move_cost(g, a, b.x - a.x, b.y - a.y)
    } else {
        None
    }
}

proof fn lemma_offset(k: int)
    requires
        0 <= k < 8,
    ensures
        -1 <= offset(k).0 <= 1,
        -1 <= offset(k).1 <= 1,
        !(offset(k).0 == 0 && offset(k).1 == 0),
{
}

/// Every king offset appears at exactly one position of the neighbour order.
proof fn lemma_offset_covers(dx: int, dy: int) -> (k: int)
    requires
        -1 <= dx <= 1,
        -1 <= dy <= 1,
        !(dx == 0 && dy == 0),
    ensures
        0 <= k < 8,
        offset(k) == (dx, dy),
{
    if dx == -1 {
        dy + 1
    } else if dx == 0 {
        if dy == -1 {
            3
        } else {
            4
        }
    } else {
        dy + 6
    }
}

/// The listed neighbours from position `k` on are exactly the legal moves by the offsets
/// `offset(k)..offset(7)`, with their costs.
proof fn lemma_neighbours_from(g: GridView, p: GridPos, k: int)
    requires
        0 <= k <= 8,
        inner_pos(p),
    ensures
        forall|n: GridPos, c: u32|
            neighbours_from(g, p, k).contains((n, c)) <==> (exists|j: int|
                k <= j < 8 && #[trigger] offset(j) == (n.x - p.x, n.y - p.y) && move_cost(
                    g,
                    p,
                    offset(j).0,
                    offset(j).1,
                ) == Some(c)),
    decreases 8 - k,
{
    if k < 8 {
        lemma_neighbours_from(g, p, k + 1);
        let (dx, dy) = offset(k);
        lemma_offset(k);
        let here = match move_cost(g, p, dx, dy) {
            Some(c) => seq![(pos(p.x + dx, p.y + dy), c)],
            None => seq![],
        };
        let rest = neighbours_from(g, p, k + 1);
        assert(neighbours_from(g, p, k) == here + rest);
        assert forall|n: GridPos, c: u32|
            neighbours_from(g, p, k).contains((n, c)) <==> (exists|j: int|
                k <= j < 8 && #[trigger] offset(j) == (n.x - p.x, n.y - p.y) && move_cost(
                    g,
                    p,
                    offset(j).0,
                    offset(j).1,
                ) == Some(c)) by {
            let all = here + rest;
            if all.contains((n, c)) {
                let i = choose|i: int| 0 <= i < all.len() && all[i] == (n, c);
                if i < here.len() {
                    assert(offset(k) == (n.x - p.x, n.y - p.y));
                } else {
                    assert(rest[i - here.len()] == (n, c));
                    assert(rest.contains((n, c)));
                }
            }
            if exists|j: int|
                k <= j < 8 && #[trigger] offset(j) == (n.x - p.x, n.y - p.y) && move_cost(
                    g,
                    p,
                    offset(j).0,
                    offset(j).1,
                ) == Some(c) {
                let j = choose|j: int|
                    k <= j < 8 && #[trigger] offset(j) == (n.x - p.x, n.y - p.y) && move_cost(
                        g,
                        p,
                        offset(j).0,
                        offset(j).1,
                    ) == Some(c);
                if j == k {
                    assert(n == pos(p.x + dx, p.y + dy));
                    assert(here[0] == (n, c));
                    assert(all[0] == (n, c));
                } else {
                    assert(rest.contains((n, c)));
                    let i = choose|i: int| 0 <= i < rest.len() && rest[i] == (n, c);
                    assert(all[here.len() + i] == (n, c));
                }
            }
        }
    }
}

/// A pair is listed as a neighbour of `p` exactly when it is a legal king move with that cost.
pub proof fn lemma_neighbour_list(g: GridView, p: GridPos)
    requires
        inner_pos(p),
    ensures
        forall|n: GridPos, c: u32|
            neighbour_list(g, p).contains((n, c)) <==> grid_step(g, p, n) == Some(c),
{
    lemma_neighbours_from(g, p, 0);
    assert forall|n: GridPos, c: u32|
        neighbour_list(g, p).contains((n, c)) <==> grid_step(g, p, n) == Some(c) by {
        if neighbour_list(g, p).contains((n, c)) {
            let j = choose|j: int|
                0 <= j < 8 && #[trigger] offset(j) == (n.x - p.x, n.y - p.y) && move_cost(
                    g,
                    p,
                    offset(j).0,
                    offset(j).1,
                ) == Some(c);
            lemma_offset(j);
        }
        if grid_step(g, p, n) == Some(c) {
            let j = lemma_offset_covers(n.x - p.x, n.y - p.y);
        }
    }
}


/// The king-move offset tried in position `k` when listing neighbours.
fn offset_at(k: usize) -> (o: (i32, i32))
    requires
        k < 8,
    ensures
        o.0 == offset(k as int).0,
        o.1 == offset(k as int).1,
{
    if k == 0 {
        (-1, -1)
    } else if k == 1 {
        (-1, 0)
    } else if k == 2 {
        (-1, 1)
    } else if k == 3 {
        (0, -1)
    } else if k == 4 {
        (0, 1)
    } else if k == 5 {
        (1, -1)
    } else if k == 6 {
        (1, 0)
    } else {
        (1, 1)
    }
}

impl Grid {
    /// True when no sight-blocking cell lies strictly between the ends of the line from `a` to `b`.
    fn clear_between(&self, a: GridPos, b: GridPos) -> (r: bool)
        requires
            self.wf(),
            line_fits(a, b),
        ensures
            r == clear_between(self@, a, b),
    {
        let cells = line(a, b);
        let n = cells.len();
        proof {
            law_line_shape(a, b);
        }
        let mut i: usize = 1;
        while i < n - 1
            invariant
                cells@ == line_cells(a, b),
                n == cells@.len(),
                1 <= i <= n,
                self.wf(),
                forall|j: int| 1 <= j < i && j < n - 1 ==> !self@.blocks_sight(#[trigger] cells@[j]),
            decreases n - i,
        {
            if self.blocks_sight_at(cells[i]) {
                return false;
            }
            i = i + 1;
        }
        true
    }

    /// True when no sight-blocking cell lies strictly between `a` and `b`, in either
    /// Bresenham direction (the raster line is not symmetric; visibility must be).
    pub fn has_line_of_sight(&self, a: GridPos, b: GridPos) -> (r: bool)
        requires
            self.wf(),
            line_fits(a, b),
        ensures
            r == sight(self@, a, b),
    {
        self.clear_between(a, b) || self.clear_between(b, a)
    }

    /// True when the last step of the shooter-to-target line enters the target's cell
    /// through a side that cell shelters. Diagonal entries count either side.
    pub fn cover_against(&self, target: GridPos, shooter: GridPos) -> (r: bool)
        requires
            self.wf(),
            line_fits(shooter, target),
        ensures
            r == covered(self@, target, shooter),
    {
        let cell = match self.get(target) {
            Some(c) => *c,
            None => {
                return false;
            },
        };
        if !cell.cover.any() {
            return false;
        }
        let cells = line(shooter, target);
        if cells.len() < 2 {
            return false;
        }
        let prev = cells[cells.len() - 2];
        proof {
            law_line_shape(shooter, target);
        }
        let dx = target.x - prev.x;
        let dy = target.y - prev.y;
        (dy < 0 && cell.cover.n) || (dy > 0 && cell.cover.s) || (dx < 0 && cell.cover.e) || (dx
            > 0 && cell.cover.w)
    }

    /// Walkable king-move neighbours with costs (10 orthogonal, 14 diagonal).
    /// Diagonals are only allowed when both adjacent orthogonal cells are walkable.
    pub fn neighbours(&self, p: GridPos) -> (out: Vec<(GridPos, u32)>)
        requires
            self.wf(),
            inner_pos(p),
        ensures
            out@ == neighbour_list(self@, p),
    {
        let mut out: Vec<(GridPos, u32)> = Vec::with_capacity(8);
        let mut k: usize = 0;
        while k < 8
            invariant
                self.wf(),
                inner_pos(p),
                k <= 8,
                out@ + neighbours_from(self@, p, k as int) == neighbour_list(self@, p),
            decreases 8 - k,
        {
            let ghost old_out = out@;
            let (dx, dy) = offset_at(k);
            let n = GridPos::new(p.x + dx, p.y + dy);
            let diagonal = dx != 0 && dy != 0;
            proof {
                assert(n == pos(p.x + dx, p.y + dy));
                assert(neighbours_from(self@, p, k as int) == (match move_cost(
                    self@,
                    p,
                    dx as int,
                    dy as int,
                ) {
                    Some(c) => seq![(pos(p.x + dx, p.y + dy), c)],
                    None => seq![],
                }) + neighbours_from(self@, p, k + 1));
            }
            if self.is_walkable(n) {
                let corner_ok = !diagonal || (self.is_walkable(GridPos::new(p.x + dx, p.y))
                    && self.is_walkable(GridPos::new(p.x, p.y + dy)));
                if corner_ok {
                    out.push((n, if diagonal { 14 } else { 10 }));
                    proof {
                        assert(out@ + neighbours_from(self@, p, k + 1) =~= old_out
                            + neighbours_from(self@, p, k as int));
                    }
                } else {
                    proof {
                        assert(out@ + neighbours_from(self@, p, k + 1) =~= old_out
                            + neighbours_from(self@, p, k as int));
                    }
                }
            } else {
                proof {
                    assert(out@ + neighbours_from(self@, p, k + 1) =~= old_out + neighbours_from(
                        self@,
                        p,
                        k as int,
                    ));
                }
            }
            k = k + 1;
        }
        proof {
            assert(out@ =~= out@ + neighbours_from(self@, p, 8));
        }
        out
    }
}

} // verus!
