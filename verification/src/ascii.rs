//! Small maps drawn as ASCII art: the rows of a drawing, and the grid and units they show.
//! The FIRST line is the TOP row (highest y). `#` wall, `.` floor, `^` `>` `v` `<` cover
//! tile sheltering its north/east/south/west side; `P` a soldier and `E` an enemy on floor.

use vstd::prelude::*;
use vstd::string::StrSliceExecFns;

use crate::battle::model::{units_ok, BattleView};
use crate::battle::{new_unit, Battle, Side, Unit, UnitId};
use crate::grid::{no_cover, floor_cell, wall_cell, Cell, CoverSides, Grid, GridPos, GridView, MAX_CELLS, MAX_SIDE};

verus! {

/// Unicode `White_Space`, as `char::is_whitespace` tests it.
pub open spec fn is_space(c: char) -> bool {
    let v = c as u32;
    (0x9 <= v <= 0xd) || v == 0x20 || v == 0x85 || v == 0xa0 || v == 0x1680 || (0x2000 <= v
        <= 0x200a) || v == 0x2028 || v == 0x2029 || v == 0x202f || v == 0x205f || v == 0x3000
}

fn is_space_exec(c: char) -> (r: bool)
    ensures
        r == is_space(c),
{
    let v = c as u32;
    (0x9 <= v && v <= 0xd) || v == 0x20 || v == 0x85 || v == 0xa0 || v == 0x1680 || (0x2000 <= v
        && v <= 0x200a) || v == 0x2028 || v == 0x2029 || v == 0x202f || v == 0x205f || v == 0x3000
}

/// The first index at or after `i` where a line ends (a `\n`, or the end of the text).
pub open spec fn line_end(s: Seq<char>, i: int) -> int
    decreases s.len() - i,
{
    if i < 0 || i >= s.len() {
        s.len() as int
    } else if s[i] == '\n' {
        i
    } else {
        line_end(s, i + 1)
    }
}

proof fn lemma_line_end(s: Seq<char>, i: int)
    requires
        0 <= i <= s.len(),
    ensures
        i <= line_end(s, i) <= s.len(),
        line_end(s, i) < s.len() ==> s[line_end(s, i)] == '\n',
        forall|k: int| i <= k < line_end(s, i) ==> s[k] != '\n',
    decreases s.len() - i,
{
    if i < s.len() && s[i] != '\n' {
        lemma_line_end(s, i + 1);
    }
}

/// The index where the whitespace at the start of `s[lo..hi]` ends.
pub open spec fn trim_lo(s: Seq<char>, lo: int, hi: int) -> int
    decreases hi - lo,
{
    if lo < hi && is_space(s[lo]) {
        trim_lo(s, lo + 1, hi)
    } else {
        lo
    }
}

/// The index where the whitespace at the end of `s[lo..hi]` begins.
pub open spec fn trim_hi(s: Seq<char>, lo: int, hi: int) -> int
    decreases hi - lo,
{
    if lo < hi && is_space(s[hi - 1]) {
        trim_hi(s, lo, hi - 1)
    } else {
        hi
    }
}

/// `s[lo..hi]` without leading and trailing whitespace, as `str::trim` gives it.
pub open spec fn trimmed(s: Seq<char>, lo: int, hi: int) -> Seq<char> {
    let a = trim_lo(s, lo, hi);
    s.subrange(a, trim_hi(s, a, hi))
}

/// The rows of the drawing from index `i` on: every line, trimmed, that is not blank.
pub open spec fn rows_from(s: Seq<char>, i: int) -> Seq<Seq<char>>
    decreases s.len() - i,
{
    if i < 0 || i > s.len() {
        seq![]
    } else {
        let j = line_end(s, i);
        let t = trimmed(s, i, j);
        let here = if t.len() > 0 {
            seq![t]
        } else {
            seq![]
        };
        if j >= s.len() || j < i {
            here
        } else {
            here + rows_from(s, j + 1)
        }
    }
}

/// The rows of a drawing, top row first: its lines, trimmed, without the blank ones.
pub open spec fn art_rows(s: Seq<char>) -> Seq<Seq<char>> {
    rows_from(s, 0)
}

/// The length of the longest of the rows from index `i` on.
pub open spec fn widest(rows: Seq<Seq<char>>, i: int) -> int
    decreases rows.len() - i,
{
    if i < 0 || i >= rows.len() {
        0
    } else {
        let rest = widest(rows, i + 1);
        if rows[i].len() > rest {
            rows[i].len() as int
        } else {
            rest
        }
    }
}

/// The cell a glyph stands for.
pub open spec fn glyph_cell(c: char) -> Cell {
    if c == '#' {
        wall_cell()
    } else if c == '^' {
        Cell { walkable: true, blocks_sight: false, cover: CoverSides { n: true, ..no_cover() } }
    } else if c == '>' {
        Cell { walkable: true, blocks_sight: false, cover: CoverSides { e: true, ..no_cover() } }
    } else if c == 'v' {
        Cell { walkable: true, blocks_sight: false, cover: CoverSides { s: true, ..no_cover() } }
    } else if c == '<' {
        Cell { walkable: true, blocks_sight: false, cover: CoverSides { w: true, ..no_cover() } }
    } else {
        floor_cell()
    }
}

/// The cell the rows show at `p`: the glyph in the row for `p.y` (counted from the top),
/// or floor past the end of a short row.
pub open spec fn art_cell(rows: Seq<Seq<char>>, p: GridPos) -> Cell {
    let row = rows[rows.len() - 1 - p.y];
    if p.x < row.len() {
        glyph_cell(row[p.x as int])
    } else {
        floor_cell()
    }
}

/// The grid the rows show: as wide as the widest row, one row of cells per row.
pub open spec fn shows_grid(rows: Seq<Seq<char>>, g: GridView) -> bool {
    &&& g.width == widest(rows, 0)
    &&& g.height == rows.len()
    &&& forall|p: GridPos| g.in_bounds(p) ==> g.cell(p) == Some(art_cell(rows, p))
}

/// The rows of a drawing fit in a grid.
pub open spec fn art_fits(rows: Seq<Seq<char>>) -> bool {
    &&& widest(rows, 0) <= MAX_SIDE
    &&& rows.len() <= MAX_SIDE
    &&& widest(rows, 0) * rows.len() <= MAX_CELLS
}

proof fn lemma_widest(rows: Seq<Seq<char>>, i: int)
    requires
        0 <= i,
    ensures
        widest(rows, i) >= 0,
        forall|k: int| i <= k < rows.len() ==> rows[k].len() <= widest(rows, i),
    decreases rows.len() - i,
{
    if i < rows.len() {
        lemma_widest(rows, i + 1);
    }
}

/// The characters of `s`, one by one.
fn chars_of(s: &str) -> (out: Vec<char>)
    ensures
        out@ == s@,
{
    let n = s.unicode_len();
    let mut out: Vec<char> = Vec::new();
    let mut i: usize = 0;
    while i < n
        invariant
            n == s@.len(),
            i <= n,
            out@ == s@.take(i as int),
        decreases n - i,
    {
        out.push(s.get_char(i));
        proof {
            assert(s@.take(i + 1) =~= s@.take(i as int).push(s@[i as int]));
        }
        i = i + 1;
    }
    proof {
        assert(s@.take(n as int) =~= s@);
    }
    out
}

/// The rows of a drawing: its lines, trimmed, without the blank ones; the top row first.
pub fn rows_of(art: &str) -> (rows: Vec<Vec<char>>)
    ensures
        rows@.len() == art_rows(art@).len(),
        forall|i: int| 0 <= i < rows@.len() ==> (#[trigger] rows@[i])@ == art_rows(art@)[i],
{
    let s = chars_of(art);
    let ghost sv = s@;
    let n = s.len();
    let mut rows: Vec<Vec<char>> = Vec::new();
    let mut i: usize = 0;
    let mut done = false;
    while !done
        invariant
            sv == art@,
            s@ == sv,
            n == sv.len(),
            i <= n,
            !done ==> forall|k: int| 0 <= k < rows@.len() ==> (#[trigger] rows@[k])@ == (art_rows(sv).take(rows@.len() as int))[k],
            !done ==> art_rows(sv) == art_rows(sv).take(rows@.len() as int) + rows_from(sv, i as int),
            !done ==> rows@.len() <= art_rows(sv).len(),
            done ==> rows@.len() == art_rows(sv).len() && forall|k: int| 0 <= k < rows@.len() ==> (#[trigger] rows@[k])@ == art_rows(sv)[k],
        decreases n - i + (if done { 0int } else { 1int }),
    {
        let ghost before = rows@;
        proof {
            lemma_line_end(sv, i as int);
        }
        let mut j = i;
        while j < n && s[j] != '\n'
            invariant
                s@ == sv,
                n == sv.len(),
                i <= j <= n,
                line_end(sv, i as int) == line_end(sv, j as int),
            decreases n - j,
        {
            j = j + 1;
        }
        let mut lo = i;
        while lo < j && is_space_exec(s[lo])
            invariant
                s@ == sv,
                n == sv.len(),
                i <= lo <= j <= n,
                trim_lo(sv, i as int, j as int) == trim_lo(sv, lo as int, j as int),
            decreases j - lo,
        {
            lo = lo + 1;
        }
        let mut hi = j;
        while hi > lo && is_space_exec(s[hi - 1])
            invariant
                s@ == sv,
                n == sv.len(),
                lo <= hi <= j <= n,
                trim_hi(sv, lo as int, j as int) == trim_hi(sv, lo as int, hi as int),
            decreases hi - lo,
        {
            hi = hi - 1;
        }
        let ghost t = trimmed(sv, i as int, j as int);
        if hi > lo {
            let mut row: Vec<char> = Vec::new();
            let mut k = lo;
            while k < hi
                invariant
                    s@ == sv,
                    n == sv.len(),
                    lo <= k <= hi <= n,
                    row@ == sv.subrange(lo as int, k as int),
                decreases hi - k,
            {
                row.push(s[k]);
                proof {
                    assert(sv.subrange(lo as int, k + 1) =~= sv.subrange(lo as int, k as int).push(sv[k as int]));
                }
                k = k + 1;
            }
            rows.push(row);
        }
        proof {
            let here = if t.len() > 0 { seq![t] } else { Seq::<Seq<char>>::empty() };
            assert(t == sv.subrange(lo as int, hi as int));
            let m = before.len() as int;
            let ar = art_rows(sv);
            if j >= n {
                assert(rows_from(sv, i as int) == here);
            } else {
                assert(rows_from(sv, i as int) == here + rows_from(sv, j + 1));
            }
            assert(ar == ar.take(m) + rows_from(sv, i as int));
            assert(ar.take(m) + (here + rows_from(sv, j + 1)) =~= (ar.take(m) + here) + rows_from(sv, j + 1));
            if t.len() > 0 {
                assert(ar.take(m) + here =~= ar.take(m + 1)) by {
                    assert(ar[m] == t);
                }
                assert forall|k: int| 0 <= k < rows@.len() implies (#[trigger] rows@[k])@ == ar.take(rows@.len() as int)[k] by {
                    if k < m {
                        assert(rows@[k] == before[k]);
                    }
                }
            } else {
                assert(ar.take(m) + here =~= ar.take(m));
            }
            if j >= n {
                assert(ar =~= ar.take(rows@.len() as int));
            }
        }
        if j >= n {
            done = true;
        } else {
            i = j + 1;
        }
    }
    rows
}


fn glyph_cell_exec(c: char) -> (cell: Cell)
    ensures
        cell == glyph_cell(c),
{
    let none = CoverSides { n: false, e: false, s: false, w: false };
    if c == '#' {
        Cell::wall()
    } else if c == '^' {
        Cell::cover(CoverSides { n: true, ..none })
    } else if c == '>' {
        Cell::cover(CoverSides { e: true, ..none })
    } else if c == 'v' {
        Cell::cover(CoverSides { s: true, ..none })
    } else if c == '<' {
        Cell::cover(CoverSides { w: true, ..none })
    } else {
        Cell::floor()
    }
}

/// The length of the longest row.
fn widest_exec(rows: &Vec<Vec<char>>, spec_rows: Ghost<Seq<Seq<char>>>) -> (w: usize)
    requires
        rows@.len() == spec_rows@.len(),
        forall|i: int| 0 <= i < rows@.len() ==> (#[trigger] rows@[i])@ == spec_rows@[i],
    ensures
        w == widest(spec_rows@, 0),
{
    let mut w: usize = 0;
    let mut i = rows.len();
    while i > 0
        invariant
            i <= rows@.len(),
            rows@.len() == spec_rows@.len(),
            forall|k: int| 0 <= k < rows@.len() ==> (#[trigger] rows@[k])@ == spec_rows@[k],
            w == widest(spec_rows@, i as int),
        decreases i,
    {
        i = i - 1;
        if rows[i].len() > w {
            w = rows[i].len();
        }
    }
    w
}

/// The grid shown in `rows`.
fn grid_of_rows(rows: &Vec<Vec<char>>, spec_rows: Ghost<Seq<Seq<char>>>) -> (g: Grid)
    requires
        rows@.len() == spec_rows@.len(),
        forall|i: int| 0 <= i < rows@.len() ==> (#[trigger] rows@[i])@ == spec_rows@[i],
        art_fits(spec_rows@),
    ensures
        g.wf(),
        shows_grid(spec_rows@, g@),
{
    let ghost sr = spec_rows@;
    proof {
        lemma_widest(sr, 0);
    }
    let width = widest_exec(rows, spec_rows) as i32;
    let height = rows.len() as i32;
    let mut grid = Grid::new(width, height);
    proof {
        assert forall|p: GridPos| grid@.in_bounds(p) implies #[trigger] grid@.cell(p) == Some(
            floor_cell(),
        ) by {
            crate::grid::lemma_all_floor(width, height, p);
        }
    }
    let mut r: usize = 0;
    while r < rows.len()
        invariant
            grid.wf(),
            rows@.len() == sr.len(),
            forall|i: int| 0 <= i < rows@.len() ==> (#[trigger] rows@[i])@ == sr[i],
            forall|k: int| 0 <= k < sr.len() ==> sr[k].len() <= width,
            width == widest(sr, 0),
            height == sr.len(),
            grid@.width == width,
            grid@.height == height,
            r <= rows@.len(),
            forall|p: GridPos|
                grid@.in_bounds(p) ==> #[trigger] grid@.cell(p) == if height - 1 - p.y < r {
                    Some(art_cell(sr, p))
                } else {
                    Some(floor_cell())
                },
        decreases rows.len() - r,
    {
        let y = height - 1 - r as i32;
        let row = &rows[r];
        let mut x: usize = 0;
        while x < row.len()
            invariant
                grid.wf(),
                rows@.len() == sr.len(),
                forall|i: int| 0 <= i < rows@.len() ==> (#[trigger] rows@[i])@ == sr[i],
                forall|k: int| 0 <= k < sr.len() ==> sr[k].len() <= width,
                row@ == sr[r as int],
                r < rows@.len(),
                y == height - 1 - r,
                height == sr.len(),
                grid@.width == width,
                grid@.height == height,
                x <= row@.len(),
                forall|p: GridPos|
                    grid@.in_bounds(p) ==> #[trigger] grid@.cell(p) == if height - 1 - p.y < r || (
                    p.y == y && p.x < x) {
                        Some(art_cell(sr, p))
                    } else {
                        Some(floor_cell())
                    },
            decreases row.len() - x,
        {
            let cell = glyph_cell_exec(row[x]);
            let ghost g0 = grid@;
            let p = GridPos::new(x as i32, y);
            grid.set(p, cell);
            proof {
                assert forall|q: GridPos| grid@.in_bounds(q) implies #[trigger] grid@.cell(q) == if height - 1
                    - q.y < r || (q.y == y && q.x < x + 1) {
                    Some(art_cell(sr, q))
                } else {
                    Some(floor_cell())
                } by {
                    crate::grid::lemma_with_cell(g0, p, cell, q);
                }
            }
            x = x + 1;
        }
        proof {
            assert forall|q: GridPos| grid@.in_bounds(q) implies #[trigger] grid@.cell(q) == if height - 1
                - q.y < r + 1 {
                Some(art_cell(sr, q))
            } else {
                Some(floor_cell())
            } by {
                if q.y == y && q.x >= x {
                    assert(art_cell(sr, q) == floor_cell());
                }
            }
        }
        r = r + 1;
    }
    grid
}

impl Grid {
    /// Builds a grid from ASCII art. The FIRST line is the TOP row (highest y).
    /// `#` wall, `.` floor, `^` `>` `v` `<` cover tile sheltering its north/east/south/west side;
    /// any other character is floor.
    pub fn from_ascii(art: &str) -> (g: Grid)
        requires
            art_fits(art_rows(art@)),
        ensures
            g.wf(),
            shows_grid(art_rows(art@), g@),
    {
        let rows = rows_of(art);
        grid_of_rows(&rows, Ghost(art_rows(art@)))
    }
}


/// The units drawn in row `r` from column `x` on, left to right: `P` a soldier, `E` an enemy.
pub open spec fn row_units(rows: Seq<Seq<char>>, r: int, x: int) -> Seq<(Side, GridPos)>
    decreases rows[r].len() - x,
{
    if x < 0 || x >= rows[r].len() {
        seq![]
    } else {
        let c = rows[r][x];
        let p = GridPos { x: x as i32, y: (rows.len() - 1 - r) as i32 };
        let here = if c == 'P' {
            seq![(Side::Player, p)]
        } else if c == 'E' {
            seq![(Side::Enemy, p)]
        } else {
            seq![]
        };
        here + row_units(rows, r, x + 1)
    }
}

/// The units drawn from row `r` on, in reading order: top row first, left to right.
pub open spec fn drawn_from(rows: Seq<Seq<char>>, r: int) -> Seq<(Side, GridPos)>
    decreases rows.len() - r,
{
    if r < 0 || r >= rows.len() {
        seq![]
    } else {
        row_units(rows, r, 0) + drawn_from(rows, r + 1)
    }
}

/// The units drawn in the rows, in reading order.
pub open spec fn drawn_units(rows: Seq<Seq<char>>) -> Seq<(Side, GridPos)> {
    drawn_from(rows, 0)
}

proof fn lemma_row_units(rows: Seq<Seq<char>>, r: int, x: int)
    requires
        0 <= r < rows.len(),
        0 <= x,
        rows.len() <= MAX_SIDE,
        rows[r].len() <= MAX_SIDE,
    ensures
        row_units(rows, r, x).len() <= rows[r].len() - x || x >= rows[r].len() && row_units(rows, r, x).len() == 0,
        forall|i: int| 0 <= i < row_units(rows, r, x).len() ==> {
            let p = (#[trigger] row_units(rows, r, x)[i]).1;
            &&& x <= p.x < rows[r].len()
            &&& p.y == rows.len() - 1 - r
        },
    decreases rows[r].len() - x,
{
    if x < rows[r].len() {
        lemma_row_units(rows, r, x + 1);
        let c = rows[r][x];
        let p = GridPos { x: x as i32, y: (rows.len() - 1 - r) as i32 };
        let here = if c == 'P' {
            seq![(Side::Player, p)]
        } else if c == 'E' {
            seq![(Side::Enemy, p)]
        } else {
            seq![]
        };
        let rest = row_units(rows, r, x + 1);
        assert(row_units(rows, r, x) == here + rest);
        assert forall|i: int| 0 <= i < row_units(rows, r, x).len() implies {
            let p = (#[trigger] row_units(rows, r, x)[i]).1;
            &&& x <= p.x < rows[r].len()
            &&& p.y == rows.len() - 1 - r
        } by {
            if i >= here.len() {
                assert(row_units(rows, r, x)[i] == rest[i - here.len()]);
            }
        }
    }
}

proof fn lemma_drawn_from(rows: Seq<Seq<char>>, r: int)
    requires
        0 <= r <= rows.len(),
        art_fits(rows),
    ensures
        drawn_from(rows, r).len() <= (rows.len() - r) * widest(rows, 0),
        forall|i: int| 0 <= i < drawn_from(rows, r).len() ==> {
            let p = (#[trigger] drawn_from(rows, r)[i]).1;
            &&& 0 <= p.x < widest(rows, 0)
            &&& 0 <= p.y < rows.len() - r
        },
    decreases rows.len() - r,
{
    lemma_widest(rows, 0);
    if r < rows.len() {
        lemma_drawn_from(rows, r + 1);
        lemma_row_units(rows, r, 0);
        let a = row_units(rows, r, 0);
        let b = drawn_from(rows, r + 1);
        let w = widest(rows, 0);
        assert((rows.len() - r) * w == w + (rows.len() - r - 1) * w) by (nonlinear_arith);
        assert forall|i: int| 0 <= i < drawn_from(rows, r).len() implies {
            let p = (#[trigger] drawn_from(rows, r)[i]).1;
            &&& 0 <= p.x < widest(rows, 0)
            &&& 0 <= p.y < rows.len() - r
        } by {
            if i < a.len() {
                assert(drawn_from(rows, r)[i] == a[i]);
            } else {
                assert(drawn_from(rows, r)[i] == b[i - a.len()]);
            }
        }
    }
}

impl Battle {
    /// Test builder. Grid glyphs as `Grid::from_ascii`, plus `P` (soldier) and `E`
    /// (enemy) standing on floor. Unit ids follow reading order: top row first, left to right.
    pub fn from_ascii(art: &str, seed: u64) -> (b: Battle)
        requires
            art_fits(art_rows(art@)),
        ensures
            b.wf(),
            shows_grid(art_rows(art@), b@.grid),
            b@.units.len() == drawn_units(art_rows(art@)).len(),
            forall|i: int|
                0 <= i < b@.units.len() ==> #[trigger] b@.units[i] == new_unit(
                    UnitId(i as u32),
                    drawn_units(art_rows(art@))[i].0,
                    drawn_units(art_rows(art@))[i].1,
                ),
            b@.turn == Side::Player,
            b@.turn_number == 1,
            b@.rng == (seed, 0nat),
            b@.outcome is None,
    {
        let rows = rows_of(art);
        let ghost sr = art_rows(art@);
        let grid = grid_of_rows(&rows, Ghost(sr));
        let ghost all = drawn_units(sr);
        proof {
            lemma_drawn_from(sr, 0);
            lemma_widest(sr, 0);
        }
        let height = rows.len() as i32;
        let mut units: Vec<Unit> = Vec::new();
        let mut r: usize = 0;
        while r < rows.len()
            invariant
                rows@.len() == sr.len(),
                forall|i: int| 0 <= i < rows@.len() ==> (#[trigger] rows@[i])@ == sr[i],
                height == sr.len(),
                art_fits(sr),
                r <= rows@.len(),
                all == drawn_units(sr),
                all.len() <= sr.len() * widest(sr, 0),
                all == drawn_from(sr, 0),
                units@.len() <= all.len(),
                all == all.take(units@.len() as int) + drawn_from(sr, r as int),
                forall|i: int|
                    0 <= i < units@.len() ==> #[trigger] units@[i] == new_unit(
                        UnitId(i as u32),
                        all[i].0,
                        all[i].1,
                    ),
            decreases rows.len() - r,
        {
            let row = &rows[r];
            let y = height - 1 - r as i32;
            let ghost start = units@.len() as int;
            proof {
                assert(drawn_from(sr, r as int) == row_units(sr, r as int, 0) + drawn_from(sr, r + 1));
            }
            let mut x: usize = 0;
            while x < row.len()
                invariant
                    rows@.len() == sr.len(),
                    row@ == sr[r as int],
                    r < sr.len(),
                    height == sr.len(),
                    y == height - 1 - r,
                    art_fits(sr),
                    x <= row@.len(),
                    all.len() <= sr.len() * widest(sr, 0),
                    units@.len() <= all.len(),
                    all == all.take(units@.len() as int) + row_units(sr, r as int, x as int) + drawn_from(sr, r + 1),
                    forall|i: int|
                        0 <= i < units@.len() ==> #[trigger] units@[i] == new_unit(
                            UnitId(i as u32),
                            all[i].0,
                            all[i].1,
                        ),
                decreases row.len() - x,
            {
                let c = row[x];
                let ghost m = units@.len() as int;
                let ghost rest = row_units(sr, r as int, x + 1) + drawn_from(sr, r + 1);
                let p = GridPos::new(x as i32, y);
                proof {
                    assert(row_units(sr, r as int, x as int) == (if c == 'P' {
                        seq![(Side::Player, p)]
                    } else if c == 'E' {
                        seq![(Side::Enemy, p)]
                    } else {
                        Seq::<(Side, GridPos)>::empty()
                    }) + row_units(sr, r as int, x + 1));
                    crate::grid::lemma_mul_bound(sr.len() as int, widest(sr, 0));
                }
                if c == 'P' || c == 'E' {
                    let side = if c == 'P' { Side::Player } else { Side::Enemy };
                    proof {
                        assert(all.take(m) + row_units(sr, r as int, x as int) + drawn_from(sr, r + 1)
                            =~= all.take(m) + seq![(side, p)] + rest);
                        assert(all[m] == (side, p));
                        assert(all.take(m + 1) =~= all.take(m) + seq![(side, p)]);
                    }
                    let u = Unit::new(UnitId(units.len() as u32), side, p);
                    units.push(u);
                    proof {
                        assert(all.take(units@.len() as int) + row_units(sr, r as int, x + 1) + drawn_from(sr, r + 1) =~= all);
                    }
                } else {
                    proof {
                        assert(all.take(m) + row_units(sr, r as int, x as int) + drawn_from(sr, r + 1)
                            =~= all.take(m) + rest);
                    }
                }
                x = x + 1;
            }
            proof {
                assert(row_units(sr, r as int, x as int) == Seq::<(Side, GridPos)>::empty());
                assert(all =~= all.take(units@.len() as int) + drawn_from(sr, r + 1));
            }
            r = r + 1;
        }
        proof {
            assert(drawn_from(sr, r as int) == Seq::<(Side, GridPos)>::empty());
            assert(all.take(units@.len() as int) =~= all);
            assert(units@.len() == all.len());
            assert forall|i: int| 0 <= i < units@.len() implies crate::battle::model::unit_ok(#[trigger] units@[i]) && units@[i].id.0 == i by {
                assert(all == drawn_from(sr, 0));
                assert(units@[i] == new_unit(UnitId(i as u32), all[i].0, all[i].1));
            }
            crate::grid::lemma_mul_bound(sr.len() as int, widest(sr, 0));
        }
        Battle::new(grid, units, seed)
    }
}

} // verus!
