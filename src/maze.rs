//! The finished maze: a row-major grid of cells, each of which owns its
//! west and north walls.
use vstd::arithmetic::div_mod::lemma_fundamental_div_mod_converse;
use vstd::prelude::*;

verus! {

/// Two wall bits of one cell: bit 0 is the west wall, bit 1 the north wall.
/// A set bit means the wall is open.
#[derive(Clone, Copy, Debug, PartialEq, Eq, Structural)]
pub struct Cell {
    bits: u8,
}

impl Cell {
    /// Whether the west wall is open.
    pub closed spec fn west(self) -> bool {
        self.bits & 1u8 != 0u8
    }

    /// Whether the north wall is open.
    pub closed spec fn north(self) -> bool {
        self.bits & 2u8 != 0u8
    }

    /// The cell with the given walls open.
    pub closed spec fn new_spec(west_open: bool, north_open: bool) -> Cell {
        Cell { bits: (if west_open { 1u8 } else { 0u8 }) | (if north_open { 2u8 } else { 0u8 }) }
    }

    pub proof fn lemma_new_spec(west_open: bool, north_open: bool)
        ensures
            #[trigger] Cell::new_spec(west_open, north_open).west() == west_open,
            Cell::new_spec(west_open, north_open).north() == north_open,
    {
        assert((0u8 | 0u8) & 1u8 == 0u8 && (0u8 | 0u8) & 2u8 == 0u8) by (bit_vector);
        assert((1u8 | 0u8) & 1u8 != 0u8 && (1u8 | 0u8) & 2u8 == 0u8) by (bit_vector);
        assert((0u8 | 2u8) & 1u8 == 0u8 && (0u8 | 2u8) & 2u8 != 0u8) by (bit_vector);
        assert((1u8 | 2u8) & 1u8 != 0u8 && (1u8 | 2u8) & 2u8 != 0u8) by (bit_vector);
    }

    pub fn new(west_open: bool, north_open: bool) -> (r: Cell)
        ensures
            r.west() == west_open,
            r.north() == north_open,
            r == Cell::new_spec(west_open, north_open),
    {
        let bits: u8 = (if west_open { 1u8 } else { 0u8 }) | (if north_open { 2u8 } else { 0u8 });
        assert((0u8 | 0u8) & 1u8 == 0u8 && (0u8 | 0u8) & 2u8 == 0u8) by (bit_vector);
        assert((1u8 | 0u8) & 1u8 != 0u8 && (1u8 | 0u8) & 2u8 == 0u8) by (bit_vector);
        assert((0u8 | 2u8) & 1u8 == 0u8 && (0u8 | 2u8) & 2u8 != 0u8) by (bit_vector);
        assert((1u8 | 2u8) & 1u8 != 0u8 && (1u8 | 2u8) & 2u8 != 0u8) by (bit_vector);
        Cell { bits }
    }

    pub fn west_open(&self) -> (r: bool)
        ensures
            r == self.west(),
    {
        self.bits & 1u8 > 0
    }

    /// Opens the west wall; the north wall is left as it was.
    pub fn set_west_open(&mut self)
        ensures
            final(self).west(),
            final(self).north() == old(self).north(),
    {
        let b = self.bits;
        assert((b | 1u8) & 1u8 != 0u8 && ((b | 1u8) & 2u8 != 0u8) == (b & 2u8 != 0u8))
            by (bit_vector);
        self.bits = self.bits | 1u8;
    }

    pub fn north_open(&self) -> (r: bool)
        ensures
            r == self.north(),
    {
        self.bits & 2u8 > 0
    }

    /// Opens the north wall; the west wall is left as it was.
    pub fn set_north_open(&mut self)
        ensures
            final(self).north(),
            final(self).west() == old(self).west(),
    {
        let b = self.bits;
        assert((b | 2u8) & 2u8 != 0u8 && ((b | 2u8) & 1u8 != 0u8) == (b & 1u8 != 0u8))
            by (bit_vector);
        self.bits = self.bits | 2u8;
    }
}

/// A grid of `width * height` cells in row-major order: cell `(x, y)` is at
/// index `y * width + x`.
pub struct Maze {
    cells: Vec<Cell>,
    pub width: u32,
    pub height: u32,
}

impl Maze {
    pub open spec fn wf(self) -> bool {
        &&& self.cells_view().len() == self.grid_width() * self.grid_height()
        &&& self.grid_width() * self.grid_height() <= u32::MAX
    }

    pub closed spec fn grid_width(self) -> u32 {
        self.width
    }

    pub closed spec fn grid_height(self) -> u32 {
        self.height
    }

    /// The cells, in row-major order.
    pub closed spec fn cells_view(self) -> Seq<Cell> {
        self.cells@
    }

    /// A grid with every wall closed.
    pub fn new(width: u32, height: u32) -> (r: Maze)
        requires
            width * height <= u32::MAX,
        ensures
            r.wf(),
            r.grid_width() == width,
            r.grid_height() == height,
            forall|i: int| 0 <= i < r.cells_view().len() ==> !#[trigger] r.cells_view()[i].west()
                && !r.cells_view()[i].north(),
    {
        let len: u32 = width * height;
        let closed = Cell::new(false, false);
        let cells = vec![closed; len as usize];
        Maze { cells, width, height }
    }

    pub fn cell(&self, index: usize) -> (r: Cell)
        requires
            index < self.cells_view().len(),
        ensures
            r == self.cells_view()[index as int],
    {
        self.cells[index]
    }

    pub fn cell_mut(&mut self, index: usize) -> (r: &mut Cell)
        requires
            index < old(self).cells_view().len(),
        ensures
            *r == old(self).cells_view()[index as int],
            final(self).cells_view() == old(self).cells_view().update(index as int, *final(r)),
            final(self).wf() == old(self).wf(),
            final(self).grid_width() == old(self).grid_width(),
            final(self).grid_height() == old(self).grid_height(),
    {
        &mut self.cells[index]
    }
}

/// A wall drawn as a straight line from `(x0, y0)` to `(x1, y1)`, in pixels.
#[derive(Clone, Copy, Debug, PartialEq, Eq, Structural)]
pub struct Segment {
    pub x0: u32,
    pub y0: u32,
    pub x1: u32,
    pub y1: u32,
}

pub open spec fn segment(x0: int, y0: int, x1: int, y1: int) -> Segment {
    Segment { x0: x0 as u32, y0: y0 as u32, x1: x1 as u32, y1: y1 as u32 }
}

/// The north wall of cell `(x, y)` with cells `s` pixels wide.
pub open spec fn north_wall(x: int, y: int, s: int) -> Segment {
    segment(x * s, y * s, (x + 1) * s, y * s)
}

/// The west wall of cell `(x, y)` with cells `s` pixels wide.
pub open spec fn west_wall(x: int, y: int, s: int) -> Segment {
    segment(x * s, y * s, x * s, (y + 1) * s)
}

/// The walls that cell `i` of a grid `w` cells wide draws: its north wall
/// unless it is open or is the entrance at cell 0, and its west wall unless
/// it is open.
pub open spec fn cell_walls(c: Cell, i: int, w: int, s: int) -> Seq<Segment> {
    let x = i % w;
    let y = i / w;
    (if c.north() || i == 0 { Seq::empty() } else { seq![north_wall(x, y, s)] })
        + (if c.west() { Seq::empty() } else { seq![west_wall(x, y, s)] })
}

/// The walls of the first `k` cells, in index order.
pub open spec fn cell_walls_upto(cells: Seq<Cell>, w: int, s: int, k: nat) -> Seq<Segment>
    decreases k,
{
    if k == 0 {
        Seq::empty()
    } else {
        cell_walls_upto(cells, w, s, (k - 1) as nat) + cell_walls(cells[k - 1], k - 1, w, s)
    }
}

/// The south border, which stops short of the last column to leave the
/// exit, then the east border.
pub open spec fn border_walls(w: int, h: int, s: int) -> Seq<Segment> {
    seq![segment(0, h * s, (w - 1) * s, h * s), segment(w * s, 0, w * s, h * s)]
}

impl Maze {
    /// Every wall segment of the picture of this maze, cells `s` pixels wide.
    pub open spec fn wall_plan(self, s: int) -> Seq<Segment> {
        let w = self.grid_width() as int;
        let h = self.grid_height() as int;
        if w == 0 || h == 0 {
            Seq::empty()
        } else {
            cell_walls_upto(self.cells_view(), w, s, (w * h) as nat) + border_walls(w, h, s)
        }
    }

    /// The wall segments to draw for a picture of the maze with cells
    /// `cell_size` pixels wide; an empty grid has none.
    pub fn walls(&self, cell_size: u32) -> (r: Vec<Segment>)
        requires
            self.wf(),
            self.grid_width() * cell_size <= u32::MAX,
            self.grid_height() * cell_size <= u32::MAX,
        ensures
            r@ == self.wall_plan(cell_size as int),
    {
        let mut out: Vec<Segment> = Vec::new();
        let w = self.width;
        let h = self.height;
        if w == 0 || h == 0 {
            return out;
        }
        let s = cell_size;
        let n = self.cells.len();
        let mut i: usize = 0;
        proof {
            assert(n <= u32::MAX);
        }
        while i < n
            invariant
                self.wf(),
                w == self.grid_width(),
                h == self.grid_height(),
                w > 0,
                h > 0,
                n == self.cells_view().len(),
                n <= u32::MAX,
                w * s <= u32::MAX,
                h * s <= u32::MAX,
                i <= n,
                out@ == cell_walls_upto(self.cells_view(), w as int, s as int, i as nat),
            decreases n - i,
        {
            let x: u32 = (i as u32) % w;
            let y: u32 = (i as u32) / w;
            proof {
                assert(x == (i as int) % (w as int) && y == (i as int) / (w as int));
                vstd::arithmetic::div_mod::lemma_fundamental_div_mod(i as int, w as int);
                assert(0 <= x < w && 0 <= y < h) by (nonlinear_arith)
                    requires x == (i as int) % (w as int), y == (i as int) / (w as int), 0 <= i < w * h, w > 0,
                        (i as int) == (w as int) * y + x, 0 <= x < w;
                assert((x + 1) * s <= w * s && (y + 1) * s <= h * s) by (nonlinear_arith)
                    requires x < w, y < h;
                assert(x * s <= (x + 1) * s && y * s <= (y + 1) * s) by (nonlinear_arith);
            }
            let cell = self.cells[i];
            let ghost before = out@;
            if !(cell.north_open() || i == 0) {
                out.push(Segment { x0: x * s, y0: y * s, x1: (x + 1) * s, y1: y * s });
            }
            if !cell.west_open() {
                out.push(Segment { x0: x * s, y0: y * s, x1: x * s, y1: (y + 1) * s });
            }
            proof {
                assert(out@ =~= before + cell_walls(self.cells_view()[i as int], i as int, w as int, s as int));
            }
            i = i + 1;
        }
        proof {
            assert((w - 1) * s <= w * s) by (nonlinear_arith)
                requires w > 0;
        }
        out.push(Segment { x0: 0, y0: h * s, x1: (w - 1) * s, y1: h * s });
        out.push(Segment { x0: w * s, y0: 0, x1: w * s, y1: h * s });
        proof {
            assert(out@ =~= self.wall_plan(s as int));
        }
        out
    }
}

/// A segment is among the walls of the first `k` cells exactly when it is
/// among the walls of one of them.
proof fn lemma_walls_upto_contains(cells: Seq<Cell>, w: int, s: int, k: nat, g: Segment)
    requires
        k <= cells.len(),
    ensures
        cell_walls_upto(cells, w, s, k).contains(g) <==> exists|i: int|
            0 <= i < k && #[trigger] cell_walls(cells[i], i, w, s).contains(g),
    decreases k,
{
    if k > 0 {
        lemma_walls_upto_contains(cells, w, s, (k - 1) as nat, g);
        let a = cell_walls_upto(cells, w, s, (k - 1) as nat);
        let b = cell_walls(cells[k - 1], k - 1, w, s);
        lemma_concat_contains(a, b, g);
        if b.contains(g) {
            assert(cell_walls(cells[k - 1], k - 1, w, s).contains(g));
        }
    }
}

proof fn lemma_concat_contains(a: Seq<Segment>, b: Seq<Segment>, g: Segment)
    ensures
        (a + b).contains(g) <==> a.contains(g) || b.contains(g),
{
    if (a + b).contains(g) {
        let k = choose|k: int| 0 <= k < (a + b).len() && (a + b)[k] == g;
        if k < a.len() {
            assert(a[k] == g);
        } else {
            assert(b[k - a.len()] == g);
        }
    }
    if a.contains(g) {
        let k = choose|k: int| 0 <= k < a.len() && a[k] == g;
        assert((a + b)[k] == g);
    }
    if b.contains(g) {
        let k = choose|k: int| 0 <= k < b.len() && b[k] == g;
        assert((a + b)[a.len() + k] == g);
    }
}

/// Each wall of the picture belongs to one cell: the wall between cell
/// `(x, y)` and its north neighbour (or the border above it) is drawn exactly
/// when that cell's north wall is closed, but for the entrance above the top
/// left cell; the wall to its west is drawn exactly when its west wall is
/// closed. So no wall is drawn that an open bit removes, and none is missing.
pub proof fn lemma_cell_walls_drawn(m: Maze, s: int, x: int, y: int)
    requires
        m.wf(),
        s >= 1,
        m.grid_width() * s <= u32::MAX,
        m.grid_height() * s <= u32::MAX,
        0 <= x < m.grid_width(),
        0 <= y < m.grid_height(),
    ensures
        m.wall_plan(s).contains(north_wall(x, y, s)) <==> !(m.cells_view()[y * m.grid_width() + x].north() || (x
            == 0 && y == 0)),
        m.wall_plan(s).contains(west_wall(x, y, s)) <==> !m.cells_view()[y * m.grid_width() + x].west(),
{
    let w = m.grid_width() as int;
    let h = m.grid_height() as int;
    let n = w * h;
    let cells = m.cells_view();
    let i0 = y * w + x;
    lemma_grid_cell(w, h, s, x, y);
    lemma_walls_upto_contains(cells, w, s, n as nat, north_wall(x, y, s));
    lemma_walls_upto_contains(cells, w, s, n as nat, west_wall(x, y, s));
    lemma_concat_contains(cell_walls_upto(cells, w, s, n as nat), border_walls(w, h, s), north_wall(x, y, s));
    lemma_concat_contains(cell_walls_upto(cells, w, s, n as nat), border_walls(w, h, s), west_wall(x, y, s));
    assert(cell_walls(cells[i0], i0, w, s).contains(north_wall(x, y, s)) <==> !(cells[i0].north() || i0 == 0)) by {
        if !(cells[i0].north() || i0 == 0) {
            assert(cell_walls(cells[i0], i0, w, s)[0] == north_wall(x, y, s));
        }
    }
    assert(cell_walls(cells[i0], i0, w, s).contains(west_wall(x, y, s)) <==> !cells[i0].west()) by {
        let c = cell_walls(cells[i0], i0, w, s);
        if !cells[i0].west() {
            assert(c[c.len() - 1] == west_wall(x, y, s));
        }
    }
    assert forall|i: int| 0 <= i < n && #[trigger] cell_walls(cells[i], i, w, s).contains(north_wall(x, y, s)) implies i == i0 by {
        lemma_grid_index(w, h, i);
        lemma_grid_cell(w, h, s, i % w, i / w);
        lemma_only_own_walls(cells[i], i, w, h, s, x, y, north_wall(x, y, s));
    }
    assert forall|i: int| 0 <= i < n && #[trigger] cell_walls(cells[i], i, w, s).contains(west_wall(x, y, s)) implies i == i0 by {
        lemma_grid_index(w, h, i);
        lemma_grid_cell(w, h, s, i % w, i / w);
        lemma_only_own_walls(cells[i], i, w, h, s, x, y, west_wall(x, y, s));
    }
    assert(i0 == 0 <==> (x == 0 && y == 0));
}

/// Along the bottom edge of the picture the only wall is the south border,
/// which runs from the left edge to the left side of the last column: the
/// exit below the bottom right cell is open.
pub proof fn lemma_south_border(m: Maze, s: int)
    requires
        m.wf(),
        s >= 1,
        m.grid_width() >= 1,
        m.grid_height() >= 1,
        m.grid_width() * s <= u32::MAX,
        m.grid_height() * s <= u32::MAX,
    ensures
        m.wall_plan(s).contains(
            segment(0, m.grid_height() * s, (m.grid_width() - 1) * s, m.grid_height() * s),
        ),
        forall|g: Segment|
            #[trigger] m.wall_plan(s).contains(g) && g.y0 == m.grid_height() * s && g.y1 == m.grid_height() * s
                ==> g == segment(0, m.grid_height() * s, (m.grid_width() - 1) * s, m.grid_height() * s),
{
    let w = m.grid_width() as int;
    let h = m.grid_height() as int;
    let n = w * h;
    let cells = m.cells_view();
    let south = segment(0, h * s, (w - 1) * s, h * s);
    assert(0 <= (w - 1) * s <= w * s && 1 <= h * s) by (nonlinear_arith)
        requires w >= 1, h >= 1, s >= 1;
    lemma_concat_contains(cell_walls_upto(cells, w, s, n as nat), border_walls(w, h, s), south);
    assert(border_walls(w, h, s)[0] == south);
    assert forall|g: Segment|
        #[trigger] m.wall_plan(s).contains(g) && g.y0 == h * s && g.y1 == h * s implies g == south by {
        lemma_concat_contains(cell_walls_upto(cells, w, s, n as nat), border_walls(w, h, s), g);
        lemma_walls_upto_contains(cells, w, s, n as nat, g);
        if cell_walls_upto(cells, w, s, n as nat).contains(g) {
            let i = choose|i: int| 0 <= i < n && #[trigger] cell_walls(cells[i], i, w, s).contains(g);
            lemma_grid_index(w, h, i);
            lemma_grid_cell(w, h, s, i % w, i / w);
            let cw = cell_walls(cells[i], i, w, s);
            let k = choose|k: int| 0 <= k < cw.len() && cw[k] == g;
            assert(cw[k] == north_wall(i % w, i / w, s) || cw[k] == west_wall(i % w, i / w, s));
            assert(false);
        }
    }
}

/// The walls that cell `i` draws lie on its own sides: a north or west wall
/// of cell `(x, y)` among them makes `i` that cell.
proof fn lemma_only_own_walls(c: Cell, i: int, w: int, h: int, s: int, x: int, y: int, g: Segment)
    requires
        s >= 1,
        w * s <= u32::MAX,
        h * s <= u32::MAX,
        0 <= x < w,
        0 <= y < h,
        0 <= i < w * h,
        0 <= i % w < w,
        0 <= i / w < h,
        i == (i / w) * w + i % w,
        g == north_wall(x, y, s) || g == west_wall(x, y, s),
        cell_walls(c, i, w, s).contains(g),
    ensures
        i == y * w + x,
{
    let xi = i % w;
    let yi = i / w;
    lemma_grid_cell(w, h, s, x, y);
    lemma_grid_cell(w, h, s, xi, yi);
    let cw = cell_walls(c, i, w, s);
    let k = choose|k: int| 0 <= k < cw.len() && cw[k] == g;
    let gk = cw[k];
    assert(gk == north_wall(xi, yi, s) || gk == west_wall(xi, yi, s));
    if g == north_wall(x, y, s) {
        if gk == west_wall(xi, yi, s) {
            assert(false);
        }
    } else {
        if gk == north_wall(xi, yi, s) {
            assert(false);
        }
    }
    lemma_scale_injective(xi, x, s);
    lemma_scale_injective(yi, y, s);
}

/// Row and column of cell `i` of a grid `w` cells wide.
proof fn lemma_grid_index(w: int, h: int, i: int)
    requires
        w > 0,
        0 <= i < w * h,
    ensures
        0 <= i % w < w,
        0 <= i / w < h,
        i == (i / w) * w + i % w,
{
    vstd::arithmetic::div_mod::lemma_fundamental_div_mod(i, w);
    assert(i == (i / w) * w + i % w) by (nonlinear_arith)
        requires i == w * (i / w) + i % w;
    assert(0 <= i / w < h) by (nonlinear_arith)
        requires i == (i / w) * w + i % w, 0 <= i % w < w, 0 <= i < w * h;
}

/// The pixel corners of cell `(x, y)` fit in `u32`, and distinct cells have
/// distinct corners.
proof fn lemma_grid_cell(w: int, h: int, s: int, x: int, y: int)
    requires
        s >= 1,
        w * s <= u32::MAX,
        h * s <= u32::MAX,
        0 <= x < w,
        0 <= y < h,
    ensures
        0 <= x * s < (x + 1) * s <= w * s,
        0 <= y * s < (y + 1) * s <= h * s,
        (y * w + x) % w == x,
        (y * w + x) / w == y,
        0 <= y * w + x < w * h,
{
    assert(0 <= x * s < (x + 1) * s <= w * s) by (nonlinear_arith)
        requires s >= 1, 0 <= x < w;
    assert(0 <= y * s < (y + 1) * s <= h * s) by (nonlinear_arith)
        requires s >= 1, 0 <= y < h;
    lemma_fundamental_div_mod_converse(y * w + x, w, y, x);
    assert(0 <= y * w + x < w * h) by (nonlinear_arith)
        requires 0 <= x < w, 0 <= y < h;
}

proof fn lemma_scale_injective(a: int, b: int, s: int)
    requires
        s >= 1,
        a * s == b * s,
    ensures
        a == b,
{
    assert(a == b) by (nonlinear_arith)
        requires a * s == b * s, s >= 1;
}

} // verus!
