//! Wilson's algorithm: loop-erased random walks grow a uniform spanning tree
//! of the grid graph, one walk at a time.
use crate::maze::{Cell as MazeCell, Maze};
use crate::tree::{is_spanning_tree, spanning_tree_witness};
use crate::random::shuffle;
use rand::rngs::StdRng;
use vstd::arithmetic::div_mod::lemma_fundamental_div_mod_converse;
use vstd::prelude::*;

verus! {

broadcast use vstd::seq_lib::group_to_multiset_ensures;

/// A step from one cell to a neighbour.
#[derive(Clone, Copy, Debug, PartialEq, Eq, Structural)]
pub enum Direction {
    North,
    South,
    East,
    West,
}

/// The state of one cell while the maze grows.
#[derive(Clone, Copy, Debug, PartialEq, Eq, Structural)]
pub enum Cell {
    /// Never visited by a walk.
    Empty,
    /// In the tree; cells own their west and north walls.
    InMaze(MazeCell),
    /// On the walk in progress, with the direction the walk last left it by.
    Walk(Direction),
}

pub open spec fn is_in_maze(c: Cell) -> bool {
    c is InMaze
}

/// The neighbour of cell `i` in direction `d` on a `w` by `h` grid, if any.
pub open spec fn adjacent(w: int, h: int, i: int, d: Direction) -> Option<int> {
    match d {
        Direction::West => if i % w == 0 { None } else { Some(i - 1) },
        Direction::East => if i % w == w - 1 { None } else { Some(i + 1) },
        Direction::North => if i < w { None } else { Some(i - w) },
        Direction::South => if i >= w * (h - 1) { None } else { Some(i + w) },
    }
}

/// Manhattan distance between cells `i` and `j` of a grid `w` cells wide.
pub open spec fn grid_distance(w: int, i: int, j: int) -> int {
    let dx = i % w - j % w;
    let dy = i / w - j / w;
    (if dx < 0 { -dx } else { dx }) + (if dy < 0 { -dy } else { dy })
}

/// Cell `i` lies in row `i / w` and column `i % w`; its neighbours one step
/// away lie where their index says.
pub(crate) proof fn lemma_neighbour_coords(w: int, h: int, i: int)
    requires
        w > 0,
        0 <= i < w * h,
    ensures
        i % w != 0 ==> i >= 1 && (i - 1) % w == i % w - 1 && (i - 1) / w == i / w,
        i % w != w - 1 ==> i + 1 < w * h,
        i < w * (h - 1) ==> i + w < w * h,
        i % w != w - 1 ==> (i + 1) % w == i % w + 1 && (i + 1) / w == i / w,
        i >= w ==> (i - w) % w == i % w && (i - w) / w == i / w - 1,
        i < w * (h - 1) ==> (i + w) % w == i % w && (i + w) / w == i / w + 1,
        0 <= i % w < w,
        0 <= i / w < h,
        i < w <==> i / w == 0,
        i >= w * (h - 1) <==> i / w == h - 1,
{
    let q = i / w;
    let r = i % w;
    vstd::arithmetic::div_mod::lemma_fundamental_div_mod(i, w);
    assert(i == q * w + r) by (nonlinear_arith)
        requires i == w * (i / w) + i % w, q == i / w, r == i % w;
    assert(0 <= r < w);
    if r != 0 {
        lemma_fundamental_div_mod_converse(i - 1, w, q, r - 1);
    }
    if r != w - 1 {
        lemma_fundamental_div_mod_converse(i + 1, w, q, r + 1);
    }
    if i >= w {
        assert(i - w == (q - 1) * w + r) by (nonlinear_arith)
            requires i == q * w + r;
        lemma_fundamental_div_mod_converse(i - w, w, q - 1, r);
    }
    assert(i + w == (q + 1) * w + r) by (nonlinear_arith)
        requires i == q * w + r;
    lemma_fundamental_div_mod_converse(i + w, w, q + 1, r);
    assert(0 <= q) by (nonlinear_arith)
        requires i == q * w + r, 0 <= r < w, 0 <= i;
    assert(q < h) by (nonlinear_arith)
        requires i == q * w + r, 0 <= r < w, i < w * h;
    assert(i < w <==> q == 0) by (nonlinear_arith)
        requires i == q * w + r, 0 <= r < w, 0 <= q;
    assert(i >= w * (h - 1) <==> q == h - 1) by (nonlinear_arith)
        requires i == q * w + r, 0 <= r < w, 0 <= q < h;
    assert(r != w - 1 ==> i + 1 < w * h) by (nonlinear_arith)
        requires i == q * w + r, 0 <= r < w, 0 <= q < h;
    assert(i < w * (h - 1) ==> i + w < w * h) by (nonlinear_arith);
}

/// On a grid of two or more cells every cell has a neighbour.
proof fn lemma_has_neighbour(w: int, h: int, i: int)
    requires
        w > 0,
        w * h >= 2,
        0 <= i < w * h,
    ensures
        exists|d: Direction| (#[trigger] adjacent(w, h, i, d)) is Some,
{
    lemma_neighbour_coords(w, h, i);
    if w >= 2 {
        if i % w == 0 {
            assert(adjacent(w, h, i, Direction::East) is Some);
        } else {
            assert(adjacent(w, h, i, Direction::West) is Some);
        }
    } else {
        assert(h >= 2) by (nonlinear_arith)
            requires w == 1, w * h >= 2;
        if i == 0 {
            assert(adjacent(w, h, i, Direction::South) is Some);
        } else {
            assert(adjacent(w, h, i, Direction::North) is Some);
        }
    }
}

/// Random steps one walk may take before it heads straight for the tree.
/// Walks on grids of any size meet the tree long before this many steps,
/// except with a probability too small to matter; the bound makes every
/// call of `generate` finish.
pub const MAX_RANDOM_STEPS: u64 = 1099511627776;

/// A loop-erased walk on a `w` by `h` grid, as the cell states record it:
/// `path` visits distinct cells, and each cell but the last is marked with
/// the direction that leads to the next one.
pub open spec fn walk_recorded(
    states: Seq<Cell>,
    w: int,
    h: int,
    path: Seq<usize>,
    dirs: Seq<Direction>,
) -> bool {
    &&& path.len() == dirs.len() + 1
    &&& forall|j: int| 0 <= j < path.len() ==> #[trigger] path[j] < w * h
    &&& forall|a: int, b: int| 0 <= a < b < path.len() ==> #[trigger] path[a] != #[trigger] path[b]
    &&& forall|j: int|
        0 <= j < dirs.len() ==> states[path[j] as int] == Cell::Walk(#[trigger] dirs[j])
            && adjacent(w, h, path[j] as int, dirs[j]) == Some(path[j + 1] as int)
}

/// One more step of a walk: the last cell of `path` was just marked with
/// direction `d`, which leads to `next`, a cell outside the tree. Either `next`
/// closes a loop, which is dropped, or it extends the path.
proof fn lemma_walk_step(
    before: Seq<Cell>,
    states: Seq<Cell>,
    w: int,
    h: int,
    path: Seq<usize>,
    dirs: Seq<Direction>,
    d: Direction,
    next: usize,
) -> (r: (Seq<usize>, Seq<Direction>))
    requires
        walk_recorded(before, w, h, path, dirs),
        before.len() == w * h,
        states == before.update(path.last() as int, Cell::Walk(d)),
        adjacent(w, h, path.last() as int, d) == Some(next as int),
        next < w * h,
    ensures
        walk_recorded(states, w, h, r.0, r.1),
        r.0[0] == path[0],
        r.0.last() == next,
        is_in_maze(states[next as int]) ==> r.1.len() == dirs.len() + 1,
{
    let last = dirs.len() as int;
    assert(path.last() == path[last]);
    assert forall|j: int| 0 <= j < last implies states[#[trigger] path[j] as int] == before[path[j] as int] by {
        assert(path[j] != path[last]);
    }
    if path.contains(next) {
        let m = choose|m: int| 0 <= m < path.len() && path[m] == next;
        if m < last {
            assert(states[path[m] as int] == Cell::Walk(dirs[m]));
        }
        assert(!is_in_maze(states[next as int]));
        let new_path = path.subrange(0, m + 1);
        let new_dirs = dirs.subrange(0, m);
        assert forall|j: int| 0 <= j < new_dirs.len() implies states[new_path[j] as int] == Cell::Walk(#[trigger] new_dirs[j])
            && adjacent(w, h, new_path[j] as int, new_dirs[j]) == Some(new_path[j + 1] as int) by {
            assert(new_path[j] == path[j] && new_dirs[j] == dirs[j] && new_path[j + 1] == path[j + 1]);
        }
        assert forall|a: int, b: int| 0 <= a < b < new_path.len() implies #[trigger] new_path[a] != #[trigger] new_path[b] by {
            assert(new_path[a] == path[a] && new_path[b] == path[b]);
        }
        (new_path, new_dirs)
    } else {
        let new_path = path.push(next);
        let new_dirs = dirs.push(d);
        assert forall|j: int| 0 <= j < new_dirs.len() implies states[new_path[j] as int] == Cell::Walk(#[trigger] new_dirs[j])
            && adjacent(w, h, new_path[j] as int, new_dirs[j]) == Some(new_path[j + 1] as int) by {
            assert(new_path[j] == path[j] && new_dirs[j] == if j < last { dirs[j] } else { d });
        }
        assert forall|a: int, b: int| 0 <= a < b < new_path.len() implies #[trigger] new_path[a] != #[trigger] new_path[b] by {
            if b == new_path.len() - 1 {
                assert(path.contains(path[a]));
            }
        }
        (new_path, new_dirs)
    }
}

/// Cell `k` is in the tree and has the parent `d`, a link that counts for
/// its neighbours' walls unless `k` is the `pending` cell, whose parent is
/// not yet in the tree.
pub open spec fn parent_link(
    states: Seq<Cell>,
    parent: Seq<Option<Direction>>,
    pending: Option<int>,
    k: int,
    d: Direction,
) -> bool {
    is_in_maze(states[k]) && parent[k] == Some(d) && pending != Some(k)
}

/// The tree part of the generator's grid as it grows: the cells in the tree
/// and their walls are a spanning tree of those cells, rooted at `root`,
/// but for the link from the `pending` cell to its parent, which the
/// carving in progress has not reached yet.
pub open spec fn tree_grows(
    states: Seq<Cell>,
    w: int,
    h: int,
    root: int,
    parent: Seq<Option<Direction>>,
    rank: Seq<nat>,
    pending: Option<int>,
) -> bool {
    &&& states.len() == w * h
    &&& parent.len() == w * h
    &&& rank.len() == w * h
    &&& 0 <= root < w * h
    &&& is_in_maze(states[root])
    &&& parent[root] is None
    &&& pending != Some(root)
    &&& forall|i: int|
        0 <= i < w * h && is_in_maze(#[trigger] states[i]) && i != root ==> match parent[i] {
            Some(d) => match adjacent(w, h, i, d) {
                Some(j) => pending == Some(i) || (is_in_maze(states[j]) && rank[j] < rank[i]),
                None => false,
            },
            None => false,
        }
    &&& forall|i: int|
        0 <= i < w * h && is_in_maze(#[trigger] states[i]) ==> states[i]->InMaze_0.west() == (parent[i]
            == Some(Direction::West) || (i % w != 0 && parent_link(states, parent, pending, i - 1, Direction::East)))
    &&& forall|i: int|
        0 <= i < w * h && is_in_maze(#[trigger] states[i]) ==> states[i]->InMaze_0.north() == (parent[i]
            == Some(Direction::North) || (i >= w && parent_link(states, parent, pending, i - w, Direction::South)))
}

/// Changes to cells outside the tree leave the tree as it was.
proof fn lemma_tree_outside_changes(
    before: Seq<Cell>,
    after: Seq<Cell>,
    w: int,
    h: int,
    root: int,
    parent: Seq<Option<Direction>>,
    rank: Seq<nat>,
)
    requires
        w > 0,
        h > 0,
        tree_grows(before, w, h, root, parent, rank, None),
        after.len() == before.len(),
        forall|i: int| 0 <= i < w * h ==> is_in_maze(#[trigger] after[i]) == is_in_maze(before[i]),
        forall|i: int| 0 <= i < w * h && is_in_maze(before[i]) ==> #[trigger] after[i] == before[i],
    ensures
        tree_grows(after, w, h, root, parent, rank, None),
{
    assert forall|i: int| 0 <= i < w * h && is_in_maze(#[trigger] after[i]) && i != root implies match parent[i] {
        Some(d) => match adjacent(w, h, i, d) {
            Some(j) => is_in_maze(after[j]) && rank[j] < rank[i],
            None => false,
        },
        None => false,
    } by {
        assert(is_in_maze(before[i]));
        if let Some(d) = parent[i] {
            if let Some(j) = adjacent(w, h, i, d) {
                lemma_adjacent_in_grid(w, h, i, d);
                assert(is_in_maze(before[j]));
            }
        }
    }
    assert forall|i: int| 0 <= i < w * h && is_in_maze(#[trigger] after[i]) implies after[i]->InMaze_0.west() == (
    parent[i] == Some(Direction::West) || (i % w != 0 && parent_link(after, parent, None, i - 1, Direction::East))) by {
        assert(is_in_maze(before[i]));
        if i % w != 0 {
            lemma_neighbour_coords(w, h, i);
            assert(is_in_maze(after[i - 1]) == is_in_maze(before[i - 1]));
        }
    }
    assert forall|i: int| 0 <= i < w * h && is_in_maze(#[trigger] after[i]) implies after[i]->InMaze_0.north() == (
    parent[i] == Some(Direction::North) || (i >= w && parent_link(after, parent, None, i - w, Direction::South))) by {
        assert(is_in_maze(before[i]));
        if i >= w {
            assert(is_in_maze(after[i - w]) == is_in_maze(before[i - w]));
        }
    }
}

/// One carving step: cell `p`, reached from the `pending` cell `q` by
/// direction `last` (or the start of the walk, with neither), joins the tree
/// with its walls to `q` and towards its own next cell, in direction `d`, open.
/// `p` becomes the pending cell.
proof fn lemma_carve_step(
    before: Seq<Cell>,
    after: Seq<Cell>,
    w: int,
    h: int,
    root: int,
    parent: Seq<Option<Direction>>,
    rank: Seq<nat>,
    pending: Option<int>,
    last: Option<Direction>,
    p: int,
    d: Direction,
    rank_p: nat,
)
    requires
        w > 0,
        h > 0,
        tree_grows(before, w, h, root, parent, rank, pending),
        0 <= p < w * h,
        !is_in_maze(before[p]),
        adjacent(w, h, p, d) is Some,
        pending is None <==> last is None,
        pending matches Some(q) ==> 0 <= q < w * h && is_in_maze(before[q]) && parent[q] == last
            && adjacent(w, h, q, last->0) == Some(p) && adjacent(w, h, p, d) != Some(q) && rank_p < rank[q],
        after == before.update(
            p,
            Cell::InMaze(
                MazeCell::new_spec(
                    d == Direction::West || last == Some(Direction::East),
                    d == Direction::North || last == Some(Direction::South),
                ),
            ),
        ),
    ensures
        tree_grows(after, w, h, root, parent.update(p, Some(d)), rank.update(p, rank_p), Some(p)),
{
    let parent2 = parent.update(p, Some(d));
    let rank2 = rank.update(p, rank_p);
    lemma_neighbour_coords(w, h, p);
    assert forall|i: int| 0 <= i < w * h && is_in_maze(#[trigger] after[i]) && i != root implies match parent2[i] {
        Some(e) => match adjacent(w, h, i, e) {
            Some(j) => Some(p) == Some(i) || (is_in_maze(after[j]) && rank2[j] < rank2[i]),
            None => false,
        },
        None => false,
    } by {
        if i != p {
            assert(is_in_maze(before[i]));
            lemma_adjacent_in_grid(w, h, i, parent[i]->0);
        }
    }
    assert forall|i: int| 0 <= i < w * h && is_in_maze(#[trigger] after[i]) implies after[i]->InMaze_0.west() == (
    parent2[i] == Some(Direction::West) || (i % w != 0 && parent_link(after, parent2, Some(p), i - 1, Direction::East))) by {
        lemma_neighbour_coords(w, h, i);
        if i != p {
            assert(is_in_maze(before[i]));
            if i % w != 0 && i - 1 != p && !(pending == Some(i - 1)) {
                assert(parent_link(after, parent2, Some(p), i - 1, Direction::East) == parent_link(before, parent, pending, i - 1, Direction::East));
            }
            if i % w != 0 && pending == Some(i - 1) && parent[i - 1] == Some(Direction::East) {
                assert(adjacent(w, h, i - 1, Direction::East) == Some(i));
            }
        } else {
            MazeCell::lemma_new_spec(
                d == Direction::West || last == Some(Direction::East),
                d == Direction::North || last == Some(Direction::South),
            );
            if let Some(q) = pending {
                lemma_neighbour_coords(w, h, q);
                if last == Some(Direction::East) {
                    assert(q == p - 1);
                }
            }
            if p % w != 0 && is_in_maze(before[p - 1]) && parent[p - 1] == Some(Direction::East) {
                assert(adjacent(w, h, p - 1, Direction::East) == Some(p));
            }
        }
    }
    assert forall|i: int| 0 <= i < w * h && is_in_maze(#[trigger] after[i]) implies after[i]->InMaze_0.north() == (
    parent2[i] == Some(Direction::North) || (i >= w && parent_link(after, parent2, Some(p), i - w, Direction::South))) by {
        lemma_neighbour_coords(w, h, i);
        if i != p {
            assert(is_in_maze(before[i]));
            if i >= w && i - w != p && !(pending == Some(i - w)) {
                assert(parent_link(after, parent2, Some(p), i - w, Direction::South) == parent_link(before, parent, pending, i - w, Direction::South));
            }
            if i >= w && pending == Some(i - w) && parent[i - w] == Some(Direction::South) {
                lemma_neighbour_coords(w, h, i - w);
                assert(adjacent(w, h, i - w, Direction::South) == Some(i));
            }
        } else {
            MazeCell::lemma_new_spec(
                d == Direction::West || last == Some(Direction::East),
                d == Direction::North || last == Some(Direction::South),
            );
            if let Some(q) = pending {
                lemma_neighbour_coords(w, h, q);
                if last == Some(Direction::South) {
                    assert(q == p - w);
                }
            }
            if p >= w && is_in_maze(before[p - w]) && parent[p - w] == Some(Direction::South) {
                lemma_neighbour_coords(w, h, p - w);
                assert(adjacent(w, h, p - w, Direction::South) == Some(p));
            }
        }
    }
}

/// The last carving step: the walk meets the tree at `t`, coming from the
/// `pending` cell `q` by direction `last`; the wall between them is opened on
/// `t` where `t` owns it, and nothing is pending any more.
proof fn lemma_carve_join(
    before: Seq<Cell>,
    after: Seq<Cell>,
    w: int,
    h: int,
    root: int,
    parent: Seq<Option<Direction>>,
    rank: Seq<nat>,
    q: int,
    last: Direction,
    t: int,
    bits: MazeCell,
)
    requires
        w > 0,
        h > 0,
        tree_grows(before, w, h, root, parent, rank, Some(q)),
        0 <= t < w * h,
        0 <= q < w * h,
        before[t] is InMaze,
        is_in_maze(before[q]),
        parent[q] == Some(last),
        adjacent(w, h, q, last) == Some(t),
        rank[t] < rank[q],
        bits.west() == (before[t]->InMaze_0.west() || last == Direction::East),
        bits.north() == (before[t]->InMaze_0.north() || last == Direction::South),
        after == before.update(t, Cell::InMaze(bits)),
    ensures
        tree_grows(after, w, h, root, parent, rank, None),
{
    lemma_neighbour_coords(w, h, q);
    lemma_neighbour_coords(w, h, t);
    assert forall|i: int| 0 <= i < w * h && is_in_maze(#[trigger] after[i]) && i != root implies match parent[i] {
        Some(e) => match adjacent(w, h, i, e) {
            Some(j) => is_in_maze(after[j]) && rank[j] < rank[i],
            None => false,
        },
        None => false,
    } by {
        assert(is_in_maze(before[i]));
        lemma_adjacent_in_grid(w, h, i, parent[i]->0);
    }
    assert forall|i: int| 0 <= i < w * h && is_in_maze(#[trigger] after[i]) implies after[i]->InMaze_0.west() == (
    parent[i] == Some(Direction::West) || (i % w != 0 && parent_link(after, parent, None, i - 1, Direction::East))) by {
        lemma_neighbour_coords(w, h, i);
        assert(is_in_maze(before[i]));
        if i % w != 0 && i - 1 == q && parent[q] == Some(Direction::East) {
            assert(i == t);
        }
        if i == t && last == Direction::East {
            assert(q == t - 1);
        }
    }
    assert forall|i: int| 0 <= i < w * h && is_in_maze(#[trigger] after[i]) implies after[i]->InMaze_0.north() == (
    parent[i] == Some(Direction::North) || (i >= w && parent_link(after, parent, None, i - w, Direction::South))) by {
        lemma_neighbour_coords(w, h, i);
        assert(is_in_maze(before[i]));
        if i >= w && i - w == q && parent[q] == Some(Direction::South) {
            assert(i == t);
        }
        if i == t && last == Direction::South {
            assert(q == t - w);
        }
    }
}

/// A neighbour lies inside the grid.
pub(crate) proof fn lemma_adjacent_in_grid(w: int, h: int, i: int, d: Direction)
    requires
        w > 0,
        0 <= i < w * h,
    ensures
        adjacent(w, h, i, d) matches Some(j) ==> 0 <= j < w * h,
{
    lemma_neighbour_coords(w, h, i);
}

/// The character drawn above a cell: a gap where its north wall is open.
pub open spec fn north_glyph(c: Cell) -> char {
    match c {
        Cell::InMaze(m) => if m.north() { ' ' } else { '-' },
        _ => '-',
    }
}

/// The character drawn left of a cell: a gap where its west wall is open.
pub open spec fn west_glyph(c: Cell) -> char {
    match c {
        Cell::InMaze(m) => if m.west() { ' ' } else { '|' },
        _ => '|',
    }
}

/// The character drawn inside a cell: `X` if empty, blank in the tree, and
/// the direction a walk left it by.
pub open spec fn state_glyph(c: Cell) -> char {
    match c {
        Cell::Empty => 'X',
        Cell::InMaze(_) => ' ',
        Cell::Walk(Direction::North) => '^',
        Cell::Walk(Direction::East) => '>',
        Cell::Walk(Direction::South) => 'v',
        Cell::Walk(Direction::West) => '<',
    }
}

/// The line above the first `k` cells of row `y`.
pub open spec fn top_line(states: Seq<Cell>, w: int, y: int, k: nat) -> Seq<char>
    decreases k,
{
    if k == 0 {
        Seq::empty()
    } else {
        top_line(states, w, y, (k - 1) as nat) + seq!['-', north_glyph(states[y * w + k - 1])]
    }
}

/// The line through the first `k` cells of row `y`.
pub open spec fn cell_line(states: Seq<Cell>, w: int, y: int, k: nat) -> Seq<char>
    decreases k,
{
    if k == 0 {
        Seq::empty()
    } else {
        cell_line(states, w, y, (k - 1) as nat) + seq![west_glyph(states[y * w + k - 1]), state_glyph(states[y * w + k - 1])]
    }
}

/// The two lines of text for the first `k` rows, each cell two characters wide.
pub open spec fn rows_text(states: Seq<Cell>, w: int, k: nat) -> Seq<char>
    decreases k,
{
    if k == 0 {
        Seq::empty()
    } else {
        let y = k - 1;
        rows_text(states, w, (k - 1) as nat) + top_line(states, w, y, w as nat) + seq!['-', '\n'] + cell_line(
            states,
            w,
            y,
            w as nat,
        ) + seq!['|', '\n']
    }
}

/// The bottom border under `k` cells.
pub open spec fn bottom_line(k: nat) -> Seq<char>
    decreases k,
{
    if k == 0 {
        Seq::empty()
    } else {
        bottom_line((k - 1) as nat) + seq!['-', '-']
    }
}

/// The text picture of a `w` by `h` grid of cell states.
pub open spec fn text_of(states: Seq<Cell>, w: int, h: int) -> Seq<char> {
    rows_text(states, w, h as nat) + bottom_line(w as nat) + seq!['-', '\n']
}

/// Relies on `String::from_iter` over `char`s: the string holds the
/// characters in order.
#[verifier::external_body]
fn string_of(chars: &Vec<char>) -> (r: String)
    ensures
        r@ == chars@,
{
    String::from_iter(chars.iter())
}

/// All four directions, each once.
pub open spec fn holds_every_direction(ds: Seq<Direction>) -> bool {
    ds.contains(Direction::North) && ds.contains(Direction::South) && ds.contains(Direction::East)
        && ds.contains(Direction::West)
}

/// The growing maze: one state per cell, in row-major order, and a stack of
/// cells that may still lack a place in the tree.
pub struct Generator {
    cells: Vec<Cell>,
    pub width: usize,
    pub height: usize,
    unvisited_candidates: Vec<usize>,
}

impl Generator {
    pub closed spec fn grid_width(self) -> usize {
        self.width
    }

    pub closed spec fn grid_height(self) -> usize {
        self.height
    }

    /// The number of cells.
    pub open spec fn area(self) -> int {
        self.grid_width() * self.grid_height()
    }

    /// The cell states, in row-major order.
    pub closed spec fn states(self) -> Seq<Cell> {
        self.cells@
    }

    /// The candidate stack, top last.
    pub closed spec fn candidates(self) -> Seq<usize> {
        self.unvisited_candidates@
    }

    pub open spec fn wf(self) -> bool {
        &&& self.states().len() == self.area()
        &&& self.area() <= u32::MAX
        &&& forall|k: int| 0 <= k < self.candidates().len() ==> #[trigger] self.candidates()[k] < self.area()
    }

    /// Every cell empty, and every index on the candidate stack.
    pub fn new(width: usize, height: usize) -> (r: Generator)
        requires
            width * height <= u32::MAX,
        ensures
            r.wf(),
            r.grid_width() == width,
            r.grid_height() == height,
            forall|i: int| 0 <= i < r.area() ==> #[trigger] r.states()[i] == Cell::Empty,
            r.candidates() == Seq::new((width * height) as nat, |i: int| i as usize),
    {
        let len: usize = width * height;
        let cells = vec![Cell::Empty; len];
        let mut unvisited_candidates: Vec<usize> = Vec::new();
        let mut i: usize = 0;
        while i < len
            invariant
                i <= len,
                unvisited_candidates@ == Seq::new(i as nat, |k: int| k as usize),
            decreases len - i,
        {
            unvisited_candidates.push(i);
            i = i + 1;
        }
        assert(unvisited_candidates@ =~= Seq::new(len as nat, |k: int| k as usize));
        Generator { cells, width, height, unvisited_candidates }
    }

    fn len(&self) -> (r: usize)
        ensures
            r == self.states().len(),
    {
        self.cells.len()
    }

    fn is_empty(&self) -> (r: bool)
        ensures
            r == (self.states().len() == 0),
    {
        self.cells.len() == 0
    }

    fn cell(&self, index: usize) -> (r: &Cell)
        requires
            index < self.states().len(),
        ensures
            *r == self.states()[index as int],
    {
        &self.cells[index]
    }

    fn set_cell(&mut self, index: usize, cell: Cell)
        requires
            index < old(self).states().len(),
        ensures
            final(self).states() == old(self).states().update(index as int, cell),
            final(self).candidates() == old(self).candidates(),
            final(self).grid_width() == old(self).grid_width(),
            final(self).grid_height() == old(self).grid_height(),
    {
        self.cells.set(index, cell);
    }

    /// The neighbour of `index` in `direction`, or `None` on the border.
    fn adjacent_index(&self, index: usize, direction: Direction) -> (r: Option<usize>)
        requires
            self.wf(),
            index < self.area(),
        ensures
            r matches Some(j) ==> j < self.area(),
            r matches Some(j) ==> adjacent(self.grid_width() as int, self.grid_height() as int, index as int, direction)
                == Some(j as int),
            r is None ==> adjacent(self.grid_width() as int, self.grid_height() as int, index as int, direction)
                is None,
    {
        let w = self.width;
        let h = self.height;
        proof {
            assert(w > 0 && h > 0) by (nonlinear_arith)
                requires index < w * h, w >= 0, h >= 0;
            assert(w * (h - 1) == w * h - w) by (nonlinear_arith);
            lemma_neighbour_coords(w as int, h as int, index as int);
        }
        match direction {
            Direction::West => if index % w == 0 { None } else { Some(index - 1) },
            Direction::East => if index % w == w - 1 { None } else { Some(index + 1) },
            Direction::North => if index < w { None } else { Some(index - w) },
            Direction::South => if index >= w * (h - 1) { None } else { Some(index + w) },
        }
    }

    /// Pops candidates until one that is not yet in the tree turns up; the
    /// ones skipped on the way are all in the tree.
    fn choose_walk_start(&mut self) -> (r: Option<usize>)
        requires
            old(self).wf(),
        ensures
            final(self).wf(),
            final(self).states() == old(self).states(),
            final(self).grid_width() == old(self).grid_width(),
            final(self).grid_height() == old(self).grid_height(),
            final(self).candidates().len() <= old(self).candidates().len(),
            forall|j: usize| #[trigger] old(self).candidates().contains(j) ==> final(self).candidates().contains(j)
                || is_in_maze(old(self).states()[j as int]) || r == Some(j),
            r is None ==> final(self).candidates().len() == 0,
            r matches Some(i) ==> i < old(self).area() && !is_in_maze(old(self).states()[i as int])
                && final(self).candidates().len() < old(self).candidates().len(),
    {
        let ghost c0 = self.unvisited_candidates@;
        loop
            invariant
                self.cells@ == old(self).cells@,
                self.width == old(self).width,
                self.height == old(self).height,
                self.unvisited_candidates@.len() <= c0.len(),
                self.unvisited_candidates@ == c0.subrange(0, self.unvisited_candidates@.len() as int),
                forall|k: int| self.unvisited_candidates@.len() <= k < c0.len()
                    ==> is_in_maze(#[trigger] self.cells@[c0[k] as int]),
                c0 == old(self).unvisited_candidates@,
                old(self).wf(),
            decreases self.unvisited_candidates@.len(),
        {
            let ghost before = self.unvisited_candidates@;
            match self.unvisited_candidates.pop() {
                None => {
                    proof {
                        self.lemma_popped(c0, None);
                    }
                    return None;
                },
                Some(idx) => {
                    proof {
                        assert(idx == c0[self.unvisited_candidates@.len() as int]);
                        assert(self.unvisited_candidates@ =~= c0.subrange(0, self.unvisited_candidates@.len() as int));
                    }
                    if !matches!(self.cell(idx), Cell::InMaze(_)) {
                        proof {
                            self.lemma_popped(c0, Some(idx));
                        }
                        return Some(idx);
                    }
                },
            }
        }
    }

    /// What `choose_walk_start` promises, once the stack has shrunk to a
    /// prefix of `c0` and every index popped past the returned one is in the tree.
    proof fn lemma_popped(self, c0: Seq<usize>, r: Option<usize>)
        requires
            self.candidates().len() <= c0.len(),
            self.candidates() == c0.subrange(0, self.candidates().len() as int),
            forall|k: int| 0 <= k < c0.len() ==> #[trigger] c0[k] < self.area(),
            forall|k: int| self.candidates().len() <= k < c0.len() && !(r == Some(c0[k]) && k == self.candidates().len())
                ==> is_in_maze(#[trigger] self.states()[c0[k] as int]),
        ensures
            forall|j: usize| #[trigger] c0.contains(j) ==> self.candidates().contains(j)
                || is_in_maze(self.states()[j as int]) || r == Some(j),
            forall|k: int| 0 <= k < self.candidates().len() ==> #[trigger] self.candidates()[k] < self.area(),
    {
        let n = self.candidates().len();
        assert forall|j: usize| #[trigger] c0.contains(j) implies self.candidates().contains(j)
            || is_in_maze(self.states()[j as int]) || r == Some(j) by {
            let k = choose|k: int| 0 <= k < c0.len() && c0[k] == j;
            if k < n {
                assert(self.candidates()[k] == j);
            }
        }
        assert forall|k: int| 0 <= k < n implies #[trigger] self.candidates()[k] < self.area() by {
            assert(self.candidates()[k] == c0[k]);
        }
    }

    /// Shuffles the directions and takes the first that leads to a neighbour.
    fn choose_random_adjacent(&self, from_idx: usize, directions: &mut Vec<Direction>, rng: &mut StdRng) -> (r: (Direction, usize))
        requires
            self.wf(),
            from_idx < self.area(),
            self.area() >= 2,
            holds_every_direction(old(directions)@),
        ensures
            holds_every_direction(final(directions)@),
            r.1 < self.area(),
            adjacent(self.grid_width() as int, self.grid_height() as int, from_idx as int, r.0) == Some(r.1 as int),
    {
        let ghost w = self.grid_width() as int;
        let ghost h = self.grid_height() as int;
        let ghost d0 = directions@;
        shuffle(directions, rng);
        proof {
            assert forall|d: Direction| d0.contains(d) implies directions@.contains(d) by {
                assert(d0.to_multiset().count(d) > 0);
            }
        }
        let mut k: usize = 0;
        while k < directions.len()
            invariant
                k <= directions@.len(),
                w == self.grid_width() as int,
                h == self.grid_height() as int,
                holds_every_direction(directions@),
                self.wf(),
                from_idx < self.area(),
                forall|m: int| 0 <= m < k ==> adjacent(w, h, from_idx as int, #[trigger] directions@[m]) is None,
            decreases directions@.len() - k,
        {
            let direction = directions[k];
            match self.adjacent_index(from_idx, direction) {
                Some(adjacent_idx) => {
                    return (direction, adjacent_idx);
                },
                None => {},
            }
            k = k + 1;
        }
        proof {
            assert(w > 0) by (nonlinear_arith)
                requires from_idx < w * h, w >= 0, h >= 0;
            lemma_has_neighbour(w, h, from_idx as int);
            let d = choose|d: Direction| (#[trigger] adjacent(w, h, from_idx as int, d)) is Some;
            assert(directions@.contains(d));
            let m = choose|m: int| 0 <= m < directions@.len() && directions@[m] == d;
            assert(adjacent(w, h, from_idx as int, directions@[m]) is None);
        }
        (Direction::North, 0)
    }

    /// A step from `from_idx` that brings the walk one cell closer to `target`.
    fn step_toward(&self, from_idx: usize, target: usize) -> (r: (Direction, usize))
        requires
            self.wf(),
            from_idx < self.area(),
            target < self.area(),
            from_idx != target,
        ensures
            r.1 < self.area(),
            adjacent(self.grid_width() as int, self.grid_height() as int, from_idx as int, r.0) == Some(r.1 as int),
            grid_distance(self.grid_width() as int, r.1 as int, target as int)
                < grid_distance(self.grid_width() as int, from_idx as int, target as int),
    {
        let w = self.width;
        let ghost h = self.grid_height() as int;
        proof {
            assert(w > 0 && h > 0) by (nonlinear_arith)
                requires from_idx < w * h, w >= 0, h >= 0;
            lemma_neighbour_coords(w as int, h, from_idx as int);
            lemma_neighbour_coords(w as int, h, target as int);
            vstd::arithmetic::div_mod::lemma_fundamental_div_mod(from_idx as int, w as int);
            vstd::arithmetic::div_mod::lemma_fundamental_div_mod(target as int, w as int);
        }
        let direction = if from_idx % w < target % w {
            Direction::East
        } else if from_idx % w > target % w {
            Direction::West
        } else if from_idx / w < target / w {
            Direction::South
        } else {
            Direction::North
        };
        match self.adjacent_index(from_idx, direction) {
            Some(j) => (direction, j),
            None => {
                proof {
                    assert(false);
                }
                (direction, from_idx)
            },
        }
    }

    /// Grows a uniform spanning tree of the grid and returns it as a maze.
    /// A grid without cells gives an empty maze.
    pub fn generate(self, rng: &mut StdRng) -> (r: Maze)
        requires
            self.wf(),
            forall|i: int| 0 <= i < self.area() ==> #[trigger] self.candidates().contains(i as usize),
            forall|i: int| 0 <= i < self.area() ==> #[trigger] self.states()[i] == Cell::Empty,
        ensures
            r.wf(),
            self.area() == 0 ==> r.grid_width() == 0 && r.grid_height() == 0,
            self.area() > 0 ==> r.grid_width() == self.grid_width() && r.grid_height()
                == self.grid_height(),
            self.area() > 0 ==> is_spanning_tree(r.cells_view(), self.grid_width() as int, self.grid_height() as int),
    {
        let mut gen = self;
        if gen.is_empty() {
            return Maze::new(0, 0);
        }
        let ghost w = gen.grid_width() as int;
        let ghost h = gen.grid_height() as int;
        let ghost n = w * h;
        proof {
            assert(w > 0 && h > 0) by (nonlinear_arith)
                requires n == w * h, n > 0, w >= 0, h >= 0;
        }
        let ghost mut parent: Seq<Option<Direction>> = Seq::new(n as nat, |i: int| None);
        let ghost mut rank: Seq<nat> = Seq::new(n as nat, |i: int| 0nat);
        let ghost pool0 = gen.unvisited_candidates@;
        assert(pool0 == self.candidates());
        shuffle(&mut gen.unvisited_candidates, rng);
        proof {
            assert forall|x: usize| pool0.contains(x) <==> #[trigger] gen.candidates().contains(x) by {
                assert(pool0.to_multiset().count(x) == gen.candidates().to_multiset().count(x));
            }
            assert forall|k: int| 0 <= k < gen.candidates().len() implies #[trigger] gen.candidates()[k]
                < n by {
                assert(gen.candidates().contains(gen.candidates()[k]));
                assert(pool0.contains(gen.candidates()[k]));
                let m = choose|m: int| 0 <= m < pool0.len() && pool0[m] == gen.candidates()[k];
                assert(self.candidates()[m] < n);
            }
            assert(self.candidates().contains(0int as usize));
            assert(gen.candidates().contains(0usize));
        }
        let ghost pool_shuffled = gen.candidates();
        let initial = match gen.choose_walk_start() {
            Some(i) => i,
            None => {
                proof {
                    assert(self.states()[0] == Cell::Empty);
                    assert(false);
                }
                0
            },
        };
        gen.set_cell(initial, Cell::InMaze(MazeCell::new(false, false)));
        proof {
            assert forall|i: int| 0 <= i < n && is_in_maze(#[trigger] gen.states()[i]) implies i == initial by {
                if i != initial {
                    assert(self.states()[i] == Cell::Empty);
                }
            }
            assert forall|i: int| 0 <= i < n implies #[trigger] parent[i] == None::<Direction> by {}
            let st = gen.states();
            assert(st[initial as int]->InMaze_0 == MazeCell::new_spec(false, false));
            MazeCell::lemma_new_spec(false, false);
            assert forall|i: int| 0 <= i < n && is_in_maze(#[trigger] st[i]) implies st[i]->InMaze_0.west() == (parent[i]
                == Some(Direction::West) || (i % w != 0 && parent_link(st, parent, None, i - 1, Direction::East))) by {
                if i % w != 0 {
                    lemma_neighbour_coords(w, h, i);
                    assert(parent[i - 1] == None::<Direction>);
                }
            }
            assert forall|i: int| 0 <= i < n && is_in_maze(#[trigger] st[i]) implies st[i]->InMaze_0.north() == (parent[i]
                == Some(Direction::North) || (i >= w && parent_link(st, parent, None, i - w, Direction::South))) by {
                if i >= w {
                    assert(parent[i - w] == None::<Direction>);
                }
            }
            assert(tree_grows(gen.states(), w, h, initial as int, parent, rank, None));
            assert forall|i: int| 0 <= i < n && !is_in_maze(#[trigger] gen.states()[i]) implies gen.candidates().contains(
                i as usize,
            ) by {
                assert(self.candidates().contains(i as usize));
                assert(pool_shuffled.contains(i as usize));
                assert(self.states()[i] == Cell::Empty);
            }
        }
        let mut directions: Vec<Direction> = vec![
            Direction::North,
            Direction::South,
            Direction::East,
            Direction::West,
        ];
        proof {
            assert(directions@[0] == Direction::North && directions@[1] == Direction::South);
            assert(directions@[2] == Direction::East && directions@[3] == Direction::West);
        }
        let mut walk_indexes: Vec<usize> = Vec::new();
        loop
            invariant
                gen.wf(),
                gen.grid_width() == w,
                gen.grid_height() == h,
                n == w * h,
                w > 0,
                h > 0,
                initial < n,
                is_in_maze(gen.states()[initial as int]),
                forall|i: int|
                    0 <= i < n && !is_in_maze(#[trigger] gen.states()[i]) ==> gen.candidates().contains(
                        i as usize,
                    ),
                holds_every_direction(directions@),
                tree_grows(gen.states(), w, h, initial as int, parent, rank, None),
            ensures
                gen.wf(),
                gen.grid_width() == w,
                gen.grid_height() == h,
                forall|i: int| 0 <= i < n ==> is_in_maze(#[trigger] gen.states()[i]),
                tree_grows(gen.states(), w, h, initial as int, parent, rank, None),
            decreases gen.candidates().len(),
        {
            let ghost pool1 = gen.candidates();
            let start = match gen.choose_walk_start() {
                Some(s) => s,
                None => {
                    proof {
                        assert forall|i: int| 0 <= i < n implies is_in_maze(#[trigger] gen.states()[i]) by {
                            if !is_in_maze(gen.states()[i]) {
                                assert(pool1.contains(i as usize));
                            }
                        }
                    }
                    break;
                },
            };
            let ghost c0 = gen.states();
            let ghost pool2 = gen.candidates();
            proof {
                assert forall|i: int| 0 <= i < n && !is_in_maze(#[trigger] c0[i]) && i != start implies pool2.contains(
                    i as usize,
                ) by {
                    assert(pool1.contains(i as usize));
                }
            }

            // The walk: a random walk from `start` until it meets the tree,
            // each cell remembering only the direction it was last left by.
            walk_indexes.clear();
            let mut curr = start;
            let mut steps: u64 = 0;
            let ghost mut path: Seq<usize> = seq![start];
            let ghost mut dirs: Seq<Direction> = seq![];
            loop
                invariant_except_break
                    path.last() == curr,
                    !is_in_maze(gen.states()[curr as int]),
                invariant
                    gen.wf(),
                    gen.grid_width() == w,
                    gen.grid_height() == h,
                    n == w * h,
                    w > 0,
                    h > 0,
                    gen.candidates() == pool2,
                    initial < n,
                    is_in_maze(gen.states()[initial as int]),
                    forall|i: int| 0 <= i < n ==> is_in_maze(#[trigger] gen.states()[i]) == is_in_maze(c0[i]),
                    forall|i: int| 0 <= i < n && is_in_maze(c0[i]) ==> #[trigger] gen.states()[i] == c0[i],
                    holds_every_direction(directions@),
                    forall|k: int| 0 <= k < walk_indexes@.len() ==> #[trigger] walk_indexes@[k] < n,
                    steps <= MAX_RANDOM_STEPS,
                    walk_recorded(gen.states(), w, h, path, dirs),
                    path[0] == start,
                ensures
                    gen.wf(),
                    gen.grid_width() == w,
                    gen.grid_height() == h,
                    gen.candidates() == pool2,
                    forall|i: int| 0 <= i < n ==> is_in_maze(#[trigger] gen.states()[i]) == is_in_maze(c0[i]),
                    forall|i: int| 0 <= i < n && is_in_maze(c0[i]) ==> #[trigger] gen.states()[i] == c0[i],
                    holds_every_direction(directions@),
                    forall|k: int| 0 <= k < walk_indexes@.len() ==> #[trigger] walk_indexes@[k] < n,
                    walk_recorded(gen.states(), w, h, path, dirs),
                    path[0] == start,
                    dirs.len() >= 1,
                    is_in_maze(gen.states()[path.last() as int]),
                decreases MAX_RANDOM_STEPS - steps, grid_distance(w, curr as int, initial as int),
            {
                walk_indexes.push(curr);
                let (direction, adjacent_idx) = if steps < MAX_RANDOM_STEPS {
                    steps = steps + 1;
                    gen.choose_random_adjacent(curr, &mut directions, rng)
                } else {
                    gen.step_toward(curr, initial)
                };
                let ghost before = gen.states();
                gen.set_cell(curr, Cell::Walk(direction));
                if matches!(gen.cell(adjacent_idx), Cell::InMaze(_)) {
                    proof {
                        let r = lemma_walk_step(before, gen.states(), w, h, path, dirs, direction, adjacent_idx);
                        path = r.0;
                        dirs = r.1;
                    }
                    break;
                }
                proof {
                    let r = lemma_walk_step(before, gen.states(), w, h, path, dirs, direction, adjacent_idx);
                    path = r.0;
                    dirs = r.1;
                }
                curr = adjacent_idx;
            }

            // Carving: follow the recorded directions from `start`; loops the
            // walk made have been overwritten and are not followed.
            let ghost c1 = gen.states();
            proof {
                lemma_tree_outside_changes(c0, c1, w, h, initial as int, parent, rank);
            }
            let carved = gen.carve(start, Ghost(path), Ghost(dirs), Ghost(initial as int), Ghost(parent), Ghost(rank));
            let ghost c2 = gen.states();
            proof {
                parent = carved@.0;
                rank = carved@.1;
                assert forall|i: int| 0 <= i < n && !is_in_maze(#[trigger] gen.states()[i]) implies !is_in_maze(c1[i]) by {
                    assert(gen.states()[i] == c1[i]);
                }
            }

            // Walk marks left off the carved path go back to empty.
            let mut k: usize = 0;
            while k < walk_indexes.len()
                invariant
                    gen.wf(),
                    gen.grid_width() == w,
                    gen.grid_height() == h,
                    n == w * h,
                    gen.candidates() == pool2,
                    forall|m: int| 0 <= m < walk_indexes@.len() ==> #[trigger] walk_indexes@[m] < n,
                    forall|i: int| 0 <= i < n && is_in_maze(c1[i]) ==> is_in_maze(#[trigger] gen.states()[i]),
                    forall|i: int| 0 <= i < n && !is_in_maze(#[trigger] gen.states()[i]) ==> !is_in_maze(c1[i]),
                    start < n,
                    is_in_maze(gen.states()[start as int]),
                    forall|i: int| 0 <= i < n ==> is_in_maze(#[trigger] gen.states()[i]) == is_in_maze(c2[i]),
                    forall|i: int| 0 <= i < n && is_in_maze(c2[i]) ==> #[trigger] gen.states()[i] == c2[i],
                decreases walk_indexes@.len() - k,
            {
                let idx = walk_indexes[k];
                if matches!(gen.cell(idx), Cell::Walk(_)) {
                    gen.set_cell(idx, Cell::Empty);
                }
                k = k + 1;
            }
            proof {
                lemma_tree_outside_changes(c2, gen.states(), w, h, initial as int, parent, rank);
                assert forall|i: int| 0 <= i < n && !is_in_maze(#[trigger] gen.states()[i]) implies gen.candidates().contains(
                    i as usize,
                ) by {
                    assert(!is_in_maze(c1[i]));
                    assert(!is_in_maze(c0[i]));
                }
            }
        }

        // Every cell is in the tree: copy the walls into a fresh maze.
        proof {
            assert(w <= u32::MAX && h <= u32::MAX) by (nonlinear_arith)
                requires n == w * h, n <= u32::MAX, w > 0, h > 0;
        }
        let mut maze = Maze::new(gen.width as u32, gen.height as u32);
        let mut idx: usize = 0;
        while idx < gen.cells.len()
            invariant
                gen.wf(),
                gen.grid_width() == w,
                gen.grid_height() == h,
                forall|i: int| 0 <= i < n ==> is_in_maze(#[trigger] gen.states()[i]),
                n == w * h,
                maze.wf(),
                maze.grid_width() == w,
                maze.grid_height() == h,
                idx <= n,
                forall|k: int| 0 <= k < idx ==> #[trigger] maze.cells_view()[k] == gen.states()[k]->InMaze_0,
            decreases gen.states().len() - idx,
        {
            match gen.cells[idx] {
                Cell::InMaze(mc) => {
                    *maze.cell_mut(idx) = mc;
                },
                _ => {
                    proof {
                        assert(is_in_maze(gen.states()[idx as int]));
                    }
                },
            }
            idx = idx + 1;
        }
        proof {
            let cells = maze.cells_view();
            assert forall|i: int| 0 <= i < n && i != initial implies match #[trigger] parent[i] {
                Some(d) => match adjacent(w, h, i, d) {
                    Some(j) => rank[j] < rank[i],
                    None => false,
                },
                None => false,
            } by {
                assert(is_in_maze(gen.states()[i]));
            }
            assert forall|i: int| 0 <= i < n implies (#[trigger] cells[i]).west() == (parent[i] == Some(Direction::West)
                || (i % w != 0 && parent[i - 1] == Some(Direction::East))) by {
                assert(is_in_maze(gen.states()[i]));
                if i % w != 0 {
                    lemma_neighbour_coords(w, h, i);
                    assert(is_in_maze(gen.states()[i - 1]));
                }
            }
            assert forall|i: int| 0 <= i < n implies (#[trigger] cells[i]).north() == (parent[i] == Some(Direction::North)
                || (i >= w && parent[i - w] == Some(Direction::South))) by {
                assert(is_in_maze(gen.states()[i]));
                if i >= w {
                    assert(is_in_maze(gen.states()[i - w]));
                }
            }
            assert(spanning_tree_witness(cells, w, h, initial as int, parent, rank));
        }
        maze
    }

    /// Carves a finished walk into the tree: follows the recorded directions
    /// from the start of `full` until the tree, and opens the wall crossed by
    /// each step on whichever of its two cells owns it.
    fn carve(
        &mut self,
        start: usize,
        full: Ghost<Seq<usize>>,
        fdirs: Ghost<Seq<Direction>>,
        root: Ghost<int>,
        parent: Ghost<Seq<Option<Direction>>>,
        rank: Ghost<Seq<nat>>,
    ) -> (r: Ghost<(Seq<Option<Direction>>, Seq<nat>)>)
        requires
            tree_grows(old(self).states(), old(self).grid_width() as int, old(self).grid_height() as int, root@, parent@, rank@, None),
            old(self).wf(),
            walk_recorded(old(self).states(), old(self).grid_width() as int, old(self).grid_height() as int, full@, fdirs@),
            full@[0] == start,
            fdirs@.len() >= 1,
            is_in_maze(old(self).states()[full@.last() as int]),
        ensures
            final(self).wf(),
            final(self).grid_width() == old(self).grid_width(),
            final(self).grid_height() == old(self).grid_height(),
            final(self).candidates() == old(self).candidates(),
            is_in_maze(final(self).states()[start as int]),
            forall|i: int| 0 <= i < old(self).area() && is_in_maze(old(self).states()[i])
                ==> is_in_maze(#[trigger] final(self).states()[i]),
            forall|i: int| 0 <= i < old(self).area() ==> is_in_maze(#[trigger] final(self).states()[i])
                || final(self).states()[i] == old(self).states()[i],
            tree_grows(final(self).states(), old(self).grid_width() as int, old(self).grid_height() as int, root@, r@.0, r@.1, None),
    {
        let ghost c1 = self.states();
        let ghost root = root@;
        let ghost mut par = parent@;
        let ghost mut rk = rank@;
        let ghost mut pend: Option<int> = None;
        let ghost len = fdirs@.len() as int;
        let ghost base = rank@[full@[len] as int];
        let ghost c1cands = self.candidates();
        let ghost w = self.grid_width() as int;
        let ghost h = self.grid_height() as int;
        let ghost n = w * h;
        let ghost full = full@;
        let ghost fdirs = fdirs@;
        proof {
            assert(w > 0 && h > 0) by (nonlinear_arith)
                requires n == w * h, full[0] < n, w >= 0, h >= 0;
        }
        let ghost mut j: int = 0;
        let mut curr = start;
        let mut last_direction: Option<Direction> = None;
        loop
            invariant_except_break
                forall|m: int| j <= m < full.len() ==> self.states()[#[trigger] full[m] as int] == c1[full[m] as int],
                tree_grows(self.states(), w, h, root, par, rk, pend),
                j == 0 ==> pend is None,
                j > 0 ==> pend == Some(full[j - 1] as int) && par[full[j - 1] as int] == Some(fdirs[j - 1])
                    && rk[full[j - 1] as int] == base + len - (j - 1),
            invariant
                self.wf(),
                self.grid_width() == w,
                self.grid_height() == h,
                n == w * h,
                w > 0,
                h > 0,
                self.candidates() == c1cands,
                walk_recorded(c1, w, h, full, fdirs),
                full[0] == start,
                is_in_maze(c1[full.last() as int]),
                0 <= j < full.len(),
                curr == full[j],
                j == 0 ==> last_direction is None,
                j > 0 ==> last_direction == Some(fdirs[j - 1]),
                forall|m: int| 0 <= m < j ==> is_in_maze(self.states()[#[trigger] full[m] as int]),
                forall|i: int| 0 <= i < n && is_in_maze(c1[i]) ==> is_in_maze(#[trigger] self.states()[i]),
                forall|i: int| 0 <= i < n ==> is_in_maze(#[trigger] self.states()[i]) || self.states()[i] == c1[i],
                len == fdirs.len(),
                len >= 1,
                rk[full[len] as int] == base,
            ensures
                self.wf(),
                self.grid_width() == w,
                self.grid_height() == h,
                self.candidates() == c1cands,
                is_in_maze(self.states()[start as int]),
                tree_grows(self.states(), w, h, root, par, rk, None),
                forall|i: int| 0 <= i < n && is_in_maze(c1[i]) ==> is_in_maze(#[trigger] self.states()[i]),
                forall|i: int| 0 <= i < n ==> is_in_maze(#[trigger] self.states()[i]) || self.states()[i] == c1[i],
            decreases full.len() - j,
        {
            let cell = *self.cell(curr);
            match cell {
                Cell::Walk(direction) => {
                    proof {
                        assert(j < full.len() - 1);
                        assert(direction == fdirs[j]);
                    }
                    let west_open = matches!(direction, Direction::West) || matches!(last_direction, Some(Direction::East));
                    let north_open = matches!(direction, Direction::North) || matches!(last_direction, Some(Direction::South));
                    let ghost before = self.states();
                    self.set_cell(curr, Cell::InMaze(MazeCell::new(west_open, north_open)));
                    proof {
                        let p = full[j] as int;
                        lemma_carve_step(before, self.states(), w, h, root, par, rk, pend, last_direction, p, direction,
                            (base + len - j) as nat);
                        assert(full[j] != full[len]);
                        par = par.update(p, Some(direction));
                        rk = rk.update(p, (base + len - j) as nat);
                        pend = Some(p);
                        assert forall|m: int| j < m < full.len() implies self.states()[#[trigger] full[m] as int]
                            == c1[full[m] as int] by {
                            assert(full[j] != full[m]);
                        }
                    }
                    curr = match self.adjacent_index(curr, direction) {
                        Some(x) => x,
                        None => {
                            proof {
                                assert(false);
                            }
                            curr
                        },
                    };
                    last_direction = Some(direction);
                    proof {
                        j = j + 1;
                    }
                },
                Cell::InMaze(mc) => {
                    let mut mc = mc;
                    match last_direction {
                        Some(Direction::East) => mc.set_west_open(),
                        Some(Direction::South) => mc.set_north_open(),
                        _ => {},
                    }
                    let ghost before = self.states();
                    self.set_cell(curr, Cell::InMaze(mc));
                    proof {
                        assert(j == full.len() - 1);
                        let q = full[j - 1];
                        assert(0 <= j - 1 < j);
                        assert(is_in_maze(before[q as int]));
                        assert(q < w * h);
                        assert(full[j] < w * h);
                        lemma_carve_join(before, self.states(), w, h, root, par, rk, full[j - 1] as int, fdirs[j - 1],
                            full[j] as int, mc);
                        pend = None;
                        assert(is_in_maze(self.states()[full[0] as int]));
                    }
                    break;
                },
                Cell::Empty => {
                    proof {
                        assert(false);
                    }
                    break;
                },
            }
        }
        Ghost((par, rk))
    }

    /// A text picture of the grid as it stands: `-` and `|` for closed walls,
    /// `X` for an empty cell, and `^`, `>`, `v`, `<` for a walk's directions.
    pub fn to_text(&self) -> (r: String)
        requires
            self.wf(),
        ensures
            r@ == text_of(self.states(), self.grid_width() as int, self.grid_height() as int),
    {
        let w = self.width;
        let h = self.height;
        let mut out: Vec<char> = Vec::new();
        let mut row: usize = 0;
        while row < h
            invariant
                self.wf(),
                w == self.grid_width(),
                h == self.grid_height(),
                row <= h,
                out@ == rows_text(self.states(), w as int, row as nat),
            decreases h - row,
        {
            let ghost before = out@;
            let mut col: usize = 0;
            while col < w
                invariant
                    self.wf(),
                    w == self.grid_width(),
                    h == self.grid_height(),
                    row < h,
                    col <= w,
                    out@ == before + top_line(self.states(), w as int, row as int, col as nat),
                decreases w - col,
            {
                proof {
                    assert(row * w + col < w * h) by (nonlinear_arith)
                        requires row < h, col < w;
                }
                let idx = row * w + col;
                out.push('-');
                out.push(north_char(self.cell(idx)));
                col = col + 1;
            }
            out.push('-');
            out.push('\n');
            let ghost mid = out@;
            let mut col: usize = 0;
            while col < w
                invariant
                    self.wf(),
                    w == self.grid_width(),
                    h == self.grid_height(),
                    row < h,
                    col <= w,
                    out@ == mid + cell_line(self.states(), w as int, row as int, col as nat),
                decreases w - col,
            {
                proof {
                    assert(row * w + col < w * h) by (nonlinear_arith)
                        requires row < h, col < w;
                }
                let idx = row * w + col;
                out.push(west_char(self.cell(idx)));
                out.push(state_char(self.cell(idx)));
                col = col + 1;
            }
            out.push('|');
            out.push('\n');
            proof {
                assert(out@ =~= rows_text(self.states(), w as int, (row + 1) as nat));
            }
            row = row + 1;
        }
        let ghost before = out@;
        let mut col: usize = 0;
        while col < w
            invariant
                col <= w,
                out@ == before + bottom_line(col as nat),
            decreases w - col,
        {
            out.push('-');
            out.push('-');
            col = col + 1;
        }
        out.push('-');
        out.push('\n');
        proof {
            assert(out@ =~= text_of(self.states(), w as int, h as int));
        }
        string_of(&out)
    }
}

fn north_char(c: &Cell) -> (r: char)
    ensures
        r == north_glyph(*c),
{
    match c {
        Cell::InMaze(m) => if m.north_open() { ' ' } else { '-' },
        _ => '-',
    }
}

fn west_char(c: &Cell) -> (r: char)
    ensures
        r == west_glyph(*c),
{
    match c {
        Cell::InMaze(m) => if m.west_open() { ' ' } else { '|' },
        _ => '|',
    }
}

fn state_char(c: &Cell) -> (r: char)
    ensures
        r == state_glyph(*c),
{
    match c {
        Cell::Empty => 'X',
        Cell::InMaze(_) => ' ',
        Cell::Walk(Direction::North) => '^',
        Cell::Walk(Direction::East) => '>',
        Cell::Walk(Direction::South) => 'v',
        Cell::Walk(Direction::West) => '<',
    }
}

} // verus!
