//! What makes a maze perfect: its open walls are the links of a spanning
//! tree of the grid. The laws here state what follows for the walls and for
//! the picture.
use crate::maze::{lemma_cell_walls_drawn, lemma_south_border, north_wall, segment, Cell as MazeCell, Maze, Segment};
use crate::wilsons::{adjacent, lemma_adjacent_in_grid, lemma_neighbour_coords, Direction};
use vstd::prelude::*;

verus! {

/// Whether the walls of `cells`, a `w` by `h` grid, are exactly the links
/// of a rooted spanning tree: every cell but `root` has a parent among its
/// neighbours, of lower rank, so that following parents leads from every
/// cell to the root; and a cell's west (north) wall is open exactly where
/// the cell's parent lies west (north) of it, or the cell is the parent of
/// its west (north) neighbour. The open walls then link `w * h - 1` pairs of
/// cells, join every cell to every other, and close no cycle.
pub open spec fn spanning_tree_witness(
    cells: Seq<MazeCell>,
    w: int,
    h: int,
    root: int,
    parent: Seq<Option<Direction>>,
    rank: Seq<nat>,
) -> bool {
    &&& cells.len() == w * h
    &&& parent.len() == w * h
    &&& rank.len() == w * h
    &&& 0 <= root < w * h
    &&& parent[root] is None
    &&& forall|i: int|
        0 <= i < w * h && i != root ==> match #[trigger] parent[i] {
            Some(d) => match adjacent(w, h, i, d) {
                Some(j) => rank[j] < rank[i],
                None => false,
            },
            None => false,
        }
    &&& forall|i: int|
        0 <= i < w * h ==> (#[trigger] cells[i]).west() == (parent[i] == Some(Direction::West) || (i % w
            != 0 && parent[i - 1] == Some(Direction::East)))
    &&& forall|i: int|
        0 <= i < w * h ==> (#[trigger] cells[i]).north() == (parent[i] == Some(Direction::North) || (i
            >= w && parent[i - w] == Some(Direction::South)))
}

/// The walls of `cells`, a `w` by `h` grid, form a spanning tree of the grid
/// graph (see `spanning_tree_witness`).
pub open spec fn is_spanning_tree(cells: Seq<MazeCell>, w: int, h: int) -> bool {
    exists|root: int, parent: Seq<Option<Direction>>, rank: Seq<nat>|
        spanning_tree_witness(cells, w, h, root, parent, rank)
}

/// The number of `i` in `0..k` at which `f` holds.
pub open spec fn count_where(f: spec_fn(int) -> bool, k: nat) -> nat
    decreases k,
{
    if k == 0 {
        0
    } else {
        count_where(f, (k - 1) as nat) + if f(k - 1) { 1nat } else { 0nat }
    }
}

/// The number of open walls among the first `k` cells.
pub open spec fn open_walls(cells: Seq<MazeCell>, k: nat) -> nat
    decreases k,
{
    if k == 0 {
        0
    } else {
        open_walls(cells, (k - 1) as nat) + (if cells[k - 1].west() { 1nat } else { 0nat }) + (if cells[k
            - 1].north() { 1nat } else { 0nat })
    }
}

proof fn lemma_count_none(f: spec_fn(int) -> bool, k: nat)
    requires
        forall|i: int| 0 <= i < k ==> !#[trigger] f(i),
    ensures
        count_where(f, k) == 0,
    decreases k,
{
    if k > 0 {
        lemma_count_none(f, (k - 1) as nat);
    }
}

/// Counting `f` over `0..k` is counting `g` over `0..k - s` when `f` is `g`
/// moved `s` places up.
proof fn lemma_count_shift(f: spec_fn(int) -> bool, g: spec_fn(int) -> bool, s: nat, k: nat)
    requires
        s <= k,
        forall|i: int| 0 <= i < k ==> #[trigger] f(i) == (i >= s && g(i - s)),
    ensures
        count_where(f, k) == count_where(g, (k - s) as nat),
    decreases k,
{
    if k == s {
        lemma_count_none(f, k);
    } else {
        lemma_count_shift(f, g, s, (k - 1) as nat);
    }
}

/// Counting stops growing past the last index where `g` holds.
proof fn lemma_count_tail(g: spec_fn(int) -> bool, m: nat, k: nat)
    requires
        m <= k,
        forall|i: int| m <= i < k ==> !#[trigger] g(i),
    ensures
        count_where(g, k) == count_where(g, m),
    decreases k,
{
    if k > m {
        lemma_count_tail(g, m, (k - 1) as nat);
    }
}

/// Counts add up where the predicates split one another pointwise.
proof fn lemma_count_split4(
    f: spec_fn(int) -> bool,
    a: spec_fn(int) -> bool,
    b: spec_fn(int) -> bool,
    c: spec_fn(int) -> bool,
    d: spec_fn(int) -> bool,
    k: nat,
)
    requires
        forall|i: int|
            0 <= i < k ==> (if #[trigger] f(i) { 1int } else { 0int }) == (if a(i) { 1int } else { 0int }) + (if b(i) { 1int } else { 0int })
                + (if c(i) { 1int } else { 0int }) + (if d(i) { 1int } else { 0int }),
    ensures
        count_where(f, k) == count_where(a, k) + count_where(b, k) + count_where(c, k) + count_where(d, k),
    decreases k,
{
    if k > 0 {
        lemma_count_split4(f, a, b, c, d, (k - 1) as nat);
    }
}

proof fn lemma_open_walls_split(
    cells: Seq<MazeCell>,
    a: spec_fn(int) -> bool,
    b: spec_fn(int) -> bool,
    c: spec_fn(int) -> bool,
    d: spec_fn(int) -> bool,
    k: nat,
)
    requires
        k <= cells.len(),
        forall|i: int|
            0 <= i < k ==> (if (#[trigger] cells[i]).west() { 1int } else { 0int }) == (if a(i) { 1int } else { 0int }) + (if c(i) { 1int } else { 0int }),
        forall|i: int|
            0 <= i < k ==> (if (#[trigger] cells[i]).north() { 1int } else { 0int }) == (if b(i) { 1int } else { 0int }) + (if d(i) { 1int } else { 0int }),
    ensures
        open_walls(cells, k) == count_where(a, k) + count_where(b, k) + count_where(c, k) + count_where(d, k),
    decreases k,
{
    if k > 0 {
        lemma_open_walls_split(cells, a, b, c, d, (k - 1) as nat);
    }
}

proof fn lemma_count_all_but_one(f: spec_fn(int) -> bool, root: int, k: nat)
    requires
        0 <= root < k,
        forall|i: int| 0 <= i < k ==> #[trigger] f(i) == (i != root),
    ensures
        count_where(f, k) == k - 1,
    decreases k,
{
    if k - 1 == root {
        lemma_count_all(f, (k - 1) as nat);
    } else {
        lemma_count_all_but_one(f, root, (k - 1) as nat);
    }
}

proof fn lemma_count_all(f: spec_fn(int) -> bool, k: nat)
    requires
        forall|i: int| 0 <= i < k ==> #[trigger] f(i),
    ensures
        count_where(f, k) == k,
    decreases k,
{
    if k > 0 {
        lemma_count_all(f, (k - 1) as nat);
    }
}

/// A maze whose walls form a spanning tree of a `w` by `h` grid has exactly
/// `w * h - 1` open walls: one for each cell but the root, the wall to its
/// parent.
pub proof fn lemma_tree_wall_count(cells: Seq<MazeCell>, w: int, h: int)
    requires
        w >= 1,
        h >= 1,
        is_spanning_tree(cells, w, h),
    ensures
        open_walls(cells, (w * h) as nat) == w * h - 1,
{
    let n = w * h;
    let (root, parent, rank) = choose|root: int, parent: Seq<Option<Direction>>, rank: Seq<nat>|
        spanning_tree_witness(cells, w, h, root, parent, rank);
    let to_w = |i: int| parent[i] == Some(Direction::West);
    let to_n = |i: int| parent[i] == Some(Direction::North);
    let to_e = |i: int| parent[i] == Some(Direction::East);
    let to_s = |i: int| parent[i] == Some(Direction::South);
    let from_w = |i: int| i % w != 0 && parent[i - 1] == Some(Direction::East);
    let from_n = |i: int| i >= w && parent[i - w] == Some(Direction::South);
    let has_parent = |i: int| parent[i] is Some;
    let not_root = |i: int| i != root;
    assert forall|i: int| 0 <= i < n implies (if (#[trigger] cells[i]).west() { 1int } else { 0int }) == (if to_w(i) { 1int } else { 0int })
        + (if from_w(i) { 1int } else { 0int }) by {
        lemma_neighbour_coords(w, h, i);
        if to_w(i) && from_w(i) {
            assert(rank[i - 1] < rank[i]);
            lemma_neighbour_coords(w, h, i - 1);
            assert(rank[i] < rank[i - 1]);
        }
    }
    assert forall|i: int| 0 <= i < n implies (if (#[trigger] cells[i]).north() { 1int } else { 0int }) == (if to_n(i) { 1int } else { 0int })
        + (if from_n(i) { 1int } else { 0int }) by {
        lemma_neighbour_coords(w, h, i);
        if to_n(i) && from_n(i) {
            assert(rank[i - w] < rank[i]);
            lemma_neighbour_coords(w, h, i - w);
            assert(rank[i] < rank[i - w]);
        }
    }
    lemma_open_walls_split(cells, to_w, to_n, from_w, from_n, n as nat);
    assert forall|i: int| 0 <= i < n implies #[trigger] from_w(i) == (i >= 1 && to_e(i - 1)) by {
        lemma_neighbour_coords(w, h, i);
        if i >= 1 && to_e(i - 1) {
            lemma_neighbour_coords(w, h, i - 1);
        }
    }
    lemma_count_shift(from_w, to_e, 1, n as nat);
    assert forall|i: int| n - 1 <= i < n implies !#[trigger] to_e(i) by {
        lemma_neighbour_coords(w, h, i);
        assert(i >= w * (h - 1) && i / w == h - 1);
        vstd::arithmetic::div_mod::lemma_fundamental_div_mod(i, w);
        assert(i % w == w - 1) by (nonlinear_arith)
            requires i == w * (i / w) + i % w, i / w == h - 1, i == w * h - 1;
    }
    lemma_count_tail(to_e, (n - 1) as nat, n as nat);
    assert(w * (h - 1) == n - w) by (nonlinear_arith)
        requires n == w * h;
    assert forall|i: int| 0 <= i < n implies #[trigger] from_n(i) == (i >= w && to_s(i - w)) by {}
    lemma_count_shift(from_n, to_s, w as nat, n as nat);
    assert forall|i: int| n - w <= i < n implies !#[trigger] to_s(i) by {
        lemma_neighbour_coords(w, h, i);
    }
    lemma_count_tail(to_s, (n - w) as nat, n as nat);
    assert forall|i: int| 0 <= i < n implies (if #[trigger] has_parent(i) { 1int } else { 0int }) == (if to_w(i) { 1int } else { 0int })
        + (if to_n(i) { 1int } else { 0int }) + (if to_e(i) { 1int } else { 0int }) + (if to_s(i) { 1int } else { 0int }) by {
        match parent[i] {
            Some(d) => match d {
                Direction::North => {},
                Direction::South => {},
                Direction::East => {},
                Direction::West => {},
            },
            None => {},
        }
    }
    lemma_count_split4(has_parent, to_w, to_n, to_e, to_s, n as nat);
    assert forall|i: int| 0 <= i < n implies #[trigger] has_parent(i) == not_root(i) by {
        if i != root {
            assert(parent[i] is Some);
        }
    }
    lemma_count_all_but_one(has_parent, root, n as nat);
}

pub open spec fn opposite(d: Direction) -> Direction {
    match d {
        Direction::North => Direction::South,
        Direction::South => Direction::North,
        Direction::East => Direction::West,
        Direction::West => Direction::East,
    }
}

/// Whether the wall between cell `i` and its neighbour in direction `d` is
/// open; the bit lives on whichever of the two cells owns the wall.
pub open spec fn wall_open(cells: Seq<MazeCell>, w: int, h: int, i: int, d: Direction) -> bool {
    match adjacent(w, h, i, d) {
        Some(j) => match d {
            Direction::West => cells[i].west(),
            Direction::North => cells[i].north(),
            Direction::East => cells[j].west(),
            Direction::South => cells[j].north(),
        },
        None => false,
    }
}

/// `route` walks from its first cell to its last, taking step `k` from
/// `route[k]` in direction `steps[k]` through an open wall.
pub open spec fn open_route(cells: Seq<MazeCell>, w: int, h: int, route: Seq<int>, steps: Seq<Direction>) -> bool {
    &&& route.len() == steps.len() + 1
    &&& forall|k: int|
        0 <= k < steps.len() ==> adjacent(w, h, route[k], #[trigger] steps[k]) == Some(route[k + 1])
            && wall_open(cells, w, h, route[k], steps[k])
}

/// A wall seen from the other side: the same wall, with the same bit.
proof fn lemma_wall_from_other_side(cells: Seq<MazeCell>, w: int, h: int, i: int, d: Direction)
    requires
        w >= 1,
        h >= 1,
        0 <= i < w * h,
        adjacent(w, h, i, d) is Some,
    ensures
        adjacent(w, h, adjacent(w, h, i, d)->0, opposite(d)) == Some(i),
        wall_open(cells, w, h, adjacent(w, h, i, d)->0, opposite(d)) == wall_open(cells, w, h, i, d),
{
    lemma_neighbour_coords(w, h, i);
    let j = adjacent(w, h, i, d)->0;
    lemma_adjacent_in_grid(w, h, i, d);
    lemma_neighbour_coords(w, h, j);
}

/// In a spanning tree, every cell has a route through open walls to the root.
proof fn lemma_route_to_root(
    cells: Seq<MazeCell>,
    w: int,
    h: int,
    root: int,
    parent: Seq<Option<Direction>>,
    rank: Seq<nat>,
    i: int,
) -> (r: (Seq<int>, Seq<Direction>))
    requires
        w >= 1,
        h >= 1,
        spanning_tree_witness(cells, w, h, root, parent, rank),
        0 <= i < w * h,
    ensures
        open_route(cells, w, h, r.0, r.1),
        r.0[0] == i,
        r.0.last() == root,
    decreases rank[i],
{
    if i == root {
        (seq![i], Seq::empty())
    } else {
        let d = parent[i]->0;
        let j = adjacent(w, h, i, d)->0;
        lemma_adjacent_in_grid(w, h, i, d);
        lemma_neighbour_coords(w, h, i);
        lemma_neighbour_coords(w, h, j);
        assert(wall_open(cells, w, h, i, d)) by {
            assert(cells[i] == cells[i]);
            assert(cells[j] == cells[j]);
            if d == Direction::East {
                assert(j - 1 == i);
            }
            if d == Direction::South {
                assert(j - w == i);
            }
        }
        let (rest, rest_steps) = lemma_route_to_root(cells, w, h, root, parent, rank, j);
        let route = seq![i] + rest;
        let steps = seq![d] + rest_steps;
        assert forall|k: int| 0 <= k < steps.len() implies adjacent(w, h, route[k], #[trigger] steps[k]) == Some(route[k + 1])
            && wall_open(cells, w, h, route[k], steps[k]) by {
            if k > 0 {
                assert(route[k] == rest[k - 1] && steps[k] == rest_steps[k - 1] && route[k + 1] == rest[k]);
            }
        }
        (route, steps)
    }
}

/// A route walked backwards.
proof fn lemma_route_reversed(cells: Seq<MazeCell>, w: int, h: int, route: Seq<int>, steps: Seq<Direction>) -> (r: (Seq<int>, Seq<Direction>))
    requires
        w >= 1,
        h >= 1,
        open_route(cells, w, h, route, steps),
        forall|k: int| 0 <= k < route.len() ==> 0 <= #[trigger] route[k] < w * h,
    ensures
        open_route(cells, w, h, r.0, r.1),
        r.0[0] == route.last(),
        r.0.last() == route[0],
{
    let n = steps.len();
    let back = Seq::new((n + 1) as nat, |k: int| route[n - k]);
    let back_steps = Seq::new(n, |k: int| opposite(steps[n - 1 - k]));
    assert forall|k: int| 0 <= k < back_steps.len() implies adjacent(w, h, back[k], #[trigger] back_steps[k]) == Some(back[k + 1])
        && wall_open(cells, w, h, back[k], back_steps[k]) by {
        let m = n - 1 - k;
        assert(adjacent(w, h, route[m], steps[m]) == Some(route[m + 1]));
        lemma_wall_from_other_side(cells, w, h, route[m], steps[m]);
    }
    (back, back_steps)
}

/// A spanning tree joins every two cells: between any cells `a` and `b`
/// runs a route through open walls.
pub proof fn lemma_tree_connected(cells: Seq<MazeCell>, w: int, h: int, a: int, b: int)
    requires
        w >= 1,
        h >= 1,
        is_spanning_tree(cells, w, h),
        0 <= a < w * h,
        0 <= b < w * h,
    ensures
        exists|route: Seq<int>, steps: Seq<Direction>|
            open_route(cells, w, h, route, steps) && route[0] == a && route.last() == b,
{
    let (root, parent, rank) = choose|root: int, parent: Seq<Option<Direction>>, rank: Seq<nat>|
        spanning_tree_witness(cells, w, h, root, parent, rank);
    let (up, up_steps) = lemma_route_to_root(cells, w, h, root, parent, rank, a);
    let (from_b, from_b_steps) = lemma_route_to_root(cells, w, h, root, parent, rank, b);
    lemma_route_in_grid(cells, w, h, from_b, from_b_steps);
    let (down, down_steps) = lemma_route_reversed(cells, w, h, from_b, from_b_steps);
    let route = up + down.drop_first();
    let steps = up_steps + down_steps;
    assert forall|k: int| 0 <= k < steps.len() implies adjacent(w, h, route[k], #[trigger] steps[k]) == Some(route[k + 1])
        && wall_open(cells, w, h, route[k], steps[k]) by {
        if k < up_steps.len() {
            assert(steps[k] == up_steps[k]);
            assert(route[k] == up[k]);
            if k + 1 < up.len() {
                assert(route[k + 1] == up[k + 1]);
            }
        } else {
            let m = k - up_steps.len();
            assert(steps[k] == down_steps[m]);
            if m == 0 {
                assert(route[k] == up.last());
            } else {
                assert(route[k] == down[m]);
            }
            assert(route[k + 1] == down[m + 1]);
        }
    }
    assert(open_route(cells, w, h, route, steps) && route[0] == a && route.last() == b);
}

/// Every cell on a route lies in the grid.
proof fn lemma_route_in_grid(cells: Seq<MazeCell>, w: int, h: int, route: Seq<int>, steps: Seq<Direction>)
    requires
        w >= 1,
        h >= 1,
        open_route(cells, w, h, route, steps),
        0 <= route[0] < w * h,
    ensures
        forall|k: int| 0 <= k < route.len() ==> 0 <= #[trigger] route[k] < w * h,
    decreases steps.len(),
{
    if steps.len() > 0 {
        let route2 = route.drop_last();
        let steps2 = steps.drop_last();
        assert forall|k: int| 0 <= k < steps2.len() implies adjacent(w, h, route2[k], #[trigger] steps2[k]) == Some(route2[k + 1])
            && wall_open(cells, w, h, route2[k], steps2[k]) by {
            assert(steps2[k] == steps[k]);
        }
        lemma_route_in_grid(cells, w, h, route2, steps2);
        let last = steps.len() - 1;
        assert(route2[last] == route[last]);
        assert(adjacent(w, h, route[last], steps[last]) == Some(route[last + 1]));
        lemma_adjacent_in_grid(w, h, route[last], steps[last]);
        assert forall|k: int| 0 <= k < route.len() implies 0 <= #[trigger] route[k] < w * h by {
            if k < route2.len() {
                assert(route[k] == route2[k]);
            }
        }
    }
}

/// In the picture of a maze whose walls form a spanning tree, the north
/// border has exactly one gap, above the top left cell: the entrance. The
/// south border has exactly one too, below the bottom right cell: the exit.
pub proof fn lemma_entrance_and_exit(m: Maze, s: int, x: int)
    requires
        m.wf(),
        is_spanning_tree(m.cells_view(), m.grid_width() as int, m.grid_height() as int),
        s >= 1,
        m.grid_width() * s <= u32::MAX,
        m.grid_height() * s <= u32::MAX,
        0 <= x < m.grid_width(),
    ensures
        m.wall_plan(s).contains(north_wall(x, 0, s)) <==> x != 0,
        m.wall_plan(s).contains(
            segment(0, m.grid_height() * s, (m.grid_width() - 1) * s, m.grid_height() * s),
        ),
        forall|g: Segment|
            #[trigger] m.wall_plan(s).contains(g) && g.y0 == m.grid_height() * s && g.y1 == m.grid_height() * s
                ==> g == segment(0, m.grid_height() * s, (m.grid_width() - 1) * s, m.grid_height() * s),
{
    let w = m.grid_width() as int;
    let h = m.grid_height() as int;
    let cells = m.cells_view();
    let (root, parent, rank) = choose|root: int, parent: Seq<Option<Direction>>, rank: Seq<nat>|
        spanning_tree_witness(cells, w, h, root, parent, rank);
    assert(h >= 1) by (nonlinear_arith)
        requires 0 <= root < w * h, w >= 1, h >= 0;
    lemma_cell_walls_drawn(m, s, x, 0);
    assert(0 * w + x == x);
    assert(x < w * h) by (nonlinear_arith)
        requires 0 <= x < w, h >= 1;
    assert(!cells[x].north()) by {
        if x != root {
            assert(parent[x] is Some);
        }
    }
    lemma_south_border(m, s);
}

} // verus!
