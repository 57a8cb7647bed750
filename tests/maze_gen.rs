use maze_gen::maze::{Cell, Maze, Segment};
use maze_gen::wilsons::Generator;
use rand::rngs::StdRng;
use rand::SeedableRng;

fn build(width: usize, height: usize, seed: u64) -> Maze {
    let mut rng = StdRng::seed_from_u64(seed);
    Generator::new(width, height).generate(&mut rng)
}

fn seg(x0: u32, y0: u32, x1: u32, y1: u32) -> Segment {
    Segment { x0, y0, x1, y1 }
}

/// Open edges of the maze as pairs of cell indexes.
fn open_edges(maze: &Maze) -> Vec<(usize, usize)> {
    let w = maze.width as usize;
    let h = maze.height as usize;
    let mut edges = Vec::new();
    for i in 0..w * h {
        let c = maze.cell(i);
        if c.west_open() {
            assert!(i % w != 0, "west border of cell {} is open", i);
            edges.push((i - 1, i));
        }
        if c.north_open() {
            assert!(i >= w, "north border of cell {} is open", i);
            edges.push((i - w, i));
        }
    }
    edges
}

fn is_spanning_tree(maze: &Maze) -> bool {
    let n = (maze.width * maze.height) as usize;
    let edges = open_edges(maze);
    if edges.len() + 1 != n {
        return false;
    }
    let mut seen = vec![false; n];
    let mut stack = vec![0usize];
    seen[0] = true;
    let mut count = 1;
    while let Some(v) = stack.pop() {
        for &(a, b) in &edges {
            let other = if a == v { b } else if b == v { a } else { continue };
            if !seen[other] {
                seen[other] = true;
                count += 1;
                stack.push(other);
            }
        }
    }
    count == n
}

#[test]
fn cell_bits() {
    let mut c = Cell::new(false, false);
    assert!(!c.west_open() && !c.north_open());
    c.set_west_open();
    assert!(c.west_open() && !c.north_open());
    c.set_north_open();
    assert!(c.west_open() && c.north_open());
    assert_eq!(Cell::new(true, false), { let mut d = Cell::new(false, false); d.set_west_open(); d });
    assert_eq!(Cell::new(false, true), { let mut d = Cell::new(false, false); d.set_north_open(); d });
}

#[test]
fn new_maze_has_every_wall_closed() {
    let maze = Maze::new(3, 2);
    assert_eq!((maze.width, maze.height), (3, 2));
    for i in 0..6 {
        assert_eq!(maze.cell(i), Cell::new(false, false));
    }
}

#[test]
fn cell_mut_changes_one_cell() {
    let mut maze = Maze::new(2, 2);
    maze.cell_mut(3).set_north_open();
    assert!(maze.cell(3).north_open());
    assert!(!maze.cell(3).west_open());
    assert_eq!(maze.cell(2), Cell::new(false, false));
}

#[test]
fn one_by_one_grid() {
    let maze = build(1, 1, 7);
    assert_eq!((maze.width, maze.height), (1, 1));
    assert_eq!(maze.cell(0), Cell::new(false, false));
    // Only the west wall, the south border up to the exit, and the east border.
    assert_eq!(maze.walls(10), vec![seg(0, 0, 0, 10), seg(0, 10, 0, 10), seg(10, 0, 10, 10)]);
}

#[test]
fn one_by_two_grid() {
    for seed in 0..20 {
        let maze = build(1, 2, seed);
        assert_eq!(maze.cell(0), Cell::new(false, false));
        assert_eq!(maze.cell(1), Cell::new(false, true));
        assert_eq!(
            maze.walls(10),
            vec![seg(0, 0, 0, 10), seg(0, 10, 0, 20), seg(0, 20, 0, 20), seg(10, 0, 10, 20)]
        );
    }
}

#[test]
fn two_by_one_grid() {
    for seed in 0..20 {
        let maze = build(2, 1, seed);
        assert_eq!(maze.cell(0), Cell::new(false, false));
        assert_eq!(maze.cell(1), Cell::new(true, false));
        assert_eq!(
            maze.walls(10),
            vec![seg(0, 0, 0, 10), seg(10, 0, 20, 0), seg(0, 10, 10, 10), seg(20, 0, 20, 10)]
        );
    }
}

#[test]
fn zero_by_zero_grid() {
    let maze = build(0, 0, 1);
    assert_eq!((maze.width, maze.height), (0, 0));
    assert!(maze.walls(25).is_empty());
}

#[test]
fn zero_width_grid_gives_empty_maze() {
    let maze = build(0, 5, 1);
    assert_eq!((maze.width, maze.height), (0, 0));
}

#[test]
fn mazes_are_spanning_trees() {
    for (w, h) in [(2usize, 2usize), (3, 3), (5, 4), (1, 7), (7, 1), (10, 10)] {
        for seed in 0..10 {
            let maze = build(w, h, seed);
            assert_eq!((maze.width as usize, maze.height as usize), (w, h));
            assert!(is_spanning_tree(&maze), "{}x{} seed {}", w, h, seed);
        }
    }
}

#[test]
fn interior_walls_follow_open_bits() {
    let s: u32 = 8;
    let maze = build(4, 3, 11);
    let walls = maze.walls(s);
    for i in 0..12u32 {
        let (x, y) = (i % 4, i / 4);
        let c = maze.cell(i as usize);
        let north = seg(x * s, y * s, (x + 1) * s, y * s);
        let west = seg(x * s, y * s, x * s, (y + 1) * s);
        assert_eq!(walls.contains(&north), !(c.north_open() || i == 0));
        assert_eq!(walls.contains(&west), !c.west_open());
    }
}

#[test]
fn entrance_and_exit() {
    let s: u32 = 5;
    let maze = build(3, 3, 5);
    let walls = maze.walls(s);
    // North border: a gap over cell (0, 0) only.
    assert!(!walls.contains(&seg(0, 0, 5, 0)));
    assert!(walls.contains(&seg(5, 0, 10, 0)));
    assert!(walls.contains(&seg(10, 0, 15, 0)));
    // South border stops at the last column; the east border is whole.
    assert!(walls.contains(&seg(0, 15, 10, 15)));
    assert!(walls.contains(&seg(15, 0, 15, 15)));
    assert_eq!(walls.iter().filter(|g| g.y0 == 15 && g.y1 == 15).count(), 1);
}

#[test]
fn same_seed_same_maze() {
    let a = build(12, 9, 2024);
    let b = build(12, 9, 2024);
    assert_eq!(a.walls(25), b.walls(25));
    for i in 0..12 * 9 {
        assert_eq!(a.cell(i), b.cell(i));
    }
}

#[test]
fn two_by_two_trees_are_uniform() {
    // The 2x2 grid has four spanning trees; each leaves out one of the four edges.
    let mut counts = [0u32; 4];
    let runs: u32 = 4000;
    for seed in 0..runs as u64 {
        let maze = build(2, 2, seed);
        let edges = open_edges(&maze);
        assert_eq!(edges.len(), 3);
        let all = [(0usize, 1usize), (0, 2), (1, 3), (2, 3)];
        let missing = all.iter().position(|e| !edges.contains(e)).unwrap();
        counts[missing] += 1;
    }
    let expected = runs as f64 / 4.0;
    let chi2: f64 = counts.iter().map(|&c| (c as f64 - expected).powi(2) / expected).sum();
    // 3 degrees of freedom: 16.27 is the 0.999 quantile.
    assert!(chi2 < 16.27, "counts {:?}", counts);
}

#[test]
fn hundred_by_hundred_grid() {
    let maze = build(100, 100, 3);
    assert!(is_spanning_tree(&maze));
    let walls = maze.walls(25);
    assert!(walls.iter().all(|g| g.x0 <= 2500 && g.x1 <= 2500 && g.y0 <= 2500 && g.y1 <= 2500));
}

#[test]
fn text_of_fresh_generator() {
    assert_eq!(Generator::new(2, 1).to_text(), "-----\n|X|X|\n-----\n");
    assert_eq!(Generator::new(1, 2).to_text(), "---\n|X|\n---\n|X|\n---\n");
    assert_eq!(Generator::new(0, 0).to_text(), "-\n");
}

#[test]
fn generator_keeps_its_size() {
    let g = Generator::new(4, 3);
    assert_eq!((g.width, g.height), (4, 3));
}
