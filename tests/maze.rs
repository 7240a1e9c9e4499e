use rand::rngs::StdRng;
use rand::SeedableRng;
use std::collections::VecDeque;
use tanks::maze::{isqrt, Cell, Maze};

fn built(width: usize, height: usize, seed: u64) -> Maze {
    let mut rng = StdRng::seed_from_u64(seed);
    let mut maze = Maze::new(width, height);
    maze.build(&mut rng);
    maze
}

/// Cells reached from (0, 0) through open walls.
fn reached(maze: &Maze) -> usize {
    let mut seen = vec![vec![false; maze.height]; maze.width];
    let mut queue = VecDeque::new();
    seen[0][0] = true;
    queue.push_back((0usize, 0usize));
    let mut count = 0;
    while let Some((c, r)) = queue.pop_front() {
        count += 1;
        let mut next = Vec::new();
        if c > 0 && !maze.walls_v[r][c] {
            next.push((c - 1, r));
        }
        if c + 1 < maze.width && !maze.walls_v[r][c + 1] {
            next.push((c + 1, r));
        }
        if r > 0 && !maze.walls_h[r][c] {
            next.push((c, r - 1));
        }
        if r + 1 < maze.height && !maze.walls_h[r + 1][c] {
            next.push((c, r + 1));
        }
        for (nc, nr) in next {
            if !seen[nc][nr] {
                seen[nc][nr] = true;
                queue.push_back((nc, nr));
            }
        }
    }
    count
}

#[test]
fn new_maze_is_fully_walled() {
    let maze = Maze::new(4, 3);
    assert_eq!(maze.walls_h.len(), 4);
    assert_eq!(maze.walls_v.len(), 3);
    assert!(maze.walls_h.iter().all(|row| row.len() == 4 && row.iter().all(|w| *w)));
    assert!(maze.walls_v.iter().all(|row| row.len() == 5 && row.iter().all(|w| *w)));
    assert_eq!(maze.start_cell, Cell::from(0, 0));
}

#[test]
fn every_cell_is_reachable() {
    for seed in 0..20u64 {
        for (w, h) in [(2usize, 2usize), (3, 5), (8, 6), (12, 12)] {
            let maze = built(w, h, seed);
            assert_eq!(reached(&maze), w * h, "seed {} size {}x{}", seed, w, h);
        }
    }
}

#[test]
fn border_walls_stay() {
    for seed in 0..20u64 {
        let maze = built(7, 5, seed);
        for x in 0..7 {
            assert!(maze.walls_h[0][x]);
            assert!(maze.walls_h[5][x]);
        }
        for y in 0..5 {
            assert!(maze.walls_v[y][0]);
            assert!(maze.walls_v[y][7]);
        }
    }
}

#[test]
fn same_seed_same_maze() {
    let a = built(9, 7, 42);
    let b = built(9, 7, 42);
    assert_eq!(a.walls_h, b.walls_h);
    assert_eq!(a.walls_v, b.walls_v);
}

#[test]
fn corners_are_start_and_end() {
    let maze = built(6, 4, 1);
    assert_eq!(maze.start_cell, Cell::from(0, 0));
    assert_eq!(maze.end_cell, Cell::from(5, 3));
}

#[test]
fn spanning_tree_plus_few_extra_openings() {
    for seed in 0..10u64 {
        let maze = built(10, 10, seed);
        let interior_open = (1..10)
            .map(|y| maze.walls_h[y].iter().filter(|w| !**w).count())
            .sum::<usize>()
            + (0..10)
                .map(|y| (1..10).filter(|x| !maze.walls_v[y][*x]).count())
                .sum::<usize>();
        // a spanning tree opens cells - 1 walls; the extra openings are fewer than sqrt(cells)
        assert!(interior_open >= 99);
        assert!(interior_open < 99 + 10);
    }
}

#[test]
fn reset_restores_walls() {
    let mut maze = built(5, 5, 3);
    maze.reset();
    assert!(maze.walls_h.iter().all(|row| row.iter().all(|w| *w)));
    assert!(maze.walls_v.iter().all(|row| row.iter().all(|w| *w)));
}

#[test]
fn paint_full_maze() {
    let maze = Maze::new(2, 1);
    assert_eq!(maze.paint(), "+---+---+\n|   |   |   \n+---+---+\n");
}

#[test]
fn paint_open_wall() {
    let mut maze = Maze::new(2, 1);
    maze.walls_v[0][1] = false;
    maze.walls_h[0][0] = false;
    assert_eq!(maze.paint(), "+   +---+\n|       |   \n+---+---+\n");
}

#[test]
fn integer_square_roots() {
    assert_eq!(isqrt(0), 0);
    assert_eq!(isqrt(1), 1);
    assert_eq!(isqrt(3), 1);
    assert_eq!(isqrt(4), 2);
    assert_eq!(isqrt(99), 9);
    assert_eq!(isqrt(100), 10);
}

#[test]
fn doors_open_two_border_walls() {
    for seed in 0..10u64 {
        let mut rng = StdRng::seed_from_u64(seed);
        let mut maze = Maze::new(4, 3);
        maze.open_doors(&mut rng);
        let top = maze.walls_h[0].iter().filter(|w| !**w).count();
        let bottom = maze.walls_h[3].iter().filter(|w| !**w).count();
        let left = (0..3).filter(|y| !maze.walls_v[*y][0]).count();
        let right = (0..3).filter(|y| !maze.walls_v[*y][4]).count();
        assert!((top == 1 && bottom == 1 && left == 0 && right == 0) || (top == 0 && bottom == 0 && left == 1 && right == 1));
    }
}

fn standing(maze: &Maze) -> usize {
    maze.walls_h.iter().flatten().filter(|w| **w).count() + maze.walls_v.iter().flatten().filter(|w| **w).count()
}

#[test]
fn open_walls_opens_exactly_the_amount() {
    let mut rng = StdRng::seed_from_u64(4);
    let mut maze = Maze::new(3, 3);
    let before = standing(&maze);
    maze.open_walls(5, &mut rng);
    assert_eq!(before - standing(&maze), 5);
    // 12 interior walls in all: only 7 are left to open
    maze.open_walls(100, &mut rng);
    assert_eq!(before - standing(&maze), 12);
    assert!(maze.walls_h[0].iter().all(|w| *w) && maze.walls_h[3].iter().all(|w| *w));
}

#[test]
fn open_random_opens_what_it_draws() {
    for seed in 0..20u64 {
        let mut rng = StdRng::seed_from_u64(seed);
        let mut maze = Maze::new(2, 3);
        let before = standing(&maze);
        let amount = maze.open_random(&mut rng);
        assert!(amount < isqrt(6));
        assert_eq!(before - standing(&maze), amount);
    }
}
