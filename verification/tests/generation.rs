use maze::cell::Wall;
use maze::generator::{Generator, StepEvent};
use maze::grid::{Grid, MazeError};
use rand::rngs::StdRng;
use rand::SeedableRng;

fn events_equal(a: &StepEvent, b: &StepEvent) -> bool {
    a.cell_became_current == b.cell_became_current
        && a.cell_became_visited == b.cell_became_visited
        && a.walls_removed == b.walls_removed
        && a.finished == b.finished
}

/// The number of single walls missing over all cells: twice the number
/// of carved passages.
fn removed_wall_total(grid: &Grid) -> usize {
    let mut total = 0;
    for x in 0..grid.width {
        for y in 0..grid.height {
            let c = grid.cell_at(x, y);
            for w in [Wall::Top, Wall::Right, Wall::Bottom, Wall::Left] {
                if !c.walls.contains(w) {
                    total += 1;
                }
            }
        }
    }
    total
}

/// Union-find over cell indices, to check that the carved passages
/// connect the whole grid.
fn root(parent: &mut Vec<usize>, mut i: usize) -> usize {
    while parent[i] != i {
        parent[i] = parent[parent[i]];
        i = parent[i];
    }
    i
}

#[test]
fn generate_rejects_non_positive_dimensions() {
    assert!(matches!(Grid::generate(0, 5), Err(MazeError::InvalidDimensions)));
    assert!(matches!(Grid::generate(5, 0), Err(MazeError::InvalidDimensions)));
    assert!(matches!(Grid::generate(-1, 3), Err(MazeError::InvalidDimensions)));
    assert!(matches!(Grid::generate(0, 0), Err(MazeError::InvalidDimensions)));
}

#[test]
fn generate_builds_a_fresh_fully_walled_grid() {
    let grid = Grid::generate(4, 3).unwrap();
    assert_eq!(grid.width, 4);
    assert_eq!(grid.height, 3);
    for x in 0..4 {
        for y in 0..3 {
            let c = grid.cell_at(x, y);
            assert_eq!(c.pos, (x, y));
            assert!(!c.visited);
            for w in [Wall::Top, Wall::Right, Wall::Bottom, Wall::Left] {
                assert!(c.walls.contains(w));
            }
        }
    }
}

#[test]
fn get_cell_entity_is_the_bounds_check() {
    let grid = Grid::generate(3, 2).unwrap();
    assert_eq!(grid.get_cell_entity(0, 0), Some((0, 0)));
    assert_eq!(grid.get_cell_entity(2, 1), Some((2, 1)));
    assert_eq!(grid.get_cell_entity(-1, 0), None);
    assert_eq!(grid.get_cell_entity(0, -1), None);
    assert_eq!(grid.get_cell_entity(3, 0), None);
    assert_eq!(grid.get_cell_entity(0, 2), None);
}

#[test]
fn neighbours_are_the_in_bounds_adjacent_positions() {
    let lone = Grid::generate(1, 1).unwrap();
    assert!(lone.get_cell_neighbour_entities(0, 0).is_empty());

    let grid = Grid::generate(3, 3).unwrap();
    let corner = grid.get_cell_neighbour_entities(0, 0);
    assert_eq!(corner.len(), 2);
    assert!(corner.contains(&(1, 0)));
    assert!(corner.contains(&(0, 1)));

    let center = grid.get_cell_neighbour_entities(1, 1);
    assert_eq!(center.len(), 4);
    for p in [(0, 1), (1, 0), (2, 1), (1, 2)] {
        assert!(center.contains(&p));
    }
}

#[test]
fn start_cell_is_always_in_bounds() {
    for seed in 0..32u64 {
        let mut grid = Grid::generate(3, 4).unwrap();
        let mut rng = StdRng::seed_from_u64(seed);
        let gen = Generator::new(&mut grid, &mut rng);
        let (x, y) = gen.current_cell;
        assert!(0 <= x && x < 3 && 0 <= y && y < 4);
        assert_eq!(gen.stack, vec![(x, y)]);
        assert!(!gen.finished);
        assert!(grid.cell_at(x, y).visited);
    }
}

#[test]
fn one_by_one_grid_finishes_in_one_step() {
    let mut grid = Grid::generate(1, 1).unwrap();
    let mut rng = StdRng::seed_from_u64(7);
    let mut gen = Generator::new(&mut grid, &mut rng);
    assert_eq!(gen.current_cell, (0, 0));
    assert!(!gen.finished);

    let ev = gen.step(&mut grid, &mut rng).unwrap();
    assert_eq!(ev.cell_became_current, (0, 0));
    assert_eq!(ev.cell_became_visited, None);
    assert!(ev.walls_removed.is_empty());
    assert!(ev.finished);
    assert!(gen.finished);
    assert!(gen.stack.is_empty());
    assert_eq!(removed_wall_total(&grid), 0);

    // further steps are no-ops
    assert!(gen.step(&mut grid, &mut rng).is_none());
    assert!(gen.finished);
    assert_eq!(removed_wall_total(&grid), 0);
}

#[test]
fn two_by_one_grid_runs_the_exact_scenario() {
    let mut grid = Grid::generate(2, 1).unwrap();
    let mut rng = StdRng::seed_from_u64(0);
    let mut gen = Generator::with_start(&mut grid, 0, 0);

    // step 1: forward move from (0,0) into its only neighbour (1,0)
    let ev = gen.step(&mut grid, &mut rng).unwrap();
    assert_eq!(ev.cell_became_current, (0, 0));
    assert_eq!(ev.cell_became_visited, Some((1, 0)));
    assert_eq!(ev.walls_removed, vec![((0, 0), Wall::Right), ((1, 0), Wall::Left)]);
    assert!(!ev.finished);
    assert!(grid.cell_at(0, 0).visited && grid.cell_at(1, 0).visited);
    assert_eq!(gen.stack, vec![(0, 0), (1, 0)]);

    // step 2: backtrack from (1,0)
    let ev = gen.step(&mut grid, &mut rng).unwrap();
    assert_eq!(ev.cell_became_current, (1, 0));
    assert_eq!(ev.cell_became_visited, None);
    assert!(ev.walls_removed.is_empty());
    assert!(!ev.finished);
    assert_eq!(gen.stack, vec![(0, 0)]);

    // step 3: backtrack from (0,0) empties the stack
    let ev = gen.step(&mut grid, &mut rng).unwrap();
    assert_eq!(ev.cell_became_current, (0, 0));
    assert_eq!(ev.cell_became_visited, None);
    assert!(ev.walls_removed.is_empty());
    assert!(ev.finished);
    assert!(gen.finished);
    assert!(gen.stack.is_empty());

    // exactly one reciprocal pair was carved
    assert_eq!(removed_wall_total(&grid), 2);
    assert!(!grid.cell_at(0, 0).walls.contains(Wall::Right));
    assert!(!grid.cell_at(1, 0).walls.contains(Wall::Left));
    assert!(grid.cell_at(0, 0).walls.contains(Wall::Left));
    assert!(grid.cell_at(0, 0).walls.contains(Wall::Top));
    assert!(grid.cell_at(0, 0).walls.contains(Wall::Bottom));
    assert!(grid.cell_at(1, 0).walls.contains(Wall::Right));

    // step 4: nothing left to do
    assert!(gen.step(&mut grid, &mut rng).is_none());
}

#[test]
fn completed_generation_is_a_perfect_maze() {
    let mut cases = Vec::new();
    for seed in [0u64, 1, 2, 42, 1234] {
        cases.push((6, 5, seed));
    }
    cases.push((1, 7, 3));
    cases.push((7, 1, 4));
    cases.push((2, 2, 5));
    for (w, h, seed) in cases {
        let n = (w * h) as usize;
        let mut grid = Grid::generate(w, h).unwrap();
        let mut rng = StdRng::seed_from_u64(seed);
        let mut gen = Generator::new(&mut grid, &mut rng);
        let steps = gen.run_to_completion(&mut grid, &mut rng);

        assert!(gen.finished);
        assert_eq!(steps, 2 * (w * h) as u64 - 1);

        // every cell visited, boundary walls standing, reciprocal walls
        for x in 0..w {
            for y in 0..h {
                let c = grid.cell_at(x, y);
                assert!(c.visited);
                if x == 0 {
                    assert!(c.walls.contains(Wall::Left));
                }
                if x == w - 1 {
                    assert!(c.walls.contains(Wall::Right));
                }
                if y == 0 {
                    assert!(c.walls.contains(Wall::Bottom));
                }
                if y == h - 1 {
                    assert!(c.walls.contains(Wall::Top));
                }
                if x + 1 < w {
                    assert_eq!(
                        c.walls.contains(Wall::Right),
                        grid.cell_at(x + 1, y).walls.contains(Wall::Left)
                    );
                }
                if y + 1 < h {
                    assert_eq!(
                        c.walls.contains(Wall::Top),
                        grid.cell_at(x, y + 1).walls.contains(Wall::Bottom)
                    );
                }
            }
        }

        // spanning tree: n - 1 carved passages that connect everything
        assert_eq!(removed_wall_total(&grid), 2 * (n - 1));
        let mut parent: Vec<usize> = (0..n).collect();
        let mut merges = 0;
        for x in 0..w {
            for y in 0..h {
                let i = (x * h + y) as usize;
                if x + 1 < w && !grid.cell_at(x, y).walls.contains(Wall::Right) {
                    let j = ((x + 1) * h + y) as usize;
                    let (a, b) = (root(&mut parent, i), root(&mut parent, j));
                    assert_ne!(a, b, "carved passages form a cycle");
                    parent[a] = b;
                    merges += 1;
                }
                if y + 1 < h && !grid.cell_at(x, y).walls.contains(Wall::Top) {
                    let j = (x * h + y + 1) as usize;
                    let (a, b) = (root(&mut parent, i), root(&mut parent, j));
                    assert_ne!(a, b, "carved passages form a cycle");
                    parent[a] = b;
                    merges += 1;
                }
            }
        }
        assert_eq!(merges, n - 1);
        let r0 = root(&mut parent, 0);
        for i in 1..n {
            assert_eq!(root(&mut parent, i), r0, "maze is not connected");
        }
    }
}

#[test]
fn same_seed_gives_identical_generations() {
    let run = |seed: u64| -> (Grid, Vec<StepEvent>) {
        let mut grid = Grid::generate(5, 4).unwrap();
        let mut rng = StdRng::seed_from_u64(seed);
        let mut gen = Generator::new(&mut grid, &mut rng);
        let mut events = Vec::new();
        while let Some(ev) = gen.step(&mut grid, &mut rng) {
            events.push(ev);
        }
        (grid, events)
    };

    let (grid_a, events_a) = run(99);
    let (grid_b, events_b) = run(99);

    assert_eq!(events_a.len(), events_b.len());
    for (a, b) in events_a.iter().zip(events_b.iter()) {
        assert!(events_equal(a, b));
    }
    for x in 0..5 {
        for y in 0..4 {
            let ca = grid_a.cell_at(x, y);
            let cb = grid_b.cell_at(x, y);
            assert_eq!(ca.visited, cb.visited);
            for w in [Wall::Top, Wall::Right, Wall::Bottom, Wall::Left] {
                assert_eq!(ca.walls.contains(w), cb.walls.contains(w));
            }
        }
    }

    let (_, events_c) = run(100);
    let differs = events_a.len() != events_c.len()
        || events_a.iter().zip(events_c.iter()).any(|(a, c)| !events_equal(a, c));
    assert!(differs, "different seeds gave byte-identical runs");
}
