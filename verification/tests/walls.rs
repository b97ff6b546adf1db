use maze::cell::{Cell, Wall, WallSet};
use maze::grid::{Grid, MazeError};

#[test]
fn test_wall_dir() {
    let tests = vec![
        (Cell::new((0, 0)), Cell::new((1, 0)), Wall::Right, Wall::Left),
        (Cell::new((1, 0)), Cell::new((0, 0)), Wall::Left, Wall::Right),
        (Cell::new((0, 0)), Cell::new((0, 1)), Wall::Top, Wall::Bottom),
        (Cell::new((0, 1)), Cell::new((0, 0)), Wall::Bottom, Wall::Top),
    ];

    for t in tests {
        let c1 = t.0;
        let c2 = t.1;

        let wall1 = c1.get_wall_dir(&c2);
        let wall2 = c2.get_wall_dir(&c1);
        assert_eq!(wall1, t.2);
        assert_eq!(wall2, t.3);
    }
}

#[test]
fn wall_set_starts_full_and_loses_only_removed_walls() {
    let mut ws = WallSet::all();
    assert!(ws.contains(Wall::Top));
    assert!(ws.contains(Wall::Right));
    assert!(ws.contains(Wall::Bottom));
    assert!(ws.contains(Wall::Left));

    ws.remove(Wall::Right);
    assert!(ws.contains(Wall::Top));
    assert!(!ws.contains(Wall::Right));
    assert!(ws.contains(Wall::Bottom));
    assert!(ws.contains(Wall::Left));

    ws.remove(Wall::Right);
    assert!(!ws.contains(Wall::Right));
    assert!(ws.contains(Wall::Left));

    ws.remove(Wall::Top);
    ws.remove(Wall::Bottom);
    ws.remove(Wall::Left);
    assert!(!ws.contains(Wall::Top));
    assert!(!ws.contains(Wall::Right));
    assert!(!ws.contains(Wall::Bottom));
    assert!(!ws.contains(Wall::Left));
}

#[test]
fn cell_new_is_unvisited_with_all_walls() {
    let c = Cell::new((3, 7));
    assert_eq!(c.pos, (3, 7));
    assert!(!c.visited);
    assert!(c.walls.contains(Wall::Top));
    assert!(c.walls.contains(Wall::Right));
    assert!(c.walls.contains(Wall::Bottom));
    assert!(c.walls.contains(Wall::Left));
}

#[test]
fn cell_visit_and_remove_wall() {
    let mut c = Cell::new((0, 0));
    c.visit_cell();
    assert!(c.visited);
    c.remove_wall(Wall::Bottom);
    assert!(c.visited);
    assert!(!c.walls.contains(Wall::Bottom));
    assert!(c.walls.contains(Wall::Top));
    assert!(c.walls.contains(Wall::Right));
    assert!(c.walls.contains(Wall::Left));
}

#[test]
fn wall_between_adjacent_positions() {
    assert_eq!(Grid::wall_between((0, 0), (1, 0)), Ok(Wall::Right));
    assert_eq!(Grid::wall_between((1, 0), (0, 0)), Ok(Wall::Left));
    assert_eq!(Grid::wall_between((5, 5), (5, 6)), Ok(Wall::Top));
    assert_eq!(Grid::wall_between((5, 6), (5, 5)), Ok(Wall::Bottom));
}

#[test]
fn wall_between_rejects_non_adjacent_positions() {
    assert_eq!(Grid::wall_between((0, 0), (0, 0)), Err(MazeError::NotAdjacent));
    assert_eq!(Grid::wall_between((0, 0), (1, 1)), Err(MazeError::NotAdjacent));
    assert_eq!(Grid::wall_between((0, 0), (2, 0)), Err(MazeError::NotAdjacent));
    assert_eq!(Grid::wall_between((-3, 4), (3, -4)), Err(MazeError::NotAdjacent));
}
