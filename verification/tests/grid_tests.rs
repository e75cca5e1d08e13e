use physics_engine::grid::SpatialGrid;
use physics_engine::world::{board_phase, collision_partners};

#[test]
fn empty_grid_has_no_neighbors() {
    let grid = SpatialGrid::new();
    let mut out = vec![7, 8];
    grid.neighbors((0, 0, 0), &mut out);
    assert!(out.is_empty());
}

#[test]
fn neighbors_follow_offset_order() {
    let mut grid = SpatialGrid::new();
    grid.insert(0, (1, 1, 1));
    grid.insert(1, (-1, -1, -1));
    grid.insert(2, (0, 0, 0));
    grid.insert(3, (0, 0, 0));
    grid.insert(4, (0, 0, 1));
    grid.insert(5, (2, 0, 0));
    let mut out = Vec::new();
    grid.neighbors((0, 0, 0), &mut out);
    assert_eq!(out, vec![1, 2, 3, 4, 0]);
}

#[test]
fn neighbors_replace_previous_content() {
    let mut grid = SpatialGrid::new();
    grid.insert(9, (5, 5, 5));
    let mut out = vec![1, 2, 3];
    grid.neighbors((4, 4, 4), &mut out);
    assert_eq!(out, vec![9]);
    grid.neighbors((7, 7, 7), &mut out);
    assert!(out.is_empty());
}

#[test]
fn clear_empties_every_cell() {
    let mut grid = SpatialGrid::new();
    grid.insert(0, (0, 0, 0));
    grid.insert(1, (3, 3, 3));
    grid.clear();
    let mut out = Vec::new();
    grid.neighbors((0, 0, 0), &mut out);
    assert!(out.is_empty());
    grid.neighbors((3, 3, 3), &mut out);
    assert!(out.is_empty());
}

#[test]
fn cells_far_apart_in_coordinates_stay_apart() {
    let mut grid = SpatialGrid::new();
    grid.insert(0, (i32::MAX - 1, 0, 0));
    grid.insert(1, (i32::MIN + 1, 0, 0));
    grid.insert(2, (0, i32::MAX - 1, i32::MIN + 1));
    let mut out = Vec::new();
    grid.neighbors((i32::MAX - 1, 0, 0), &mut out);
    assert_eq!(out, vec![0]);
    grid.neighbors((i32::MIN + 1, 0, 0), &mut out);
    assert_eq!(out, vec![1]);
    grid.neighbors((0, i32::MAX - 2, i32::MIN + 2), &mut out);
    assert_eq!(out, vec![2]);
}

#[test]
fn board_phase_files_each_ball_once_in_order() {
    let mut grid = SpatialGrid::new();
    grid.insert(42, (0, 0, 0));
    let cells = vec![(0, 0, 0), (5, 5, 5), (0, 0, 0), (1, 0, 0)];
    board_phase(&mut grid, &cells);
    let mut out = Vec::new();
    grid.neighbors((0, 0, 0), &mut out);
    assert_eq!(out, vec![0, 2, 3]);
    grid.neighbors((5, 5, 5), &mut out);
    assert_eq!(out, vec![1]);
}

#[test]
fn partners_are_later_adjacent_balls() {
    let mut grid = SpatialGrid::new();
    let cells = vec![(0, 0, 0), (1, 1, 1), (0, 0, 0), (3, 0, 0), (-1, 0, 0)];
    board_phase(&mut grid, &cells);
    assert_eq!(collision_partners(&grid, 0, (0, 0, 0)), vec![4, 2, 1]);
    assert_eq!(collision_partners(&grid, 2, (0, 0, 0)), vec![4]);
    assert_eq!(collision_partners(&grid, 4, (-1, 0, 0)), Vec::<usize>::new());
    assert_eq!(collision_partners(&grid, 1, (1, 1, 1)), vec![2]);
    assert_eq!(collision_partners(&grid, 0, (2, 0, 0)), vec![1, 3]);
}

#[test]
fn each_adjacent_pair_is_found_once_per_sweep() {
    let mut grid = SpatialGrid::new();
    let cells = vec![(0, 0, 0), (1, 0, 0), (2, 0, 0), (0, 0, 0)];
    board_phase(&mut grid, &cells);
    let mut pairs = Vec::new();
    for i in 0..cells.len() {
        for j in collision_partners(&grid, i, cells[i]) {
            pairs.push((i, j));
        }
    }
    pairs.sort();
    assert_eq!(pairs, vec![(0, 1), (0, 3), (1, 2), (1, 3)]);
}

#[test]
fn query_counts_each_adjacent_insert() {
    let mut grid = SpatialGrid::new();
    grid.insert(7, (0, 0, 0));
    grid.insert(7, (1, -1, 0));
    grid.insert(7, (2, 0, 0));
    grid.insert(3, (0, 0, 1));
    grid.insert(7, (0, 0, 0));
    let mut out = Vec::new();
    grid.neighbors((0, 0, 0), &mut out);
    assert_eq!(out.iter().filter(|&&x| x == 7).count(), 3);
    assert_eq!(out.iter().filter(|&&x| x == 3).count(), 1);
    assert_eq!(out.len(), 4);
}
