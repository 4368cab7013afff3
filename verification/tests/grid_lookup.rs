use hex_grid::grid::{Grid, SEARCH_LIMIT};
use hex_grid::hex::Hex;

fn sample() -> Grid {
    Grid { width: 3, height: 2, tiles: vec![vec![1, 2, 3], vec![4, 5, 6]] }
}

fn tall() -> Grid {
    Grid {
        width: 4,
        height: 5,
        tiles: vec![
            vec![1, 2, 3, 4],
            vec![5, 6, 7, 8],
            vec![9, 1, 2, 3],
            vec![4, 5, 6, 7],
            vec![8, 9, 1, 2],
        ],
    }
}

#[test]
fn get_weight_inside_the_grid() {
    let grid = sample();
    assert_eq!(grid.get_weight(&Hex::new(0, 0)), Some(1));
    assert_eq!(grid.get_weight(&Hex::new(1, 0)), Some(2));
    assert_eq!(grid.get_weight(&Hex::new(2, 0)), Some(3));
    assert_eq!(grid.get_weight(&Hex::new(0, 1)), Some(4));
    assert_eq!(grid.get_weight(&Hex::new(1, 1)), Some(5));
    assert_eq!(grid.get_weight(&Hex::new(2, 1)), Some(6));
}

#[test]
fn get_weight_outside_the_grid() {
    let grid = sample();
    assert_eq!(grid.get_weight(&Hex::new(-1, 0)), None);
    assert_eq!(grid.get_weight(&Hex::new(3, 0)), None);
    assert_eq!(grid.get_weight(&Hex::new(0, -1)), None);
    assert_eq!(grid.get_weight(&Hex::new(1, -1)), None);
    assert_eq!(grid.get_weight(&Hex::new(0, 2)), None);
    assert_eq!(grid.get_weight(&Hex::new(3, 1)), None);
    assert_eq!(grid.get_weight(&Hex::new(-1, 1)), None);
    assert_eq!(grid.get_weight(&Hex::new(i32::MAX, i32::MAX)), None);
    assert_eq!(grid.get_weight(&Hex::new(i32::MIN, i32::MIN)), None);
}

#[test]
fn get_weight_shifts_columns_by_half_the_row() {
    let grid = tall();
    assert_eq!(grid.get_weight(&Hex::new(-1, 2)), Some(9));
    assert_eq!(grid.get_weight(&Hex::new(2, 2)), Some(3));
    assert_eq!(grid.get_weight(&Hex::new(3, 2)), None);
    assert_eq!(grid.get_weight(&Hex::new(-1, 3)), Some(4));
    assert_eq!(grid.get_weight(&Hex::new(-2, 4)), Some(8));
    assert_eq!(grid.get_weight(&Hex::new(1, 4)), Some(2));
    assert_eq!(grid.get_weight(&Hex::new(2, 4)), None);
    assert_eq!(grid.get_weight(&Hex::new(3, 4)), None);
}

#[test]
fn offset_round_trip_finds_every_tile() {
    let grid = tall();
    for row in 0..grid.height {
        for col in 0..grid.width {
            let hex = Hex::from_offset(row, col);
            assert_eq!(hex.row(), row as i32);
            assert_eq!(hex.col(), col as i64);
            assert_eq!(grid.get_weight(&hex), Some(grid.tiles[row][col]));
        }
    }
}

#[test]
fn successors_keep_neighbor_order_and_weights() {
    let grid = sample();
    assert_eq!(
        grid.successors(&Hex::new(0, 0)),
        vec![(Hex::new(1, 0), 2), (Hex::new(0, 1), 4)]
    );
    assert_eq!(
        grid.successors(&Hex::new(1, 0)),
        vec![(Hex::new(2, 0), 3), (Hex::new(0, 0), 1), (Hex::new(1, 1), 5), (Hex::new(0, 1), 4)]
    );
    assert_eq!(
        grid.successors(&Hex::new(2, 1)),
        vec![(Hex::new(1, 1), 5), (Hex::new(2, 0), 3)]
    );
}

#[test]
fn successors_of_a_cell_far_outside_are_none() {
    let grid = sample();
    assert_eq!(grid.successors(&Hex::new(10, 10)), vec![]);
    assert_eq!(grid.successors(&Hex::new(3, 0)), vec![(Hex::new(2, 0), 3), (Hex::new(2, 1), 6)]);
}

#[test]
fn successors_of_an_inner_cell_are_all_six() {
    let grid = tall();
    let moves = grid.successors(&Hex::new(1, 2));
    assert_eq!(
        moves,
        vec![
            (Hex::new(2, 2), 3),
            (Hex::new(0, 2), 1),
            (Hex::new(1, 3), 6),
            (Hex::new(1, 1), 6),
            (Hex::new(2, 1), 7),
            (Hex::new(0, 3), 5),
        ]
    );
}

#[test]
fn start_and_goal_cells() {
    let grid = sample();
    assert_eq!(Grid::start(), Hex::new(0, 0));
    assert_eq!(grid.goal(), Hex::new(2, 1));
    assert_eq!(tall().goal(), Hex::new(3, 4));
}

#[test]
fn searchable_accepts_valid_grids() {
    assert!(sample().is_searchable());
    assert!(tall().is_searchable());
    assert!(Grid { width: 1, height: 1, tiles: vec![vec![1]] }.is_searchable());
    assert!(Grid { width: 1, height: 1, tiles: vec![vec![SEARCH_LIMIT]] }.is_searchable());
}

#[test]
fn searchable_rejects_empty_grids() {
    assert!(!Grid { width: 0, height: 0, tiles: vec![] }.is_searchable());
    assert!(!Grid { width: 0, height: 1, tiles: vec![vec![]] }.is_searchable());
    assert!(!Grid { width: 1, height: 0, tiles: vec![] }.is_searchable());
}

#[test]
fn searchable_rejects_ragged_grids() {
    assert!(!Grid { width: 2, height: 2, tiles: vec![vec![1, 1], vec![1]] }.is_searchable());
    assert!(!Grid { width: 2, height: 2, tiles: vec![vec![1, 1, 1], vec![1, 1]] }.is_searchable());
    assert!(!Grid { width: 2, height: 2, tiles: vec![vec![1, 1]] }.is_searchable());
    assert!(!Grid { width: 2, height: 1, tiles: vec![vec![1, 1], vec![1, 1]] }.is_searchable());
}

#[test]
fn searchable_rejects_zero_weights() {
    assert!(!Grid { width: 2, height: 2, tiles: vec![vec![1, 1], vec![0, 1]] }.is_searchable());
    assert!(!Grid { width: 1, height: 1, tiles: vec![vec![0]] }.is_searchable());
}

#[test]
fn searchable_rejects_too_heavy_grids() {
    assert!(!Grid { width: 1, height: 1, tiles: vec![vec![SEARCH_LIMIT + 1]] }.is_searchable());
    assert!(!Grid { width: 2, height: 1, tiles: vec![vec![SEARCH_LIMIT, 1]] }.is_searchable());
    assert!(!Grid { width: 1, height: 2, tiles: vec![vec![SEARCH_LIMIT], vec![1]] }.is_searchable());
    assert!(
        !Grid { width: 2, height: 2, tiles: vec![vec![u32::MAX, u32::MAX], vec![u32::MAX, u32::MAX]] }
            .is_searchable()
    );
    assert!(Grid { width: 2, height: 1, tiles: vec![vec![SEARCH_LIMIT - 1, 1]] }.is_searchable());
}
