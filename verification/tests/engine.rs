use minesweeper::board::Board;
use minesweeper::board::GameError;

fn fresh(width: usize, height: usize) -> Board {
    let mut board = Board::new(width, height);
    board.init();
    board
}

/// A board with hazards at the given indices, which must be strictly increasing.
fn board_with(width: usize, height: usize, hazards: &[usize]) -> Board {
    let mut board = fresh(width, height);
    let mut placed = 0;
    for &index in hazards {
        let got = board.plant(index - placed);
        assert_eq!(got, index);
        placed += 1;
    }
    board.assign_values();
    board
}

fn visible(board: &Board) -> Vec<bool> {
    (0..board.cell_count()).map(|i| board.square(i).visible).collect()
}

fn hazards(board: &Board) -> Vec<usize> {
    (0..board.cell_count()).filter(|&i| board.square(i).bomb).collect()
}

fn brute_force_count(board: &Board, index: usize) -> u32 {
    let w = board.width() as i64;
    let (cx, cy) = ((index as i64) % w, (index as i64) / w);
    let mut total = 0;
    for j in 0..board.cell_count() {
        let (x, y) = ((j as i64) % w, (j as i64) / w);
        let near = (x - cx).abs() <= 1 && (y - cy).abs() <= 1 && j != index;
        if near && board.square(j).bomb {
            total += 1;
        }
    }
    total
}

#[test]
fn init_allocates_blank_cells_with_their_coordinates() {
    let board = fresh(4, 3);
    assert_eq!(board.width(), 4);
    assert_eq!(board.height(), 3);
    assert_eq!(board.size(), 12);
    assert_eq!(board.cell_count(), 12);
    for i in 0..12 {
        let s = board.square(i);
        assert_eq!((s.x, s.y), (i % 4, i / 4));
        assert!(!s.visible);
        assert!(!s.bomb);
        assert_eq!(s.value, 0);
    }
}

#[test]
fn new_board_holds_no_cells_until_init() {
    let mut board = Board::new(5, 2);
    assert_eq!(board.cell_count(), 0);
    board.init();
    assert_eq!(board.cell_count(), 10);
    board.init();
    assert_eq!(board.cell_count(), 10);
}

#[test]
fn index_from_coords_is_row_major() {
    assert_eq!(Board::index_from_coords(5, 4, 0, 0), Some(0));
    assert_eq!(Board::index_from_coords(5, 4, 4, 0), Some(4));
    assert_eq!(Board::index_from_coords(5, 4, 0, 1), Some(5));
    assert_eq!(Board::index_from_coords(5, 4, 3, 2), Some(13));
    assert_eq!(Board::index_from_coords(5, 4, 4, 3), Some(19));
}

#[test]
fn index_from_coords_rejects_what_is_outside() {
    assert_eq!(Board::index_from_coords(5, 4, -1, 0), None);
    assert_eq!(Board::index_from_coords(5, 4, 0, -1), None);
    assert_eq!(Board::index_from_coords(5, 4, 5, 0), None);
    assert_eq!(Board::index_from_coords(5, 4, 0, 4), None);
    assert_eq!(Board::index_from_coords(5, 4, isize::MIN, isize::MAX), None);
    assert_eq!(Board::index_from_coords(0, 0, 0, 0), None);
}

#[test]
fn coords_from_index_inverts_index_from_coords() {
    for y in 0..4isize {
        for x in 0..5isize {
            let index = Board::index_from_coords(5, 4, x, y).unwrap();
            assert_eq!(Board::coords_from_index(5, index), (x as usize, y as usize));
        }
    }
    assert_eq!(Board::coords_from_index(5, 13), (3, 2));
}

#[test]
fn neighbors_come_in_raster_order() {
    let board = fresh(4, 3);
    assert_eq!(board.index_neighbors(5), vec![0, 1, 2, 4, 6, 8, 9, 10]);
    assert_eq!(board.index_neighbors(0), vec![1, 4, 5]);
    assert_eq!(board.index_neighbors(3), vec![2, 6, 7]);
    assert_eq!(board.index_neighbors(11), vec![6, 7, 10]);
    assert_eq!(board.index_neighbors(4), vec![0, 1, 5, 8, 9]);
    assert_eq!(board.index_neighbors(2), vec![1, 3, 5, 6, 7]);
}

#[test]
fn neighbors_of_a_single_cell_and_of_a_row() {
    let one = fresh(1, 1);
    assert_eq!(one.index_neighbors(0), Vec::<usize>::new());
    let row = fresh(3, 1);
    assert_eq!(row.index_neighbors(0), vec![1]);
    assert_eq!(row.index_neighbors(1), vec![0, 2]);
    let column = fresh(1, 3);
    assert_eq!(column.index_neighbors(1), vec![0, 2]);
}

#[test]
fn free_index_skips_hazards() {
    let board = board_with(3, 3, &[0, 1, 4]);
    assert_eq!(board.free_index(0), 2);
    assert_eq!(board.free_index(1), 3);
    assert_eq!(board.free_index(2), 5);
    assert_eq!(board.free_index(5), 8);
}

#[test]
fn plant_marks_the_free_cell_of_that_rank() {
    let mut board = fresh(3, 3);
    assert_eq!(board.plant(0), 0);
    assert_eq!(board.plant(7), 8);
    assert_eq!(board.plant(0), 1);
    assert_eq!(hazards(&board), vec![0, 1, 8]);
    assert!(visible(&board).iter().all(|v| !v));
}

#[test]
fn starting_values_count_adjacent_hazards() {
    let board = board_with(3, 3, &[0, 8]);
    assert_eq!(board.starting_values(), vec![0, 1, 0, 1, 2, 1, 0, 1, 0]);
    let board = board_with(4, 3, &[1, 5, 6]);
    assert_eq!(board.starting_values(), vec![2, 2, 3, 1, 2, 2, 2, 1, 1, 2, 2, 1]);
}

#[test]
fn centre_surrounded_by_hazards_counts_eight() {
    let board = board_with(3, 3, &[0, 1, 2, 3, 5, 6, 7, 8]);
    assert_eq!(board.square(4).value, 8);
    assert_eq!(board.starting_values()[4], 8);
}

#[test]
fn assign_values_stores_the_counts() {
    let board = board_with(3, 3, &[4]);
    for i in 0..9 {
        let expected = if i == 4 { 0 } else { 1 };
        assert_eq!(board.square(i).value, expected);
        assert_eq!(board.square(i).value, brute_force_count(&board, i));
    }
}

#[test]
fn counts_agree_with_a_brute_force_scan() {
    let mut board = fresh(9, 7);
    assert_eq!(board.new_game(1, 4), Ok(()));
    let values = board.starting_values();
    for i in 0..board.cell_count() {
        assert_eq!(board.square(i).value, brute_force_count(&board, i));
        assert_eq!(values[i], brute_force_count(&board, i));
    }
}

#[test]
fn density_of_a_fifth_on_sixty_four_cells_places_thirteen() {
    let mut board = fresh(8, 8);
    assert_eq!(board.new_game(1, 5), Ok(()));
    assert_eq!(hazards(&board).len(), 13);
}

#[test]
fn density_of_a_tenth_on_the_default_board_places_fifteen() {
    let mut board = fresh(12, 12);
    assert_eq!(board.new_game(1, 10), Ok(()));
    assert_eq!(hazards(&board).len(), 15);
}

#[test]
fn exact_share_places_exactly_that_many() {
    let mut board = fresh(4, 4);
    assert_eq!(board.new_game(1, 4), Ok(()));
    assert_eq!(hazards(&board).len(), 4);
    assert_eq!(board.new_game(15, 16), Ok(()));
    assert_eq!(hazards(&board).len(), 15);
}

#[test]
fn density_zero_places_nothing() {
    let mut board = fresh(6, 5);
    assert_eq!(board.new_game(0, 1), Ok(()));
    assert_eq!(hazards(&board).len(), 0);
    assert!((0..30).all(|i| board.square(i).value == 0));
}

#[test]
fn nearly_full_board_still_terminates_with_distinct_hazards() {
    let mut board = fresh(5, 5);
    assert_eq!(board.new_game(99, 100), Ok(()));
    assert_eq!(hazards(&board).len(), 25);
    let mut board = fresh(10, 10);
    assert_eq!(board.new_game(99, 100), Ok(()));
    assert_eq!(hazards(&board).len(), 99);
}

#[test]
fn density_outside_the_unit_interval_is_rejected() {
    let mut board = board_with(3, 3, &[2]);
    assert_eq!(board.make_move(0, 0), Ok(()));
    let before = visible(&board);
    assert_eq!(board.new_game(1, 1), Err(GameError::InvalidConfiguration));
    assert_eq!(board.new_game(3, 2), Err(GameError::InvalidConfiguration));
    assert_eq!(board.new_game(0, 0), Err(GameError::InvalidConfiguration));
    assert_eq!(visible(&board), before);
    assert_eq!(hazards(&board), vec![2]);
}

#[test]
fn board_without_cells_is_rejected() {
    let mut board = fresh(0, 4);
    assert_eq!(board.new_game(1, 10), Err(GameError::InvalidConfiguration));
    let mut board = fresh(4, 0);
    assert_eq!(board.new_game(1, 10), Err(GameError::InvalidConfiguration));
}

#[test]
fn second_session_resets_the_board() {
    let mut board = fresh(8, 8);
    assert_eq!(board.new_game(1, 5), Ok(()));
    board.set_visible();
    assert!(visible(&board).iter().all(|v| *v));
    assert_eq!(board.new_game(1, 8), Ok(()));
    assert!(visible(&board).iter().all(|v| !v));
    assert_eq!(hazards(&board).len(), 8);
    for i in 0..64 {
        assert_eq!(board.square(i).value, brute_force_count(&board, i));
    }
}

#[test]
fn reveal_on_an_open_board_reveals_everything() {
    let mut board = board_with(3, 3, &[]);
    assert_eq!(board.make_move(1, 1), Ok(()));
    assert_eq!(visible(&board), vec![true; 9]);
    assert!(board.is_complete());
    assert!(board.is_won());
}

#[test]
fn reveal_from_a_corner_of_a_large_open_board_reveals_everything() {
    let mut board = board_with(20, 15, &[]);
    assert_eq!(board.make_move(0, 0), Ok(()));
    assert_eq!(visible(&board), vec![true; 300]);
}

#[test]
fn reveal_of_a_hazard_reveals_only_that_cell_and_loses() {
    let mut board = board_with(3, 3, &[4]);
    assert_eq!(board.make_move(1, 1), Ok(()));
    let mut expected = vec![false; 9];
    expected[4] = true;
    assert_eq!(visible(&board), expected);
    assert!(board.is_complete());
    assert!(!board.is_won());
}

#[test]
fn reveal_of_a_hazard_on_an_otherwise_open_board_does_not_spread() {
    let mut board = board_with(5, 5, &[24]);
    assert_eq!(board.make_move(4, 4), Ok(()));
    let mut expected = vec![false; 25];
    expected[24] = true;
    assert_eq!(visible(&board), expected);
    assert!(board.is_complete());
    assert!(!board.is_won());
}

#[test]
fn reveal_of_a_numbered_cell_reveals_only_that_cell() {
    let mut board = board_with(3, 3, &[0]);
    assert_eq!(board.make_move(1, 1), Ok(()));
    let mut expected = vec![false; 9];
    expected[4] = true;
    assert_eq!(visible(&board), expected);
    assert!(!board.is_complete());
    assert!(!board.is_won());
}

#[test]
fn flood_stops_at_the_ring_of_numbered_cells() {
    let mut board = board_with(4, 4, &[0]);
    assert_eq!(board.make_move(3, 3), Ok(()));
    let mut expected = vec![true; 16];
    expected[0] = false;
    assert_eq!(visible(&board), expected);
    assert!(board.is_complete());
    assert!(board.is_won());
}

#[test]
fn flood_does_not_cross_a_wall_of_numbered_cells() {
    // A column of hazards in the middle splits the board in two open halves.
    let mut board = board_with(7, 3, &[3, 10, 17]);
    assert_eq!(board.make_move(0, 1), Ok(()));
    let expected: Vec<bool> = (0..21).map(|i| i % 7 <= 2).collect();
    assert_eq!(visible(&board), expected);
    assert!(!board.is_complete());
    assert_eq!(board.make_move(6, 1), Ok(()));
    let expected: Vec<bool> = (0..21).map(|i| i % 7 != 3).collect();
    assert_eq!(visible(&board), expected);
    assert!(board.is_complete());
    assert!(board.is_won());
}

#[test]
fn reveal_keeps_hazards_and_counts() {
    let mut board = board_with(4, 4, &[0, 9]);
    let before: Vec<(bool, u32)> = (0..16).map(|i| (board.square(i).bomb, board.square(i).value)).collect();
    assert_eq!(board.make_move(3, 0), Ok(()));
    let after: Vec<(bool, u32)> = (0..16).map(|i| (board.square(i).bomb, board.square(i).value)).collect();
    assert_eq!(before, after);
}

#[test]
fn reveal_never_hides_a_cell() {
    let mut board = board_with(4, 4, &[0]);
    assert_eq!(board.make_move(1, 1), Ok(()));
    assert_eq!(board.make_move(0, 1), Ok(()));
    assert!(board.square(5).visible);
    assert!(board.square(4).visible);
    assert_eq!(board.make_move(1, 1), Ok(()));
    assert!(board.square(5).visible);
    assert!(board.square(4).visible);
}

#[test]
fn reveal_outside_the_grid_is_an_error_and_changes_nothing() {
    let mut board = board_with(3, 3, &[8]);
    assert_eq!(board.make_move(0, 0), Ok(()));
    let before = visible(&board);
    assert_eq!(board.make_move(-1, 0), Err(GameError::OutOfBounds));
    assert_eq!(board.make_move(3, 0), Err(GameError::OutOfBounds));
    assert_eq!(board.make_move(0, -1), Err(GameError::OutOfBounds));
    assert_eq!(board.make_move(0, 3), Err(GameError::OutOfBounds));
    assert_eq!(visible(&board), before);
    assert_eq!(hazards(&board), vec![8]);
}

#[test]
fn hidden_safe_cell_keeps_the_session_open() {
    let board = board_with(3, 3, &[0]);
    assert!(!board.is_complete());
    assert!(!board.is_won());
}

#[test]
fn revealed_hazard_completes_the_session_whatever_else_is_hidden() {
    // The hazard is the last cell, so hidden safe cells come before it.
    let mut board = board_with(3, 3, &[8]);
    assert_eq!(board.make_move(2, 2), Ok(()));
    assert!(board.is_complete());
    assert!(!board.is_won());
}

#[test]
fn board_of_hazards_only_is_won_from_the_start() {
    let board = board_with(2, 2, &[0, 1, 2, 3]);
    assert!(board.is_complete());
    assert!(board.is_won());
}

#[test]
fn set_visible_reveals_every_cell_and_keeps_the_rest() {
    let mut board = board_with(3, 3, &[0, 8]);
    board.set_visible();
    assert_eq!(visible(&board), vec![true; 9]);
    assert_eq!(hazards(&board), vec![0, 8]);
    assert_eq!(board.starting_values(), vec![0, 1, 0, 1, 2, 1, 0, 1, 0]);
    assert!(board.is_complete());
    assert!(!board.is_won());
}

#[test]
fn random_sessions_place_hazards_inside_the_grid() {
    for _ in 0..50 {
        let mut board = fresh(3, 2);
        assert_eq!(board.new_game(1, 2), Ok(()));
        assert_eq!(hazards(&board).len(), 3);
        assert_eq!(board.cell_count(), 6);
    }
}
