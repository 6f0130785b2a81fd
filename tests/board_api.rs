use battleship::board_api::{
    board_get, board_set, create_ship, create_surround_mask, cutting_move, saturated_move,
    ship_size, transpose, wrapping_move, Direction,
};
use battleship::constants::{
    BOARD_MASK, BOT_BORDER_MASK, GAP, LEF_BORDER_MASK, RGT_BORDER_MASK, TOP_BORDER_MASK,
};

#[test]
fn surround_mask() {
    let ship = create_ship(3);
    let ship = wrapping_move(wrapping_move(ship, 2, Direction::Down), 1, Direction::Right);
    assert_eq!(ship, 0b0000000000000000000001110000000000000000000000000000000000000000000000000000000000000000000000000000 << GAP);
    let mask = create_surround_mask(ship);
    assert_eq!(mask, 0b0000000000111110000011111000001111100000000000000000000000000000000000000000000000000000000000000000 << GAP);
}

#[test]
fn board_api_get_set_board() {
    assert_eq!(board_get(1u128 << 127, 0, 0) as usize, 1);
    assert_eq!(board_get(1u128 << 126, 1, 0) as usize, 1);
    assert_eq!(board_get(1u128 << 126, 0, 1) as usize, 0);
    assert_eq!(board_set(0, 0, 0, true), 1 << 127);
    assert_eq!(board_set(0, 1, 0, true), 1 << 126);
    assert_eq!(board_set(1 << 127, 0, 0, false), 0);
    assert_eq!(board_set(1 << 126, 1, 0, false), 0);
    assert_eq!(board_set(1 << 127, 1, 0, false), 1 << 127);
}

#[test]
fn board_api_right_duality() {
    assert_eq!(RGT_BORDER_MASK, transpose(BOT_BORDER_MASK));
}

#[test]
fn board_api_left_border_mask() {
    let l: u128 = 0b1000000000100000000010000000001000000000100000000010000000001000000000100000000010000000001000000000 << GAP;
    assert_eq!(LEF_BORDER_MASK, l);
}

#[test]
fn board_api_flip_flip_is_id() {
    let orig: u128 = 1 << 120 | 1 << 121 | 1 << 122 | 1 << 123 | 1 << 124;
    assert_eq!(transpose(transpose(orig)), orig);
}

#[test]
fn board_api_flip_1x1() {
    assert_eq!(transpose(1u128 << 127), 1u128 << 127);
}

#[test]
fn board_api_one_ship() {
    assert_eq!(create_ship(1), 0b1u128 << 127);
}

#[test]
fn board_api_horizontal_3_ship() {
    assert_eq!(create_ship(3), 0b111u128 << 125);
}

#[test]
fn move_1_down() {
    assert_eq!(
        saturated_move(0b00001_00000__00000_00000__00000_00000 << GAP, Direction::Down),
        0b00000_00000_00001_00000_00000_00000 << GAP
    );
}

#[test]
fn move_1_left() {
    assert_eq!(saturated_move(0b00001_00000, Direction::Left), 0b00001_00000 << 1);
}

#[test]
fn top_border_transposes_to_left_border() {
    assert_eq!(transpose(TOP_BORDER_MASK), LEF_BORDER_MASK);
}

#[test]
fn diagonal_cells_are_fixed_by_transpose() {
    for i in 0..10 {
        let b = board_set(0, i, i, true);
        assert_eq!(transpose(b), b);
    }
}

#[test]
fn transpose_moves_off_diagonal_cell() {
    let b = board_set(0, 3, 1, true);
    assert_eq!(transpose(b), board_set(0, 1, 3, true));
}

#[test]
fn transpose_twice_on_mixed_board() {
    let b = board_set(board_set(board_set(0, 9, 0, true), 2, 7, true), 5, 5, true);
    assert_eq!(transpose(transpose(b)), b);
}

#[test]
fn create_largest_ship() {
    assert_eq!(create_ship(5), 0b11111u128 << 123);
}

#[test]
fn surround_of_corner_ship_stays_on_board() {
    // A vertical ship in the bottom-right corner.
    let ship = board_set(board_set(0, 9, 8, true), 9, 9, true);
    let mask = create_surround_mask(ship);
    assert_eq!(mask & !BOARD_MASK, 0);
    assert_eq!(mask & ship, ship);
    let mut expected = 0;
    for y in 7..10 {
        for x in 8..10 {
            expected = board_set(expected, x, y, true);
        }
    }
    assert_eq!(mask, expected);
}

#[test]
fn surround_of_top_left_cell() {
    let mask = create_surround_mask(board_set(0, 0, 0, true));
    let expected = board_set(board_set(board_set(board_set(0, 0, 0, true), 1, 0, true), 0, 1, true), 1, 1, true);
    assert_eq!(mask, expected);
}

#[test]
fn surround_of_left_edge_does_not_wrap() {
    let mask = create_surround_mask(board_set(0, 0, 4, true));
    for y in 0..10 {
        assert!(!board_get(mask, 9, y));
    }
    assert!(board_get(mask, 1, 5));
}

#[test]
fn cutting_move_drops_edge_cells() {
    let ship = board_set(board_set(0, 9, 2, true), 8, 2, true);
    assert_eq!(cutting_move(ship, Direction::Right), board_set(0, 9, 2, true));
    let top = board_set(0, 4, 0, true);
    assert_eq!(cutting_move(top, Direction::Up), 0);
    assert_eq!(cutting_move(top, Direction::Down), board_set(0, 4, 1, true));
    let bottom = board_set(0, 4, 9, true);
    assert_eq!(cutting_move(bottom, Direction::Down), 0);
    assert_eq!(cutting_move(board_set(0, 0, 3, true), Direction::Left), 0);
}

#[test]
fn saturated_move_stops_at_edges() {
    let ship = board_set(0, 9, 2, true);
    assert_eq!(saturated_move(ship, Direction::Right), ship);
    assert_eq!(saturated_move(ship, Direction::Left), board_set(0, 8, 2, true));
    assert_eq!(saturated_move(ship, Direction::Up), board_set(0, 9, 1, true));
    let top = board_set(0, 0, 0, true);
    assert_eq!(saturated_move(top, Direction::Up), top);
    assert_eq!(saturated_move(top, Direction::Left), top);
}

#[test]
fn wrapping_move_wraps_rows() {
    let b = board_set(0, 9, 0, true);
    assert_eq!(wrapping_move(b, 1, Direction::Right), board_set(0, 0, 1, true));
    assert_eq!(wrapping_move(b, 3, Direction::Down), board_set(0, 9, 3, true));
    assert_eq!(wrapping_move(board_set(0, 0, 2, true), 1, Direction::Left), board_set(0, 9, 1, true));
    assert_eq!(wrapping_move(board_set(0, 4, 2, true), 2, Direction::Up), board_set(0, 4, 0, true));
}

#[test]
fn ship_size_counts_cells() {
    assert_eq!(ship_size(0), 0);
    assert_eq!(ship_size(create_ship(4)), 4);
    assert_eq!(ship_size(BOARD_MASK), 100);
    assert_eq!(ship_size(u128::MAX), 128);
}
