use battleship::board_api::{board_set, create_ship, transpose, wrapping_move, Direction};
use battleship::game::{Game, Player};

#[test]
fn cant_place_a_ship() {
    let mut game = Game::default();
    let ship = transpose(create_ship(4));
    let ship = wrapping_move(ship, 1, Direction::Down);
    assert!(game.can_place_ship(Player::Alpha, ship));
    game.add_ship(Player::Alpha, ship, 0).unwrap();
    let ship = create_ship(3);
    assert!(!game.can_place_ship(Player::Alpha, ship));
    assert_eq!(game.add_ship(Player::Alpha, ship, 0), Err(()));
}

#[test]
fn place_a_ship() {
    let mut game = Game::default();
    let ship = transpose(create_ship(4));
    let ship = wrapping_move(ship, 3, Direction::Down);
    assert!(game.can_place_ship(Player::Alpha, ship));
    game.add_ship(Player::Alpha, ship, 1).unwrap();
    let ship = create_ship(3);
    let ship = wrapping_move(ship, 1, Direction::Right);
    assert!(game.can_place_ship(Player::Alpha, ship));
    assert_eq!(game.add_ship(Player::Alpha, ship, 1), Ok(()));
}

#[test]
fn place_a_ship_near() {
    let mut game = Game::default();
    let ship = transpose(create_ship(4));
    let ship = wrapping_move(ship, 2, Direction::Down);
    assert!(game.can_place_ship(Player::Alpha, ship));
    game.add_ship(Player::Alpha, ship, 2).unwrap();
    let ship = create_ship(3);
    let ship = wrapping_move(ship, 1, Direction::Right);
    assert!(game.can_place_ship(Player::Alpha, ship));
    assert_eq!(game.add_ship(Player::Alpha, ship, 2), Ok(()));
}

fn cell(x: usize, y: usize) -> u128 {
    board_set(0, x, y, true)
}

#[test]
fn other_player() {
    assert_eq!(Player::Alpha.other(), Player::Beta);
    assert_eq!(Player::Beta.other(), Player::Alpha);
}

#[test]
fn new_game_is_empty() {
    let game = Game::default();
    assert_eq!(game.get_board(Player::Alpha), 0);
    assert_eq!(game.get_board(Player::Beta), 0);
    assert_eq!(game.get_shoots(Player::Alpha), 0);
    assert_eq!(game.get_shoots(Player::Beta), 0);
}

#[test]
fn board_is_union_of_layers() {
    let mut game = Game::default();
    let a = create_ship(2);
    let b = wrapping_move(create_ship(3), 4, Direction::Down);
    game.add_ship(Player::Beta, a, 0).unwrap();
    game.add_ship(Player::Beta, b, 4).unwrap();
    assert_eq!(game.get_board(Player::Beta), a | b);
    assert_eq!(game.get_board(Player::Alpha), 0);
}

#[test]
fn rejects_overlap_and_diagonal_touch_accepts_distance_two() {
    let mut game = Game::default();
    let ship = wrapping_move(wrapping_move(create_ship(2), 4, Direction::Down), 4, Direction::Right);
    game.add_ship(Player::Alpha, ship, 0).unwrap();
    // Same cell.
    assert!(!game.can_place_ship(Player::Alpha, cell(4, 4)));
    // Diagonal neighbour.
    assert!(!game.can_place_ship(Player::Alpha, cell(3, 3)));
    assert!(!game.can_place_ship(Player::Alpha, cell(6, 5)));
    // Chebyshev distance two.
    assert!(game.can_place_ship(Player::Alpha, cell(2, 2)));
    assert!(game.can_place_ship(Player::Alpha, cell(7, 4)));
    assert!(game.can_place_ship(Player::Alpha, cell(4, 6)));
    // Another player's board is independent.
    assert!(game.can_place_ship(Player::Beta, cell(4, 4)));
}

#[test]
fn adjacent_placement_leaves_board_unchanged() {
    let mut game = Game::default();
    let first = create_ship(3);
    game.add_ship(Player::Alpha, first, 0).unwrap();
    let before = game;
    let diagonal = cell(3, 1);
    assert_eq!(game.add_ship(Player::Alpha, diagonal, 1), Err(()));
    assert_eq!(game.ships_alpha, before.ships_alpha);
    assert_eq!(game.ships_beta, before.ships_beta);
    assert_eq!(game.get_board(Player::Alpha), first);
    let beside = cell(3, 0);
    assert_eq!(game.add_ship(Player::Alpha, beside, 1), Err(()));
    assert_eq!(game.get_board(Player::Alpha), first);
}

#[test]
fn shots_only_grow() {
    let mut game = Game::default();
    game.add_ship(Player::Beta, wrapping_move(create_ship(3), 5, Direction::Down), 0).unwrap();
    let mut before = game.get_shoots(Player::Alpha);
    for (x, y) in [(0, 0), (7, 7), (0, 0), (1, 5), (0, 5), (2, 5)] {
        game.shoot(Player::Alpha, cell(x, y));
        let after = game.get_shoots(Player::Alpha);
        assert_eq!(before & !after, 0);
        assert_eq!(after & cell(x, y), cell(x, y));
        before = after;
    }
    assert_eq!(game.get_shoots(Player::Beta), 0);
}

#[test]
fn sinking_reveals_neighbourhood() {
    let mut game = Game::default();
    let ship = wrapping_move(wrapping_move(create_ship(2), 3, Direction::Down), 4, Direction::Right);
    game.add_ship(Player::Beta, ship, 4).unwrap();
    game.add_ship(Player::Beta, cell(0, 9), 0).unwrap();
    game.add_ship(Player::Alpha, cell(9, 0), 0).unwrap();
    game.shoot(Player::Alpha, cell(4, 3));
    assert_eq!(game.get_shoots(Player::Alpha), cell(4, 3));
    game.shoot(Player::Alpha, cell(5, 3));
    let mut expected = 0;
    for y in 2..5 {
        for x in 3..7 {
            expected |= cell(x, y);
        }
    }
    assert_eq!(game.get_shoots(Player::Alpha), expected);
    assert!(!game.is_over());
}

#[test]
fn sinking_in_corner_reveals_clipped_neighbourhood() {
    let mut game = Game::default();
    let ship = create_ship(2);
    game.add_ship(Player::Beta, ship, 4).unwrap();
    game.shoot(Player::Alpha, ship);
    let expected = cell(0, 0) | cell(1, 0) | cell(2, 0) | cell(0, 1) | cell(1, 1) | cell(2, 1);
    assert_eq!(game.get_shoots(Player::Alpha), expected);
}

#[test]
fn end_to_end_two_cell_ship() {
    let mut game = Game::default();
    let ship = create_ship(2);
    assert!(game.can_place_ship(Player::Alpha, ship));
    game.add_ship(Player::Alpha, ship, 4).unwrap();
    assert!(game.can_place_ship(Player::Beta, ship));
    game.add_ship(Player::Beta, ship, 4).unwrap();

    game.shoot(Player::Alpha, cell(0, 0));
    assert!(!game.is_over());
    assert_eq!(game.get_winner(), None);

    game.shoot(Player::Alpha, cell(1, 0));
    assert!(game.is_over());
    assert_eq!(game.get_winner(), Some(Player::Alpha));
}

#[test]
fn end_to_end_not_won_while_ships_remain() {
    let mut game = Game::default();
    let ship = create_ship(2);
    game.add_ship(Player::Alpha, ship, 4).unwrap();
    game.add_ship(Player::Beta, ship, 4).unwrap();
    game.add_ship(Player::Beta, cell(9, 9), 0).unwrap();
    game.shoot(Player::Alpha, cell(0, 0));
    game.shoot(Player::Alpha, cell(1, 0));
    assert_eq!(game.get_winner(), None);
    game.shoot(Player::Beta, ship);
    assert_eq!(game.get_winner(), Some(Player::Beta));
    game.shoot(Player::Alpha, cell(9, 9));
    assert_eq!(game.get_winner(), Some(Player::Alpha));
}
