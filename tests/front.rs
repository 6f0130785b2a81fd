use battleship::board_api::{board_set, create_ship, transpose};
use battleship::constants::CELL;
use battleship::front::{
    aim_step, copy_cell, create_cell, move_by_user_input, placement_step, render,
    render_board_ships_n_new_ship, render_current_player_board, render_enemy_player_board,
    render_unknown, ship_status, tile_cell, KeyOutcome, OutputBuffer, Tile, IO,
};
use battleship::game::{Game, Player};

fn cell(x: usize, y: usize) -> u128 {
    board_set(0, x, y, true)
}

fn blank() -> OutputBuffer {
    [[[0u8; 12]; 10]; 10]
}

#[test]
fn cells_hold_their_escape_sequences() {
    assert_eq!(&tile_cell(Tile::Hit), b"\x1b[31m[*]\x1b[0m");
    assert_eq!(&tile_cell(Tile::Miss), b"\x1b[00m   \x1b[0m");
    assert_eq!(&tile_cell(Tile::Unknown), b"\x1b[34m[~]\x1b[0m");
    assert_eq!(&tile_cell(Tile::Ship), b"\x1b[32m[O]\x1b[0m");
    assert_eq!(&tile_cell(Tile::Collision), b"\x1b[33m[X]\x1b[0m");
    assert_eq!(&tile_cell(Tile::NewShip), b"\x1b[32m[n]\x1b[0m");
    assert_eq!(&tile_cell(Tile::Crosshair), b"\x1b[33m{+}\x1b[0m");
    assert_eq!(&create_cell("abcdefghijkl"), b"abcdefghijkl");
}

#[test]
fn copy_cell_touches_one_cell() {
    let mut buffer = blank();
    copy_cell(&tile_cell(Tile::Ship), &mut buffer, 3, 7);
    assert_eq!(buffer[7][3], tile_cell(Tile::Ship));
    assert_eq!(buffer[3][7], [0u8; 12]);
}

#[test]
fn render_draws_only_the_mask() {
    let mut buffer = blank();
    render_unknown(&mut buffer);
    render(&mut buffer, cell(0, 0) | cell(9, 9), tile_cell(Tile::Hit));
    for y in 0..10 {
        for x in 0..10 {
            let expected = if (x, y) == (0, 0) || (x, y) == (9, 9) { Tile::Hit } else { Tile::Unknown };
            assert_eq!(buffer[y][x], tile_cell(expected));
        }
    }
}

#[test]
fn new_ship_collisions_are_marked() {
    let mut buffer = blank();
    render_unknown(&mut buffer);
    let board = create_ship(2);
    // A vertical ship whose top cell touches the placed one diagonally.
    let new_ship = cell(2, 1) | cell(2, 2);
    render_board_ships_n_new_ship(&mut buffer, board, new_ship);
    assert_eq!(buffer[0][0], tile_cell(Tile::Ship));
    assert_eq!(buffer[0][1], tile_cell(Tile::Ship));
    assert_eq!(buffer[1][2], tile_cell(Tile::Collision));
    assert_eq!(buffer[2][2], tile_cell(Tile::NewShip));
    assert_eq!(buffer[5][5], tile_cell(Tile::Unknown));
}

#[test]
fn own_and_enemy_views() {
    let mut game = Game::default();
    game.add_ship(Player::Alpha, create_ship(2), 4).unwrap();
    game.add_ship(Player::Beta, cell(5, 5), 0).unwrap();
    game.shoot(Player::Beta, cell(1, 0));
    game.shoot(Player::Beta, cell(7, 7));
    game.shoot(Player::Alpha, cell(4, 4));

    let mut own = blank();
    render_current_player_board(&mut own, &game, Player::Alpha);
    assert_eq!(own[0][0], tile_cell(Tile::Ship));
    assert_eq!(own[0][1], tile_cell(Tile::Hit));
    assert_eq!(own[7][7], tile_cell(Tile::Miss));
    assert_eq!(own[4][4], tile_cell(Tile::Unknown));

    let mut enemy = blank();
    render_enemy_player_board(&mut enemy, &game, Player::Alpha);
    assert_eq!(enemy[4][4], tile_cell(Tile::Miss));
    assert_eq!(enemy[5][5], tile_cell(Tile::Unknown));
    game.shoot(Player::Alpha, cell(5, 5));
    render_enemy_player_board(&mut enemy, &game, Player::Alpha);
    assert_eq!(enemy[5][5], tile_cell(Tile::Hit));
    // The sunk ship's neighbourhood is known to be empty.
    assert_eq!(enemy[6][6], tile_cell(Tile::Miss));
}

#[test]
fn keys_move_within_the_grid() {
    assert_eq!(move_by_user_input(CELL, 'd'), cell(1, 0));
    assert_eq!(move_by_user_input(CELL, 'l'), cell(1, 0));
    assert_eq!(move_by_user_input(CELL, 's'), cell(0, 1));
    assert_eq!(move_by_user_input(CELL, 'j'), cell(0, 1));
    assert_eq!(move_by_user_input(CELL, 'w'), CELL);
    assert_eq!(move_by_user_input(CELL, 'a'), CELL);
    assert_eq!(move_by_user_input(cell(3, 3), 'k'), cell(3, 2));
    assert_eq!(move_by_user_input(cell(3, 3), 'h'), cell(2, 3));
    assert_eq!(move_by_user_input(cell(3, 3), 'x'), cell(3, 3));
}

#[test]
fn placement_keys() {
    let mut game = Game::default();
    let ship = create_ship(3);
    assert_eq!(placement_step(&game, Player::Alpha, ship, '\n'), KeyOutcome::Done(ship));
    assert_eq!(placement_step(&game, Player::Alpha, ship, 'f'), KeyOutcome::Moving(transpose(ship)));
    assert_eq!(placement_step(&game, Player::Alpha, ship, 'd'), KeyOutcome::Moving(ship >> 1));
    game.add_ship(Player::Alpha, ship, 0).unwrap();
    // Enter on a blocked position keeps the ship moving, unchanged.
    assert_eq!(placement_step(&game, Player::Alpha, ship, '\n'), KeyOutcome::Moving(ship));
}

#[test]
fn aim_keys() {
    assert_eq!(aim_step(CELL, '\n'), KeyOutcome::Done(CELL));
    assert_eq!(aim_step(CELL, 's'), KeyOutcome::Moving(cell(0, 1)));
    assert_eq!(aim_step(cell(9, 9), 'd'), KeyOutcome::Moving(cell(9, 9)));
}

#[test]
fn status_counts() {
    let ship = create_ship(4);
    assert_eq!(ship_status(ship, 0), (4, 0, 6));
    assert_eq!(ship_status(ship, cell(1, 0) | cell(3, 0) | cell(8, 8)), (2, 2, 6));
    assert_eq!(ship_status(0, u128::MAX), (0, 0, 10));
}

#[test]
fn io_scenes() {
    let mut game = Game::default();
    game.add_ship(Player::Alpha, create_ship(2), 4).unwrap();
    game.add_ship(Player::Beta, cell(5, 5), 0).unwrap();
    game.shoot(Player::Alpha, cell(0, 9));
    let mut io = IO::default();

    io.render_scene_after_shoot(&game, Player::Alpha);
    assert_eq!(io.lbuffer[0][0], tile_cell(Tile::Ship));
    assert_eq!(io.rbuffer[9][0], tile_cell(Tile::Miss));
    assert_eq!(io.rbuffer[5][5], tile_cell(Tile::Unknown));

    io.render_scene_after_shoot(&game, Player::Beta);
    assert_eq!(io.rbuffer[5][5], tile_cell(Tile::Ship));
    assert_eq!(io.lbuffer[0][0], tile_cell(Tile::Unknown));

    io.render_aim(&game, Player::Alpha, cell(2, 2));
    assert_eq!(io.rbuffer[2][2], tile_cell(Tile::Crosshair));
    assert_eq!(io.rbuffer[9][0], tile_cell(Tile::Miss));

    io.render_last_scene(&game);
    assert_eq!(io.lbuffer[0][1], tile_cell(Tile::Ship));
    assert_eq!(io.rbuffer[5][5], tile_cell(Tile::Ship));

    io.render_new_ship(&game, Player::Alpha, cell(2, 1));
    assert_eq!(io.lbuffer[1][2], tile_cell(Tile::Collision));
    assert_eq!(io.lbuffer[0][0], tile_cell(Tile::Ship));

    io.render_mask(cell(4, 4));
    assert_eq!(io.lbuffer[4][4], tile_cell(Tile::Ship));
    assert_eq!(io.lbuffer[0][0], tile_cell(Tile::Unknown));
}
