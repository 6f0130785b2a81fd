//! What the terminal front end computes: the coloured cells that show each
//! board, the decisions taken on each key press, and the ship status counts.
//! Reading keys and writing to the terminal is left to the caller.
use vstd::prelude::*;
use vstd::string::StringSliceAdditionalSpecFns;

use crate::bits::{cell, cells, in_grid, is_board};
use crate::board_api::{
    board_get, create_ship, create_surround_mask, edge_cells, lemma_cells_ops, lemma_masks_are_boards,
    popcount, saturated_move, ship_size, surround, transpose, transposed, Direction,
};
use crate::constants::{BOARD_SIZE, CELL};
use crate::game::{opponent, Game, Player};

verus! {

/// Bytes in one rendered cell: an escape sequence for the colour, three
/// visible characters, and the escape sequence that resets the colour.
pub const CELL_SIZE: usize = 12;

pub type Cell = [u8; 12];

pub type OutputBuffer = [[Cell; 10]; 10];

/// The kinds of cell that a board can show.
#[derive(Copy, Clone, Debug, PartialEq, Eq, Structural)]
pub enum Tile {
    Miss,
    Hit,
    Unknown,
    Ship,
    Collision,
    NewShip,
    Crosshair,
}

/// The bytes that draw `t`.
pub open spec fn tile_bytes(t: Tile) -> Seq<u8> {
    match t {
        Tile::Miss => seq![27u8, 91, 48, 48, 109, 32, 32, 32, 27, 91, 48, 109],
        Tile::Hit => seq![27u8, 91, 51, 49, 109, 91, 42, 93, 27, 91, 48, 109],
        Tile::Unknown => seq![27u8, 91, 51, 52, 109, 91, 126, 93, 27, 91, 48, 109],
        Tile::Ship => seq![27u8, 91, 51, 50, 109, 91, 79, 93, 27, 91, 48, 109],
        Tile::Collision => seq![27u8, 91, 51, 51, 109, 91, 88, 93, 27, 91, 48, 109],
        Tile::NewShip => seq![27u8, 91, 51, 50, 109, 91, 110, 93, 27, 91, 48, 109],
        Tile::Crosshair => seq![27u8, 91, 51, 51, 109, 123, 43, 125, 27, 91, 48, 109],
    }
}

/// The cell shown at column `x`, row `y` of `b`.
pub open spec fn at(b: OutputBuffer, x: int, y: int) -> Cell {
    b[y][x]
}

/// Every cell of `b` draws `t`.
pub open spec fn all_tiles(b: OutputBuffer, t: Tile) -> bool {
    forall|x: int, y: int| in_grid(x, y) ==> (#[trigger] at(b, x, y))@ == tile_bytes(t)
}

/// A cell holding the twelve bytes of `val`.
pub fn create_cell(val: &str) -> (r: Cell)
    requires
        val.spec_bytes().len() == 12,
    ensures
        r@ == val.spec_bytes(),
{
    let mut cell: Cell = [0; CELL_SIZE];
    let bytes = val.as_bytes();
    let mut i: usize = 0;
    while i < bytes.len()
        invariant
            bytes@ == val.spec_bytes(),
            bytes@.len() == 12,
            i <= 12,
            forall|j: int| 0 <= j < i ==> cell[j] == bytes@[j],
        decreases 12 - i,
    {
        cell[i] = bytes[i];
        i += 1;
    }
    assert(cell@ =~= bytes@);
    cell
}


/// The bytes of an ASCII string are its characters.
proof fn lemma_ascii_bytes(s: &str)
    requires
        forall|i: int| 0 <= i < s@.len() ==> '\0' <= #[trigger] s@[i] <= '\u{7f}',
    ensures
        s.spec_bytes().len() == s@.len(),
        forall|i: int| 0 <= i < s@.len() ==> #[trigger] s.spec_bytes()[i] == s@[i] as u8,
{
    assert(vstd::string::is_ascii(s));
    vstd::string::is_ascii_spec_bytes(s);
}

/// The cell that draws `t`.
pub fn tile_cell(t: Tile) -> (r: Cell)
    ensures
        r@ == tile_bytes(t),
{
    match t {
        Tile::Miss => {
            let text = "\u{001B}[00m   \u{001B}[0m";
            proof {
                reveal_strlit("\u{001B}[00m   \u{001B}[0m");
                lemma_ascii_bytes(text);
                assert(text.spec_bytes() =~= tile_bytes(t));
            }
            create_cell(text)
        },
        Tile::Hit => {
            let text = "\u{001B}[31m[*]\u{001B}[0m";
            proof {
                reveal_strlit("\u{001B}[31m[*]\u{001B}[0m");
                lemma_ascii_bytes(text);
                assert(text.spec_bytes() =~= tile_bytes(t));
            }
            create_cell(text)
        },
        Tile::Unknown => {
            let text = "\u{001B}[34m[~]\u{001B}[0m";
            proof {
                reveal_strlit("\u{001B}[34m[~]\u{001B}[0m");
                lemma_ascii_bytes(text);
                assert(text.spec_bytes() =~= tile_bytes(t));
            }
            create_cell(text)
        },
        Tile::Ship => {
            let text = "\u{001B}[32m[O]\u{001B}[0m";
            proof {
                reveal_strlit("\u{001B}[32m[O]\u{001B}[0m");
                lemma_ascii_bytes(text);
                assert(text.spec_bytes() =~= tile_bytes(t));
            }
            create_cell(text)
        },
        Tile::Collision => {
            let text = "\u{001B}[33m[X]\u{001B}[0m";
            proof {
                reveal_strlit("\u{001B}[33m[X]\u{001B}[0m");
                lemma_ascii_bytes(text);
                assert(text.spec_bytes() =~= tile_bytes(t));
            }
            create_cell(text)
        },
        Tile::NewShip => {
            let text = "\u{001B}[32m[n]\u{001B}[0m";
            proof {
                reveal_strlit("\u{001B}[32m[n]\u{001B}[0m");
                lemma_ascii_bytes(text);
                assert(text.spec_bytes() =~= tile_bytes(t));
            }
            create_cell(text)
        },
        Tile::Crosshair => {
            let text = "\u{001B}[33m{+}\u{001B}[0m";
            proof {
                reveal_strlit("\u{001B}[33m{+}\u{001B}[0m");
                lemma_ascii_bytes(text);
                assert(text.spec_bytes() =~= tile_bytes(t));
            }
            create_cell(text)
        },
    }
}


/// Cell `(x, y)` of `b` draws `t`.
pub open spec fn shows(b: OutputBuffer, x: int, y: int, t: Tile) -> bool {
    at(b, x, y)@ == tile_bytes(t)
}

/// Puts `cell` at column `x`, row `y` of `buffer`.
#[inline(always)]
pub fn copy_cell(cell: &Cell, buffer: &mut OutputBuffer, x: usize, y: usize)
    requires
        x < 10,
        y < 10,
    ensures
        forall|i: int, j: int|
            in_grid(i, j) ==> #[trigger] at(*final(buffer), i, j) == if i == x && j == y {
                *cell
            } else {
                at(*old(buffer), i, j)
            },
{
    let mut row = buffer[y];
    row[x] = *cell;
    buffer[y] = row;
}

/// Fills `buffer` with unknown cells.
pub fn render_unknown(buffer: &mut OutputBuffer)
    ensures
        all_tiles(*final(buffer), Tile::Unknown),
{
    let unknown = tile_cell(Tile::Unknown);
    let mut y: usize = 0;
    while y < BOARD_SIZE
        invariant
            y <= 10,
            unknown@ == tile_bytes(Tile::Unknown),
            forall|i: int, j: int|
                in_grid(i, j) && j < y ==> (#[trigger] at(*buffer, i, j))@ == tile_bytes(Tile::Unknown),
        decreases 10 - y,
    {
        let mut x: usize = 0;
        while x < BOARD_SIZE
            invariant
                x <= 10,
                y < 10,
                unknown@ == tile_bytes(Tile::Unknown),
                forall|i: int, j: int|
                    in_grid(i, j) && (j < y || (j == y && i < x)) ==> (#[trigger] at(
                        *buffer,
                        i,
                        j,
                    ))@ == tile_bytes(Tile::Unknown),
            decreases 10 - x,
        {
            copy_cell(&unknown, buffer, x, y);
            x += 1;
        }
        y += 1;
    }
}

/// Puts `cell` on every cell of `buffer` that is set in `mask`.
pub fn render(buffer: &mut OutputBuffer, mask: u128, cell: Cell)
    requires
        is_board(mask),
    ensures
        forall|i: int, j: int|
            in_grid(i, j) ==> #[trigger] at(*final(buffer), i, j) == if cells(mask).contains((i, j)) {
                cell
            } else {
                at(*old(buffer), i, j)
            },
{
    let ghost start = *buffer;
    let mut y: usize = 0;
    while y < BOARD_SIZE
        invariant
            y <= 10,
            is_board(mask),
            forall|i: int, j: int|
                in_grid(i, j) ==> #[trigger] at(*buffer, i, j) == if j < y && cells(mask).contains(
                    (i, j),
                ) {
                    cell
                } else {
                    at(start, i, j)
                },
        decreases 10 - y,
    {
        let mut x: usize = 0;
        while x < BOARD_SIZE
            invariant
                x <= 10,
                y < 10,
                is_board(mask),
                forall|i: int, j: int|
                    in_grid(i, j) ==> #[trigger] at(*buffer, i, j) == if (j < y || (j == y && i < x))
                        && cells(mask).contains((i, j)) {
                        cell
                    } else {
                        at(start, i, j)
                    },
            decreases 10 - x,
        {
            if board_get(mask, x, y) {
                copy_cell(&cell, buffer, x, y);
            }
            x += 1;
        }
        y += 1;
    }
}

/// Draws the placed ships of `board`, then `new_ship` over them, then marks
/// as collisions the cells of `new_ship` that touch `board`.
pub fn render_board_ships_n_new_ship(buffer: &mut OutputBuffer, board: u128, new_ship: u128)
    requires
        is_board(board),
        is_board(new_ship),
    ensures
        forall|i: int, j: int|
            #![trigger at(*final(buffer), i, j)]
            in_grid(i, j) ==> {
                let p = (i, j);
                if cells(new_ship).contains(p) && cells(surround(board)).contains(p) {
                    shows(*final(buffer), i, j, Tile::Collision)
                } else if cells(new_ship).contains(p) {
                    shows(*final(buffer), i, j, Tile::NewShip)
                } else if cells(board).contains(p) {
                    shows(*final(buffer), i, j, Tile::Ship)
                } else {
                    at(*final(buffer), i, j) == at(*old(buffer), i, j)
                }
            },
{
    let collision = new_ship & create_surround_mask(board);
    proof {
        lemma_cells_ops(new_ship, surround(board));
    }

    render(buffer, board, tile_cell(Tile::Ship));
    render(buffer, new_ship, tile_cell(Tile::NewShip));
    render(buffer, collision, tile_cell(Tile::Collision));
}

/// The tile that `player` sees at `(x, y)` of their own board: a hit ship, a
/// miss by the opponent, an untouched ship, or water not yet fired at.
pub open spec fn own_tile(game: Game, player: Player, x: int, y: int) -> Tile {
    let board = cells(game.board(player));
    let other = cells(game.shots(opponent(player)));
    if other.contains((x, y)) && board.contains((x, y)) {
        Tile::Hit
    } else if other.contains((x, y)) {
        Tile::Miss
    } else if board.contains((x, y)) {
        Tile::Ship
    } else {
        Tile::Unknown
    }
}

/// The tile that `player` sees at `(x, y)` of the opponent's board: a hit, a
/// miss, or a cell not yet known.
pub open spec fn enemy_tile(game: Game, player: Player, x: int, y: int) -> Tile {
    let board = cells(game.board(opponent(player)));
    let shots = cells(game.shots(player));
    if shots.contains((x, y)) && board.contains((x, y)) {
        Tile::Hit
    } else if shots.contains((x, y)) {
        Tile::Miss
    } else {
        Tile::Unknown
    }
}

/// Both fleet boards of a well-formed game are valid boards.
proof fn lemma_game_boards(game: Game)
    requires
        game.wf(),
    ensures
        is_board(game.board(Player::Alpha)),
        is_board(game.board(Player::Beta)),
{
    crate::game::lemma_fleet_board(game.ships_alpha);
    crate::game::lemma_fleet_board(game.ships_beta);
}

/// Draws `player`'s own board: ships, the opponent's misses and hits.
pub fn render_current_player_board(buffer: &mut OutputBuffer, game: &Game, player: Player)
    requires
        game.wf(),
    ensures
        forall|i: int, j: int|
            in_grid(i, j) ==> #[trigger] shows(*final(buffer), i, j, own_tile(*game, player, i, j)),
{
    let board = game.get_board(player);
    let other_shoots = game.get_shoots(player.other());
    proof {
        lemma_game_boards(*game);
        lemma_cells_ops(other_shoots, board);
    }
    let hits: u128 = other_shoots & board;

    render_unknown(buffer);
    render(buffer, board, tile_cell(Tile::Ship));
    render(buffer, other_shoots, tile_cell(Tile::Miss));
    render(buffer, hits, tile_cell(Tile::Hit));
}

/// Draws what `player` knows of the opponent's board: misses and hits.
pub fn render_enemy_player_board(buffer: &mut OutputBuffer, game: &Game, player: Player)
    requires
        game.wf(),
    ensures
        forall|i: int, j: int|
            in_grid(i, j) ==> #[trigger] shows(*final(buffer), i, j, enemy_tile(*game, player, i, j)),
{
    let other_player_board = game.get_board(player.other());
    let shoots = game.get_shoots(player);
    proof {
        lemma_game_boards(*game);
        lemma_cells_ops(shoots, other_player_board);
    }
    let hits: u128 = shoots & other_player_board;

    render_unknown(buffer);
    render(buffer, shoots, tile_cell(Tile::Miss));
    render(buffer, hits, tile_cell(Tile::Hit));
}


/// The direction that key `c` moves a shape in: vi keys or WASD.
pub open spec fn key_direction(c: char) -> Option<Direction> {
    if c == 'k' || c == 'w' {
        Some(Direction::Up)
    } else if c == 'j' || c == 's' {
        Some(Direction::Down)
    } else if c == 'h' || c == 'a' {
        Some(Direction::Left)
    } else if c == 'l' || c == 'd' {
        Some(Direction::Right)
    } else {
        None
    }
}

/// `board` moved one cell as key `c` says, never off the grid; other keys
/// leave it where it is.
pub open spec fn moved_by_key(board: u128, c: char) -> u128 {
    match key_direction(c) {
        Some(d) => crate::board_api::saturated(board, d),
        None => board,
    }
}

/// Moves `board` one cell in the direction of key `input`, stopping at the
/// edges of the grid.
pub fn move_by_user_input(board: u128, input: char) -> (r: u128)
    requires
        is_board(board),
    ensures
        r == moved_by_key(board, input),
        is_board(r),
{
    match input {
        'k' | 'w' => saturated_move(board, Direction::Up),
        'j' | 's' => saturated_move(board, Direction::Down),
        'h' | 'a' => saturated_move(board, Direction::Left),
        'l' | 'd' => saturated_move(board, Direction::Right),
        _ => board,
    }
}

/// What one key press does to a shape being moved on the screen.
#[derive(Copy, Clone, Debug, PartialEq, Eq, Structural)]
pub enum KeyOutcome {
    /// The shape is confirmed where it stands.
    Done(u128),
    /// The shape is still being moved; this is where it stands now.
    Moving(u128),
}

/// One key press while `player` places `ship`: Enter confirms it where it
/// may be placed, `f` turns it about the diagonal, the movement keys move it.
pub fn placement_step(game: &Game, player: Player, ship: u128, input: char) -> (r: KeyOutcome)
    requires
        game.wf(),
        is_board(ship),
    ensures
        input == '\n' && game.placeable(player, ship) ==> r == KeyOutcome::Done(ship),
        !(input == '\n' && game.placeable(player, ship)) ==> r == KeyOutcome::Moving(
            moved_by_key(
                if input == 'f' {
                    transposed(ship)
                } else {
                    ship
                },
                input,
            ),
        ),
{
    if input == '\n' && game.can_place_ship(player, ship) {
        return KeyOutcome::Done(ship);
    }
    let mut new_ship = ship;
    if input == 'f' {
        new_ship = transpose(new_ship);
    }
    KeyOutcome::Moving(move_by_user_input(new_ship, input))
}

/// One key press while aiming: Enter fires at the crosshair, the movement
/// keys move it.
pub fn aim_step(crosshair: u128, input: char) -> (r: KeyOutcome)
    requires
        is_board(crosshair),
    ensures
        input == '\n' ==> r == KeyOutcome::Done(crosshair),
        input != '\n' ==> r == KeyOutcome::Moving(moved_by_key(crosshair, input)),
{
    if input == '\n' {
        return KeyOutcome::Done(crosshair);
    }
    KeyOutcome::Moving(move_by_user_input(crosshair, input))
}

/// The bits that `a & b` keeps are at most those of `a`.
proof fn lemma_count_bits_and(a: u128, b: u128, n: nat)
    requires
        n <= 128,
    ensures
        crate::board_api::count_bits(a & b, n) <= crate::board_api::count_bits(a, n),
    decreases n,
{
    if n > 0 {
        lemma_count_bits_and(a, b, (n - 1) as nat);
        crate::bits::lemma_bit_and_or_not(a, b, (n - 1) as u128);
    }
}

/// The status bar of one ship: how many of its cells are still afloat, how
/// many are hit, and how many of the bar's ten cells are left blank.
pub fn ship_status(ship: u128, enemy_shoots: u128) -> (r: (usize, usize, usize))
    requires
        popcount(ship) <= 10,
    ensures
        r.1 == popcount(ship & enemy_shoots),
        r.0 + r.1 == popcount(ship),
        r.0 + r.1 + r.2 == 10,
{
    let size = ship_size(ship);
    let damage = ship_size(ship & enemy_shoots);
    proof {
        lemma_count_bits_and(ship, enemy_shoots, 128);
    }
    (size - damage, damage, BOARD_SIZE - size)
}


/// The two boards on the screen: the left one is Alpha's side, the right one
/// Beta's.
pub struct IO {
    pub lbuffer: OutputBuffer,
    pub rbuffer: OutputBuffer,
}

impl Default for IO {
    fn default() -> (r: IO)
        ensures
            forall|i: int, j: int, k: int|
                in_grid(i, j) && 0 <= k < 12 ==> #[trigger] at(r.lbuffer, i, j)[k] == 0 && #[trigger] at(
                    r.rbuffer,
                    i,
                    j,
                )[k] == 0,
    {
        let blank: Cell = [0; CELL_SIZE];
        let row: [Cell; 10] = [blank; BOARD_SIZE];
        IO { lbuffer: [row; BOARD_SIZE], rbuffer: [row; BOARD_SIZE] }
    }
}

/// What the new-ship screen shows at `(x, y)` while `player` places `ship`.
pub open spec fn placing_tile(game: Game, player: Player, ship: u128, x: int, y: int) -> Tile {
    let p = (x, y);
    if cells(ship).contains(p) && cells(surround(game.board(player))).contains(p) {
        Tile::Collision
    } else if cells(ship).contains(p) {
        Tile::NewShip
    } else if cells(game.board(player)).contains(p) {
        Tile::Ship
    } else {
        Tile::Unknown
    }
}

impl IO {
    /// The side of the screen that shows `player`'s own board.
    pub open spec fn own_side(&self, player: Player) -> OutputBuffer {
        match player {
            Player::Alpha => self.lbuffer,
            Player::Beta => self.rbuffer,
        }
    }

    /// Draws the screen shown after `player` fires: their own board on their
    /// side, and what they know of the opponent's board on the other.
    pub fn render_scene_after_shoot(&mut self, game: &Game, player: Player)
        requires
            game.wf(),
        ensures
            forall|i: int, j: int|
                in_grid(i, j) ==> #[trigger] shows(
                    final(self).own_side(player),
                    i,
                    j,
                    own_tile(*game, player, i, j),
                ) && shows(
                    final(self).own_side(opponent(player)),
                    i,
                    j,
                    enemy_tile(*game, player, i, j),
                ),
    {
        render_unknown(&mut self.lbuffer);
        render_unknown(&mut self.rbuffer);

        match player {
            Player::Alpha => {
                render_current_player_board(&mut self.lbuffer, game, Player::Alpha);
                render_enemy_player_board(&mut self.rbuffer, game, Player::Alpha);
            },
            Player::Beta => {
                render_current_player_board(&mut self.rbuffer, game, Player::Beta);
                render_enemy_player_board(&mut self.lbuffer, game, Player::Beta);
            },
        }
    }

    /// Draws the final screen: both players' own boards.
    pub fn render_last_scene(&mut self, game: &Game)
        requires
            game.wf(),
        ensures
            forall|i: int, j: int|
                in_grid(i, j) ==> #[trigger] shows(
                    final(self).lbuffer,
                    i,
                    j,
                    own_tile(*game, Player::Alpha, i, j),
                ) && shows(final(self).rbuffer, i, j, own_tile(*game, Player::Beta, i, j)),
    {
        render_unknown(&mut self.lbuffer);
        render_unknown(&mut self.rbuffer);
        render_current_player_board(&mut self.lbuffer, game, Player::Alpha);
        render_current_player_board(&mut self.rbuffer, game, Player::Beta);
    }

    /// Draws the aiming screen of `player`: their own board on their side,
    /// the opponent's board as they know it with `crosshair` on the other.
    pub fn render_aim(&mut self, game: &Game, player: Player, crosshair: u128)
        requires
            game.wf(),
            is_board(crosshair),
        ensures
            forall|i: int, j: int|
                in_grid(i, j) ==> #[trigger] shows(
                    final(self).own_side(player),
                    i,
                    j,
                    own_tile(*game, player, i, j),
                ) && shows(
                    final(self).own_side(opponent(player)),
                    i,
                    j,
                    if cells(crosshair).contains((i, j)) {
                        Tile::Crosshair
                    } else {
                        enemy_tile(*game, player, i, j)
                    },
                ),
    {
        match player {
            Player::Alpha => {
                render_current_player_board(&mut self.lbuffer, game, Player::Alpha);
                render_enemy_player_board(&mut self.rbuffer, game, Player::Alpha);
                let ghost known = self.rbuffer;
                let mark = tile_cell(Tile::Crosshair);
                render(&mut self.rbuffer, crosshair, mark);
                proof {
                    assert forall|i: int, j: int| in_grid(i, j) implies (#[trigger] at(
                        self.rbuffer,
                        i,
                        j,
                    ))@ == tile_bytes(
                        if cells(crosshair).contains((i, j)) {
                            Tile::Crosshair
                        } else {
                            enemy_tile(*game, player, i, j)
                        },
                    ) by {
                        assert(at(self.rbuffer, i, j) == if cells(crosshair).contains((i, j)) {
                            mark
                        } else {
                            at(known, i, j)
                        });
                        assert(shows(known, i, j, enemy_tile(*game, player, i, j)));
                    }
                }
            },
            Player::Beta => {
                render_current_player_board(&mut self.rbuffer, game, Player::Beta);
                render_enemy_player_board(&mut self.lbuffer, game, Player::Beta);
                let ghost known = self.lbuffer;
                let mark = tile_cell(Tile::Crosshair);
                render(&mut self.lbuffer, crosshair, mark);
                proof {
                    assert forall|i: int, j: int| in_grid(i, j) implies (#[trigger] at(
                        self.lbuffer,
                        i,
                        j,
                    ))@ == tile_bytes(
                        if cells(crosshair).contains((i, j)) {
                            Tile::Crosshair
                        } else {
                            enemy_tile(*game, player, i, j)
                        },
                    ) by {
                        assert(at(self.lbuffer, i, j) == if cells(crosshair).contains((i, j)) {
                            mark
                        } else {
                            at(known, i, j)
                        });
                        assert(shows(known, i, j, enemy_tile(*game, player, i, j)));
                    }
                }
            },
        }
    }

    /// Draws, on the left, `player`'s ships with `ship` over them, its
    /// collisions marked.
    pub fn render_new_ship(&mut self, game: &Game, player: Player, ship: u128)
        requires
            game.wf(),
            is_board(ship),
        ensures
            final(self).rbuffer == old(self).rbuffer,
            forall|i: int, j: int|
                in_grid(i, j) ==> #[trigger] shows(
                    final(self).lbuffer,
                    i,
                    j,
                    placing_tile(*game, player, ship, i, j),
                ),
    {
        let board = game.get_board(player);
        proof {
            lemma_game_boards(*game);
        }
        render_unknown(&mut self.lbuffer);
        let ghost blank = self.lbuffer;
        render_board_ships_n_new_ship(&mut self.lbuffer, board, ship);
        proof {
            assert forall|i: int, j: int| in_grid(i, j) implies #[trigger] shows(
                self.lbuffer,
                i,
                j,
                placing_tile(*game, player, ship, i, j),
            ) by {
                assert(at(blank, i, j)@ == tile_bytes(Tile::Unknown));
            }
        }
    }

    /// Draws `mask` as ships on the left board.
    pub fn render_mask(&mut self, mask: u128)
        requires
            is_board(mask),
        ensures
            final(self).rbuffer == old(self).rbuffer,
            forall|i: int, j: int|
                in_grid(i, j) ==> (#[trigger] at(final(self).lbuffer, i, j))@ == tile_bytes(
                    if cells(mask).contains((i, j)) {
                        Tile::Ship
                    } else {
                        Tile::Unknown
                    },
                ),
    {
        render_unknown(&mut self.lbuffer);
        render(&mut self.lbuffer, mask, tile_cell(Tile::Ship));
    }
}

} // verus!
