//! The first board interface: plain multi-cell moves and placement of a ship
//! by coordinates.
use vstd::prelude::*;

use crate::bits::{bit, cell, cell_index, cells, in_grid, is_board};
use crate::board_api::{
    board_get, board_set, lemma_cells_of, lemma_top_run, ship_cells, surround, top_run, transpose,
    transposed,
};
use crate::constants::{
    BOARD_SIZE, BOT_BORDER_MASK, CELL, LEF_BORDER_MASK, RGT_BORDER_MASK, TOP_BORDER_MASK,
};

verus! {

pub enum Direction {
    Up,
    Down,
    Left,
    Right,
}

pub enum Orientation {
    Horizontal,
    Vertical,
}

/// The plain shift of the whole integer by `step` cells in `d`.
pub open spec fn moved(b: u128, step: int, d: Direction) -> u128 {
    match d {
        Direction::Up => b << ((10 * step) as u128),
        Direction::Down => b >> ((10 * step) as u128),
        Direction::Left => b << (step as u128),
        Direction::Right => b >> (step as u128),
    }
}

/// The border mask of direction `d`.
pub open spec fn edge_mask(d: Direction) -> u128 {
    match d {
        Direction::Up => TOP_BORDER_MASK,
        Direction::Down => BOT_BORDER_MASK,
        Direction::Left => LEF_BORDER_MASK,
        Direction::Right => RGT_BORDER_MASK,
    }
}

/// The cells of a straight ship of `size` cells whose top-left cell is
/// `(x, y)`, laid out as `orientation` says.
pub open spec fn run_cells(x: int, y: int, size: int, orientation: Orientation) -> Set<(int, int)> {
    Set::new(
        |p: (int, int)|
            match orientation {
                Orientation::Horizontal => p.1 == y && x <= p.0 < x + size,
                Orientation::Vertical => p.0 == x && y <= p.1 < y + size,
            },
    )
}

/// A straight ship of `size` cells at `(x, y)` fits on the grid.
pub open spec fn fits(x: int, y: int, size: int, orientation: Orientation) -> bool {
    match orientation {
        Orientation::Horizontal => x + size <= 10 && y < 10,
        Orientation::Vertical => x < 10 && y + size <= 10,
    }
}

/// The ship that `add_ship` places: a run of `size` cells laid out as
/// `orientation` says, shifted `x` cells right and `y` rows down.
pub open spec fn placed(x: int, y: int, size: int, orientation: Orientation) -> u128 {
    let run = top_run(size);
    let ship = match orientation {
        Orientation::Horizontal => run,
        Orientation::Vertical => transposed(run),
    };
    moved(moved(ship, x, Direction::Right), y, Direction::Down)
}

/// Cell `(x, y)` is the one whose bit has number `10 * y + x` from the top.
proof fn lemma_cell_of_bit(k: int)
    requires
        28 <= k < 128,
    ensures
        in_grid((127 - k) % 10, (127 - k) / 10),
        cell_index((127 - k) % 10, (127 - k) / 10) == k,
{
}

/// Shifting a valid board right by `dx + 10 * dy` bits moves each cell `dx`
/// columns right and `dy` rows down, when no cell would leave the grid.
proof fn lemma_plain_shift(b: u128, dx: int, dy: int)
    requires
        is_board(b),
        0 <= dx < 10,
        0 <= dy < 10,
        forall|p: (int, int)| #[trigger] cells(b).contains(p) ==> p.0 + dx < 10 && p.1 + dy < 10,
    ensures
        is_board(b >> ((dx + 10 * dy) as u128)),
        cells(b >> ((dx + 10 * dy) as u128)) == Set::new(
            |q: (int, int)| in_grid(q.0, q.1) && cells(b).contains((q.0 - dx, q.1 - dy)),
        ),
{
    let sh = (dx + 10 * dy) as u128;
    let r = b >> sh;
    crate::bits::lemma_board_bits(b);
    assert forall|k: u128| k < 28 implies !#[trigger] bit(r, k) by {
        crate::bits::lemma_bit_shift(b, sh, k);
        if k + sh < 128 && k + sh >= 28 {
            let j = (k + sh) as int;
            lemma_cell_of_bit(j);
            let c = ((127 - j) % 10, (127 - j) / 10);
            if cells(b).contains(c) {
                assert(cell_index(c.0 + dx, c.1 + dy) == k);
            }
        }
    }
    crate::bits::lemma_board_bits(r);
    let target = Set::new(
        |q: (int, int)| in_grid(q.0, q.1) && cells(b).contains((q.0 - dx, q.1 - dy)),
    );
    assert forall|q: (int, int)| #[trigger] cells(r).contains(q) == target.contains(q) by {
        if in_grid(q.0, q.1) {
            let k = cell_index(q.0, q.1);
            crate::bits::lemma_bit_shift(b, sh, k as u128);
            if q.0 >= dx && q.1 >= dy {
                assert(cell_index(q.0 - dx, q.1 - dy) == k + sh);
            } else if k + sh < 128 {
                let j = k + sh;
                lemma_cell_of_bit(j);
                let c = ((127 - j) % 10, (127 - j) / 10);
                if cells(b).contains(c) {
                    assert(cell_index(c.0 + dx, c.1 + dy) == k);
                }
                assert(!bit(b, j as u128));
            }
        }
    }
    assert(cells(r) =~= target);
}

/// Whether cell `(x, y)` of `board` is set.
#[inline(always)]
pub fn get_from_board(board: u128, x: usize, y: usize) -> (r: bool)
    requires
        x < 10,
        y < 10,
        is_board(board),
    ensures
        r == cell(board, x as int, y as int),
{
    board_get(board, x, y)
}

/// `board` with cell `(x, y)` set to `value`.
#[inline(always)]
pub fn set_to_board(board: u128, x: usize, y: usize, value: bool) -> (r: u128)
    requires
        x < 10,
        y < 10,
        is_board(board),
    ensures
        is_board(r),
        cells(r) == if value {
            cells(board).insert((x as int, y as int))
        } else {
            cells(board).remove((x as int, y as int))
        },
{
    board_set(board, x, y, value)
}

/// Shifting a top run right by one and setting the top bit lengthens it by one.
proof fn lemma_run_step(k: u128)
    by (bit_vector)
    requires
        1 <= k <= 4,
    ensures
        ((((((1u128 << k) - 1) as u128) << (128 - k) as u128) >> 1u128) | 0x8000_0000_0000_0000_0000_0000_0000_0000u128)
            == (((1u128 << (k + 1) as u128) - 1) as u128) << (127 - k) as u128,
{
}

/// A horizontal ship of `size` cells in the top-left corner.
#[inline(always)]
pub fn create_ship(size: usize) -> (r: u128)
    requires
        1 <= size <= 5,
    ensures
        r == top_run(size as int),
        is_board(r),
        cells(r) == ship_cells(size as int),
{
    let mut size = size;
    let ghost n: int = size as int;
    let mut result = CELL;
    proof {
        assert(top_run(1) == CELL) by (bit_vector);
    }
    while size > 1
        invariant
            1 <= n <= 5,
            1 <= size <= n,
            result == top_run(n - size + 1),
        decreases size,
    {
        proof {
            lemma_run_step((n - size + 1) as u128);
        }
        result = (result >> 1) | CELL;
        size -= 1;
    }
    proof {
        lemma_top_run(n);
    }
    result
}

/// Builds a ship of `size` cells at column `x`, row `y`, and adds it to
/// `board` unless its neighbourhood (the 3x3 mask, clipped at the edges)
/// meets a set cell of `board`. On a collision the error holds the board with
/// the ship drawn in, and the mask.
pub fn add_ship(board: u128, x: usize, y: usize, size: usize, orientation: Orientation) -> (r:
    Result<u128, (u128, u128)>)
    requires
        1 <= size <= 5,
        fits(x as int, y as int, size as int, orientation),
    ensures
        ({
            let ship = placed(x as int, y as int, size as int, orientation);
            &&& is_board(ship)
            &&& cells(ship) == run_cells(x as int, y as int, size as int, orientation)
            &&& r == if surround(ship) & board != 0 {
                Err::<u128, (u128, u128)>((board | ship, surround(ship)))
            } else {
                Ok::<u128, (u128, u128)>(board | ship)
            }
        }),
{
    let ship = create_ship(size);
    let ship = match orientation {
        Orientation::Horizontal => ship,
        Orientation::Vertical => flip(ship),
    };
    let ghost laid = ship;
    proof {
        let n = size as int;
        match orientation {
            Orientation::Horizontal => {},
            Orientation::Vertical => {
                lemma_cells_of(crate::board_api::flipped(ship_cells(n)));
            },
        }
        lemma_plain_shift(laid, x as int, 0);
        let moved_x = laid >> ((x + 10 * 0) as u128);
        lemma_plain_shift(moved_x, 0, y as int);
    }
    let ship = move_board(ship, x, Direction::Right);
    let ship = move_board(ship, y, Direction::Down);
    proof {
        assert(ship == placed(x as int, y as int, size as int, orientation));
        assert(cells(ship) =~= run_cells(x as int, y as int, size as int, orientation));
    }
    let mask = create_surround_mask(ship);

    if mask & board != 0 {
        return Err((board | ship, mask));
    }

    Ok(board | ship)
}

/// The 3x3 neighbourhood of `item`, the item itself included, clipped at the
/// grid's edges.
#[inline(always)]
pub fn create_surround_mask(item: u128) -> (r: u128)
    requires
        is_board(item),
    ensures
        r == surround(item),
        is_board(r),
        cells(r) == crate::board_api::neighbourhood(cells(item)),
{
    crate::board_api::create_surround_mask(item)
}

/// Shifts the whole integer by `step` cells in `direction`, paying no heed to
/// the grid's edges.
#[inline(always)]
pub fn move_board(board: u128, step: usize, direction: Direction) -> (r: u128)
    requires
        step < 128,
        direction is Up || direction is Down ==> step < 13,
    ensures
        r == moved(board, step as int, direction),
{
    let shift = match direction {
        Direction::Up => BOARD_SIZE * step,
        Direction::Down => BOARD_SIZE * step,
        Direction::Left => step,
        Direction::Right => step,
    };
    match direction {
        Direction::Up | Direction::Left => board << shift,
        Direction::Down | Direction::Right => board >> shift,
    }
}

/// Shifts `ship` by `step` cells in `direction`. The result is `Err` when a
/// cell of `ship` already lay on that edge of the grid, `Ok` otherwise.
#[inline(always)]
pub fn move_ship(ship: u128, step: usize, direction: Direction) -> (r: Result<u128, u128>)
    requires
        step < 128,
        direction is Up || direction is Down ==> step < 13,
    ensures
        r == if ship & edge_mask(direction) != 0 {
            Err::<u128, u128>(moved(ship, step as int, direction))
        } else {
            Ok::<u128, u128>(moved(ship, step as int, direction))
        },
{
    let mask = match direction {
        Direction::Up => TOP_BORDER_MASK,
        Direction::Down => BOT_BORDER_MASK,
        Direction::Left => LEF_BORDER_MASK,
        Direction::Right => RGT_BORDER_MASK,
    };
    if ship & mask != 0 {
        return Err(move_board(ship, step, direction));
    }
    Ok(move_board(ship, step, direction))
}

/// Reflects `input` across the main diagonal.
#[inline(always)]
pub fn flip(input: u128) -> (r: u128)
    requires
        is_board(input),
    ensures
        r == transposed(input),
        is_board(r),
{
    transpose(input)
}

} // verus!
