//! Operations on single boards: cell access, ship shapes, the three shift
//! policies, the neighbourhood mask, transposition and population count.
use vstd::prelude::*;

use crate::bits::{
    bit, board_from, cell, cell_index, cells, in_grid, is_board, lemma_bit_and_or_not,
    lemma_bit_shift, lemma_board_bits, lemma_board_ext, lemma_board_from,
};
use crate::constants::{
    BOARD_SIZE, BOT_BORDER_MASK, CAP, GAP, LEF_BORDER_MASK, RGT_BORDER_MASK, TOP_BORDER_MASK,
};

verus! {

#[derive(Copy, Clone, Debug, PartialEq, Eq)]
pub enum Direction {
    Up,
    Down,
    Left,
    Right,
}

/// The step, as (columns, rows), that one move in `d` makes.
pub open spec fn offset(d: Direction) -> (int, int) {
    match d {
        Direction::Up => (0, -1),
        Direction::Down => (0, 1),
        Direction::Left => (-1, 0),
        Direction::Right => (1, 0),
    }
}

/// The cells of `s` moved one step in `d`; what would leave the grid is lost.
pub open spec fn shift_cells(s: Set<(int, int)>, d: Direction) -> Set<(int, int)> {
    Set::new(
        |p: (int, int)|
            in_grid(p.0, p.1) && s.contains((p.0 - offset(d).0, p.1 - offset(d).1)),
    )
}

/// Grid cells whose neighbour in direction `d` lies outside the grid.
pub open spec fn edge_cells(d: Direction) -> Set<(int, int)> {
    Set::new(
        |p: (int, int)| in_grid(p.0, p.1) && !in_grid(p.0 + offset(d).0, p.1 + offset(d).1),
    )
}

/// The border mask of direction `d`.
pub open spec fn border(d: Direction) -> u128 {
    match d {
        Direction::Up => TOP_BORDER_MASK,
        Direction::Down => BOT_BORDER_MASK,
        Direction::Left => LEF_BORDER_MASK,
        Direction::Right => RGT_BORDER_MASK,
    }
}

/// The plain shift of the whole integer by `step` cells in `d`.
pub open spec fn wrapped(b: u128, step: int, d: Direction) -> u128 {
    match d {
        Direction::Up => b << ((10 * step) as u128),
        Direction::Down => b >> ((10 * step) as u128),
        Direction::Left => b << (step as u128),
        Direction::Right => b >> (step as u128),
    }
}

/// `b` moved one cell in `d`, with the cells that would leave the grid dropped.
pub open spec fn clipped(b: u128, d: Direction) -> u128 {
    board_from(shift_cells(cells(b), d))
}

/// `b` moved one cell in `d`, or `b` itself when a cell of it lies on that edge.
pub open spec fn saturated(b: u128, d: Direction) -> u128 {
    if cells(b).disjoint(edge_cells(d)) {
        clipped(b, d)
    } else {
        b
    }
}

/// The cells within one step, diagonals included, of some cell of `s`.
pub open spec fn neighbourhood(s: Set<(int, int)>) -> Set<(int, int)> {
    Set::new(
        |p: (int, int)|
            in_grid(p.0, p.1) && exists|q: (int, int)|
                #![trigger s.contains(q)]
                s.contains(q) && -1 <= p.0 - q.0 <= 1 && -1 <= p.1 - q.1 <= 1,
    )
}

/// The 3x3 dilation of `b`, clipped at the grid's edges.
pub open spec fn surround(b: u128) -> u128 {
    board_from(neighbourhood(cells(b)))
}

/// The mirror image of `s` across the main diagonal.
pub open spec fn flipped(s: Set<(int, int)>) -> Set<(int, int)> {
    Set::new(|p: (int, int)| in_grid(p.0, p.1) && s.contains((p.1, p.0)))
}

/// `b` with rows and columns swapped.
pub open spec fn transposed(b: u128) -> u128 {
    board_from(flipped(cells(b)))
}

/// A horizontal run of `size` cells at the left end of row 0.
pub open spec fn ship_cells(size: int) -> Set<(int, int)> {
    Set::new(|p: (int, int)| 0 <= p.0 < size && p.1 == 0)
}

/// Number of set bits of `b` among bits `0 .. n`.
pub open spec fn count_bits(b: u128, n: nat) -> nat
    decreases n,
{
    if n == 0 {
        0
    } else {
        count_bits(b, (n - 1) as nat) + if bit(b, (n - 1) as u128) {
            1nat
        } else {
            0nat
        }
    }
}

/// Number of set bits of `b`.
pub open spec fn popcount(b: u128) -> nat {
    count_bits(b, 128)
}

/// Which grid bits each border mask sets.
proof fn lemma_border_bits(k: u128)
    by (bit_vector)
    requires
        28 <= k < 128,
    ensures
        bit(TOP_BORDER_MASK, k) == (k >= 118),
        bit(BOT_BORDER_MASK, k) == (k < 38),
        bit(LEF_BORDER_MASK, k) == ((127 - k) % 10 == 0),
        bit(RGT_BORDER_MASK, k) == ((127 - k) % 10 == 9),
{
}

/// The border masks and zero set no padding bit.
pub proof fn lemma_masks_are_boards()
    by (bit_vector)
    ensures
        TOP_BORDER_MASK & 0x0fff_ffff == 0,
        BOT_BORDER_MASK & 0x0fff_ffff == 0,
        LEF_BORDER_MASK & 0x0fff_ffff == 0,
        RGT_BORDER_MASK & 0x0fff_ffff == 0,
        0u128 & 0x0fff_ffff == 0,
{
}

/// The border masks hold exactly the edge cells of their direction.
pub proof fn lemma_border(d: Direction)
    ensures
        is_board(border(d)),
        cells(border(d)) == edge_cells(d),
{
    lemma_masks_are_boards();
    let m = border(d);
    assert forall|p: (int, int)| #[trigger] cells(m).contains(p) == edge_cells(d).contains(p) by {
        if in_grid(p.0, p.1) {
            let k = cell_index(p.0, p.1);
            lemma_border_bits(k as u128);
            assert((127 - k) % 10 == p.0 && (127 - k) == 10 * p.1 + p.0);
        }
    }
    assert(cells(m) =~= edge_cells(d));
}

/// `|`, `&` and `& !` of valid boards are union, intersection and difference.
pub proof fn lemma_cells_ops(a: u128, b: u128)
    requires
        is_board(a),
        is_board(b),
    ensures
        is_board(a | b),
        is_board(a & b),
        is_board(a & !b),
        cells(a | b) == cells(a).union(cells(b)),
        cells(a & b) == cells(a).intersect(cells(b)),
        cells(a & !b) == cells(a).difference(cells(b)),
{
    assert(is_board(a | b) && is_board(a & b) && is_board(a & !b)) by (bit_vector)
        requires
            a & 0x0fff_ffff == 0,
            b & 0x0fff_ffff == 0,
    ;
    assert forall|p: (int, int)| in_grid(p.0, p.1) implies #[trigger] cell(a | b, p.0, p.1) == (
    cell(a, p.0, p.1) || cell(b, p.0, p.1)) by {
        lemma_bit_and_or_not(a, b, cell_index(p.0, p.1) as u128);
    }
    assert forall|p: (int, int)| in_grid(p.0, p.1) implies #[trigger] cell(a & b, p.0, p.1) == (
    cell(a, p.0, p.1) && cell(b, p.0, p.1)) by {
        lemma_bit_and_or_not(a, b, cell_index(p.0, p.1) as u128);
    }
    assert forall|p: (int, int)| in_grid(p.0, p.1) implies #[trigger] cell(a & !b, p.0, p.1) == (
    cell(a, p.0, p.1) && !cell(b, p.0, p.1)) by {
        lemma_bit_and_or_not(a, b, cell_index(p.0, p.1) as u128);
    }
    assert(cells(a | b) =~= cells(a).union(cells(b)));
    assert(cells(a & b) =~= cells(a).intersect(cells(b)));
    assert(cells(a & !b) =~= cells(a).difference(cells(b)));
}

/// For valid boards, `a & b == 0` says that no cell is set in both.
pub proof fn lemma_and_zero(a: u128, b: u128)
    requires
        is_board(a),
        is_board(b),
    ensures
        (a & b == 0) == cells(a).disjoint(cells(b)),
{
    lemma_cells_ops(a, b);
    lemma_masks_are_boards();
    if a & b == 0 {
        assert forall|p: (int, int)| cells(a).contains(p) implies !cells(b).contains(p) by {
            lemma_bit_and_or_not(0, 0, cell_index(p.0, p.1) as u128);
            assert(!cells(a & b).contains(p));
        }
    }
    if cells(a).disjoint(cells(b)) {
        assert forall|x: int, y: int| in_grid(x, y) implies #[trigger] cell(a & b, x, y) == cell(
            0,
            x,
            y,
        ) by {
            lemma_bit_and_or_not(0, 0, cell_index(x, y) as u128);
            assert(!cells(a & b).contains((x, y)));
        }
        lemma_board_ext(a & b, 0);
    }
}

/// A valid board is the board built from its own cells.
pub proof fn lemma_board_from_cells(b: u128)
    requires
        is_board(b),
    ensures
        board_from(cells(b)) == b,
{
    lemma_board_from(cells(b));
    let c = board_from(cells(b));
    assert forall|x: int, y: int| in_grid(x, y) implies #[trigger] cell(c, x, y) == cell(b, x, y) by {
        assert(cells(c).contains((x, y)) == cells(b).contains((x, y)));
    }
    lemma_board_ext(c, b);
}

/// A valid board equals `board_from(s)` when its cells are those of `s`.
pub proof fn lemma_is_board_from(b: u128, s: Set<(int, int)>)
    requires
        is_board(b),
        forall|p: (int, int)| #[trigger] s.contains(p) ==> in_grid(p.0, p.1),
        cells(b) == s,
    ensures
        b == board_from(s),
{
    lemma_board_from_cells(b);
}


/// Clearing the border of `d` and then shifting the whole integer one cell in
/// `d` moves every cell one step, dropping those that would leave the grid.
pub proof fn lemma_clip(ship: u128, d: Direction)
    requires
        is_board(ship),
    ensures
        wrapped(ship & !border(d), 1, d) == clipped(ship, d),
        is_board(clipped(ship, d)),
{
    let e = border(d);
    lemma_border(d);
    lemma_cells_ops(ship, e);
    let m = ship & !e;
    let r = wrapped(m, 1, d);
    let s: u128 = match d {
        Direction::Up => 10,
        Direction::Down => 10,
        Direction::Left => 1,
        Direction::Right => 1,
    };
    let up = d == Direction::Up || d == Direction::Left;
    lemma_board_bits(m);
    // Padding bits stay clear.
    assert forall|k: u128| k < 28 implies !#[trigger] bit(r, k) by {
        lemma_bit_shift(m, s, k);
        if !up && k + s >= 28 {
            let j = (k + s) as int;
            let c = (37 - j, 9int);
            assert(cell_index(c.0, c.1) == j);
            assert(edge_cells(d).contains(c));
            assert(!cells(m).contains(c));
        }
    }
    lemma_board_bits(r);
    // Each cell comes from its neighbour against `d`.
    assert forall|p: (int, int)| #[trigger] cells(r).contains(p) == shift_cells(cells(ship), d).contains(p) by {
        if in_grid(p.0, p.1) {
            let k = cell_index(p.0, p.1);
            lemma_bit_shift(m, s, k as u128);
            let src = (p.0 - offset(d).0, p.1 - offset(d).1);
            if in_grid(src.0, src.1) {
                assert(!edge_cells(d).contains(src));
                assert(cells(m).contains(src) == cells(ship).contains(src));
            } else {
                let j = if up { k - s } else { k + s };
                if 28 <= j < 128 {
                    let c = ((127 - j) % 10, (127 - j) / 10);
                    match d {
                        Direction::Up => {},
                        Direction::Down => {},
                        Direction::Left => {
                            assert(c == (0int, p.1 + 1));
                        },
                        Direction::Right => {
                            assert(c == (9int, p.1 - 1));
                        },
                    }
                    assert(cell_index(c.0, c.1) == j);
                    assert(edge_cells(d).contains(c));
                    assert(!cells(m).contains(c));
                }
            }
        }
    }
    assert(cells(r) =~= shift_cells(cells(ship), d));
    lemma_is_board_from(r, shift_cells(cells(ship), d));
}


/// `board_from` of a set of grid cells has exactly those cells.
pub proof fn lemma_cells_of(s: Set<(int, int)>)
    requires
        forall|p: (int, int)| #[trigger] s.contains(p) ==> in_grid(p.0, p.1),
    ensures
        is_board(board_from(s)),
        cells(board_from(s)) == s,
{
    lemma_board_from(s);
    assert(s.filter(|p: (int, int)| in_grid(p.0, p.1)) =~= s);
}

/// Setting or clearing the bit of cell `(x, y)` changes that cell only.
proof fn lemma_single_cell(b: u128, x: int, y: int, p: (int, int))
    requires
        in_grid(x, y),
        in_grid(p.0, p.1),
    ensures
        cell(b | (1u128 << (cell_index(x, y) as u128)), p.0, p.1) == (p == (x, y) || cell(b, p.0, p.1)),
        cell(b & !(1u128 << (cell_index(x, y) as u128)), p.0, p.1) == (p != (x, y) && cell(b, p.0, p.1)),
{
    let k = cell_index(p.0, p.1) as u128;
    let v = 1u128 << (cell_index(x, y) as u128);
    lemma_bit_and_or_not(b, v, k);
    lemma_bit_and_or_not(0, 0, k);
    if p != (x, y) {
        crate::bits::lemma_bit_single(cell_index(x, y) as u128, k);
    }
}

/// Whether `b` is a valid board: no padding bit set.
pub fn is_valid_board(b: u128) -> (r: bool)
    ensures
        r == is_board(b),
{
    b & 0x0fff_ffff == 0
}

/// Whether cell `(x, y)` of `board` is set.
#[inline(always)]
pub fn board_get(board: u128, x: usize, y: usize) -> (r: bool)
    requires
        x < 10,
        y < 10,
        is_board(board),
    ensures
        r == cell(board, x as int, y as int),
        r == cells(board).contains((x as int, y as int)),
{
    let y_row = board >> (BOARD_SIZE * (BOARD_SIZE - y - 1) + GAP);
    proof {
        lemma_bit_shift(board, (10 * (9 - y) + 28) as u128, (9 - x) as u128);
    }
    (y_row >> (BOARD_SIZE - x - 1)) & 1 == 1
}

/// `board` with cell `(x, y)` set to `value`.
#[inline(always)]
pub fn board_set(board: u128, x: usize, y: usize, value: bool) -> (r: u128)
    requires
        x < 10,
        y < 10,
        is_board(board),
    ensures
        is_board(r),
        cells(r) == if value {
            cells(board).insert((x as int, y as int))
        } else {
            cells(board).remove((x as int, y as int))
        },
{
    let index = BOARD_SIZE * (BOARD_SIZE - y - 1) + GAP + (BOARD_SIZE - x - 1);
    let v: u128 = 1 << index;
    let ghost p = (x as int, y as int);
    proof {
        let k = index as u128;
        assert(k == cell_index(p.0, p.1));
        assert(is_board(v)) by (bit_vector)
            requires
                v == 1u128 << k,
                28 <= k < 128,
        ;
        lemma_cells_ops(board, v);
        assert forall|q: (int, int)| in_grid(q.0, q.1) implies #[trigger] cell(board | v, q.0, q.1) == (
        q == p || cell(board, q.0, q.1)) by {
            lemma_single_cell(board, p.0, p.1, q);
        }
        assert forall|q: (int, int)| in_grid(q.0, q.1) implies #[trigger] cell(board & !v, q.0, q.1)
            == (q != p && cell(board, q.0, q.1)) by {
            lemma_single_cell(board, p.0, p.1, q);
        }
    }
    if value {
        let r = board | v;
        assert(cells(r) =~= cells(board).insert(p));
        r
    } else {
        let r = board & !v;
        assert(cells(r) =~= cells(board).remove(p));
        r
    }
}

/// The bits of a run of `n` ones at the top end.
proof fn lemma_run_bits(n: u128, k: u128)
    by (bit_vector)
    requires
        1 <= n <= 5,
        k < 128,
    ensures
        bit((((1u128 << n) - 1) as u128) << ((128 - n) as u128), k) == (k >= 128 - n),
{
}

/// `n` set bits at the most significant end.
pub open spec fn top_run(n: int) -> u128 {
    (((1u128 << (n as u128)) - 1) as u128) << ((128 - n) as u128)
}

/// A run of `n` bits at the top is a horizontal ship of `n` cells.
pub proof fn lemma_top_run(n: int)
    requires
        1 <= n <= 5,
    ensures
        is_board(top_run(n)),
        cells(top_run(n)) == ship_cells(n),
        top_run(n) == board_from(ship_cells(n)),
{
    let r = top_run(n);
    assert forall|k: u128| k < 128 implies #[trigger] bit(r, k) == (k >= 128 - n) by {
        lemma_run_bits(n as u128, k);
    }
    lemma_board_bits(r);
    assert forall|p: (int, int)| #[trigger] cells(r).contains(p) == ship_cells(n).contains(p) by {
        if in_grid(p.0, p.1) {
            assert(bit(r, cell_index(p.0, p.1) as u128) == (cell_index(p.0, p.1) >= 128 - n));
        }
    }
    assert(cells(r) =~= ship_cells(n));
    lemma_is_board_from(r, ship_cells(n));
}

/// A horizontal ship of `size` cells in the top-left corner.
#[inline(always)]
pub fn create_ship(size: usize) -> (r: u128)
    requires
        1 <= size <= 5,
    ensures
        is_board(r),
        cells(r) == ship_cells(size as int),
        r == board_from(ship_cells(size as int)),
{
    let run: u128 = 1u128 << size;
    proof {
        let n = size as u128;
        assert(1u128 << n >= 1) by (bit_vector)
            requires
                n <= 5,
        ;
        lemma_top_run(size as int);
    }
    ((run - 1) << (CAP - size))
}

/// Shifts the whole integer by `step` cells in `direction`, paying no heed to
/// the grid's edges: a cell that leaves a row re-enters on the next one.
#[inline(always)]
pub fn wrapping_move(board: u128, step: usize, direction: Direction) -> (r: u128)
    requires
        step < 128,
        direction == Direction::Up || direction == Direction::Down ==> step < 13,
    ensures
        r == wrapped(board, step as int, direction),
{
    match direction {
        Direction::Up => board << (BOARD_SIZE * step),
        Direction::Down => board >> (BOARD_SIZE * step),
        Direction::Left => board << step,
        Direction::Right => board >> step,
    }
}

/// Moves `ship` one cell in `direction`, unless one of its cells already lies
/// on that edge of the grid: then `ship` stays where it is.
#[inline(always)]
pub fn saturated_move(ship: u128, direction: Direction) -> (r: u128)
    requires
        is_board(ship),
    ensures
        r == saturated(ship, direction),
        is_board(r),
        cells(ship).disjoint(edge_cells(direction)) ==> r == clipped(ship, direction) && cells(r)
            == shift_cells(cells(ship), direction),
        !cells(ship).disjoint(edge_cells(direction)) ==> r == ship,
{
    let mask = match direction {
        Direction::Up => TOP_BORDER_MASK,
        Direction::Down => BOT_BORDER_MASK,
        Direction::Left => LEF_BORDER_MASK,
        Direction::Right => RGT_BORDER_MASK,
    };
    proof {
        lemma_border(direction);
        lemma_and_zero(ship, mask);
    }
    if ship & mask != 0 {
        return ship;
    }
    proof {
        assert(ship & !mask == ship) by (bit_vector)
            requires
                ship & mask == 0,
        ;
        lemma_clip(ship, direction);
        lemma_cells_of(shift_cells(cells(ship), direction));
    }
    wrapping_move(ship, 1, direction)
}

/// Moves every cell of `ship` one step in `direction`; cells on that edge of
/// the grid are dropped rather than wrapped to the other side.
#[inline(always)]
pub fn cutting_move(ship: u128, direction: Direction) -> (r: u128)
    requires
        is_board(ship),
    ensures
        r == clipped(ship, direction),
        is_board(r),
        cells(r) == shift_cells(cells(ship), direction),
{
    let mask = match direction {
        Direction::Up => TOP_BORDER_MASK,
        Direction::Down => BOT_BORDER_MASK,
        Direction::Left => LEF_BORDER_MASK,
        Direction::Right => RGT_BORDER_MASK,
    };
    let mut ship_in = ship;
    if ship_in & mask != 0 {
        ship_in = ship_in & !mask;
    }
    proof {
        assert(ship_in == ship & !mask) by (bit_vector)
            requires
                ship & mask != 0 ==> ship_in == ship & !mask,
                ship & mask == 0 ==> ship_in == ship,
        ;
        lemma_clip(ship, direction);
        lemma_cells_of(shift_cells(cells(ship), direction));
    }
    wrapping_move(ship_in, 1, direction)
}

/// The neighbourhood of `s` is `s` widened by one column on each side, then
/// by one row on each side.
proof fn lemma_neighbourhood(s: Set<(int, int)>)
    requires
        forall|p: (int, int)| #[trigger] s.contains(p) ==> in_grid(p.0, p.1),
    ensures
        ({
            let h = s.union(shift_cells(s, Direction::Left)).union(shift_cells(s, Direction::Right));
            h.union(shift_cells(h, Direction::Up)).union(shift_cells(h, Direction::Down))
                == neighbourhood(s)
        }),
{
    let h = s.union(shift_cells(s, Direction::Left)).union(shift_cells(s, Direction::Right));
    let v = h.union(shift_cells(h, Direction::Up)).union(shift_cells(h, Direction::Down));
    let n = neighbourhood(s);
    assert forall|p: (int, int)| #[trigger] h.contains(p) implies in_grid(p.0, p.1) && exists|q: (int, int)|
        #![trigger s.contains(q)]
        s.contains(q) && -1 <= p.0 - q.0 <= 1 && p.1 == q.1 by {
        if s.contains(p) {
            assert(s.contains(p));
        } else if s.contains((p.0 + 1, p.1)) {
            assert(s.contains((p.0 + 1, p.1)));
        } else {
            assert(s.contains((p.0 - 1, p.1)));
        }
    }
    assert forall|p: (int, int)| v.contains(p) implies #[trigger] n.contains(p) by {
        let c = if h.contains(p) {
            p
        } else if h.contains((p.0, p.1 + 1)) {
            (p.0, p.1 + 1)
        } else {
            (p.0, p.1 - 1)
        };
        assert(h.contains(c));
        let q = choose|q: (int, int)| s.contains(q) && -1 <= c.0 - q.0 <= 1 && c.1 == q.1;
        assert(s.contains(q));
    }
    assert forall|p: (int, int)| n.contains(p) implies #[trigger] v.contains(p) by {
        let q = choose|q: (int, int)|
            s.contains(q) && -1 <= p.0 - q.0 <= 1 && -1 <= p.1 - q.1 <= 1;
        let c = (p.0, q.1);
        assert(s.contains(q));
        assert(h.contains(c));
    }
    assert(v =~= n);
}

/// The 3x3 neighbourhood of `item`, the item itself included, clipped at the
/// grid's edges.
#[inline(always)]
pub fn create_surround_mask(item: u128) -> (r: u128)
    requires
        is_board(item),
    ensures
        r == surround(item),
        is_board(r),
        cells(r) == neighbourhood(cells(item)),
{
    let left = cutting_move(item, Direction::Left);
    let right = cutting_move(item, Direction::Right);
    proof {
        lemma_cells_ops(item, left);
        lemma_cells_ops(item | left, right);
    }
    let mask_horizontal = item | left | right;

    let mask_up = cutting_move(mask_horizontal, Direction::Up);
    let mask_down = cutting_move(mask_horizontal, Direction::Down);
    proof {
        lemma_cells_ops(mask_horizontal, mask_up);
        lemma_cells_ops(mask_horizontal | mask_up, mask_down);
        lemma_neighbourhood(cells(item));
        lemma_is_board_from(mask_horizontal | mask_up | mask_down, neighbourhood(cells(item)));
    }
    mask_horizontal | mask_up | mask_down
}


/// Reflects `input` across the main diagonal: cell `(x, y)` of the result is
/// cell `(y, x)` of `input`.
#[inline(always)]
pub fn transpose(input: u128) -> (r: u128)
    requires
        is_board(input),
    ensures
        r == transposed(input),
        is_board(r),
        cells(r) == flipped(cells(input)),
{
    let mut result = input;
    let mut i: usize = 1;

    while i < BOARD_SIZE
        invariant
            1 <= i <= 10,
            is_board(input),
            is_board(result),
            forall|x: int, y: int|
                in_grid(x, y) ==> #[trigger] cell(result, x, y) == if x < i && y < i {
                    cell(input, y, x)
                } else {
                    cell(input, x, y)
                },
        decreases 10 - i,
    {
        let mut j: usize = 0;
        while j < i
            invariant
                1 <= i < 10,
                j <= i,
                is_board(input),
                is_board(result),
                forall|x: int, y: int|
                    in_grid(x, y) ==> #[trigger] cell(result, x, y) == if (x < i && y < i) || (x
                        == i && y < j) || (y == i && x < j) {
                        cell(input, y, x)
                    } else {
                        cell(input, x, y)
                    },
            decreases i - j,
        {
            let a = board_get(input, i, j);
            let b = board_get(input, j, i);

            let ghost before = result;
            result = board_set(result, i, j, b);
            let ghost middle = result;
            result = board_set(result, j, i, a);
            proof {
                assert forall|x: int, y: int| in_grid(x, y) implies #[trigger] cell(result, x, y)
                    == if (x < i && y < i) || (x == i && y < j + 1) || (y == i && x < j + 1) {
                    cell(input, y, x)
                } else {
                    cell(input, x, y)
                } by {
                    assert(cells(result).contains((x, y)) == cell(result, x, y));
                    assert(cells(middle).contains((x, y)) == cell(middle, x, y));
                    assert(cells(before).contains((x, y)) == cell(before, x, y));
                }
            }
            j += 1;
        }
        i += 1;
    }
    proof {
        assert(cells(result) =~= flipped(cells(input)));
        lemma_is_board_from(result, flipped(cells(input)));
    }
    result
}

/// Number of set bits of `ship`.
#[inline(always)]
pub fn ship_size(ship: u128) -> (r: usize)
    ensures
        r == popcount(ship),
{
    let mut length: usize = 0;
    let mut i: u32 = 0;
    while i < 128
        invariant
            i <= 128,
            length == count_bits(ship, i as nat),
            length <= i,
        decreases 128 - i,
    {
        if (ship >> i) & 1 == 1 {
            length += 1;
        }
        i += 1;
    }
    length
}

/// Transposing a valid board twice gives it back.
pub proof fn lemma_transpose_involution(b: u128)
    requires
        is_board(b),
    ensures
        transposed(transposed(b)) == b,
{
    lemma_cells_of(flipped(cells(b)));
    let t = transposed(b);
    assert(flipped(cells(t)) =~= cells(b));
    lemma_board_from_cells(b);
}

/// A board that is symmetric about the main diagonal is its own transpose.
pub proof fn lemma_transpose_symmetric(b: u128)
    requires
        is_board(b),
        forall|x: int, y: int| in_grid(x, y) ==> #[trigger] cell(b, x, y) == cell(b, y, x),
    ensures
        transposed(b) == b,
{
    assert(flipped(cells(b)) =~= cells(b));
    lemma_board_from_cells(b);
}

/// The mask of a single cell on the main diagonal is its own transpose.
pub proof fn lemma_transpose_diagonal_cell(i: int)
    requires
        0 <= i < 10,
    ensures
        transposed(board_from(set![(i, i)])) == board_from(set![(i, i)]),
{
    let b = board_from(set![(i, i)]);
    lemma_cells_of(set![(i, i)]);
    assert forall|x: int, y: int| in_grid(x, y) implies #[trigger] cell(b, x, y) == cell(b, y, x) by {
        assert(cells(b).contains((x, y)) == cell(b, x, y));
        assert(cells(b).contains((y, x)) == cell(b, y, x));
    }
    lemma_transpose_symmetric(b);
}

/// The top border, transposed, is the left border; the bottom border,
/// transposed, is the right border.
pub proof fn lemma_border_duality()
    ensures
        transposed(TOP_BORDER_MASK) == LEF_BORDER_MASK,
        transposed(BOT_BORDER_MASK) == RGT_BORDER_MASK,
{
    lemma_border(Direction::Up);
    lemma_border(Direction::Down);
    lemma_border(Direction::Left);
    lemma_border(Direction::Right);
    assert(flipped(cells(TOP_BORDER_MASK)) =~= cells(LEF_BORDER_MASK));
    assert(flipped(cells(BOT_BORDER_MASK)) =~= cells(RGT_BORDER_MASK));
    lemma_board_from_cells(LEF_BORDER_MASK);
    lemma_board_from_cells(RGT_BORDER_MASK);
}

/// The neighbourhood mask of a valid board is a valid board that covers it.
pub proof fn lemma_surround_covers(s: u128)
    requires
        is_board(s),
    ensures
        is_board(surround(s)),
        cells(s).subset_of(cells(surround(s))),
        s & !surround(s) == 0,
{
    lemma_cells_of(neighbourhood(cells(s)));
    assert forall|p: (int, int)| cells(s).contains(p) implies #[trigger] cells(surround(s)).contains(p) by {
        assert(cells(s).contains(p));
    }
    lemma_cells_ops(s, surround(s));
    assert(cells(s & !surround(s)) =~= Set::empty());
    lemma_empty_board(s & !surround(s));
}

/// The one valid board without cells is zero.
pub proof fn lemma_empty_board(b: u128)
    requires
        is_board(b),
    ensures
        (b == 0) == (cells(b) == Set::<(int, int)>::empty()),
{
    lemma_masks_are_boards();
    assert forall|x: int, y: int| in_grid(x, y) implies !#[trigger] cell(0, x, y) by {
        lemma_bit_and_or_not(0, 0, cell_index(x, y) as u128);
    }
    assert(cells(0) =~= Set::empty());
    if cells(b) == Set::<(int, int)>::empty() {
        assert forall|x: int, y: int| in_grid(x, y) implies #[trigger] cell(b, x, y) == cell(0, x, y) by {
            assert(!cells(b).contains((x, y)));
        }
        lemma_board_ext(b, 0);
    }
}

} // verus!
