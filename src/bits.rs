//! The grid model: which bit of a `u128` holds which cell, and the facts
//! about bitwise operators that the board operations are proved with.
use vstd::prelude::*;

verus! {

/// Bit `k` of `b`, counted from the least significant end.
pub open spec fn bit(b: u128, k: u128) -> bool {
    (b >> k) & 1 == 1
}

/// `(x, y)` names a cell of the 10x10 grid: column `x`, row `y`.
pub open spec fn in_grid(x: int, y: int) -> bool {
    0 <= x < 10 && 0 <= y < 10
}

/// The bit that holds cell `(x, y)`: row-major from the most significant bit.
pub open spec fn cell_index(x: int, y: int) -> int {
    127 - (10 * y + x)
}

/// Whether cell `(x, y)` is set in `b`.
pub open spec fn cell(b: u128, x: int, y: int) -> bool {
    bit(b, cell_index(x, y) as u128)
}

/// A valid board: no padding bit is set.
pub open spec fn is_board(b: u128) -> bool {
    b & 0x0fff_ffff == 0
}

/// The set cells of `b`, as (column, row) pairs.
pub open spec fn cells(b: u128) -> Set<(int, int)> {
    Set::new(|p: (int, int)| in_grid(p.0, p.1) && cell(b, p.0, p.1))
}

/// The mask of the single bit `k`.
pub open spec fn single(k: int) -> u128 {
    1u128 << (k as u128)
}

/// The board that holds the cells of `s` whose number `10 * y + x` is below `n`.
pub open spec fn build(s: Set<(int, int)>, n: nat) -> u128
    decreases n,
{
    if n == 0 {
        0
    } else {
        let m = n - 1;
        if s.contains((m % 10, m / 10)) {
            build(s, (n - 1) as nat) | single(127 - m)
        } else {
            build(s, (n - 1) as nat)
        }
    }
}

/// The valid board whose set cells are exactly the grid cells of `s`.
pub open spec fn board_from(s: Set<(int, int)>) -> u128 {
    build(s, 100)
}

/// Bits of `|`, `&`, `& !` and `^` are computed bit by bit.
pub proof fn lemma_bit_and_or_not(a: u128, b: u128, k: u128)
    by (bit_vector)
    requires
        k < 128,
    ensures
        bit(a | b, k) == (bit(a, k) || bit(b, k)),
        bit(a & b, k) == (bit(a, k) && bit(b, k)),
        bit(a & !b, k) == (bit(a, k) && !bit(b, k)),
        bit(a ^ b, k) == (bit(a, k) != bit(b, k)),
        !bit(0, k),
        bit(1u128 << k, k),
{
}

/// A single-bit mask has no other bit set.
pub proof fn lemma_bit_single(s: u128, k: u128)
    by (bit_vector)
    requires
        k < 128,
        s < 128,
        k != s,
    ensures
        !bit(1u128 << s, k),
{
}

/// Shifting moves every bit by the shift amount; bits shifted past either end
/// are lost.
pub proof fn lemma_bit_shift(a: u128, s: u128, k: u128)
    by (bit_vector)
    requires
        k < 128,
        s < 128,
    ensures
        bit(a << s, k) == (k >= s && bit(a, (k - s) as u128)),
        bit(a >> s, k) == (k + s < 128 && bit(a, (k + s) as u128)),
{
}

/// Masking with the padding bits keeps exactly the padding bits.
pub proof fn lemma_padding(b: u128, k: u128)
    by (bit_vector)
    requires
        k < 28,
    ensures
        bit(b & 0x0fff_ffff, k) == bit(b, k),
{
}

/// If no bit from `k` up is set, `d >> k` is zero: one step of the induction.
proof fn lemma_shr_step(d: u128, k: u128)
    by (bit_vector)
    requires
        k < 128,
        k == 127 || d >> (k + 1) == 0,
        (d >> k) & 1 != 1,
    ensures
        d >> k == 0,
{
}

/// Values whose exclusive or is zero are equal.
proof fn lemma_xor_zero(a: u128, b: u128)
    by (bit_vector)
    requires
        (a ^ b) >> 0 == 0,
    ensures
        a == b,
{
}

/// If no bit from `k` up is set, `d >> k` is zero.
proof fn lemma_high_zero(d: u128, k: u128)
    requires
        k < 128,
        forall|j: u128| k <= j < 128 ==> !#[trigger] bit(d, j),
    ensures
        d >> k == 0,
    decreases 128 - k,
{
    if k < 127 {
        lemma_high_zero(d, (k + 1) as u128);
    }
    assert(!bit(d, k));
    lemma_shr_step(d, k);
}

/// Two integers with the same bits are equal.
pub proof fn lemma_bits_ext(a: u128, b: u128)
    requires
        forall|k: u128| k < 128 ==> #[trigger] bit(a, k) == bit(b, k),
    ensures
        a == b,
{
    assert forall|j: u128| 0 <= j < 128 implies !#[trigger] bit(a ^ b, j) by {
        lemma_bit_and_or_not(a, b, j);
    }
    lemma_high_zero(a ^ b, 0);
    lemma_xor_zero(a, b);
}

/// A padding bit is never set in a valid board, and a value with no padding
/// bit set is a valid board.
pub proof fn lemma_board_bits(b: u128)
    ensures
        is_board(b) <==> forall|k: u128| k < 28 ==> !#[trigger] bit(b, k),
{
    if is_board(b) {
        assert forall|k: u128| k < 28 implies !#[trigger] bit(b, k) by {
            lemma_padding(b, k);
            lemma_bit_and_or_not(0, 0, k);
        }
    }
    if forall|k: u128| k < 28 ==> !#[trigger] bit(b, k) {
        assert forall|k: u128| k < 128 implies #[trigger] bit(b & 0x0fff_ffff, k) == bit(0, k) by {
            lemma_bit_and_or_not(0, 0, k);
            if k < 28 {
                lemma_padding(b, k);
            } else {
                lemma_padding_high(b, k);
            }
        }
        lemma_bits_ext(b & 0x0fff_ffff, 0);
    }
}

/// Masking with the padding bits clears every grid bit.
proof fn lemma_padding_high(b: u128, k: u128)
    by (bit_vector)
    requires
        28 <= k < 128,
    ensures
        !bit(b & 0x0fff_ffff, k),
{
}


/// Cell number `m` is column `m % 10` of row `m / 10`.
proof fn lemma_cell_number(m: int)
    requires
        0 <= m < 100,
    ensures
        in_grid(m % 10, m / 10),
        cell_index(m % 10, m / 10) == 127 - m,
{
}

/// Column and row can be read back from the cell number `10 * y + x`.
proof fn lemma_cell_number_of(x: int, y: int)
    requires
        in_grid(x, y),
    ensures
        (10 * y + x) % 10 == x,
        (10 * y + x) / 10 == y,
{
}

/// Bit `k` of `build(s, n)` is set exactly when it belongs to one of the first
/// `n` cells and that cell is in `s`.
proof fn lemma_build(s: Set<(int, int)>, n: nat)
    requires
        n <= 100,
    ensures
        forall|k: u128|
            k < 128 ==> #[trigger] bit(build(s, n), k) == (127 - n < k && s.contains(
                (((127 - k) as int) % 10, ((127 - k) as int) / 10),
            )),
    decreases n,
{
    if n == 0 {
        assert forall|k: u128| k < 128 implies !#[trigger] bit(build(s, n), k) by {
            lemma_bit_and_or_not(0, 0, k);
        }
    } else {
        let m = n - 1;
        lemma_build(s, m as nat);
        let prev = build(s, m as nat);
        assert forall|k: u128| k < 128 implies #[trigger] bit(build(s, n), k) == (127 - n < k
            && s.contains((((127 - k) as int) % 10, ((127 - k) as int) / 10))) by {
            assert(bit(prev, k) == (127 - m < k && s.contains(
                (((127 - k) as int) % 10, ((127 - k) as int) / 10),
            )));
            if s.contains((m % 10, m / 10)) {
                lemma_bit_and_or_not(prev, single(127 - m), k);
                lemma_bit_and_or_not(0, 0, (127 - m) as u128);
                if k != 127 - m {
                    lemma_bit_single((127 - m) as u128, k);
                }
            }
        }
    }
}

/// `board_from(s)` is a valid board whose cells are those of `s` inside the grid.
pub proof fn lemma_board_from(s: Set<(int, int)>)
    ensures
        is_board(board_from(s)),
        cells(board_from(s)) == s.filter(|p: (int, int)| in_grid(p.0, p.1)),
{
    let b = board_from(s);
    lemma_build(s, 100);
    lemma_board_bits(b);
    assert forall|p: (int, int)| #[trigger] cells(b).contains(p) == s.filter(
        |p: (int, int)| in_grid(p.0, p.1),
    ).contains(p) by {
        if in_grid(p.0, p.1) {
            lemma_cell_number_of(p.0, p.1);
            let k = cell_index(p.0, p.1) as u128;
            assert((127 - k) as int == 10 * p.1 + p.0);
            assert(bit(b, k) == s.contains(p));
        }
    }
    assert(cells(b) =~= s.filter(|p: (int, int)| in_grid(p.0, p.1)));
}

/// Two valid boards with the same cells are equal.
pub proof fn lemma_board_ext(a: u128, b: u128)
    requires
        is_board(a),
        is_board(b),
        forall|x: int, y: int| in_grid(x, y) ==> #[trigger] cell(a, x, y) == cell(b, x, y),
    ensures
        a == b,
{
    lemma_board_bits(a);
    lemma_board_bits(b);
    assert forall|k: u128| k < 128 implies #[trigger] bit(a, k) == bit(b, k) by {
        if k >= 28 {
            let m = 127 - k;
            lemma_cell_number(m);
            assert(cell(a, m % 10, m / 10) == cell(b, m % 10, m / 10));
        }
    }
    lemma_bits_ext(a, b);
}

} // verus!
