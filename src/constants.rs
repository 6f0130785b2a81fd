use vstd::prelude::*;

verus! {

/// Width of the integer that holds a board.
pub const CAP: usize = 128;

/// Side length of the square grid.
pub const BOARD_SIZE: usize = 10;

/// Number of cells of the grid.
pub const BOARD_COUNT: usize = 100;

/// Number of low-order padding bits that no cell uses.
pub const GAP: usize = 28;

/// The top-left cell alone.
pub const CELL: u128 = 0x8000_0000_0000_0000_0000_0000_0000_0000;

/// The whole top row.
pub const LINE: u128 = 0xffc0_0000_0000_0000_0000_0000_0000_0000;

/// Every cell of the grid, and no padding bit.
pub const BOARD_MASK: u128 = 0xffff_ffff_ffff_ffff_ffff_ffff_f000_0000;

/// The low-order padding bits.
pub const GAP_MASK: u128 = 0x0fff_ffff;

/// Row 0.
pub const TOP_BORDER_MASK: u128 = 0xffc0_0000_0000_0000_0000_0000_0000_0000;

/// Row 9.
pub const BOT_BORDER_MASK: u128 = 0x0000_0000_0000_0000_0000_003f_f000_0000;

/// Column 0.
pub const LEF_BORDER_MASK: u128 = 0x8020_0802_0080_2008_0200_8020_0000_0000;

/// Column 9.
pub const RGT_BORDER_MASK: u128 = 0x0040_1004_0100_4010_0401_0040_1000_0000;

} // verus!
