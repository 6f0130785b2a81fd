//! A two-player naval combat engine over bit-packed 10x10 boards.

pub mod bits;
pub mod board_api;
pub mod constants;
pub mod front;
pub mod game;
pub mod masks;
