//! The squares that each piece identity holds when a game starts.

use vstd::prelude::*;

verus! {

pub const WHITE_PAWNS: u64 = 0x0000_0000_0000_ff00;

pub const BLACK_PAWNS: u64 = 0x00ff_0000_0000_0000;

pub const WHITE_KNIGHTS: u64 = 0x0000_0000_0000_0042;

pub const BLACK_KNIGHTS: u64 = 0x4200_0000_0000_0000;

pub const WHITE_BISHOPS: u64 = 0x0000_0000_0000_0024;

pub const BLACK_BISHOPS: u64 = 0x2400_0000_0000_0000;

pub const WHITE_ROOKS: u64 = 0x0000_0000_0000_0081;

pub const BLACK_ROOKS: u64 = 0x8100_0000_0000_0000;

pub const WHITE_QUEENS: u64 = 0x0000_0000_0000_0008;

pub const BLACK_QUEENS: u64 = 0x0800_0000_0000_0000;

pub const WHITE_KING: u64 = 0x0000_0000_0000_0010;

pub const BLACK_KING: u64 = 0x1000_0000_0000_0000;

} // verus!
