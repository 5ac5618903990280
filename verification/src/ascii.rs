//! The ASCII characters that a rescue map is written with.

use vstd::prelude::*;

verus! {

pub const TAB: u8 = 9;

pub const LF: u8 = 10;

pub const CR: u8 = 13;

pub const SPACE: u8 = 32;

pub const HASH: u8 = 35;

pub const STAR: u8 = 42;

pub const PLUS: u8 = 43;

pub const MINUS: u8 = 45;

pub const SLASH: u8 = 47;

pub const DIGIT_0: u8 = 48;

pub const DIGIT_9: u8 = 57;

pub const QUESTION: u8 = 63;

pub const UPPER_A: u8 = 65;

pub const UPPER_F: u8 = 70;

pub const UPPER_G: u8 = 71;

pub const LOWER_A: u8 = 97;

pub const LOWER_F: u8 = 102;

pub const LOWER_X: u8 = 120;

} // verus!
