//! The ASCII bytes that markdown gives a meaning to.

use vstd::prelude::*;

verus! {

pub const TAB: u8 = 0x09;

/// The byte that ends a line.
pub const NEWLINE: u8 = 0x0a;

pub const RETURN: u8 = 0x0d;

pub const SPACE: u8 = 0x20;

pub const BANG: u8 = 0x21;

pub const QUOTE: u8 = 0x22;

pub const HASH: u8 = 0x23;

pub const PAREN_OPEN: u8 = 0x28;

pub const PAREN_CLOSE: u8 = 0x29;

pub const STAR: u8 = 0x2a;

pub const PLUS: u8 = 0x2b;

pub const DASH: u8 = 0x2d;

pub const DOT: u8 = 0x2e;

pub const SLASH: u8 = 0x2f;

pub const ZERO: u8 = 0x30;

pub const NINE: u8 = 0x39;

pub const COLON: u8 = 0x3a;

pub const GREATER: u8 = 0x3e;

pub const QUESTION: u8 = 0x3f;

pub const UPPER_A: u8 = 0x41;

pub const UPPER_C: u8 = 0x43;

pub const UPPER_N: u8 = 0x4e;

pub const UPPER_U: u8 = 0x55;

pub const UPPER_X: u8 = 0x58;

pub const UPPER_Z: u8 = 0x5a;

pub const BRACKET_OPEN: u8 = 0x5b;

pub const BACKSLASH: u8 = 0x5c;

pub const BRACKET_CLOSE: u8 = 0x5d;

pub const UNDERSCORE: u8 = 0x5f;

pub const BACKTICK: u8 = 0x60;

pub const LOWER_A: u8 = 0x61;

pub const LOWER_X: u8 = 0x78;

pub const LOWER_Z: u8 = 0x7a;

pub const BAR: u8 = 0x7c;

pub const TILDE: u8 = 0x7e;

} // verus!
