//! Names for the ASCII byte values the script format is built from.

use vstd::prelude::*;

verus! {

/// `'a'`
pub const LOWER_A: u8 = 97;

/// `'z'`
pub const LOWER_Z: u8 = 122;

/// `'A'`
pub const UPPER_A: u8 = 65;

/// `'Z'`
pub const UPPER_Z: u8 = 90;

/// `'0'`
pub const DIGIT_0: u8 = 48;

/// `'9'`
pub const DIGIT_9: u8 = 57;

/// `'+'`
pub const PLUS: u8 = 43;

/// `'='`
pub const EQUALS: u8 = 61;

/// `'-'`
pub const MINUS: u8 = 45;

/// `'>'`
pub const GREATER: u8 = 62;

/// `'['`
pub const LBRACKET: u8 = 91;

/// `']'`
pub const RBRACKET: u8 = 93;

/// `';'`
pub const SEMICOLON: u8 = 59;

/// `'|'`
pub const PIPE: u8 = 124;

/// `'\n'`
pub const NEWLINE: u8 = 10;

/// `'\r'`
pub const CARRIAGE_RETURN: u8 = 13;

/// `' '`
pub const SPACE: u8 = 32;

/// `'\t'`
pub const TAB: u8 = 9;

/// `'P'`, the prose tag byte.
pub const TAG_P: u8 = 80;

/// `'Q'`, the choice-run tag byte.
pub const TAG_Q: u8 = 81;

/// `'E'`, the end tag byte.
pub const TAG_E: u8 = 69;

} // verus!
