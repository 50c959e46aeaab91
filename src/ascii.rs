//! ASCII codes that the text and header formats are made of.

use vstd::prelude::*;

verus! {

pub const TAB: u8 = 9;
pub const LINE_FEED: u8 = 10;
pub const VERTICAL_TAB: u8 = 11;
pub const FORM_FEED: u8 = 12;
pub const CARRIAGE_RETURN: u8 = 13;
pub const SPACE: u8 = 32;
pub const HASH: u8 = 35;
pub const PLUS: u8 = 43;
pub const DIGIT_ZERO: u8 = 48;
pub const DIGIT_FIVE: u8 = 53;
pub const DIGIT_NINE: u8 = 57;
pub const UPPER_C: u8 = 67;
pub const UPPER_E: u8 = 69;
pub const UPPER_F: u8 = 70;
pub const UPPER_G: u8 = 71;
pub const UPPER_I: u8 = 73;
pub const UPPER_O: u8 = 79;
pub const UPPER_P: u8 = 80;
pub const UPPER_Q: u8 = 81;
pub const UPPER_R: u8 = 82;
pub const UPPER_S: u8 = 83;
pub const UPPER_T: u8 = 84;

/// A decimal digit.
pub open spec fn is_digit(b: u8) -> bool {
    DIGIT_ZERO <= b <= DIGIT_NINE
}

/// ASCII whitespace as `u8::is_ascii_whitespace` has it: space, tab, line
/// feed, form feed and carriage return.
pub open spec fn is_header_space(b: u8) -> bool {
    b == SPACE || b == TAB || b == LINE_FEED || b == FORM_FEED || b == CARRIAGE_RETURN
}

/// The ASCII bytes that Unicode counts as white space: those of
/// `is_header_space` and the vertical tab.
pub open spec fn is_text_space(b: u8) -> bool {
    is_header_space(b) || b == VERTICAL_TAB
}

pub fn is_digit_byte(b: u8) -> (r: bool)
    ensures
        r == is_digit(b),
{
    DIGIT_ZERO <= b && b <= DIGIT_NINE
}

pub fn is_header_space_byte(b: u8) -> (r: bool)
    ensures
        r == is_header_space(b),
{
    b == SPACE || b == TAB || b == LINE_FEED || b == FORM_FEED || b == CARRIAGE_RETURN
}

pub fn is_text_space_byte(b: u8) -> (r: bool)
    ensures
        r == is_text_space(b),
{
    is_header_space_byte(b) || b == VERTICAL_TAB
}

} // verus!
