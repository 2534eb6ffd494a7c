//! The description grammar, as functions on the bytes of the text.
//!
//! A description is a header line, `STATES: <count>`, and then one block for
//! each state: an optional `START` marker, the state's name and a colon on a
//! line of their own, and two rule lines, the first for reading `a`, the
//! second for reading `b`. A rule line reads
//! `<symbol> -> <target> ; <R|L|-> ; <symbol>`.
//!
//! Matching is greedy and never goes back. Spaces and tabs may stand before
//! every token but the first of the header and the `START` marker; a line
//! feed ends a line. Each function here says where an item that begins at a
//! given offset ends, and what it holds.

use vstd::prelude::*;
use crate::machine::{Direction, Symbol};

verus! {

pub const TAB: u8 = 9;

pub const LINE_FEED: u8 = 10;

pub const SPACE: u8 = 32;

pub const DASH: u8 = 45;

pub const COLON: u8 = 58;

pub const SEMICOLON: u8 = 59;

pub const GREATER: u8 = 62;

pub open spec fn is_blank(b: u8) -> bool {
    b == SPACE || b == TAB
}

pub open spec fn is_digit(b: u8) -> bool {
    48 <= b <= 57
}

/// Letters, digits, underscore and dot make up a state's name.
pub open spec fn is_name_byte(b: u8) -> bool {
    (97 <= b <= 122) || (65 <= b <= 90) || b == 95 || is_digit(b) || b == 46
}

/// `a` or `b`.
pub open spec fn is_symbol_byte(b: u8) -> bool {
    b == 97 || b == 98
}

/// `R`, `L` or `-`.
pub open spec fn is_direction_byte(b: u8) -> bool {
    b == 82 || b == 76 || b == DASH
}

pub open spec fn symbol_of(b: u8) -> Symbol {
    if b == 97 {
        Symbol::A
    } else {
        Symbol::B
    }
}

pub open spec fn direction_of(b: u8) -> Direction {
    if b == 82 {
        Direction::R
    } else if b == 76 {
        Direction::L
    } else {
        Direction::Stay
    }
}

/// An ASCII capital letter becomes the small one; every other byte stays.
pub open spec fn lower(b: u8) -> u8 {
    if 65 <= b <= 90 {
        (b + 32) as u8
    } else {
        b
    }
}

/// The byte at offset `p` is `b`.
pub open spec fn byte_at(s: Seq<u8>, p: int, b: u8) -> bool {
    0 <= p < s.len() && s[p] == b
}

/// `states:` stands at offset `p`, in capital or small letters.
pub open spec fn states_keyword_at(s: Seq<u8>, p: int) -> bool {
    &&& 0 <= p
    &&& p + 7 <= s.len()
    &&& lower(s[p]) == 115
    &&& lower(s[p + 1]) == 116
    &&& lower(s[p + 2]) == 97
    &&& lower(s[p + 3]) == 116
    &&& lower(s[p + 4]) == 101
    &&& lower(s[p + 5]) == 115
    &&& s[p + 6] == COLON
}

/// `start` and one blank stand at offset `p`, in capital or small letters.
pub open spec fn start_marker_at(s: Seq<u8>, p: int) -> bool {
    &&& 0 <= p
    &&& p + 6 <= s.len()
    &&& lower(s[p]) == 115
    &&& lower(s[p + 1]) == 116
    &&& lower(s[p + 2]) == 97
    &&& lower(s[p + 3]) == 114
    &&& lower(s[p + 4]) == 116
    &&& is_blank(s[p + 5])
}

/// The first offset from `p` on that holds no blank.
pub open spec fn after_blanks(s: Seq<u8>, p: int) -> int
    decreases s.len() - p,
{
    if 0 <= p < s.len() && is_blank(s[p]) {
        after_blanks(s, p + 1)
    } else {
        p
    }
}

/// The first offset from `p` on that holds no byte of a name.
pub open spec fn after_name(s: Seq<u8>, p: int) -> int
    decreases s.len() - p,
{
    if 0 <= p < s.len() && is_name_byte(s[p]) {
        after_name(s, p + 1)
    } else {
        p
    }
}

/// The first offset from `p` on that holds no digit.
pub open spec fn after_digits(s: Seq<u8>, p: int) -> int
    decreases s.len() - p,
{
    if 0 <= p < s.len() && is_digit(s[p]) {
        after_digits(s, p + 1)
    } else {
        p
    }
}

/// The offset behind the lines from `p` on that hold blanks only. A line
/// without its line feed is not one of them, and its blanks stay.
pub open spec fn after_blank_lines(s: Seq<u8>, p: int) -> int
    decreases s.len() - p,
{
    let q = after_blanks(s, p);
    if p <= q && byte_at(s, q, LINE_FEED) {
        after_blank_lines(s, q + 1)
    } else {
        p
    }
}

/// The number that a run of decimal digits writes.
pub open spec fn decimal_value(digits: Seq<u8>) -> nat
    decreases digits.len(),
{
    if digits.len() == 0 {
        0
    } else {
        (10 * decimal_value(digits.drop_last()) + (digits.last() - 48)) as nat
    }
}

/// Where the number that begins at `p` ends: a single `0`, or a digit from
/// `1` to `9` and all the digits that follow it.
pub open spec fn number_end(s: Seq<u8>, p: int) -> Option<int> {
    if byte_at(s, p, 48) {
        Some(p + 1)
    } else if 0 <= p < s.len() && 49 <= s[p] <= 57 {
        Some(after_digits(s, p + 1))
    } else {
        None
    }
}

/// The header at the beginning of `s`: the count it declares, which fits a
/// machine word, and the offset behind it and the blank lines that follow.
pub open spec fn header_at(s: Seq<u8>) -> Option<(nat, int)> {
    let number = after_blanks(s, 7);
    match number_end(s, number) {
        Some(end) => {
            let line_end = after_blanks(s, end);
            let count = decimal_value(s.subrange(number, end));
            if states_keyword_at(s, 0) && byte_at(s, line_end, LINE_FEED) && count <= usize::MAX {
                Some((count, after_blank_lines(s, line_end + 1)))
            } else {
                None
            }
        },
        None => None,
    }
}

/// A rule line as the text gives it, its target still a name.
pub struct RuleText {
    pub target: Seq<u8>,
    pub mov: Direction,
    pub write: Symbol,
}

/// A state block as the text gives it.
pub struct BlockText {
    pub name: Seq<u8>,
    pub start: bool,
    pub on_a: RuleText,
    pub on_b: RuleText,
}

/// The rule line that begins at `p`, and the offset behind its line feed.
/// The symbol in front is read and not looked at further: which rule a line
/// gives is decided by its place in the block.
pub open spec fn rule_at(s: Seq<u8>, p: int) -> Option<(RuleText, int)> {
    let arrow = after_blanks(s, p + 1);
    let target = after_blanks(s, arrow + 2);
    let target_end = after_name(s, target);
    let first_semi = after_blanks(s, target_end);
    let mov = after_blanks(s, first_semi + 1);
    let second_semi = after_blanks(s, mov + 1);
    let write = after_blanks(s, second_semi + 1);
    let line_end = after_blanks(s, write + 1);
    if {
        &&& 0 <= p < s.len() && is_symbol_byte(s[p])
        &&& byte_at(s, arrow, DASH)
        &&& byte_at(s, arrow + 1, GREATER)
        &&& target < target_end
        &&& byte_at(s, first_semi, SEMICOLON)
        &&& 0 <= mov < s.len() && is_direction_byte(s[mov])
        &&& byte_at(s, second_semi, SEMICOLON)
        &&& 0 <= write < s.len() && is_symbol_byte(s[write])
        &&& byte_at(s, line_end, LINE_FEED)
    } {
        Some(
            (
                RuleText {
                    target: s.subrange(target, target_end),
                    mov: direction_of(s[mov]),
                    write: symbol_of(s[write]),
                },
                line_end + 1,
            ),
        )
    } else {
        None
    }
}

/// The state block that begins at `p`, and the offset behind it and the
/// blank lines that follow.
pub open spec fn block_at(s: Seq<u8>, p: int) -> Option<(BlockText, int)> {
    let start = start_marker_at(s, p);
    let name = after_blanks(
        s,
        if start {
            p + 6
        } else {
            p
        },
    );
    let name_end = after_name(s, name);
    let colon = after_blanks(s, name_end);
    let line_end = after_blanks(s, colon + 1);
    let first = after_blanks(s, line_end + 1);
    if 0 <= p && name < name_end && byte_at(s, colon, COLON) && byte_at(s, line_end, LINE_FEED) {
        match rule_at(s, first) {
            Some((on_a, first_end)) => match rule_at(s, after_blanks(s, first_end)) {
                Some((on_b, second_end)) => Some(
                    (
                        BlockText { name: s.subrange(name, name_end), start, on_a, on_b },
                        after_blank_lines(s, second_end),
                    ),
                ),
                None => None,
            },
            None => None,
        }
    } else {
        None
    }
}

} // verus!
