//! The parser: it reads a header and state blocks off a text, as the
//! grammar says, and hands out what they hold with their names as strings.

use vstd::prelude::*;
use vstd::string::*;
use vstd::utf8::*;
use crate::grammar::{
    after_blank_lines, after_blanks, after_digits, after_name, block_at, byte_at, decimal_value,
    header_at, is_blank, is_digit, is_name_byte, lower, rule_at, start_marker_at,
    states_keyword_at, BlockText, RuleText, COLON, DASH, GREATER, LINE_FEED, SEMICOLON, SPACE,
    TAB,
};
use crate::machine::{Direction, Symbol};

verus! {

/// A rule as parsed: its target is still a name.
#[derive(Debug, PartialEq, Eq)]
pub struct TransitionInfo {
    pub next: String,
    pub mov: Direction,
    pub write: Symbol,
}

/// A state block as parsed.
#[derive(Debug, PartialEq, Eq)]
pub struct StateInfo {
    pub on_a: TransitionInfo,
    pub on_b: TransitionInfo,
    pub start: bool,
    pub name: String,
}

/// The bytes of a name.
pub open spec fn name_bytes(name: &String) -> Seq<u8> {
    encode_utf8(name@)
}

impl View for TransitionInfo {
    type V = RuleText;

    open spec fn view(&self) -> RuleText {
        RuleText { target: name_bytes(&self.next), mov: self.mov, write: self.write }
    }
}

impl View for StateInfo {
    type V = BlockText;

    open spec fn view(&self) -> BlockText {
        BlockText {
            name: name_bytes(&self.name),
            start: self.start,
            on_a: self.on_a@,
            on_b: self.on_b@,
        }
    }
}

fn is_blank_byte(b: u8) -> (r: bool)
    ensures
        r == is_blank(b),
{
    b == SPACE || b == TAB
}

fn is_name(b: u8) -> (r: bool)
    ensures
        r == is_name_byte(b),
{
    (97 <= b && b <= 122) || (65 <= b && b <= 90) || b == 95 || (48 <= b && b <= 57) || b == 46
}

fn to_lower(b: u8) -> (r: u8)
    ensures
        r == lower(b),
{
    if 65 <= b && b <= 90 {
        b + 32
    } else {
        b
    }
}

fn skip_blanks(s: &[u8], p: usize) -> (q: usize)
    requires
        p <= s@.len(),
    ensures
        q == after_blanks(s@, p as int),
        p <= q <= s@.len(),
{
    let mut q: usize = p;
    while q < s.len() && is_blank_byte(s[q])
        invariant
            p <= q <= s@.len(),
            after_blanks(s@, q as int) == after_blanks(s@, p as int),
        decreases s@.len() - q,
    {
        q = q + 1;
    }
    q
}

fn skip_name(s: &[u8], p: usize) -> (q: usize)
    requires
        p <= s@.len(),
    ensures
        q == after_name(s@, p as int),
        p <= q <= s@.len(),
        forall|i: int| p <= i < q ==> is_name_byte(#[trigger] s@[i]),
{
    let mut q: usize = p;
    while q < s.len() && is_name(s[q])
        invariant
            p <= q <= s@.len(),
            after_name(s@, q as int) == after_name(s@, p as int),
            forall|i: int| p <= i < q ==> is_name_byte(#[trigger] s@[i]),
        decreases s@.len() - q,
    {
        q = q + 1;
    }
    q
}

fn skip_digits(s: &[u8], p: usize) -> (q: usize)
    requires
        p <= s@.len(),
    ensures
        q == after_digits(s@, p as int),
        p <= q <= s@.len(),
        forall|i: int| p <= i < q ==> is_digit(#[trigger] s@[i]),
{
    let mut q: usize = p;
    while q < s.len() && 48 <= s[q] && s[q] <= 57
        invariant
            p <= q <= s@.len(),
            after_digits(s@, q as int) == after_digits(s@, p as int),
            forall|i: int| p <= i < q ==> is_digit(#[trigger] s@[i]),
        decreases s@.len() - q,
    {
        q = q + 1;
    }
    q
}

fn skip_blank_lines(s: &[u8], p: usize) -> (q: usize)
    requires
        p <= s@.len(),
    ensures
        q == after_blank_lines(s@, p as int),
        p <= q <= s@.len(),
{
    let mut q: usize = p;
    loop
        invariant
            p <= q <= s@.len(),
            after_blank_lines(s@, q as int) == after_blank_lines(s@, p as int),
        ensures
            p <= q <= s@.len(),
            q == after_blank_lines(s@, p as int),
        decreases s@.len() - q,
    {
        let e = skip_blanks(s, q);
        if e < s.len() && s[e] == LINE_FEED {
            q = e + 1;
        } else {
            break ;
        }
    }
    q
}

fn has_byte(s: &[u8], p: usize, b: u8) -> (r: bool)
    ensures
        r == byte_at(s@, p as int, b),
{
    p < s.len() && s[p] == b
}

fn has_states_keyword(s: &[u8]) -> (r: bool)
    ensures
        r == states_keyword_at(s@, 0),
{
    s.len() >= 7 && to_lower(s[0]) == 115 && to_lower(s[1]) == 116 && to_lower(s[2]) == 97
        && to_lower(s[3]) == 116 && to_lower(s[4]) == 101 && to_lower(s[5]) == 115 && s[6]
        == COLON
}

fn has_start_marker(s: &[u8], p: usize) -> (r: bool)
    requires
        p <= s@.len(),
    ensures
        r == start_marker_at(s@, p as int),
{
    s.len() - p >= 6 && to_lower(s[p]) == 115 && to_lower(s[p + 1]) == 116 && to_lower(s[p + 2])
        == 97 && to_lower(s[p + 3]) == 114 && to_lower(s[p + 4]) == 116 && is_blank_byte(
        s[p + 5],
    )
}

/// A run of digits only gets larger as it gets longer.
proof fn lemma_decimal_grows(digits: Seq<u8>, k: int)
    requires
        0 <= k <= digits.len(),
        forall|i: int| 0 <= i < digits.len() ==> is_digit(#[trigger] digits[i]),
    ensures
        decimal_value(digits.take(k)) <= decimal_value(digits),
    decreases digits.len() - k,
{
    if k < digits.len() {
        let longer = digits.take(k + 1);
        assert(longer.drop_last() =~= digits.take(k));
        lemma_decimal_grows(digits, k + 1);
    } else {
        assert(digits.take(k) =~= digits);
    }
}

/// The value of the digits from `a` to `b`, if it fits a machine word.
fn number_value(s: &[u8], a: usize, b: usize) -> (r: Option<usize>)
    requires
        a <= b <= s@.len(),
        forall|i: int| a <= i < b ==> is_digit(#[trigger] s@[i]),
    ensures
        match r {
            Some(v) => v == decimal_value(s@.subrange(a as int, b as int)),
            None => decimal_value(s@.subrange(a as int, b as int)) > usize::MAX,
        },
{
    let ghost digits = s@.subrange(a as int, b as int);
    let mut value: usize = 0;
    let mut i: usize = a;
    while i < b
        invariant
            a <= i <= b <= s@.len(),
            digits == s@.subrange(a as int, b as int),
            forall|j: int| a <= j < b ==> is_digit(#[trigger] s@[j]),
            value == decimal_value(digits.take(i - a)),
        decreases b - i,
    {
        let d: usize = (s[i] - 48) as usize;
        proof {
            let longer = digits.take(i - a + 1);
            assert(longer.drop_last() =~= digits.take(i - a));
            assert(longer.last() == s@[i as int]);
            lemma_decimal_grows(digits, i - a + 1);
        }
        if value > (usize::MAX - d) / 10 {
            assert(10 * value + d > usize::MAX) by (nonlinear_arith)
                requires
                    value > (usize::MAX - d) / 10,
                    0 <= d <= 9,
            ;
            return None;
        }
        assert(10 * value + d <= usize::MAX) by (nonlinear_arith)
            requires
                value <= (usize::MAX - d) / 10,
                0 <= d <= 9,
        ;
        value = 10 * value + d;
        i = i + 1;
    }
    assert(digits.take(b - a) =~= digits);
    Some(value)
}

/// The header at the beginning of `buf`: the declared count and the offset
/// at which the first block begins.
pub fn parse_header(buf: &str) -> (r: Option<(usize, usize)>)
    ensures
        match r {
            Some((count, end)) => header_at(buf.spec_bytes()) == Some((count as nat, end as int))
                && end <= buf.spec_bytes().len(),
            None => header_at(buf.spec_bytes()) is None,
        },
{
    let s = buf.as_bytes();
    if !has_states_keyword(s) {
        return None;
    }
    let number = skip_blanks(s, 7);
    if number >= s.len() {
        return None;
    }
    let end = if s[number] == 48 {
        number + 1
    } else if 49 <= s[number] && s[number] <= 57 {
        skip_digits(s, number + 1)
    } else {
        return None;
    };
    let line_end = skip_blanks(s, end);
    if !has_byte(s, line_end, LINE_FEED) {
        return None;
    }
    match number_value(s, number, end) {
        Some(count) => Some((count, skip_blank_lines(s, line_end + 1))),
        None => None,
    }
}

/// The name that the bytes from `a` to `b` of `buf` spell.
fn take_name(buf: &str, a: usize, b: usize) -> (name: String)
    requires
        a <= b < buf.spec_bytes().len(),
        buf.spec_bytes()[a as int] < 128,
        buf.spec_bytes()[b as int] < 128,
    ensures
        name_bytes(&name) == buf.spec_bytes().subrange(a as int, b as int),
{
    broadcast use {
        encode_utf8_valid_utf8,
        is_char_boundary_iff_not_is_continuation_byte,
        is_char_boundary_start_end_of_seq,
    };

    let ghost s = buf.spec_bytes();
    assert(valid_utf8(s));
    assert(!is_continuation_byte(s[b as int]));
    assert(is_char_boundary(s, b as int));
    let (head, _) = buf.split_at(b);
    assert(head.spec_bytes() =~= s.subrange(0, b as int));
    assert(valid_utf8(head.spec_bytes()));
    assert(is_char_boundary(head.spec_bytes(), a as int)) by {
        if a < b {
            assert(!is_continuation_byte(head.spec_bytes()[a as int]));
        }
    }
    let (_, name) = head.split_at(a);
    assert(name.spec_bytes() =~= s.subrange(a as int, b as int));
    name.to_owned()
}

/// The rule line of `buf` that begins at offset `p`, and the offset behind
/// it.
fn parse_rule(buf: &str, p: usize) -> (r: Option<(TransitionInfo, usize)>)
    requires
        p <= buf.spec_bytes().len(),
    ensures
        match r {
            Some((rule, end)) => rule_at(buf.spec_bytes(), p as int) == Some((rule@, end as int))
                && p + 9 <= end <= buf.spec_bytes().len(),
            None => rule_at(buf.spec_bytes(), p as int) is None,
        },
{
    let s = buf.as_bytes();
    if !(p < s.len() && (s[p] == 97 || s[p] == 98)) {
        return None;
    }
    let arrow = skip_blanks(s, p + 1);
    if !(has_byte(s, arrow, DASH) && has_byte(s, arrow + 1, GREATER)) {
        return None;
    }
    let target = skip_blanks(s, arrow + 2);
    let target_end = skip_name(s, target);
    if target >= target_end {
        return None;
    }
    let first_semi = skip_blanks(s, target_end);
    if !has_byte(s, first_semi, SEMICOLON) {
        return None;
    }
    let mov_at = skip_blanks(s, first_semi + 1);
    if mov_at >= s.len() {
        return None;
    }
    let mov = if s[mov_at] == 82 {
        Direction::R
    } else if s[mov_at] == 76 {
        Direction::L
    } else if s[mov_at] == DASH {
        Direction::Stay
    } else {
        return None;
    };
    let second_semi = skip_blanks(s, mov_at + 1);
    if !has_byte(s, second_semi, SEMICOLON) {
        return None;
    }
    let write_at = skip_blanks(s, second_semi + 1);
    if write_at >= s.len() {
        return None;
    }
    let write = if s[write_at] == 97 {
        Symbol::A
    } else if s[write_at] == 98 {
        Symbol::B
    } else {
        return None;
    };
    let line_end = skip_blanks(s, write_at + 1);
    if !has_byte(s, line_end, LINE_FEED) {
        return None;
    }
    proof {
        lemma_blank_or_same(s@, target_end as int);
    }
    let next = take_name(buf, target, target_end);
    Some((TransitionInfo { next, mov, write }, line_end + 1))
}

/// Where the blanks from `p` on end stands the byte at `p`, or `p` holds a
/// blank.
proof fn lemma_blank_or_same(s: Seq<u8>, p: int)
    requires
        0 <= p < s.len(),
    ensures
        after_blanks(s, p) == p || is_blank(s[p]),
{
}

/// The state block of `buf` that begins at offset `p`, and the offset at
/// which the next one begins.
pub fn parse_state(buf: &str, p: usize) -> (r: Option<(StateInfo, usize)>)
    ensures
        match r {
            Some((state, end)) => block_at(buf.spec_bytes(), p as int) == Some(
                (state@, end as int),
            ) && p + 21 <= end <= buf.spec_bytes().len(),
            None => block_at(buf.spec_bytes(), p as int) is None,
        },
{
    let s = buf.as_bytes();
    if p > s.len() {
        return None;
    }
    let start = has_start_marker(s, p);
    let name_at = skip_blanks(
        s,
        if start {
            p + 6
        } else {
            p
        },
    );
    let name_end = skip_name(s, name_at);
    if name_at >= name_end {
        return None;
    }
    let colon = skip_blanks(s, name_end);
    if !has_byte(s, colon, COLON) {
        return None;
    }
    let line_end = skip_blanks(s, colon + 1);
    if !has_byte(s, line_end, LINE_FEED) {
        return None;
    }
    let first = skip_blanks(s, line_end + 1);
    let (on_a, first_end) = match parse_rule(buf, first) {
        Some(found) => found,
        None => {
            return None;
        },
    };
    let second = skip_blanks(s, first_end);
    let (on_b, second_end) = match parse_rule(buf, second) {
        Some(found) => found,
        None => {
            return None;
        },
    };
    let end = skip_blank_lines(s, second_end);
    proof {
        lemma_blank_or_same(s@, name_end as int);
    }
    let name = take_name(buf, name_at, name_end);
    Some((StateInfo { on_a, on_b, start, name }, end))
}

} // verus!
