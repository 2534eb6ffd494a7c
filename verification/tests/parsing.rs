use brusque::{parse_header, parse_state, Direction, StateInfo, Symbol, TransitionInfo};

fn rule(next: &str, mov: Direction, write: Symbol) -> TransitionInfo {
    TransitionInfo { next: next.to_string(), mov, write }
}

#[test]
fn header_gives_count_and_offset() {
    assert_eq!(parse_header("STATES: 3\nq0:\n"), Some((3, 10)));
}

#[test]
fn header_keyword_in_any_case() {
    assert_eq!(parse_header("states:1\n"), Some((1, 9)));
    assert_eq!(parse_header("StAtEs: 12\n"), Some((12, 11)));
}

#[test]
fn header_blanks_between_tokens() {
    assert_eq!(parse_header("STATES:\t 7 \t\n"), Some((7, 13)));
}

#[test]
fn header_takes_blank_lines_after_it() {
    assert_eq!(parse_header("STATES: 2\n\n  \n\t\nq0:\n"), Some((2, 16)));
}

#[test]
fn header_leaves_blanks_of_an_unfinished_line() {
    assert_eq!(parse_header("STATES: 2\n  q0:\n"), Some((2, 10)));
}

#[test]
fn header_count_zero() {
    assert_eq!(parse_header("STATES: 0\n"), Some((0, 10)));
}

#[test]
fn header_rejects_leading_zero() {
    assert_eq!(parse_header("STATES: 01\n"), None);
}

#[test]
fn header_rejects_blank_in_front() {
    assert_eq!(parse_header(" STATES: 1\n"), None);
}

#[test]
fn header_rejects_blank_inside_keyword() {
    assert_eq!(parse_header("STATES : 1\n"), None);
}

#[test]
fn header_rejects_missing_number() {
    assert_eq!(parse_header("STATES:\n"), None);
    assert_eq!(parse_header("STATES: x\n"), None);
}

#[test]
fn header_rejects_missing_line_feed() {
    assert_eq!(parse_header("STATES: 1"), None);
    assert_eq!(parse_header("STATES: 1 q0:\n"), None);
}

#[test]
fn header_rejects_count_beyond_machine_word() {
    assert_eq!(parse_header("STATES: 99999999999999999999999999999999999999999\n"), None);
}

#[test]
fn header_largest_count() {
    let text = format!("STATES: {}\n", usize::MAX);
    assert_eq!(parse_header(&text), Some((usize::MAX, text.len())));
}

#[test]
fn header_rejects_empty_text() {
    assert_eq!(parse_header(""), None);
}

#[test]
fn state_plain() {
    let text = "q0:\na->q1;R;b\nb->HALT;-;a\n";
    let expected = StateInfo {
        on_a: rule("q1", Direction::R, Symbol::B),
        on_b: rule("HALT", Direction::Stay, Symbol::A),
        start: false,
        name: "q0".to_string(),
    };
    assert_eq!(parse_state(text, 0), Some((expected, text.len())));
}

#[test]
fn state_marked_as_start() {
    let text = "START q0:\na->q0;L;a\nb->q0;L;b\n";
    let (state, end) = parse_state(text, 0).unwrap();
    assert!(state.start);
    assert_eq!(state.name, "q0");
    assert_eq!(state.on_a, rule("q0", Direction::L, Symbol::A));
    assert_eq!(state.on_b, rule("q0", Direction::L, Symbol::B));
    assert_eq!(end, text.len());
}

#[test]
fn state_marker_in_any_case_and_with_tab() {
    let text = "start\tq0:\na->q0;L;a\nb->q0;L;b\n";
    let (state, _) = parse_state(text, 0).unwrap();
    assert!(state.start);
    assert_eq!(state.name, "q0");
}

#[test]
fn state_named_like_the_marker() {
    let text = "START:\na->START;-;a\nb->START;-;b\n";
    let (state, _) = parse_state(text, 0).unwrap();
    assert!(!state.start);
    assert_eq!(state.name, "START");
    let text = "STARTx:\na->STARTx;-;a\nb->STARTx;-;b\n";
    let (state, _) = parse_state(text, 0).unwrap();
    assert!(!state.start);
    assert_eq!(state.name, "STARTx");
}

#[test]
fn state_marker_is_not_taken_back() {
    assert_eq!(parse_state("START :\na->START;-;a\nb->START;-;b\n", 0), None);
}

#[test]
fn state_rejects_blank_before_marker() {
    assert_eq!(parse_state(" START q0:\na->q0;L;a\nb->q0;L;b\n", 0), None);
}

#[test]
fn state_name_may_be_indented() {
    let text = "  \tq.0_A:\na->q.0_A;-;a\nb->q.0_A;-;b\n";
    let (state, _) = parse_state(text, 0).unwrap();
    assert_eq!(state.name, "q.0_A");
}

#[test]
fn state_blanks_between_tokens() {
    let text = "q0 : \n  a -> q1 ; R ; b \n\tb\t->\tq2\t;\tL\t;\ta\t\n";
    let expected = StateInfo {
        on_a: rule("q1", Direction::R, Symbol::B),
        on_b: rule("q2", Direction::L, Symbol::A),
        start: false,
        name: "q0".to_string(),
    };
    assert_eq!(parse_state(text, 0), Some((expected, text.len())));
}

#[test]
fn state_takes_blank_lines_after_it() {
    let text = "q0:\na->q0;-;a\nb->q0;-;b\n\n \t\n\nq1:\n";
    let (_, end) = parse_state(text, 0).unwrap();
    assert_eq!(&text[end..], "q1:\n");
}

#[test]
fn state_leaves_blanks_of_an_unfinished_line() {
    let text = "q0:\na->q0;-;a\nb->q0;-;b\n\n  q1:\n";
    let (_, end) = parse_state(text, 0).unwrap();
    assert_eq!(&text[end..], "  q1:\n");
}

#[test]
fn state_from_an_offset() {
    let text = "STATES: 1\nSTART q0:\na->HALT;-;a\nb->ACCEPT;-;b\n";
    let (state, end) = parse_state(text, 10).unwrap();
    assert!(state.start);
    assert_eq!(state.name, "q0");
    assert_eq!(state.on_a.next, "HALT");
    assert_eq!(state.on_b.next, "ACCEPT");
    assert_eq!(end, text.len());
}

#[test]
fn state_offset_beyond_the_text() {
    assert_eq!(parse_state("q0:\n", 4), None);
    assert_eq!(parse_state("q0:\n", 5), None);
    assert_eq!(parse_state("q0:\n", usize::MAX), None);
}

#[test]
fn state_leading_symbol_is_not_looked_at() {
    let text = "q0:\nb->q1;R;b\na->q2;L;a\n";
    let (state, _) = parse_state(text, 0).unwrap();
    assert_eq!(state.on_a, rule("q1", Direction::R, Symbol::B));
    assert_eq!(state.on_b, rule("q2", Direction::L, Symbol::A));
}

#[test]
fn state_rejects_missing_second_rule() {
    assert_eq!(parse_state("q0:\na->q0;-;a\n", 0), None);
    assert_eq!(parse_state("q0:\na->q0;-;a\nq1:\n", 0), None);
}

#[test]
fn state_rejects_blank_line_between_rules() {
    assert_eq!(parse_state("q0:\na->q0;-;a\n\nb->q0;-;b\n", 0), None);
}

#[test]
fn state_rejects_bad_direction() {
    assert_eq!(parse_state("q0:\na->q0;X;a\nb->q0;-;b\n", 0), None);
    assert_eq!(parse_state("q0:\na->q0;r;a\nb->q0;-;b\n", 0), None);
}

#[test]
fn state_rejects_bad_symbol() {
    assert_eq!(parse_state("q0:\na->q0;-;c\nb->q0;-;b\n", 0), None);
    assert_eq!(parse_state("q0:\nA->q0;-;a\nb->q0;-;b\n", 0), None);
    assert_eq!(parse_state("q0:\nc->q0;-;a\nb->q0;-;b\n", 0), None);
}

#[test]
fn state_rejects_broken_arrow() {
    assert_eq!(parse_state("q0:\na- >q0;-;a\nb->q0;-;b\n", 0), None);
    assert_eq!(parse_state("q0:\na>q0;-;a\nb->q0;-;b\n", 0), None);
}

#[test]
fn state_rejects_missing_name_or_colon() {
    assert_eq!(parse_state(":\na->q0;-;a\nb->q0;-;b\n", 0), None);
    assert_eq!(parse_state("q0\na->q0;-;a\nb->q0;-;b\n", 0), None);
    assert_eq!(parse_state("q0: a->q0;-;a\nb->q0;-;b\n", 0), None);
}

#[test]
fn state_rejects_last_line_without_line_feed() {
    assert_eq!(parse_state("q0:\na->q0;-;a\nb->q0;-;b", 0), None);
}

#[test]
fn state_rejects_other_characters() {
    assert_eq!(parse_state("q\u{e9}:\na->q0;-;a\nb->q0;-;b\n", 0), None);
    assert_eq!(parse_state("q0:\na->q\u{e9};-;a\nb->q0;-;b\n", 0), None);
    assert_eq!(parse_state("q0:\r\na->q0;-;a\r\nb->q0;-;b\r\n", 0), None);
}

#[test]
fn state_offset_inside_a_character() {
    assert_eq!(parse_state("\u{e9}q0:\na->q0;-;a\nb->q0;-;b\n", 1), None);
}
