use automata::parse::{
    parse_description, parse_transition, scan_spaces, scan_until, scan_word, slice, split_lines,
    split_tokens, trim,
};
use automata::{parse_dea, Ident, Name, ParseError};

fn bytes(s: &str) -> Vec<u8> {
    s.as_bytes().to_vec()
}

fn name(s: &str) -> Name {
    Name::from_bytes(&bytes(s))
}

#[test]
fn name_round_trip() {
    let n = name("q0");
    assert_eq!(n.to_bytes(), bytes("q0"));
    assert_eq!(name("").to_bytes(), Vec::<u8>::new());
    assert_eq!(name(""), Name::End);
    assert_eq!(name("a"), Name::Byte(b'a', Box::new(Name::End)));
}

#[test]
fn names_are_the_same_iff_their_bytes_are() {
    assert!(name("q0").same(&name("q0")));
    assert!(!name("q0").same(&name("q1")));
    assert!(!name("q0").same(&name("q")));
    assert!(!name("q").same(&name("q0")));
    assert!(name("").same(&name("")));
    assert_eq!(name("abc").duplicate(), name("abc"));
}

#[test]
fn split_lines_as_text_lines() {
    assert_eq!(split_lines(&bytes("")), Vec::<Vec<u8>>::new());
    assert_eq!(split_lines(&bytes("a")), vec![bytes("a")]);
    assert_eq!(split_lines(&bytes("a\n")), vec![bytes("a")]);
    assert_eq!(split_lines(&bytes("a\nb")), vec![bytes("a"), bytes("b")]);
    assert_eq!(split_lines(&bytes("a\r\nb\r\n")), vec![bytes("a"), bytes("b")]);
    assert_eq!(split_lines(&bytes("a\n\nb")), vec![bytes("a"), bytes(""), bytes("b")]);
    assert_eq!(split_lines(&bytes("\n")), vec![bytes("")]);
    assert_eq!(split_lines(&bytes("a\r")), vec![bytes("a\r")]);
    assert_eq!(split_lines(&bytes("\r\n")), vec![bytes("")]);
}

#[test]
fn split_lines_agrees_with_std() {
    for s in ["", "x", "x\n", "x\ny\n", "x\r\ny", "\n\n", "x\r\r\ny", "q0\nq2\nq0 q1 : 0\n"] {
        let expected: Vec<Vec<u8>> = s.lines().map(|l| l.as_bytes().to_vec()).collect();
        assert_eq!(split_lines(&bytes(s)), expected);
    }
}

#[test]
fn split_tokens_drops_spaces() {
    assert_eq!(split_tokens(&bytes("")), Vec::<Vec<u8>>::new());
    assert_eq!(split_tokens(&bytes("  \t ")), Vec::<Vec<u8>>::new());
    assert_eq!(split_tokens(&bytes("q0")), vec![bytes("q0")]);
    assert_eq!(split_tokens(&bytes(" q0\tq1  q2 ")), vec![bytes("q0"), bytes("q1"), bytes("q2")]);
}

#[test]
fn split_tokens_agrees_with_std() {
    for s in ["", " ", "a b", "  a  b  ", "a\tb\x0cc\rd", "ab"] {
        let expected: Vec<Vec<u8>> =
            s.split_ascii_whitespace().map(|l| l.as_bytes().to_vec()).collect();
        assert_eq!(split_tokens(&bytes(s)), expected);
    }
}

#[test]
fn trim_strips_both_ends() {
    assert_eq!(trim(&bytes("  a b \t")), bytes("a b"));
    assert_eq!(trim(&bytes("   ")), bytes(""));
    assert_eq!(trim(&bytes("")), bytes(""));
    assert_eq!(trim(&bytes("x")), bytes("x"));
}

#[test]
fn scans_stop_at_the_first_match() {
    let s = bytes("ab : c");
    assert_eq!(scan_until(&s, 0, b':'), 3);
    assert_eq!(scan_until(&s, 4, b':'), 6);
    assert_eq!(scan_word(&s, 0), 2);
    assert_eq!(scan_spaces(&s, 2), 3);
    assert_eq!(scan_spaces(&s, 0), 0);
    assert_eq!(slice(&s, 1, 4), bytes("b :"));
}

#[test]
fn parse_transition_reads_from_to_letter() {
    assert_eq!(
        parse_transition(&bytes("q0 q1 : 0")),
        Ok((bytes("q0"), bytes("q1"), bytes("0")))
    );
    assert_eq!(
        parse_transition(&bytes("  a\tb:  x y  ")),
        Ok((bytes("a"), bytes("b"), bytes("x y")))
    );
    assert_eq!(parse_transition(&bytes("a b :")), Ok((bytes("a"), bytes("b"), bytes(""))));
    assert_eq!(parse_transition(&bytes("a b : c : d")), Ok((bytes("a"), bytes("b"), bytes("c"))));
}

#[test]
fn parse_transition_without_colon_fails() {
    assert_eq!(parse_transition(&bytes("q0 q1 0")), Err(ParseError::NoColon));
    assert_eq!(parse_transition(&bytes("")), Err(ParseError::NoColon));
}

#[test]
fn parse_transition_needs_two_states() {
    assert_eq!(parse_transition(&bytes("q0 : 0")), Err(ParseError::BadStates));
    assert_eq!(parse_transition(&bytes(": 0")), Err(ParseError::BadStates));
    assert_eq!(parse_transition(&bytes("a b c : 0")), Err(ParseError::BadStates));
}

#[test]
fn parse_description_reads_every_part() {
    let d = parse_description(&bytes("q0\nq2 q1\nq0 q1 : 0\nq1 q2 : 1\n")).ok().unwrap();
    assert_eq!(d.start, bytes("q0"));
    assert_eq!(d.finals, vec![bytes("q2"), bytes("q1")]);
    assert_eq!(
        d.transitions,
        vec![(bytes("q0"), bytes("q1"), bytes("0")), (bytes("q1"), bytes("q2"), bytes("1"))]
    );
}

#[test]
fn parse_dea_needs_two_lines() {
    assert_eq!(parse_dea(&bytes("")).err(), Some(ParseError::NotEnoughLines));
    assert_eq!(parse_dea(&bytes("q0\n")).err(), Some(ParseError::NotEnoughLines));
    assert!(parse_dea(&bytes("q0\n\n")).is_ok());
}

#[test]
fn parse_dea_reports_the_first_bad_line() {
    assert_eq!(parse_dea(&bytes("q0\nq1\nq0 q1 0\nq0 : 0\n")).err(), Some(ParseError::NoColon));
    assert_eq!(parse_dea(&bytes("q0\nq1\nq0 : 0\nq0 q1 0\n")).err(), Some(ParseError::BadStates));
    assert_eq!(parse_dea(&bytes("q0\nq1\nq0 q1 : 0\n\n")).err(), Some(ParseError::NoColon));
}

#[test]
fn parse_dea_builds_the_chain() {
    let d = parse_dea(&bytes("q0\nq2\nq0 q1 : 0\nq1 q2 : 1\n")).ok().unwrap();
    assert_eq!(d.start_state, name("q0"));
    assert_eq!(d.final_states, vec![name("q2")]);
    assert_eq!(d.states, vec![name("q0"), name("q1"), name("q2")]);
    assert_eq!(d.alphabet, vec![name("0"), name("1")]);
    assert!(d.accepts(&vec![name("0"), name("1")]));
    assert!(!d.accepts(&vec![name("0")]));
    assert!(!d.accepts(&vec![name("1"), name("0")]));
}

#[test]
fn parsed_chain_completed_with_trap() {
    let d = parse_dea(&bytes("q0\nq2\nq0 q1 : 0\nq1 q2 : 1\n")).ok().unwrap();
    let c = d.completed(name("T"));
    assert!(c.is_total());
    assert_eq!(c.get_new_state(&name("q2"), &name("0")), Some(name("T")));
    assert_eq!(c.get_new_state(&name("T"), &name("0")), Some(name("T")));
    assert_eq!(c.get_new_state(&name("T"), &name("1")), Some(name("T")));
}

#[test]
fn parse_error_messages() {
    assert_eq!(ParseError::NotEnoughLines.message(), "Not enough lines");
    assert_eq!(ParseError::NoColon.message(), "No colon");
    assert_eq!(ParseError::BadStates.message(), "Expected two states before the colon");
}
