//! The text form of a deterministic automaton: the first line is the start
//! state, the second lists the final states, and every further line is a
//! transition `from to : letter`.

use crate::dea::DEA;
use crate::dfa_model::Dfa;
use crate::name::{name_of, Name};
use vstd::prelude::*;

verus! {

/// Why a text is no description of an automaton.
#[derive(Debug, Clone, Copy, PartialEq, Eq)]
pub enum ParseError {
    /// The text has fewer than two lines.
    NotEnoughLines,
    /// A transition line has no colon.
    NoColon,
    /// A transition line does not name exactly two states before the colon.
    BadStates,
}

impl ParseError {
    /// The error in words.
    pub fn message(&self) -> (r: &'static str)
        ensures
            r@ == match *self {
                ParseError::NotEnoughLines => "Not enough lines"@,
                ParseError::NoColon => "No colon"@,
                ParseError::BadStates => "Expected two states before the colon"@,
            },
    {
        match self {
            ParseError::NotEnoughLines => "Not enough lines",
            ParseError::NoColon => "No colon",
            ParseError::BadStates => "Expected two states before the colon",
        }
    }
}

/// What a description says, as byte strings.
pub struct Outline {
    pub start: Seq<u8>,
    pub finals: Seq<Seq<u8>>,
    pub transitions: Seq<(Seq<u8>, Seq<u8>, Seq<u8>)>,
}

/// What a description says: the start state, the final states and the
/// transitions `(from, to, letter)`, as byte strings.
pub struct Description {
    pub start: Vec<u8>,
    pub finals: Vec<Vec<u8>>,
    pub transitions: Vec<(Vec<u8>, Vec<u8>, Vec<u8>)>,
}

/// The byte strings that the vectors hold.
pub open spec fn rows(v: Seq<Vec<u8>>) -> Seq<Seq<u8>> {
    v.map_values(|x: Vec<u8>| x@)
}

/// The byte strings that the triples hold.
pub open spec fn triples(v: Seq<(Vec<u8>, Vec<u8>, Vec<u8>)>) -> Seq<(Seq<u8>, Seq<u8>, Seq<u8>)> {
    v.map_values(|t: (Vec<u8>, Vec<u8>, Vec<u8>)| (t.0@, t.1@, t.2@))
}

impl View for Description {
    type V = Outline;

    open spec fn view(&self) -> Outline {
        Outline {
            start: self.start@,
            finals: rows(self.finals@),
            transitions: triples(self.transitions@),
        }
    }
}

/// Space, tab, line feed, form feed or carriage return.
pub open spec fn is_space(b: u8) -> bool {
    b == 32 || b == 9 || b == 10 || b == 12 || b == 13
}

/// The test for a byte other than `b`.
pub open spec fn other_than(b: u8) -> spec_fn(u8) -> bool {
    |x: u8| x != b
}

/// The test for a space.
pub open spec fn spaces() -> spec_fn(u8) -> bool {
    |x: u8| is_space(x)
}

/// The test for a byte that is no space.
pub open spec fn non_spaces() -> spec_fn(u8) -> bool {
    |x: u8| !is_space(x)
}

/// The number of bytes at the front of `s` that pass `p`.
pub open spec fn span(s: Seq<u8>, p: spec_fn(u8) -> bool) -> nat
    decreases s.len(),
{
    if s.len() == 0 || !p(s[0]) {
        0
    } else {
        1 + span(s.drop_first(), p)
    }
}

/// The line without the carriage return that it ends in, if it does.
pub open spec fn chomp(l: Seq<u8>) -> Seq<u8> {
    if l.len() > 0 && l.last() == 13 {
        l.drop_last()
    } else {
        l
    }
}

/// The lines of `s`: a line ends before a line feed, or before a carriage
/// return and a line feed, or at the end of the text.
pub open spec fn lines_of(s: Seq<u8>) -> Seq<Seq<u8>>
    decreases s.len(),
{
    if s.len() == 0 {
        Seq::empty()
    } else {
        let i = span(s, other_than(10));
        if i >= s.len() {
            seq![s]
        } else {
            seq![chomp(s.take(i as int))] + lines_of(s.skip(i as int + 1))
        }
    }
}

/// The words of `s`: the longest runs of bytes that are no spaces.
pub open spec fn tokens_of(s: Seq<u8>) -> Seq<Seq<u8>>
    decreases s.len(),
{
    if s.len() == 0 {
        Seq::empty()
    } else if is_space(s[0]) {
        tokens_of(s.drop_first())
    } else {
        let n = span(s, non_spaces());
        if 0 < n <= s.len() {
            seq![s.take(n as int)] + tokens_of(s.skip(n as int))
        } else {
            Seq::empty()
        }
    }
}

/// `s` without the spaces at its end.
pub open spec fn trim_end(s: Seq<u8>) -> Seq<u8>
    decreases s.len(),
{
    if s.len() > 0 && is_space(s.last()) {
        trim_end(s.drop_last())
    } else {
        s
    }
}

/// `s` without the spaces at its front and at its end.
pub open spec fn trimmed(s: Seq<u8>) -> Seq<u8> {
    trim_end(s.skip(span(s, spaces()) as int))
}

/// The transition that a line stands for: two words before the first
/// colon, and after it the letter, up to the next colon and trimmed.
pub open spec fn parse_line(line: Seq<u8>) -> Result<(Seq<u8>, Seq<u8>, Seq<u8>), ParseError> {
    let c = span(line, other_than(58));
    if c >= line.len() {
        Err(ParseError::NoColon)
    } else {
        let rest = line.skip(c as int + 1);
        let words = tokens_of(line.take(c as int));
        if words.len() != 2 {
            Err(ParseError::BadStates)
        } else {
            Ok((words[0], words[1], trimmed(rest.take(span(rest, other_than(58)) as int))))
        }
    }
}

/// The transitions that the lines stand for, or the error of the first
/// line that stands for none.
pub open spec fn parse_lines(ls: Seq<Seq<u8>>) -> Result<
    Seq<(Seq<u8>, Seq<u8>, Seq<u8>)>,
    ParseError,
>
    decreases ls.len(),
{
    if ls.len() == 0 {
        Ok(Seq::empty())
    } else {
        match parse_lines(ls.drop_last()) {
            Err(e) => Err(e),
            Ok(ts) => match parse_line(ls.last()) {
                Err(e) => Err(e),
                Ok(t) => Ok(ts.push(t)),
            },
        }
    }
}

/// What the text says, or why it is no description.
pub open spec fn parse(text: Seq<u8>) -> Result<Outline, ParseError> {
    let ls = lines_of(text);
    if ls.len() < 2 {
        Err(ParseError::NotEnoughLines)
    } else {
        match parse_lines(ls.skip(2)) {
            Err(e) => Err(e),
            Ok(ts) => Ok(Outline { start: ls[0], finals: tokens_of(ls[1]), transitions: ts }),
        }
    }
}

/// The automaton that an outline describes.
pub open spec fn outline_dfa(o: Outline) -> Dfa<Name, Name> {
    Dfa::from_transitions(
        name_of(o.start),
        o.finals.map_values(|s: Seq<u8>| name_of(s)),
        o.transitions.map_values(
            |t: (Seq<u8>, Seq<u8>, Seq<u8>)| (name_of(t.0), name_of(t.1), name_of(t.2)),
        ),
    )
}

/// `span` is the place of the first byte that does not pass.
pub proof fn lemma_span(s: Seq<u8>, p: spec_fn(u8) -> bool, i: int)
    requires
        0 <= i <= s.len(),
        forall|j: int| 0 <= j < i ==> p(#[trigger] s[j]),
        i == s.len() || !p(s[i]),
    ensures
        span(s, p) == i,
    decreases i,
{
    if i > 0 {
        let t = s.drop_first();
        assert forall|j: int| 0 <= j < i - 1 implies p(#[trigger] t[j]) by {
            assert(t[j] == s[j + 1]);
        }
        lemma_span(t, p, i - 1);
    }
}

/// Whether the byte is a space.
pub fn is_space_byte(b: u8) -> (r: bool)
    ensures
        r == is_space(b),
{
    b == 32 || b == 9 || b == 10 || b == 12 || b == 13
}

/// A copy of the bytes of `s` from place `from` up to place `to`.
pub fn slice(s: &Vec<u8>, from: usize, to: usize) -> (r: Vec<u8>)
    requires
        from <= to <= s.len(),
    ensures
        r@ == s@.subrange(from as int, to as int),
{
    let mut r: Vec<u8> = Vec::new();
    let mut i: usize = from;
    while i < to
        invariant
            from <= i <= to <= s.len(),
            r@ == s@.subrange(from as int, i as int),
        decreases to - i,
    {
        r.push(s[i]);
        proof {
            assert(s@.subrange(from as int, i + 1) =~= s@.subrange(from as int, i as int).push(
                s@[i as int],
            ));
        }
        i += 1;
    }
    r
}

/// The place of the first byte `b` at or after place `from`, or the length
/// of `s` where there is none.
pub fn scan_until(s: &Vec<u8>, from: usize, b: u8) -> (r: usize)
    requires
        from <= s.len(),
    ensures
        from <= r <= s.len(),
        r - from == span(s@.skip(from as int), other_than(b)),
{
    let mut i: usize = from;
    while i < s.len() && s[i] != b
        invariant
            from <= i <= s.len(),
            forall|j: int| from <= j < i ==> s@[j] != b,
        decreases s.len() - i,
    {
        i += 1;
    }
    proof {
        lemma_span(s@.skip(from as int), other_than(b), i - from);
    }
    i
}

/// The place of the first space at or after place `from`, or the length of
/// `s` where there is none.
pub fn scan_word(s: &Vec<u8>, from: usize) -> (r: usize)
    requires
        from <= s.len(),
    ensures
        from <= r <= s.len(),
        r - from == span(s@.skip(from as int), non_spaces()),
{
    let mut i: usize = from;
    while i < s.len() && !is_space_byte(s[i])
        invariant
            from <= i <= s.len(),
            forall|j: int| from <= j < i ==> !is_space(s@[j]),
        decreases s.len() - i,
    {
        i += 1;
    }
    proof {
        lemma_span(s@.skip(from as int), non_spaces(), i - from);
    }
    i
}

/// The place of the first byte that is no space at or after place `from`,
/// or the length of `s` where there is none.
pub fn scan_spaces(s: &Vec<u8>, from: usize) -> (r: usize)
    requires
        from <= s.len(),
    ensures
        from <= r <= s.len(),
        r - from == span(s@.skip(from as int), spaces()),
{
    let mut i: usize = from;
    while i < s.len() && is_space_byte(s[i])
        invariant
            from <= i <= s.len(),
            forall|j: int| from <= j < i ==> is_space(s@[j]),
        decreases s.len() - i,
    {
        i += 1;
    }
    proof {
        lemma_span(s@.skip(from as int), spaces(), i - from);
    }
    i
}

/// The lines of the text.
pub fn split_lines(text: &Vec<u8>) -> (r: Vec<Vec<u8>>)
    ensures
        rows(r@) == lines_of(text@),
{
    let mut out: Vec<Vec<u8>> = Vec::new();
    let mut start: usize = 0;
    proof {
        assert(text@.skip(0) =~= text@);
        assert(rows(out@) + lines_of(text@) =~= lines_of(text@));
    }
    while start < text.len()
        invariant
            start <= text.len(),
            lines_of(text@) == rows(out@) + lines_of(text@.skip(start as int)),
        decreases text.len() - start,
    {
        let ghost rest = text@.skip(start as int);
        let ghost done = rows(out@);
        let end = scan_until(text, start, 10);
        if end >= text.len() {
            let line = slice(text, start, text.len());
            out.push(line);
            proof {
                assert(line@ =~= rest);
                assert(lines_of(rest) =~= seq![rest]);
                assert(rows(out@) =~= done.push(rest));
                assert(text@.skip(text.len() as int) =~= Seq::<u8>::empty());
                assert(done + seq![rest] =~= done.push(rest) + lines_of(
                    text@.skip(text.len() as int),
                ));
            }
            start = text.len();
        } else {
            let mut stop = end;
            if stop > start && text[stop - 1] == 13 {
                stop -= 1;
            }
            let line = slice(text, start, stop);
            out.push(line);
            proof {
                let i = (end - start) as int;
                assert(rest.take(i) =~= text@.subrange(start as int, end as int));
                assert(line@ =~= chomp(rest.take(i)));
                assert(rest.skip(i + 1) =~= text@.skip(end + 1));
                assert(rows(out@) =~= done.push(line@));
                assert(done + (seq![line@] + lines_of(text@.skip(end + 1))) =~= done.push(line@)
                    + lines_of(text@.skip(end + 1)));
            }
            start = end + 1;
        }
    }
    proof {
        assert(rows(out@) + Seq::<Seq<u8>>::empty() =~= rows(out@));
    }
    out
}

/// The words of `s`.
pub fn split_tokens(s: &Vec<u8>) -> (r: Vec<Vec<u8>>)
    ensures
        rows(r@) == tokens_of(s@),
{
    let mut out: Vec<Vec<u8>> = Vec::new();
    let mut i: usize = 0;
    proof {
        assert(s@.skip(0) =~= s@);
        assert(rows(out@) + tokens_of(s@) =~= tokens_of(s@));
    }
    while i < s.len()
        invariant
            i <= s.len(),
            tokens_of(s@) == rows(out@) + tokens_of(s@.skip(i as int)),
        decreases s.len() - i,
    {
        let ghost rest = s@.skip(i as int);
        let ghost done = rows(out@);
        if is_space_byte(s[i]) {
            proof {
                assert(rest.drop_first() =~= s@.skip(i + 1));
            }
            i += 1;
        } else {
            let end = scan_word(s, i);
            let word = slice(s, i, end);
            out.push(word);
            proof {
                let n = (end - i) as int;
                assert(rest[0] == s@[i as int]);
                assert(n > 0);
                assert(rest.take(n) =~= word@);
                assert(rest.skip(n) =~= s@.skip(end as int));
                assert(rows(out@) =~= done.push(word@));
                assert(done + (seq![word@] + tokens_of(s@.skip(end as int))) =~= done.push(word@)
                    + tokens_of(s@.skip(end as int)));
            }
            i = end;
        }
    }
    proof {
        assert(rows(out@) + Seq::<Seq<u8>>::empty() =~= rows(out@));
    }
    out
}

/// `s` without the spaces at its front and at its end.
pub fn trim(s: &Vec<u8>) -> (r: Vec<u8>)
    ensures
        r@ == trimmed(s@),
{
    let from = scan_spaces(s, 0);
    let mut to: usize = s.len();
    proof {
        assert(s@.skip(0) =~= s@);
        assert(s@.skip(from as int) =~= s@.subrange(from as int, to as int));
    }
    while to > from && is_space_byte(s[to - 1])
        invariant
            from <= to <= s.len(),
            trimmed(s@) == trim_end(s@.subrange(from as int, to as int)),
        decreases to,
    {
        proof {
            assert(s@.subrange(from as int, to as int).drop_last() =~= s@.subrange(
                from as int,
                to - 1,
            ));
        }
        to -= 1;
    }
    slice(s, from, to)
}

/// The transition that the line stands for.
pub fn parse_transition(line: &Vec<u8>) -> (r: Result<(Vec<u8>, Vec<u8>, Vec<u8>), ParseError>)
    ensures
        match r {
            Ok(t) => parse_line(line@) == Ok::<(Seq<u8>, Seq<u8>, Seq<u8>), ParseError>(
                (t.0@, t.1@, t.2@),
            ),
            Err(e) => parse_line(line@) == Err::<(Seq<u8>, Seq<u8>, Seq<u8>), ParseError>(e),
        },
{
    proof {
        assert(line@.skip(0) =~= line@);
    }
    let colon = scan_until(line, 0, 58);
    if colon >= line.len() {
        return Err(ParseError::NoColon);
    }
    let before = slice(line, 0, colon);
    let words = split_tokens(&before);
    proof {
        assert(before@ =~= line@.take(colon as int));
    }
    if words.len() != 2 {
        return Err(ParseError::BadStates);
    }
    let next = scan_until(line, colon + 1, 58);
    let after = slice(line, colon + 1, next);
    let letter = trim(&after);
    let from = slice(&words[0], 0, words[0].len());
    let to = slice(&words[1], 0, words[1].len());
    proof {
        let rest = line@.skip(colon + 1);
        assert(after@ =~= rest.take(next - colon - 1));
        assert(from@ =~= words@[0]@);
        assert(to@ =~= words@[1]@);
        assert(rows(words@)[0] == words@[0]@);
        assert(rows(words@)[1] == words@[1]@);
    }
    Ok((from, to, letter))
}

/// What the text says: the start state from the first line, the final
/// states from the second, and a transition from every further line.
pub fn parse_description(text: &Vec<u8>) -> (r: Result<Description, ParseError>)
    ensures
        match r {
            Ok(d) => parse(text@) == Ok::<Outline, ParseError>(d@),
            Err(e) => parse(text@) == Err::<Outline, ParseError>(e),
        },
{
    let lines = split_lines(text);
    if lines.len() < 2 {
        return Err(ParseError::NotEnoughLines);
    }
    let ghost ls = rows(lines@);
    let mut transitions: Vec<(Vec<u8>, Vec<u8>, Vec<u8>)> = Vec::new();
    let mut i: usize = 2;
    proof {
        assert(ls.skip(2).take(0) =~= Seq::<Seq<u8>>::empty());
        assert(triples(transitions@) =~= Seq::<(Seq<u8>, Seq<u8>, Seq<u8>)>::empty());
    }
    while i < lines.len()
        invariant
            2 <= i <= lines.len(),
            ls == rows(lines@),
            ls == lines_of(text@),
            parse_lines(ls.skip(2).take(i - 2)) == Ok::<
                Seq<(Seq<u8>, Seq<u8>, Seq<u8>)>,
                ParseError,
            >(triples(transitions@)),
        decreases lines.len() - i,
    {
        let ghost done = triples(transitions@);
        proof {
            assert(ls.skip(2).take(i - 1).drop_last() =~= ls.skip(2).take(i - 2));
            assert(ls.skip(2).take(i - 1).last() == lines@[i as int]@);
        }
        match parse_transition(&lines[i]) {
            Ok(t) => {
                transitions.push(t);
                proof {
                    assert(triples(transitions@) =~= done.push((t.0@, t.1@, t.2@)));
                }
            },
            Err(e) => {
                proof {
                    let pre = ls.skip(2).take(i - 1);
                    assert(parse_line(pre.last()) == Err::<(Seq<u8>, Seq<u8>, Seq<u8>), ParseError>(
                        e,
                    ));
                    assert(parse_lines(pre) == Err::<Seq<(Seq<u8>, Seq<u8>, Seq<u8>)>, ParseError>(
                        e,
                    ));
                    lemma_parse_lines_fails(ls.skip(2), i - 1);
                    assert(ls.len() == lines@.len());
                    assert(parse_lines(ls.skip(2)) == Err::<
                        Seq<(Seq<u8>, Seq<u8>, Seq<u8>)>,
                        ParseError,
                    >(e));
                }
                return Err(e);
            },
        }
        i += 1;
    }
    proof {
        assert(ls.skip(2).take(i - 2) =~= ls.skip(2));
        assert(ls[0] == lines@[0]@);
        assert(ls[1] == lines@[1]@);
    }
    let start = slice(&lines[0], 0, lines[0].len());
    let finals = split_tokens(&lines[1]);
    proof {
        assert(start@ =~= lines@[0]@);
    }
    Ok(Description { start, finals, transitions })
}

/// Where some of the first lines stand for no transitions, all of the lines
/// fail with the same error.
pub proof fn lemma_parse_lines_fails(ls: Seq<Seq<u8>>, n: int)
    requires
        0 <= n <= ls.len(),
        parse_lines(ls.take(n)) is Err,
    ensures
        parse_lines(ls) == parse_lines(ls.take(n)),
    decreases ls.len() - n,
{
    if n < ls.len() {
        assert(ls.take(n + 1).drop_last() =~= ls.take(n));
        lemma_parse_lines_fails(ls, n + 1);
    } else {
        assert(ls.take(n) =~= ls);
    }
}

/// The automaton that the text describes, its states and letters named by
/// the words of the text.
pub fn parse_dea(text: &Vec<u8>) -> (r: Result<DEA<Name, Name>, ParseError>)
    ensures
        match r {
            Ok(dea) => dea.wf() && parse(text@) is Ok && dea@ == outline_dfa(parse(text@).unwrap()),
            Err(e) => parse(text@) == Err::<Outline, ParseError>(e),
        },
{
    let d = match parse_description(text) {
        Ok(d) => d,
        Err(e) => {
            return Err(e);
        },
    };
    let ghost o = d@;
    let ghost f = |s: Seq<u8>| name_of(s);
    let ghost g = |t: (Seq<u8>, Seq<u8>, Seq<u8>)| (name_of(t.0), name_of(t.1), name_of(t.2));
    let start = Name::from_bytes(&d.start);
    let mut finals: Vec<Name> = Vec::new();
    let mut i: usize = 0;
    while i < d.finals.len()
        invariant
            i <= d.finals.len(),
            o == d@,
            f == |s: Seq<u8>| name_of(s),
            finals@ == o.finals.take(i as int).map_values(f),
        decreases d.finals.len() - i,
    {
        finals.push(Name::from_bytes(&d.finals[i]));
        proof {
            assert(o.finals[i as int] == d.finals@[i as int]@);
            assert(o.finals.take(i + 1).map_values(f) =~= o.finals.take(i as int).map_values(
                f,
            ).push(f(o.finals[i as int])));
        }
        i += 1;
    }
    let mut transitions: Vec<(Name, Name, Name)> = Vec::new();
    let mut j: usize = 0;
    while j < d.transitions.len()
        invariant
            j <= d.transitions.len(),
            o == d@,
            g == |t: (Seq<u8>, Seq<u8>, Seq<u8>)| (name_of(t.0), name_of(t.1), name_of(t.2)),
            transitions@ == o.transitions.take(j as int).map_values(g),
        decreases d.transitions.len() - j,
    {
        let t = &d.transitions[j];
        transitions.push((Name::from_bytes(&t.0), Name::from_bytes(&t.1), Name::from_bytes(&t.2)));
        proof {
            assert(o.transitions[j as int] == (t.0@, t.1@, t.2@));
            assert(o.transitions.take(j + 1).map_values(g) =~= o.transitions.take(
                j as int,
            ).map_values(g).push(g(o.transitions[j as int])));
        }
        j += 1;
    }
    proof {
        assert(o.finals.take(i as int) =~= o.finals);
        assert(o.transitions.take(j as int) =~= o.transitions);
    }
    Ok(DEA::from_transitions(start, finals, transitions))
}

} // verus!
