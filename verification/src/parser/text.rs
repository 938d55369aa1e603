//! The text form of expressions: names, the constants `0` and `1`, `-` for
//! negation, `&` for conjunction, which binds tighter than `|` for
//! disjunction, and parentheses. Both operators group to the right, and
//! blanks may stand between the parts.

use crate::parser::{ParsedExpression, Syntax};
use vstd::prelude::*;

verus! {

/// The byte of `0`, the constant that is false.
pub const ZERO: u8 = 48;

/// The byte of `1`, the constant that is true.
pub const ONE: u8 = 49;

/// The byte of `(`.
pub const OPEN: u8 = 40;

/// The byte of `)`.
pub const CLOSE: u8 = 41;

/// The byte of `-`, the sign of negation.
pub const MINUS: u8 = 45;

/// The byte of `&`, the sign of conjunction.
pub const AMPERSAND: u8 = 38;

/// The byte of `|`, the sign of disjunction.
pub const BAR: u8 = 124;

/// The level of a name, a constant or an expression in parentheses.
pub const ATOM: u8 = 0;

/// The level of negations.
pub const NEGATION: u8 = 1;

/// The level of conjunctions.
pub const CONJUNCTION: u8 = 2;

/// The level of disjunctions.
pub const DISJUNCTION: u8 = 3;

/// A blank, tab, line feed, vertical tab, form feed or carriage return.
pub open spec fn is_space(b: u8) -> bool {
    b == 32 || (9 <= b && b <= 13)
}

/// A letter or an underscore.
pub open spec fn is_name_start(b: u8) -> bool {
    (65 <= b && b <= 90) || (97 <= b && b <= 122) || b == 95
}

/// A letter, an underscore or a digit.
pub open spec fn is_name_part(b: u8) -> bool {
    is_name_start(b) || (ZERO <= b && b <= 57)
}

/// The first place at or after `pos` that holds no space.
pub open spec fn skip_spaces(s: Seq<u8>, pos: int) -> int
    decreases s.len() - pos,
{
    if 0 <= pos < s.len() && is_space(s[pos]) {
        skip_spaces(s, pos + 1)
    } else {
        pos
    }
}

/// The first place at or after `pos` that holds no part of a name.
pub open spec fn name_end(s: Seq<u8>, pos: int) -> int
    decreases s.len() - pos,
{
    if 0 <= pos < s.len() && is_name_part(s[pos]) {
        name_end(s, pos + 1)
    } else {
        pos
    }
}

/// The characters that the bytes stand for.
pub open spec fn ascii_chars(bytes: Seq<u8>) -> Seq<char> {
    Seq::new(bytes.len(), |i: int| bytes[i] as char)
}

/// The expression of the given level that begins at `pos`, after spaces,
/// and the place where it ends; nothing if no such expression begins
/// there.
pub open spec fn parse_level(s: Seq<u8>, pos: int, level: u8) -> Option<(Syntax, int)>
    decreases s.len() - pos, level,
{
    let p = skip_spaces(s, pos);
    if pos < 0 || p < pos || p >= s.len() {
        None
    } else if level == ATOM {
        if s[p] == ZERO {
            Some((Syntax::Constant(false), p + 1))
        } else if s[p] == ONE {
            Some((Syntax::Constant(true), p + 1))
        } else if is_name_start(s[p]) {
            Some((Syntax::Variable(ascii_chars(s.subrange(p, name_end(s, p)))), name_end(s, p)))
        } else if s[p] == OPEN {
            match parse_level(s, p + 1, DISJUNCTION) {
                Some((inner, q)) => {
                    let close = skip_spaces(s, q);
                    if 0 <= close < s.len() && s[close] == CLOSE {
                        Some((inner, close + 1))
                    } else {
                        None
                    }
                },
                None => None,
            }
        } else {
            None
        }
    } else if level == NEGATION {
        if s[p] == MINUS {
            match parse_level(s, p + 1, NEGATION) {
                Some((inner, q)) => Some((Syntax::Not(Box::new(inner)), q)),
                None => None,
            }
        } else {
            parse_level(s, pos, ATOM)
        }
    } else {
        let operator: u8 = if level == CONJUNCTION {
            AMPERSAND
        } else {
            BAR
        };
        match parse_level(s, pos, (level - 1) as u8) {
            Some((left, q)) => {
                let at = skip_spaces(s, q);
                if pos <= at < s.len() && s[at] == operator {
                    match parse_level(s, at + 1, level) {
                        Some((right, end)) => Some(
                            (
                                if level == CONJUNCTION {
                                    Syntax::And(Box::new(left), Box::new(right))
                                } else {
                                    Syntax::Or(Box::new(left), Box::new(right))
                                },
                                end,
                            ),
                        ),
                        None => None,
                    }
                } else {
                    Some((left, q))
                }
            },
            None => None,
        }
    }
}

/// The expression that the whole text holds, if it holds one and nothing
/// else.
pub open spec fn parse_text(s: Seq<u8>) -> Option<Syntax> {
    match parse_level(s, 0, DISJUNCTION) {
        Some((e, q)) => if skip_spaces(s, q) == s.len() {
            Some(e)
        } else {
            None
        },
        None => None,
    }
}

/// Calls `String::from_utf8_lossy` on the bytes from `start` to `end` and
/// `Cow::into_owned` on what it returns. `from_utf8_lossy` keeps valid UTF-8
/// as it is; bytes below 128 are valid UTF-8, each of them the encoding of
/// the character of its number. So the contract claims that the string
/// holds, for each byte, the character of that number.
#[verifier::external_body]
fn name_from_ascii(text: &[u8], start: usize, end: usize) -> (name: String)
    requires
        start <= end <= text@.len(),
        forall|i: int| start <= i < end ==> text@[i] < 128,
    ensures
        name@ == ascii_chars(text@.subrange(start as int, end as int)),
{
    String::from_utf8_lossy(&text[start..end]).into_owned()
}

/// The first place at or after `pos` that holds no space.
pub fn skip_spaces_from(text: &[u8], pos: usize) -> (result: usize)
    requires
        pos <= text@.len(),
    ensures
        result == skip_spaces(text@, pos as int),
        pos <= result <= text@.len(),
{
    let mut at = pos;
    while at < text.len() && (text[at] == 32 || (9 <= text[at] && text[at] <= 13))
        invariant
            pos <= at <= text@.len(),
            skip_spaces(text@, pos as int) == skip_spaces(text@, at as int),
        decreases text@.len() - at,
    {
        at += 1;
    }
    at
}

/// Whether the byte is a letter or an underscore.
pub fn name_starts_with(b: u8) -> (result: bool)
    ensures
        result == is_name_start(b),
{
    (65 <= b && b <= 90) || (97 <= b && b <= 122) || b == 95
}

/// The first place at or after `pos` that holds no part of a name.
pub fn name_end_from(text: &[u8], pos: usize) -> (result: usize)
    requires
        pos <= text@.len(),
    ensures
        result == name_end(text@, pos as int),
        pos <= result <= text@.len(),
        forall|i: int| pos <= i < result ==> is_name_part(text@[i]),
{
    let mut at = pos;
    while at < text.len() && (name_starts_with(text[at]) || (ZERO <= text[at] && text[at] <= 57))
        invariant
            pos <= at <= text@.len(),
            name_end(text@, pos as int) == name_end(text@, at as int),
            forall|i: int| pos <= i < at ==> is_name_part(text@[i]),
        decreases text@.len() - at,
    {
        at += 1;
    }
    at
}

/// Reads the expression of the given level that begins at `pos`.
pub fn parse_at(text: &[u8], pos: usize, level: u8) -> (result: Option<(ParsedExpression, usize)>)
    requires
        pos <= text@.len(),
        level <= DISJUNCTION,
    ensures
        match result {
            Some((e, end)) => parse_level(text@, pos as int, level) == Some((e@, end as int))
                && pos <= end <= text@.len(),
            None => parse_level(text@, pos as int, level) is None,
        },
    decreases text@.len() - pos, level,
{
    let p = skip_spaces_from(text, pos);
    if p >= text.len() {
        return None;
    }
    if level == ATOM {
        let b = text[p];
        if b == ZERO {
            Some((ParsedExpression::Constant(false), p + 1))
        } else if b == ONE {
            Some((ParsedExpression::Constant(true), p + 1))
        } else if name_starts_with(b) {
            let end = name_end_from(text, p);
            let name = name_from_ascii(text, p, end);
            Some((ParsedExpression::Variable(name), end))
        } else if b == OPEN {
            match parse_at(text, p + 1, DISJUNCTION) {
                Some((inner, q)) => {
                    let close = skip_spaces_from(text, q);
                    if close < text.len() && text[close] == CLOSE {
                        Some((inner, close + 1))
                    } else {
                        None
                    }
                },
                None => None,
            }
        } else {
            None
        }
    } else if level == NEGATION {
        if text[p] == MINUS {
            match parse_at(text, p + 1, NEGATION) {
                Some((inner, q)) => Some((ParsedExpression::Not(Box::new(inner)), q)),
                None => None,
            }
        } else {
            parse_at(text, pos, ATOM)
        }
    } else {
        let operator: u8 = if level == CONJUNCTION {
            AMPERSAND
        } else {
            BAR
        };
        match parse_at(text, pos, level - 1) {
            Some((left, q)) => {
                let at = skip_spaces_from(text, q);
                if at < text.len() && text[at] == operator {
                    match parse_at(text, at + 1, level) {
                        Some((right, end)) => {
                            if level == CONJUNCTION {
                                Some((ParsedExpression::And(Box::new(left), Box::new(right)), end))
                            } else {
                                Some((ParsedExpression::Or(Box::new(left), Box::new(right)), end))
                            }
                        },
                        None => None,
                    }
                } else {
                    Some((left, q))
                }
            },
            None => None,
        }
    }
}

/// Reads the expression that the text holds; there is none if the text
/// holds no expression or anything beside it.
pub fn parse_expression(text: &[u8]) -> (result: Option<ParsedExpression>)
    ensures
        match result {
            Some(e) => parse_text(text@) == Some(e@),
            None => parse_text(text@) is None,
        },
{
    match parse_at(text, 0, DISJUNCTION) {
        Some((e, end)) => {
            if skip_spaces_from(text, end) == text.len() {
                Some(e)
            } else {
                None
            }
        },
        None => None,
    }
}

/// The bytes that stand for the characters of a name.
pub open spec fn name_bytes(name: Seq<char>) -> Seq<u8> {
    Seq::new(name.len(), |i: int| name[i] as u8)
}

/// A name of the text form: a letter or an underscore, followed by letters,
/// underscores and digits.
pub open spec fn is_name(name: Seq<char>) -> bool {
    &&& name.len() > 0
    &&& is_name_start(name[0] as u8)
    &&& forall|i: int| 0 <= i < name.len() ==> is_name_char(#[trigger] name[i])
}

/// A character that may stand in a name.
pub open spec fn is_name_char(c: char) -> bool {
    '\0' <= c <= '\u{7f}' && is_name_part(c as u8)
}

impl Syntax {
    /// Every name of the expression is a name of the text form.
    pub open spec fn well_named(self) -> bool
        decreases self,
    {
        match self {
            Syntax::Variable(name) => is_name(name),
            Syntax::Constant(_) => true,
            Syntax::And(l, r) => l.well_named() && r.well_named(),
            Syntax::Or(l, r) => l.well_named() && r.well_named(),
            Syntax::Not(inner) => inner.well_named(),
        }
    }

    /// The text of the expression, with parentheses around every
    /// conjunction and disjunction and without spaces.
    pub open spec fn rendered(self) -> Seq<u8>
        decreases self,
    {
        match self {
            Syntax::Variable(name) => name_bytes(name),
            Syntax::Constant(value) => if value {
                seq![ONE]
            } else {
                seq![ZERO]
            },
            Syntax::And(l, r) => seq![OPEN] + l.rendered() + seq![AMPERSAND] + r.rendered() + seq![CLOSE],
            Syntax::Or(l, r) => seq![OPEN] + l.rendered() + seq![BAR] + r.rendered() + seq![CLOSE],
            Syntax::Not(inner) => seq![MINUS] + inner.rendered(),
        }
    }

    /// The text of an expression is not empty, and it begins with no space.
    pub proof fn lemma_rendered_start(self)
        requires
            self.well_named(),
        ensures
            self.rendered().len() > 0,
            !is_space(self.rendered()[0]),
        decreases self,
    {
        match self {
            Syntax::Variable(name) => {
                assert(is_name_char(name[0]));
                assert(is_name_start(name[0] as u8));
            },
            _ => {},
        }
    }
}

/// A run of parts of a name ends where the first other byte stands.
pub proof fn lemma_name_end(s: Seq<u8>, pos: int, end: int)
    requires
        0 <= pos <= end <= s.len(),
        forall|i: int| pos <= i < end ==> is_name_part(#[trigger] s[i]),
        end == s.len() || !is_name_part(s[end]),
    ensures
        name_end(s, pos) == end,
    decreases end - pos,
{
    if pos < end {
        lemma_name_end(s, pos + 1, end);
    }
}

/// Where an expression of the level of negations is followed by the end of
/// the text, or by a byte that is neither a space nor an operator, the
/// levels of conjunctions and of disjunctions read the same expression.
pub proof fn lemma_parse_lifts(s: Seq<u8>, pos: int, t: Syntax, end: int)
    requires
        parse_level(s, pos, NEGATION) == Some((t, end)),
        0 <= pos <= end <= s.len(),
        end == s.len() || (!is_space(s[end]) && s[end] != AMPERSAND && s[end] != BAR),
    ensures
        parse_level(s, pos, CONJUNCTION) == Some((t, end)),
        parse_level(s, pos, DISJUNCTION) == Some((t, end)),
{
    reveal_with_fuel(parse_level, 3);
}

/// Reading the text of an expression gives the expression back: wherever
/// the text stands, followed by the end or by a byte that is no part of a
/// name, the level of negations reads the expression and ends behind the
/// text.
pub proof fn lemma_parse_rendered_at(s: Seq<u8>, pos: int, t: Syntax)
    requires
        t.well_named(),
        0 <= pos,
        pos + t.rendered().len() <= s.len(),
        s.subrange(pos, pos + t.rendered().len()) == t.rendered(),
        pos + t.rendered().len() == s.len() || !is_name_part(s[pos + t.rendered().len()]),
    ensures
        parse_level(s, pos, NEGATION) == Some((t, pos + t.rendered().len())),
    decreases t,
{
    let text = t.rendered();
    let end = pos + text.len();
    t.lemma_rendered_start();
    assert(s[pos] == text[0]);
    assert(skip_spaces(s, pos) == pos);
    assert forall|i: int| 0 <= i < text.len() implies s[pos + i] == #[trigger] text[i] by {
        assert(s.subrange(pos, end)[i] == s[pos + i]);
    }
    match t {
        Syntax::Variable(name) => {
            assert forall|i: int| pos <= i < end implies is_name_part(#[trigger] s[i]) by {
                assert(s[i] == text[i - pos]);
                assert(is_name_char(name[i - pos]));
            }
            lemma_name_end(s, pos, end);
            assert(ascii_chars(s.subrange(pos, end)) =~= name) by {
                assert forall|i: int| 0 <= i < name.len() implies ascii_chars(
                    s.subrange(pos, end),
                )[i] == name[i] by {
                    assert(is_name_char(name[i]));
                    assert(text[i] == name[i] as u8);
                    assert(s.subrange(pos, end)[i] == text[i]);
                    vstd::utf8::char_u32_cast(name[i], name[i] as u32);
                    assert((name[i] as u32) < 128);
                    assert(name[i] as u8 == (name[i] as u32) as u8);
                    assert(((name[i] as u32) as u8) as u32 == name[i] as u32);
                }
            }
            assert(is_name_start(s[pos]));
            reveal_with_fuel(parse_level, 2);
        },
        Syntax::Constant(value) => {
            reveal_with_fuel(parse_level, 2);
        },
        Syntax::And(l, r) => {
            lemma_parse_pair(s, pos, *l, *r, AMPERSAND);
            lemma_parse_rendered_at(s, pos + 1, *l);
            lemma_parse_rendered_at(s, pos + 1 + l.rendered().len() + 1, *r);
            lemma_parse_parenthesized(s, pos, *l, *r, true);
        },
        Syntax::Or(l, r) => {
            lemma_parse_pair(s, pos, *l, *r, BAR);
            lemma_parse_rendered_at(s, pos + 1, *l);
            lemma_parse_rendered_at(s, pos + 1 + l.rendered().len() + 1, *r);
            lemma_parse_parenthesized(s, pos, *l, *r, false);
        },
        Syntax::Not(inner) => {
            assert(s[pos] == MINUS);
            assert(s.subrange(pos + 1, end) =~= inner.rendered()) by {
                assert forall|i: int| 0 <= i < inner.rendered().len() implies s.subrange(
                    pos + 1,
                    end,
                )[i] == inner.rendered()[i] by {
                    assert(text[i + 1] == inner.rendered()[i]);
                }
            }
            lemma_parse_rendered_at(s, pos + 1, *inner);
            reveal_with_fuel(parse_level, 2);
        },
    }
}

/// The parts of the text of a conjunction or disjunction in parentheses.
pub proof fn lemma_parse_pair(s: Seq<u8>, pos: int, l: Syntax, r: Syntax, operator: u8)
    requires
        0 <= pos,
        pos + l.rendered().len() + r.rendered().len() + 3 <= s.len(),
        s.subrange(pos, pos + l.rendered().len() + r.rendered().len() + 3) == seq![OPEN]
            + l.rendered() + seq![operator] + r.rendered() + seq![CLOSE],
    ensures
        s[pos] == OPEN,
        s.subrange(pos + 1, pos + 1 + l.rendered().len()) == l.rendered(),
        s[pos + 1 + l.rendered().len()] == operator,
        s.subrange(
            pos + 2 + l.rendered().len(),
            pos + 2 + l.rendered().len() + r.rendered().len(),
        ) == r.rendered(),
        s[pos + 2 + l.rendered().len() + r.rendered().len()] == CLOSE,
{
    let a = l.rendered();
    let b = r.rendered();
    let whole = seq![OPEN] + a + seq![operator] + b + seq![CLOSE];
    let end = pos + a.len() + b.len() + 3;
    assert forall|i: int| 0 <= i < whole.len() implies s[pos + i] == #[trigger] whole[i] by {
        assert(s.subrange(pos, end)[i] == s[pos + i]);
    }
    assert(s[pos] == whole[0]);
    assert(s[pos + 1 + a.len()] == whole[1 + a.len() as int]);
    assert(s[pos + 2 + a.len() + b.len()] == whole[2 + a.len() as int + b.len() as int]);
    assert(s.subrange(pos + 1, pos + 1 + a.len()) =~= a) by {
        assert forall|i: int| 0 <= i < a.len() implies s.subrange(pos + 1, pos + 1 + a.len())[i]
            == a[i] by {
            assert(whole[1 + i] == a[i]);
        }
    }
    assert(s.subrange(pos + 2 + a.len(), pos + 2 + a.len() + b.len()) =~= b) by {
        assert forall|i: int| 0 <= i < b.len() implies s.subrange(
            pos + 2 + a.len(),
            pos + 2 + a.len() + b.len(),
        )[i] == b[i] by {
            assert(whole[2 + a.len() + i] == b[i]);
        }
    }
}

/// Two expressions of the level of negations with an operator between them
/// and parentheses around them are read as their conjunction or
/// disjunction.
pub proof fn lemma_parse_parenthesized(s: Seq<u8>, pos: int, l: Syntax, r: Syntax, conjunction: bool)
    requires
        0 <= pos,
        pos + l.rendered().len() + r.rendered().len() + 3 <= s.len(),
        s[pos] == OPEN,
        s[pos + 1 + l.rendered().len()] == (if conjunction {
            AMPERSAND
        } else {
            BAR
        }),
        s[pos + 2 + l.rendered().len() + r.rendered().len()] == CLOSE,
        parse_level(s, pos + 1, NEGATION) == Some((l, pos + 1 + l.rendered().len())),
        parse_level(s, pos + 2 + l.rendered().len(), NEGATION) == Some(
            (r, pos + 2 + l.rendered().len() + r.rendered().len()),
        ),
    ensures
        parse_level(s, pos, NEGATION) == Some(
            (
                if conjunction {
                    Syntax::And(Box::new(l), Box::new(r))
                } else {
                    Syntax::Or(Box::new(l), Box::new(r))
                },
                pos + l.rendered().len() + r.rendered().len() + 3,
            ),
        ),
{
    let left_end = pos + 1 + l.rendered().len();
    let right_start = left_end + 1;
    let right_end = right_start + r.rendered().len();
    let whole = if conjunction {
        Syntax::And(Box::new(l), Box::new(r))
    } else {
        Syntax::Or(Box::new(l), Box::new(r))
    };
    // the right operand, read at every level
    lemma_parse_lifts(s, right_start, r, right_end);
    // what stands before the operator begins with no space
    let after_open = skip_spaces(s, pos + 1);
    assert(pos + 1 <= after_open < s.len()) by {
        reveal_with_fuel(parse_level, 1);
    }
    if conjunction {
        assert(parse_level(s, pos + 1, CONJUNCTION) == Some((whole, right_end))) by {
            reveal_with_fuel(parse_level, 1);
        }
        lemma_parse_lifts_from_conjunction(s, pos + 1, whole, right_end);
    } else {
        assert(parse_level(s, pos + 1, CONJUNCTION) == Some((l, left_end))) by {
            reveal_with_fuel(parse_level, 1);
        }
        assert(parse_level(s, pos + 1, DISJUNCTION) == Some((whole, right_end))) by {
            reveal_with_fuel(parse_level, 1);
        }
    }
    assert(parse_level(s, pos, ATOM) == Some((whole, right_end + 1))) by {
        reveal_with_fuel(parse_level, 1);
    }
    assert(parse_level(s, pos, NEGATION) == Some((whole, right_end + 1))) by {
        reveal_with_fuel(parse_level, 1);
    }
}

/// Where a conjunction is followed by a closing parenthesis, the level of
/// disjunctions reads the same expression.
pub proof fn lemma_parse_lifts_from_conjunction(s: Seq<u8>, pos: int, t: Syntax, end: int)
    requires
        parse_level(s, pos, CONJUNCTION) == Some((t, end)),
        0 <= pos <= end < s.len(),
        s[end] == CLOSE,
    ensures
        parse_level(s, pos, DISJUNCTION) == Some((t, end)),
{
    reveal_with_fuel(parse_level, 1);
}

/// Reading the text of an expression gives the expression back.
pub proof fn lemma_parse_rendered(t: Syntax)
    requires
        t.well_named(),
    ensures
        parse_text(t.rendered()) == Some(t),
{
    let s = t.rendered();
    assert(s.subrange(0, s.len() as int) =~= s);
    lemma_parse_rendered_at(s, 0, t);
    lemma_parse_lifts(s, 0, t, s.len() as int);
}

/// Whether the string is a name of the text form.
pub fn is_name_text(name: &String) -> (result: bool)
    ensures
        result == is_name(name@),
{
    broadcast use vstd::string::group_string_axioms;

    let text = name.as_str();
    if !text.is_ascii() {
        proof {
            if is_name(name@) {
                assert forall|i: int| 0 <= i < name@.len() implies '\0' <= #[trigger] name@[i]
                    <= '\u{7f}' by {
                    assert(is_name_char(name@[i]));
                }
            }
        }
        return false;
    }
    let bytes = text.as_bytes();
    assert(bytes@ =~= name_bytes(name@));
    if bytes.len() == 0 || !name_starts_with(bytes[0]) {
        return false;
    }
    let mut i: usize = 0;
    while i < bytes.len()
        invariant
            i <= bytes@.len(),
            bytes@ == name_bytes(name@),
            vstd::string::is_ascii(text),
            text@ == name@,
            forall|j: int| 0 <= j < i ==> is_name_char(#[trigger] name@[j]),
        decreases bytes@.len() - i,
    {
        let b = bytes[i];
        if !(name_starts_with(b) || (ZERO <= b && b <= 57)) {
            assert(!is_name_char(name@[i as int]));
            return false;
        }
        assert(is_name_char(name@[i as int]));
        i += 1;
    }
    true
}

impl ParsedExpression {
    /// Whether every name of the expression is a name of the text form.
    pub fn is_well_named(&self) -> (result: bool)
        ensures
            result == self@.well_named(),
        decreases self,
    {
        match self {
            ParsedExpression::Variable(name) => is_name_text(name),
            ParsedExpression::Constant(_) => true,
            ParsedExpression::And(lhs, rhs) => lhs.is_well_named() && rhs.is_well_named(),
            ParsedExpression::Or(lhs, rhs) => lhs.is_well_named() && rhs.is_well_named(),
            ParsedExpression::Not(expr) => expr.is_well_named(),
        }
    }

    /// Appends the text of the expression.
    pub fn render_into(&self, text: &mut Vec<u8>)
        requires
            self@.well_named(),
        ensures
            final(text)@ == old(text)@ + self@.rendered(),
        decreases self,
    {
        broadcast use vstd::string::group_string_axioms;

        let ghost before = text@;
        match self {
            ParsedExpression::Variable(name) => {
                let source = name.as_str();
                proof {
                    assert forall|i: int| 0 <= i < name@.len() implies '\0' <= #[trigger] name@[i]
                        <= '\u{7f}' by {
                        assert(is_name_char(name@[i]));
                    }
                    assert(vstd::string::is_ascii(source));
                }
                let bytes = source.as_bytes();
                assert(bytes@ =~= name_bytes(name@));
                let mut i: usize = 0;
                while i < bytes.len()
                    invariant
                        i <= bytes@.len(),
                        text@ == before + bytes@.take(i as int),
                    decreases bytes@.len() - i,
                {
                    text.push(bytes[i]);
                    assert(text@ =~= before + bytes@.take(i + 1));
                    i += 1;
                }
                assert(bytes@.take(bytes@.len() as int) =~= bytes@);
            },
            ParsedExpression::Constant(value) => {
                if *value {
                    text.push(ONE);
                } else {
                    text.push(ZERO);
                }
                assert(text@ =~= before + self@.rendered());
            },
            ParsedExpression::And(lhs, rhs) => {
                text.push(OPEN);
                lhs.render_into(text);
                text.push(AMPERSAND);
                rhs.render_into(text);
                text.push(CLOSE);
                assert(text@ =~= before + self@.rendered());
            },
            ParsedExpression::Or(lhs, rhs) => {
                text.push(OPEN);
                lhs.render_into(text);
                text.push(BAR);
                rhs.render_into(text);
                text.push(CLOSE);
                assert(text@ =~= before + self@.rendered());
            },
            ParsedExpression::Not(expr) => {
                text.push(MINUS);
                expr.render_into(text);
                assert(text@ =~= before + self@.rendered());
            },
        }
    }

    /// The text of the expression, with parentheses around every
    /// conjunction and disjunction; reading it gives the expression back.
    /// There is no text if a name is not a name of the text form.
    pub fn render(&self) -> (result: Option<Vec<u8>>)
        ensures
            match result {
                Some(text) => self@.well_named() && text@ == self@.rendered() && parse_text(text@)
                    == Some(self@),
                None => !self@.well_named(),
            },
    {
        if !self.is_well_named() {
            return None;
        }
        let mut text: Vec<u8> = Vec::new();
        self.render_into(&mut text);
        proof {
            lemma_parse_rendered(self@);
        }
        Some(text)
    }
}

} // verus!
