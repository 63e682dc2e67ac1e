//! What a text of JSON says, read from its start.
use crate::index::FIXED_SCALE;
use crate::lex;
use vstd::prelude::*;

verus! {

/// Why text could not be read.
#[derive(Clone, Copy, PartialEq, Eq, Debug)]
pub enum ParseError {
    /// The text ends where this byte was expected.
    ExpectedAtEnd(u8),
    /// The first byte was expected and the second one was found.
    Unexpected(u8, u8),
    /// The text ends where a fixed-point number was expected.
    NumberAtEnd,
    /// A fixed-point number has more than four decimal places.
    TooManyDecimals,
    /// A fixed-point number has no digit.
    NoDigit,
    /// A fixed-point number does not fit.
    OutOfRange,
    /// A skipped value is no number.
    BadNumber,
    /// The text ends inside a string.
    UnterminatedString,
    /// A reference has no vector.
    MissingVector,
    /// A reference has no label.
    MissingLabel,
    /// The coordinate in this dimension lies outside of its domain.
    OutOfDomain(usize),
}

/// `s` behind the white space and the byte `b`.
pub open spec fn expected(s: Seq<u8>, b: u8) -> Result<Seq<u8>, ParseError> {
    let t = lex::trimmed(s);
    if t.len() == 0 {
        Err(ParseError::ExpectedAtEnd(b))
    } else if t[0] != b {
        Err(ParseError::Unexpected(b, t[0]))
    } else {
        Ok(t.skip(1))
    }
}

/// What one unit of the last of `j` decimal places is worth.
pub open spec fn place_value(j: int) -> int {
    if j == 0 {
        10_000
    } else if j == 1 {
        1_000
    } else if j == 2 {
        100
    } else if j == 3 {
        10
    } else {
        1
    }
}

/// The number at the start of `s`, in units of its fourth decimal place, and what follows it.
pub open spec fn fixed4(s: Seq<u8>) -> Result<(i16, Seq<u8>), ParseError> {
    let t = lex::trimmed(s);
    if t.len() == 0 {
        Err(ParseError::NumberAtEnd)
    } else {
        let signed = t[0] == '-' as u8 || t[0] == '+' as u8;
        let u = if signed {
            t.skip(1)
        } else {
            t
        };
        let i = lex::digits(u);
        let v = u.skip(i);
        let has_point = v.len() > 0 && v[0] == '.' as u8;
        let w = v.skip(1);
        let j = if has_point {
            lex::digits(w)
        } else {
            0
        };
        if j > 4 {
            Err(ParseError::TooManyDecimals)
        } else if i + j == 0 {
            Err(ParseError::NoDigit)
        } else {
            let size = lex::decimal(u.take(i)) * FIXED_SCALE + lex::decimal(w.take(j))
                * place_value(j);
            let fixed = if t[0] == '-' as u8 {
                -size
            } else {
                size
            };
            if i16::MIN <= fixed <= i16::MAX {
                Ok(
                    (
                        fixed as i16,
                        if has_point {
                            w.skip(j)
                        } else {
                            v
                        },
                    ),
                )
            } else {
                Err(ParseError::OutOfRange)
            }
        }
    }
}

/// The bytes between the quotes of the string at the start of `s`, and what follows it. A
/// string has no escapes.
pub open spec fn quoted(s: Seq<u8>) -> Result<(Seq<u8>, Seq<u8>), ParseError> {
    match expected(s, '"' as u8) {
        Err(e) => Err(e),
        Ok(t) => {
            let n = lex::leading(t, |b: u8| b != '"' as u8);
            if n == t.len() {
                Err(ParseError::UnterminatedString)
            } else {
                Ok((t.take(n), t.skip(n + 1)))
            }
        },
    }
}

/// `b` with as much of `s` as it has room for laid over its start.
pub open spec fn laid_over(b: Seq<u8>, s: Seq<u8>) -> Seq<u8> {
    Seq::new(
        b.len(),
        |i: int|
            if i < s.len() {
                s[i]
            } else {
                b[i]
            },
    )
}

/// `s` behind the closing quote of a string with escapes.
pub open spec fn string_end(s: Seq<u8>) -> Result<Seq<u8>, ParseError>
    decreases s.len(),
{
    if s.len() == 0 {
        Err(ParseError::UnterminatedString)
    } else if s[0] == '"' as u8 {
        Ok(s.skip(1))
    } else if s[0] == '\\' as u8 && s.len() > 1 {
        string_end(s.skip(2))
    } else {
        string_end(s.skip(1))
    }
}

/// `s` behind the string, with escapes, at its start.
pub open spec fn after_string(s: Seq<u8>) -> Result<Seq<u8>, ParseError> {
    match expected(s, '"' as u8) {
        Err(e) => Err(e),
        Ok(t) => string_end(t),
    }
}

/// A byte that a number may hold.
pub open spec fn is_number_byte(b: u8) -> bool {
    lex::is_digit(b) || b == '-' as u8 || b == '+' as u8 || b == '.' as u8 || b == 'e' as u8 || b
        == 'E' as u8
}

/// `c` without a sign at its start.
pub open spec fn unsigned(c: Seq<u8>) -> Seq<u8> {
    if c.len() > 0 && (c[0] == '-' as u8 || c[0] == '+' as u8) {
        c.skip(1)
    } else {
        c
    }
}

/// `c` is nothing, or an exponent.
pub open spec fn is_exponent(c: Seq<u8>) -> bool {
    c.len() == 0 || {
        let d = unsigned(c.skip(1));
        &&& c[0] == 'e' as u8 || c[0] == 'E' as u8
        &&& d.len() > 0
        &&& lex::digits(d) == d.len()
    }
}

/// `c` is a number: a sign or none, digits with or without a point among them, an exponent
/// or none.
pub open spec fn is_number(c: Seq<u8>) -> bool {
    let u = unsigned(c);
    let i = lex::digits(u);
    let v = u.skip(i);
    if v.len() > 0 && v[0] == '.' as u8 {
        let w = v.skip(1);
        i + lex::digits(w) > 0 && is_exponent(w.skip(lex::digits(w)))
    } else {
        i > 0 && is_exponent(v)
    }
}

/// The bytes of the number at the start of `s`.
pub open spec fn number_run(s: Seq<u8>) -> int {
    lex::leading(s, |b: u8| is_number_byte(b))
}

/// `s` behind the number at its start.
pub open spec fn after_number(s: Seq<u8>) -> Result<Seq<u8>, ParseError> {
    let t = lex::trimmed(s);
    let n = number_run(t);
    if is_number(t.take(n)) {
        Ok(t.skip(n))
    } else {
        Err(ParseError::BadNumber)
    }
}

/// `s` without its first `n` bytes, or without all of them where it has fewer.
pub open spec fn without(s: Seq<u8>, n: int) -> Seq<u8> {
    if s.len() < n {
        Seq::empty()
    } else {
        s.skip(n)
    }
}

/// `s` behind the value at its start. At the end of the text there is nothing to skip.
pub open spec fn after_value(s: Seq<u8>) -> Result<Seq<u8>, ParseError>
    decreases s.len(), 0int,
{
    proof {
        lex::lemma_leading(s, |b: u8| lex::is_space(b));
    }
    let t = lex::trimmed(s);
    if t.len() == 0 {
        Ok(t)
    } else if t[0] == '"' as u8 {
        after_string(t)
    } else if t[0] == '[' as u8 {
        let u = lex::trimmed(t.skip(1));
        proof {
            lex::lemma_leading(t.skip(1), |b: u8| lex::is_space(b));
        }
        if u.len() > 0 && u[0] == ']' as u8 {
            Ok(u.skip(1))
        } else {
            after_items(u)
        }
    } else if t[0] == '{' as u8 {
        let u = lex::trimmed(t.skip(1));
        proof {
            lex::lemma_leading(t.skip(1), |b: u8| lex::is_space(b));
        }
        if u.len() > 0 && u[0] == '}' as u8 {
            Ok(u.skip(1))
        } else {
            after_members(u)
        }
    } else if t[0] == 't' as u8 || t[0] == 'n' as u8 {
        Ok(without(t, 4))
    } else if t[0] == 'f' as u8 {
        Ok(without(t, 5))
    } else {
        after_number(t)
    }
}

/// `s` behind the items of an array and its closing bracket, or at the end of the text. What
/// follows a comma is always shorter, so the last branch is never taken.
pub open spec fn after_items(s: Seq<u8>) -> Result<Seq<u8>, ParseError>
    decreases s.len(), 1int,
{
    match after_value(s) {
        Err(e) => Err(e),
        Ok(t) => {
            let u = lex::trimmed(t);
            if u.len() == 0 {
                Ok(u)
            } else if u[0] == ']' as u8 {
                Ok(u.skip(1))
            } else {
                match expected(u, ',' as u8) {
                    Err(e) => Err(e),
                    Ok(v) => if v.len() < s.len() {
                        after_items(v)
                    } else {
                        Ok(v)
                    },
                }
            }
        },
    }
}

/// `s` behind the members of an object and its closing brace, or at the end of the text. What
/// follows a colon or a comma is always shorter, so the branches for other lengths are never
/// taken.
pub open spec fn after_members(s: Seq<u8>) -> Result<Seq<u8>, ParseError>
    decreases s.len(), 1int,
{
    match after_string(s) {
        Err(e) => Err(e),
        Ok(k) => match expected(k, ':' as u8) {
            Err(e) => Err(e),
            Ok(p) => if p.len() >= s.len() {
                Ok(p)
            } else {
                match after_value(p) {
                    Err(e) => Err(e),
                    Ok(t) => {
                        let u = lex::trimmed(t);
                        if u.len() == 0 {
                            Ok(u)
                        } else if u[0] == '}' as u8 {
                            Ok(u.skip(1))
                        } else {
                            match expected(u, ',' as u8) {
                                Err(e) => Err(e),
                                Ok(v) => if v.len() < s.len() {
                                    after_members(v)
                                } else {
                                    Ok(v)
                                },
                            }
                        }
                    },
                }
            },
        },
    }
}

pub proof fn lemma_trimmed(s: Seq<u8>)
    ensures
        lex::trimmed(s).len() <= s.len(),
        lex::trimmed(s).len() > 0 ==> !lex::is_space(lex::trimmed(s)[0]),
        lex::trimmed(lex::trimmed(s)) == lex::trimmed(s),
{
    let class = |b: u8| lex::is_space(b);
    lex::lemma_leading(s, class);
    let t = lex::trimmed(s);
    lex::lemma_leading_is(t, class, 0);
    assert(t.skip(0) =~= t);
}

pub proof fn lemma_expected_shrinks(s: Seq<u8>, b: u8)
    ensures
        expected(s, b) matches Ok(t) ==> t.len() < s.len(),
{
    lemma_trimmed(s);
}

pub proof fn lemma_string_end_shrinks(s: Seq<u8>)
    ensures
        string_end(s) matches Ok(t) ==> t.len() < s.len(),
    decreases s.len(),
{
    if s.len() > 0 {
        lemma_string_end_shrinks(s.skip(1));
        if s.len() > 1 {
            lemma_string_end_shrinks(s.skip(2));
        }
    }
}

pub proof fn lemma_after_string_shrinks(s: Seq<u8>)
    ensures
        after_string(s) matches Ok(t) ==> t.len() < s.len(),
{
    lemma_expected_shrinks(s, '"' as u8);
    match expected(s, '"' as u8) {
        Ok(t) => lemma_string_end_shrinks(t),
        Err(e) => {},
    }
}

/// Skipping a value never goes back.
pub proof fn lemma_after_value_shrinks(s: Seq<u8>)
    ensures
        after_value(s) matches Ok(t) ==> t.len() <= s.len(),
    decreases s.len(), 0int,
{
    lemma_trimmed(s);
    let t = lex::trimmed(s);
    if t.len() > 0 {
        lemma_after_string_shrinks(t);
        lemma_trimmed(t);
        lemma_trimmed(t.skip(1));
        let u = lex::trimmed(t.skip(1));
        lemma_after_items_shrinks(u);
        lemma_after_members_shrinks(u);
        lex::lemma_leading(t, |b: u8| is_number_byte(b));
    }
}

pub proof fn lemma_after_items_shrinks(s: Seq<u8>)
    ensures
        after_items(s) matches Ok(t) ==> t.len() <= s.len(),
        after_value(s) matches Ok(t) ==> t.len() <= s.len(),
    decreases s.len(), 1int,
{
    lemma_after_value_shrinks(s);
    match after_value(s) {
        Ok(t) => {
            lemma_trimmed(t);
            let u = lex::trimmed(t);
            lemma_expected_shrinks(u, ',' as u8);
            match expected(u, ',' as u8) {
                Ok(v) => lemma_after_items_shrinks(v),
                Err(e) => {},
            }
        },
        Err(e) => {},
    }
}

pub proof fn lemma_after_members_shrinks(s: Seq<u8>)
    ensures
        after_members(s) matches Ok(t) ==> t.len() <= s.len(),
    decreases s.len(), 1int,
{
    lemma_after_string_shrinks(s);
    match after_string(s) {
        Ok(k) => {
            lemma_expected_shrinks(k, ':' as u8);
            match expected(k, ':' as u8) {
                Ok(p) => {
                    lemma_after_value_shrinks(p);
                    match after_value(p) {
                        Ok(t) => {
                            lemma_trimmed(t);
                            let u = lex::trimmed(t);
                            lemma_expected_shrinks(u, ',' as u8);
                            match expected(u, ',' as u8) {
                                Ok(v) => lemma_after_members_shrinks(v),
                                Err(e) => {},
                            }
                        },
                        Err(e) => {},
                    }
                },
                Err(e) => {},
            }
        },
        Err(e) => {},
    }
}

} // verus!
