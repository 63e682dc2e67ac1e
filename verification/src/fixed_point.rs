//! What a fixed-point number is worth.
use crate::grammar;
use crate::grammar::ParseError;
use crate::lex;
use crate::stream::{ByteSource, StreamParser};
use crate::text;
use vstd::prelude::*;

verus! {

/// A number as it is written: a sign or none, figures, and behind a point more of them.
pub struct Written {
    pub sign: Seq<u8>,
    pub whole: Seq<u8>,
    pub point: bool,
    pub fraction: Seq<u8>,
}

impl Written {
    pub open spec fn wf(self) -> bool {
        &&& self.sign.len() == 0 || self.sign == seq![0x2du8] || self.sign == seq![0x2bu8]
        &&& text::are_figures(self.whole)
        &&& text::are_figures(self.fraction)
        &&& !self.point ==> self.fraction.len() == 0
        &&& self.sign.len() > 0 || self.whole.len() > 0 || self.point
    }

    pub open spec fn text(self) -> Seq<u8> {
        self.sign + self.whole + (if self.point {
            seq![0x2eu8] + self.fraction
        } else {
            Seq::empty()
        })
    }

    /// `rest` does not lengthen the number that it follows.
    pub open spec fn ends_before(self, rest: Seq<u8>) -> bool {
        &&& !text::begins(rest, |b: u8| text::is_figure(b))
        &&& !self.point ==> !text::begins(rest, |b: u8| b == 0x2e)
    }

    /// The number, in units of its last decimal place.
    pub open spec fn units(self) -> int {
        if self.sign == seq![0x2du8] {
            -text::worth(self.whole + self.fraction)
        } else {
            text::worth(self.whole + self.fraction)
        }
    }

    /// `v` ten thousandths are this number.
    pub open spec fn is(self, v: int) -> bool {
        v * text::ten_to(self.fraction.len()) == self.units() * 10_000
    }

    /// There are digits, no more than four decimal places, and it fits.
    pub open spec fn fits(self) -> bool {
        &&& self.whole.len() + self.fraction.len() > 0
        &&& self.fraction.len() <= 4
        &&& exists|v: i16| #[trigger] self.is(v as int)
    }
}

proof fn lemma_places(j: nat)
    requires
        j <= 4,
    ensures
        grammar::place_value(j as int) * text::ten_to(j) == 10_000,
        text::ten_to(j) >= 1,
{
    reveal_with_fuel(text::ten_to, 6);
    assert(text::ten_to(0) == 1);
    assert(text::ten_to(1) == 10);
    assert(text::ten_to(2) == 100);
    assert(text::ten_to(3) == 1_000);
    assert(text::ten_to(4) == 10_000);
}

/// What the digits before and behind the point come to.
proof fn lemma_size(n: Written)
    requires
        n.fraction.len() <= 4,
    ensures
        size(n) * text::ten_to(n.fraction.len()) == text::worth(n.whole + n.fraction) * 10_000,
{
    let j = n.fraction.len();
    let p = grammar::place_value(j as int);
    let k = text::ten_to(j);
    let a = text::worth(n.whole);
    let b = text::worth(n.fraction);
    lemma_places(j);
    text::lemma_decimal_is_worth(n.whole);
    text::lemma_decimal_is_worth(n.fraction);
    text::lemma_worth_concat(n.whole, n.fraction);
    assert((a * 10_000 + b * p) * k == a * 10_000 * k + b * (p * k)) by (nonlinear_arith);
    assert(a * 10_000 * k == (a * k) * 10_000) by (nonlinear_arith);
}

pub proof fn lemma_only_one(n: Written, v: int, w: int)
    requires
        n.is(v),
        n.is(w),
    ensures
        v == w,
{
    let k = text::ten_to(n.fraction.len());
    text::lemma_ten_to_positive(n.fraction.len());
    assert(v == w) by (nonlinear_arith)
        requires
            v * k == w * k,
            k >= 1,
    ;
}

/// The digits before and behind the point, as one number of ten thousandths.
spec fn size(n: Written) -> int {
    lex::decimal(n.whole) * 10_000 + lex::decimal(n.fraction) * grammar::place_value(
        n.fraction.len() as int,
    )
}

/// Where the parts of a number stand.
proof fn lemma_parts(white: Seq<u8>, n: Written, rest: Seq<u8>)
    requires
        text::are_blank(white),
        n.wf(),
        n.ends_before(rest),
    ensures
        ({
            let t = lex::trimmed(white + n.text() + rest);
            let signed = t[0] == 0x2d || t[0] == 0x2b;
            let u = if signed {
                t.skip(1)
            } else {
                t
            };
            let v = u.skip(n.whole.len() as int);
            &&& t.len() > 0
            &&& n.sign == if signed {
                seq![t[0]]
            } else {
                Seq::empty()
            }
            &&& lex::digits(u) == n.whole.len()
            &&& u.take(n.whole.len() as int) == n.whole
            &&& n.point == (v.len() > 0 && v[0] == 0x2e)
            &&& n.point ==> {
                &&& lex::digits(v.skip(1)) == n.fraction.len()
                &&& v.skip(1).take(n.fraction.len() as int) == n.fraction
                &&& v.skip(1).skip(n.fraction.len() as int) == rest
            }
            &&& !n.point ==> v == rest
        }),
{
    let s = white + n.text() + rest;
    let tail = (if n.point {
        seq![0x2eu8] + n.fraction
    } else {
        Seq::empty()
    }) + rest;
    let u = n.whole + tail;
    let t = n.sign + u;
    assert(s =~= white + t);
    if n.whole.len() > 0 {
        assert(text::is_figure(n.whole[0]));
        assert(u[0] == n.whole[0]);
    }
    if n.sign.len() > 0 {
        assert(t[0] == n.sign[0]);
        assert(t.skip(1) =~= u);
        assert(n.sign =~= seq![t[0]]);
    } else {
        assert(t =~= u);
        assert(n.sign =~= Seq::<u8>::empty());
    }
    text::lemma_blanks_end(white, t);
    text::lemma_figures_end(n.whole, tail);
    if n.point {
        assert(tail.skip(1) =~= n.fraction + rest);
        text::lemma_figures_end(n.fraction, rest);
    } else {
        assert(tail =~= rest);
    }
}

proof fn lemma_fixed4_of_parts(white: Seq<u8>, n: Written, rest: Seq<u8>)
    requires
        text::are_blank(white),
        n.wf(),
        n.ends_before(rest),
    ensures
        ({
            let fixed = if n.sign == seq![0x2du8] {
                -size(n)
            } else {
                size(n)
            };
            grammar::fixed4(white + n.text() + rest) == if n.fraction.len() > 4 {
                Err::<(i16, Seq<u8>), ParseError>(ParseError::TooManyDecimals)
            } else if n.whole.len() + n.fraction.len() == 0 {
                Err(ParseError::NoDigit)
            } else if i16::MIN <= fixed <= i16::MAX {
                Ok((fixed as i16, rest))
            } else {
                Err(ParseError::OutOfRange)
            }
        }),
{
    lemma_parts(white, n, rest);
    let t = lex::trimmed(white + n.text() + rest);
    if n.sign.len() > 0 {
        assert(n.sign[0] == t[0]);
        assert(seq![0x2du8][0] == 0x2d);
    }
    let u = if n.sign.len() > 0 {
        t.skip(1)
    } else {
        t
    };
    let v = u.skip(n.whole.len() as int);
    if !n.point {
        assert(n.fraction =~= Seq::<u8>::empty());
        assert(v.skip(1).take(0) =~= n.fraction);
    }
}

pub proof fn lemma_fixed4(white: Seq<u8>, n: Written, rest: Seq<u8>)
    requires
        text::are_blank(white),
        n.wf(),
        n.ends_before(rest),
    ensures
        match grammar::fixed4(white + n.text() + rest) {
            Ok((v, t)) => n.fits() && n.is(v as int) && t == rest,
            Err(e) => {
                &&& !n.fits()
                &&& e == if n.fraction.len() > 4 {
                    ParseError::TooManyDecimals
                } else if n.whole.len() + n.fraction.len() == 0 {
                    ParseError::NoDigit
                } else {
                    ParseError::OutOfRange
                }
            },
        },
{
    lemma_fixed4_of_parts(white, n, rest);
    if n.fraction.len() <= 4 {
        lemma_size(n);
        let z = size(n);
        let k = text::ten_to(n.fraction.len());
        let fixed = if n.sign == seq![0x2du8] {
            -z
        } else {
            z
        };
        assert((-z) * k == -(z * k)) by (nonlinear_arith);
        assert(n.is(fixed));
        if i16::MIN <= fixed <= i16::MAX {
            assert(n.is((fixed as i16) as int));
        } else if exists|v: i16| #[trigger] n.is(v as int) {
            let v = choose|v: i16| #[trigger] n.is(v as int);
            lemma_only_one(n, v as int, fixed);
        }
    }
}

/// A number is read as what it is worth in ten thousandths, however many decimal places it is
/// written with, up to four, and what follows it stays. One with more places, one without
/// digits and one that does not fit are refused, each for its own reason.
pub proof fn law_fixed_point_number_is_worth_its_digits<S: ByteSource>(
    p: &mut StreamParser<S>,
    r: Result<i16, ParseError>,
    white: Seq<u8>,
    n: Written,
    rest: Seq<u8>,
)
    requires
        call_ensures(StreamParser::<S>::parse_fixed4_i16, (p,), r),
        old(p).rest() == white + n.text() + rest,
        text::are_blank(white),
        n.wf(),
        n.ends_before(rest),
    ensures
        match r {
            Ok(v) => n.fits() && n.is(v as int) && final(p).rest() == rest,
            Err(e) => {
                &&& !n.fits()
                &&& e == if n.fraction.len() > 4 {
                    ParseError::TooManyDecimals
                } else if n.whole.len() + n.fraction.len() == 0 {
                    ParseError::NoDigit
                } else {
                    ParseError::OutOfRange
                }
            },
        },
{
    lemma_fixed4(white, n, rest);
}

/// A zero behind the last of fewer than four decimal places does not change the number.
pub proof fn law_trailing_zero_changes_nothing<S: ByteSource>(
    p: &mut StreamParser<S>,
    q: &mut StreamParser<S>,
    r: Result<i16, ParseError>,
    s: Result<i16, ParseError>,
    white: Seq<u8>,
    n: Written,
    rest: Seq<u8>,
)
    requires
        call_ensures(StreamParser::<S>::parse_fixed4_i16, (p,), r),
        call_ensures(StreamParser::<S>::parse_fixed4_i16, (q,), s),
        text::are_blank(white),
        n.wf(),
        n.point,
        n.whole.len() > 0,
        n.fraction.len() < 4,
        n.ends_before(rest),
        old(p).rest() == white + n.text() + rest,
        old(q).rest() == white + n.text() + seq![0x30u8] + rest,
    ensures
        r == s,
{
    let m = Written { fraction: n.fraction.push(0x30), ..n };
    lemma_fixed4(white, n, rest);
    assert(white + n.text() + seq![0x30u8] + rest =~= white + m.text() + rest);
    lemma_fixed4(white, m, rest);
    text::lemma_worth_push(n.whole + n.fraction, 0x30);
    assert((n.whole + n.fraction).push(0x30) =~= m.whole + m.fraction);
    assert(m.units() == 10 * n.units());
    let k = text::ten_to(n.fraction.len());
    assert(text::ten_to(m.fraction.len()) == 10 * k);
    assert forall|v: int| #[trigger] m.is(v) == n.is(v) by {
        assert(v * (10 * k) == 10 * (v * k)) by (nonlinear_arith);
    }
    if n.fits() {
        let v = choose|v: i16| #[trigger] n.is(v as int);
        assert(m.is(v as int));
    }
    if m.fits() {
        let v = choose|v: i16| #[trigger] m.is(v as int);
        assert(n.is(v as int));
    }
    if r is Ok && s is Ok {
        assert(m.is(s->Ok_0 as int));
        lemma_only_one(n, r->Ok_0 as int, s->Ok_0 as int);
    }
}

} // verus!
