//! What digits, white space and words are, byte by byte: the terms in which it is stated what
//! reading a text gives.
use crate::lex;
use vstd::prelude::*;

verus! {

/// Space, tab, line feed or carriage return.
pub open spec fn is_blank(b: u8) -> bool {
    b == 0x20 || b == 0x09 || b == 0x0a || b == 0x0d
}

pub open spec fn are_blank(s: Seq<u8>) -> bool {
    forall|i: int| 0 <= i < s.len() ==> is_blank(#[trigger] s[i])
}

/// `0` to `9`.
pub open spec fn is_figure(b: u8) -> bool {
    0x30 <= b <= 0x39
}

pub open spec fn are_figures(s: Seq<u8>) -> bool {
    forall|i: int| 0 <= i < s.len() ==> is_figure(#[trigger] s[i])
}

/// `s` begins with a byte for which `p` holds.
pub open spec fn begins(s: Seq<u8>, p: spec_fn(u8) -> bool) -> bool {
    s.len() > 0 && p(s[0])
}

pub open spec fn ten_to(n: nat) -> int
    decreases n,
{
    if n == 0 {
        1
    } else {
        10 * ten_to((n - 1) as nat)
    }
}

/// What figures are worth: each one as many times the power of ten as figures follow it.
pub open spec fn worth(s: Seq<u8>) -> int
    decreases s.len(),
{
    if s.len() == 0 {
        0
    } else {
        (s[0] - 0x30) * ten_to((s.len() - 1) as nat) + worth(s.skip(1))
    }
}

/// `n`, written in figures.
pub open spec fn numeral(n: nat) -> Seq<u8>
    decreases n,
{
    if n < 10 {
        seq![(0x30 + n) as u8]
    } else {
        numeral(n / 10).push((0x30 + n % 10) as u8)
    }
}

pub proof fn lemma_ten_to_positive(n: nat)
    ensures
        ten_to(n) >= 1,
    decreases n,
{
    if n > 0 {
        lemma_ten_to_positive((n - 1) as nat);
    }
}

pub proof fn lemma_worth_push(s: Seq<u8>, b: u8)
    ensures
        worth(s.push(b)) == 10 * worth(s) + (b - 0x30),
    decreases s.len(),
{
    let t = s.push(b);
    assert(worth(t) == (t[0] - 0x30) * ten_to(s.len()) + worth(t.skip(1)));
    if s.len() == 0 {
        assert(t.skip(1) =~= Seq::<u8>::empty());
        assert(worth(t.skip(1)) == 0);
        assert(ten_to(0) == 1);
        assert(t[0] == b);
        assert(worth(s) == 0);
    } else {
        assert(t.skip(1) =~= s.skip(1).push(b));
        lemma_worth_push(s.skip(1), b);
        let k = ten_to((s.len() - 1) as nat);
        assert(ten_to(s.len()) == 10 * k);
        assert(t[0] == s[0]);
        let x = s[0] - 0x30;
        assert(x * (10 * k) == 10 * (x * k)) by (nonlinear_arith);
    }
}

/// Figures that are read one by one come to what they are worth.
pub proof fn lemma_decimal_is_worth(s: Seq<u8>)
    ensures
        lex::decimal(s) == worth(s),
    decreases s.len(),
{
    if s.len() > 0 {
        lemma_decimal_is_worth(s.drop_last());
        lemma_worth_push(s.drop_last(), s.last());
        assert(s.drop_last().push(s.last()) =~= s);
    }
}

pub proof fn lemma_worth_concat(s: Seq<u8>, t: Seq<u8>)
    ensures
        worth(s + t) == worth(s) * ten_to(t.len()) + worth(t),
    decreases t.len(),
{
    if t.len() == 0 {
        assert(s + t =~= s);
        assert(ten_to(0) == 1);
    } else {
        let u = t.drop_last();
        lemma_worth_concat(s, u);
        lemma_worth_push(s + u, t.last());
        lemma_worth_push(u, t.last());
        assert((s + u).push(t.last()) =~= s + t);
        assert(u.push(t.last()) =~= t);
        let k = ten_to(u.len());
        assert(ten_to(t.len()) == 10 * k);
        let w = worth(s);
        assert(10 * (w * k) == w * (10 * k)) by (nonlinear_arith);
    }
}

pub proof fn lemma_worth_bounds(s: Seq<u8>)
    requires
        are_figures(s),
    ensures
        0 <= worth(s) < ten_to(s.len()),
    decreases s.len(),
{
    if s.len() > 0 {
        let u = s.drop_last();
        assert forall|i: int| 0 <= i < u.len() implies is_figure(#[trigger] u[i]) by {
            assert(u[i] == s[i]);
        }
        lemma_worth_bounds(u);
        lemma_worth_push(u, s.last());
        assert(u.push(s.last()) =~= s);
        assert(is_figure(s[s.len() - 1]));
        assert(ten_to(s.len()) == 10 * ten_to(u.len()));
    }
}

/// A numeral is made of figures and is worth its number.
pub proof fn lemma_numeral(n: nat)
    ensures
        are_figures(numeral(n)),
        numeral(n).len() > 0,
        worth(numeral(n)) == n,
    decreases n,
{
    if n < 10 {
        let s = numeral(n);
        assert(s.skip(1) =~= Seq::<u8>::empty());
        assert(ten_to(0) == 1);
        assert(worth(s.skip(1)) == 0);
    } else {
        lemma_numeral(n / 10);
        lemma_worth_push(numeral(n / 10), (0x30 + n % 10) as u8);
    }
}

/// A run of figures ends where another byte stands.
pub proof fn lemma_figures_end(s: Seq<u8>, rest: Seq<u8>)
    requires
        are_figures(s),
        !begins(rest, |b: u8| is_figure(b)),
    ensures
        lex::digits(s + rest) == s.len(),
        (s + rest).take(s.len() as int) == s,
        (s + rest).skip(s.len() as int) == rest,
{
    let t = s + rest;
    assert forall|i: int| 0 <= i < s.len() implies lex::is_digit(#[trigger] t[i]) by {
        assert(t[i] == s[i]);
        assert(is_figure(s[i]));
    }
    if rest.len() > 0 {
        assert(t[s.len() as int] == rest[0]);
    }
    lex::lemma_leading_is(t, |b: u8| lex::is_digit(b), s.len() as int);
    assert(t.take(s.len() as int) =~= s);
    assert(t.skip(s.len() as int) =~= rest);
}

/// White space ends where another byte stands.
pub proof fn lemma_blanks_end(w: Seq<u8>, rest: Seq<u8>)
    requires
        are_blank(w),
        !begins(rest, |b: u8| is_blank(b)),
    ensures
        lex::trimmed(w + rest) == rest,
        lex::leading(w + rest, |b: u8| lex::is_space(b)) == w.len(),
{
    let t = w + rest;
    assert forall|i: int| 0 <= i < w.len() implies lex::is_space(#[trigger] t[i]) by {
        assert(t[i] == w[i]);
        assert(is_blank(w[i]));
    }
    if rest.len() > 0 {
        assert(t[w.len() as int] == rest[0]);
    }
    lex::lemma_leading_is(t, |b: u8| lex::is_space(b), w.len() as int);
    assert(t.skip(w.len() as int) =~= rest);
}

/// More white space before a text makes no difference once it is trimmed.
pub proof fn lemma_blanks_before(w: Seq<u8>, x: Seq<u8>)
    requires
        are_blank(w),
    ensures
        lex::trimmed(w + x) == lex::trimmed(x),
{
    let class = |b: u8| lex::is_space(b);
    let n = lex::leading(x, class);
    lex::lemma_leading(x, class);
    let a = x.take(n);
    let y = x.skip(n);
    let v = w + a;
    assert forall|i: int| 0 <= i < v.len() implies is_blank(#[trigger] v[i]) by {
        if i < w.len() {
            assert(v[i] == w[i]);
        } else {
            assert(v[i] == x[i - w.len()]);
            assert(lex::is_space(x[i - w.len()]));
        }
    }
    if y.len() > 0 {
        assert(y[0] == x[n]);
    }
    assert(w + x =~= v + y);
    lemma_blanks_end(v, y);
}

} // verus!
