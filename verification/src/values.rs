//! The values of JSON as they are written, and that reading skips them whole.
use crate::fixed_point::Written;
use crate::grammar;
use crate::lex;
use crate::stream::{is_number_text, ByteSource, StreamParser};
use crate::text;
use vstd::prelude::*;

verus! {

/// A value of JSON, as it is written.
pub enum Value {
    /// `true`, `false` or `null`.
    Word(Seq<u8>),
    Number(Numeral),
    /// A string: what stands between its quotes.
    Text(Seq<u8>),
    /// An array without items: the white space between its brackets.
    EmptyArray(Seq<u8>),
    Array(Items),
    /// An object without members: the white space between its braces.
    EmptyObject(Seq<u8>),
    Object(Members),
}

/// A number with an exponent or without one.
pub struct Numeral {
    pub mantissa: Written,
    pub exponent: Option<Exponent>,
}

/// The letter `e` of either case, a sign or none, and figures.
pub struct Exponent {
    pub letter: u8,
    pub sign: Seq<u8>,
    pub figures: Seq<u8>,
}

/// The items of an array: values between white space.
pub enum Items {
    Last(Seq<u8>, Box<Value>, Seq<u8>),
    More(Seq<u8>, Box<Value>, Seq<u8>, Box<Items>),
}

/// The key of a member, with the white space before it, behind it, and behind the colon.
pub struct Key {
    pub before: Seq<u8>,
    pub name: Seq<u8>,
    pub after: Seq<u8>,
    pub indent: Seq<u8>,
}

/// The members of an object: keys, their values and white space.
pub enum Members {
    Last(Key, Box<Value>, Seq<u8>),
    More(Key, Box<Value>, Seq<u8>, Box<Members>),
}

pub open spec fn is_white(s: Seq<u8>) -> bool {
    text::are_blank(s)
}

/// `s` may stand between quotes: each quote in it is escaped, and no escape is cut off.
pub open spec fn is_body(s: Seq<u8>) -> bool
    decreases s.len(),
{
    if s.len() == 0 {
        true
    } else if s[0] == '"' as u8 {
        false
    } else if s[0] == '\\' as u8 {
        s.len() > 1 && is_body(s.skip(2))
    } else {
        is_body(s.skip(1))
    }
}

pub open spec fn is_word(w: Seq<u8>) -> bool {
    ||| w == seq!['t' as u8, 'r' as u8, 'u' as u8, 'e' as u8]
    ||| w == seq!['n' as u8, 'u' as u8, 'l' as u8, 'l' as u8]
    ||| w == seq!['f' as u8, 'a' as u8, 'l' as u8, 's' as u8, 'e' as u8]
}

impl Exponent {
    pub open spec fn wf(self) -> bool {
        &&& self.letter == 0x65 || self.letter == 0x45
        &&& self.sign.len() == 0 || self.sign == seq![0x2du8] || self.sign == seq![0x2bu8]
        &&& self.figures.len() > 0
        &&& text::are_figures(self.figures)
    }

    pub open spec fn text(self) -> Seq<u8> {
        seq![self.letter] + self.sign + self.figures
    }
}

impl Numeral {
    pub open spec fn wf(self) -> bool {
        &&& self.mantissa.wf()
        &&& self.mantissa.whole.len() + self.mantissa.fraction.len() > 0
        &&& self.exponent matches Some(e) ==> e.wf()
    }

    pub open spec fn text(self) -> Seq<u8> {
        self.mantissa.text() + (match self.exponent {
            Some(e) => e.text(),
            None => Seq::empty(),
        })
    }
}

/// A byte that could lengthen a number: a figure, a sign, a point or the letter `e`.
pub open spec fn lengthens(b: u8) -> bool {
    text::is_figure(b) || b == 0x2d || b == 0x2b || b == 0x2e || b == 0x65 || b == 0x45
}

impl Key {
    pub open spec fn wf(self) -> bool {
        &&& is_white(self.before)
        &&& is_body(self.name)
        &&& is_white(self.after)
        &&& is_white(self.indent)
    }

    pub open spec fn text(self) -> Seq<u8> {
        self.before + seq!['"' as u8] + self.name + seq!['"' as u8] + self.after + seq![
            ':' as u8,
        ] + self.indent
    }
}

impl Value {
    pub open spec fn wf(self) -> bool
        decreases self,
    {
        match self {
            Value::Word(w) => is_word(w),
            Value::Number(n) => n.wf(),
            Value::Text(b) => is_body(b),
            Value::EmptyArray(w) => is_white(w),
            Value::Array(items) => items.wf(),
            Value::EmptyObject(w) => is_white(w),
            Value::Object(members) => members.wf(),
        }
    }

    pub open spec fn text(self) -> Seq<u8>
        decreases self,
    {
        match self {
            Value::Word(w) => w,
            Value::Number(n) => n.text(),
            Value::Text(b) => seq!['"' as u8] + b + seq!['"' as u8],
            Value::EmptyArray(w) => seq!['[' as u8] + w + seq![']' as u8],
            Value::Array(items) => seq!['[' as u8] + items.text() + seq![']' as u8],
            Value::EmptyObject(w) => seq!['{' as u8] + w + seq!['}' as u8],
            Value::Object(members) => seq!['{' as u8] + members.text() + seq!['}' as u8],
        }
    }

    /// `rest` does not lengthen the value that it follows.
    pub open spec fn ends_before(self, rest: Seq<u8>) -> bool {
        self is Number ==> !text::begins(rest, |b: u8| lengthens(b))
    }
}

impl Items {
    pub open spec fn wf(self) -> bool
        decreases self,
    {
        match self {
            Items::Last(a, v, b) => is_white(a) && v.wf() && is_white(b),
            Items::More(a, v, b, more) => is_white(a) && v.wf() && is_white(b) && more.wf(),
        }
    }

    pub open spec fn text(self) -> Seq<u8>
        decreases self,
    {
        match self {
            Items::Last(a, v, b) => a + v.text() + b,
            Items::More(a, v, b, more) => a + v.text() + b + seq![',' as u8] + more.text(),
        }
    }
}

impl Members {
    pub open spec fn wf(self) -> bool
        decreases self,
    {
        match self {
            Members::Last(k, v, b) => k.wf() && v.wf() && is_white(b),
            Members::More(k, v, b, more) => k.wf() && v.wf() && is_white(b) && more.wf(),
        }
    }

    pub open spec fn text(self) -> Seq<u8>
        decreases self,
    {
        match self {
            Members::Last(k, v, b) => k.text() + v.text() + b,
            Members::More(k, v, b, more) => k.text() + v.text() + b + seq![',' as u8]
                + more.text(),
        }
    }
}

/// White space is what is trimmed.
proof fn lemma_trimmed_is(w: Seq<u8>, x: Seq<u8>)
    requires
        is_white(w),
        x.len() == 0 || !lex::is_space(x[0]),
    ensures
        lex::trimmed(w + x) == x,
{
    text::lemma_blanks_end(w, x);
}

/// A string ends at its closing quote.
pub proof fn lemma_body(b: Seq<u8>, rest: Seq<u8>)
    requires
        is_body(b),
    ensures
        grammar::string_end(b + seq!['"' as u8] + rest) == Ok::<Seq<u8>, grammar::ParseError>(rest),
    decreases b.len(),
{
    let s = b + seq!['"' as u8] + rest;
    if b.len() == 0 {
        assert(s.skip(1) =~= rest);
    } else if b[0] == '\\' as u8 {
        lemma_body(b.skip(2), rest);
        assert(s.skip(2) =~= b.skip(2) + seq!['"' as u8] + rest);
    } else {
        lemma_body(b.skip(1), rest);
        assert(s.skip(1) =~= b.skip(1) + seq!['"' as u8] + rest);
    }
}

/// A number is not empty and holds no other bytes than those of numbers.
proof fn lemma_number_bytes(c: Seq<u8>)
    requires
        grammar::is_number(c),
    ensures
        c.len() > 0,
        forall|i: int| 0 <= i < c.len() ==> grammar::is_number_byte(#[trigger] c[i]),
{
    let digit = |b: u8| lex::is_digit(b);
    let u = grammar::unsigned(c);
    let a = c.len() - u.len();
    let i = lex::digits(u);
    lex::lemma_leading(u, digit);
    let v = u.skip(i);
    let point = v.len() > 0 && v[0] == '.' as u8;
    let w = v.skip(1);
    let j = lex::digits(w);
    lex::lemma_leading(w, digit);
    let p = if point {
        a + i + 1 + j
    } else {
        a + i
    };
    let e = if point {
        w.skip(j)
    } else {
        v
    };
    assert(e =~= c.skip(p));
    assert forall|n: int| 0 <= n < p implies grammar::is_number_byte(#[trigger] c[n]) by {
        if n < a {
        } else if n < a + i {
            assert(u[n - a] == c[n]);
        } else if n > a + i {
            assert(w[n - a - i - 1] == c[n]);
        } else {
            assert(v[0] == c[n]);
        }
    }
    if e.len() > 0 {
        let d = grammar::unsigned(e.skip(1));
        let b = e.len() - d.len();
        lex::lemma_leading(d, digit);
        assert forall|n: int| p <= n < c.len() implies grammar::is_number_byte(
            #[trigger] c[n],
        ) by {
            assert(e[n - p] == c[n]);
            if n - p >= b {
                assert(d[n - p - b] == c[n]);
            } else if n - p > 0 {
                assert(e.skip(1)[0] == c[n]);
            }
        }
    }
}

proof fn lemma_exponent(e: Option<Exponent>)
    requires
        e matches Some(x) ==> x.wf(),
    ensures
        ({
            let c = match e {
                Some(x) => x.text(),
                None => Seq::empty(),
            };
            &&& grammar::is_exponent(c)
            &&& c.len() > 0 ==> c[0] == 0x65 || c[0] == 0x45
        }),
{
    if e is Some {
        let x = e->0;
        let c = x.text();
        let d = x.sign + x.figures;
        assert(c.skip(1) =~= d);
        assert(text::is_figure(x.figures[0]));
        if x.sign.len() > 0 {
            assert(d.skip(1) =~= x.figures);
        } else {
            assert(d =~= x.figures);
        }
        assert(x.figures + Seq::<u8>::empty() =~= x.figures);
        text::lemma_figures_end(x.figures, Seq::empty());
    }
}

/// What is written as a number is one.
pub proof fn lemma_numeral(n: Numeral)
    requires
        n.wf(),
    ensures
        grammar::is_number(n.text()),
{
    let m = n.mantissa;
    let x = match n.exponent {
        Some(e) => e.text(),
        None => Seq::empty(),
    };
    lemma_exponent(n.exponent);
    let tail = (if m.point {
        seq![0x2eu8] + m.fraction
    } else {
        Seq::empty()
    }) + x;
    let u = m.whole + tail;
    assert(n.text() =~= m.sign + u);
    if m.whole.len() > 0 {
        assert(text::is_figure(m.whole[0]));
        assert(u[0] == m.whole[0]);
    }
    if m.sign.len() > 0 {
        assert(n.text().skip(1) =~= u);
    } else {
        assert(n.text() =~= u);
    }
    text::lemma_figures_end(m.whole, tail);
    if m.point {
        assert(tail.skip(1) =~= m.fraction + x);
        text::lemma_figures_end(m.fraction, x);
    } else {
        assert(tail =~= x);
    }
}

/// The sign that `c` begins with.
spec fn sign_of(c: Seq<u8>) -> Seq<u8> {
    if c.len() > 0 && (c[0] == 0x2d || c[0] == 0x2b) {
        seq![c[0]]
    } else {
        Seq::empty()
    }
}

proof fn lemma_figures_of(s: Seq<u8>)
    ensures
        0 <= lex::digits(s) <= s.len(),
        text::are_figures(s.take(lex::digits(s))),
{
    lex::lemma_leading(s, |b: u8| lex::is_digit(b));
    let t = s.take(lex::digits(s));
    assert forall|i: int| 0 <= i < t.len() implies text::is_figure(#[trigger] t[i]) by {
        assert(t[i] == s[i]);
        assert(lex::is_digit(s[i]));
    }
}

proof fn lemma_exponent_of(c: Seq<u8>) -> (e: Option<Exponent>)
    requires
        grammar::is_exponent(c),
    ensures
        c == match e {
            Some(x) => x.text(),
            None => Seq::empty(),
        },
        e matches Some(x) ==> x.wf(),
{
    if c.len() == 0 {
        assert(c =~= Seq::<u8>::empty());
        None
    } else {
        let d = grammar::unsigned(c.skip(1));
        lemma_figures_of(d);
        assert(d.take(lex::digits(d)) =~= d);
        let x = Exponent { letter: c[0], sign: sign_of(c.skip(1)), figures: d };
        assert(x.text() =~= c);
        Some(x)
    }
}

/// What is a number is written as one.
pub proof fn lemma_numeral_of(c: Seq<u8>) -> (n: Numeral)
    requires
        grammar::is_number(c),
    ensures
        n.wf(),
        n.text() == c,
{
    let u = grammar::unsigned(c);
    let i = lex::digits(u);
    lemma_figures_of(u);
    let v = u.skip(i);
    let point = v.len() > 0 && v[0] == 0x2e;
    let w = v.skip(1);
    let j = if point {
        lex::digits(w)
    } else {
        0
    };
    if point {
        lemma_figures_of(w);
    }
    let e = lemma_exponent_of(
        if point {
            w.skip(j)
        } else {
            v
        },
    );
    let m = Written {
        sign: sign_of(c),
        whole: u.take(i),
        point,
        fraction: if point {
            w.take(j)
        } else {
            Seq::empty()
        },
    };
    let n = Numeral { mantissa: m, exponent: e };
    assert(n.text() =~= c);
    n
}

/// A text is a number exactly if it is written as one: a sign or none, figures with or without
/// a point among them, and an exponent or none.
pub proof fn law_number_texts_are_numerals(c: &[u8], r: bool)
    requires
        call_ensures(is_number_text, (c,), r),
    ensures
        r <==> exists|n: Numeral| n.wf() && #[trigger] n.text() == c@,
{
    if r {
        let n = lemma_numeral_of(c@);
        assert(n.text() == c@);
    }
    if exists|n: Numeral| n.wf() && #[trigger] n.text() == c@ {
        let n = choose|n: Numeral| n.wf() && #[trigger] n.text() == c@;
        lemma_numeral(n);
    }
}

/// A number ends where its bytes end.
proof fn lemma_number(c: Seq<u8>, rest: Seq<u8>)
    requires
        grammar::is_number(c),
        rest.len() == 0 || !grammar::is_number_byte(rest[0]),
    ensures
        grammar::after_number(c + rest) == Ok::<Seq<u8>, grammar::ParseError>(rest),
{
    let s = c + rest;
    lemma_number_bytes(c);
    assert forall|i: int| 0 <= i < c.len() implies grammar::is_number_byte(#[trigger] s[i]) by {
        assert(s[i] == c[i]);
    }
    if rest.len() > 0 {
        assert(s[c.len() as int] == rest[0]);
    }
    lex::lemma_leading_is(s, |b: u8| grammar::is_number_byte(b), c.len() as int);
    lex::lemma_leading_is(s, |b: u8| lex::is_space(b), 0);
    assert(s.skip(0) =~= s);
    assert(s.take(c.len() as int) =~= c);
    assert(s.skip(c.len() as int) =~= rest);
}

/// What a value begins with.
pub proof fn lemma_first(v: Value)
    requires
        v.wf(),
    ensures
        v.text().len() > 0,
        !lex::is_space(v.text()[0]),
        v.text()[0] != ']' as u8,
{
    if v is Number {
        lemma_numeral(v->Number_0);
        lemma_number_bytes(v->Number_0.text());
        assert(grammar::is_number_byte(v.text()[0]));
    }
}

/// Text that begins, behind white space, with a byte that is none is trimmed to it.
pub proof fn lemma_trimmed_twice(s: Seq<u8>)
    requires
        s.len() > 0,
        !lex::is_space(s[0]),
    ensures
        lex::trimmed(s) == s,
{
    lemma_trimmed_is(Seq::empty(), s);
    assert(Seq::<u8>::empty() + s =~= s);
}

proof fn lemma_value(v: Value, s: Seq<u8>, rest: Seq<u8>)
    requires
        v.wf(),
        v.ends_before(rest),
        lex::trimmed(s) == v.text() + rest,
    ensures
        grammar::after_value(s) == Ok::<Seq<u8>, grammar::ParseError>(rest),
    decreases v,
{
    let t = lex::trimmed(s);
    lemma_first(v);
    lemma_trimmed_twice(t);
    match v {
        Value::Word(w) => {
            assert(t.skip(w.len() as int) =~= rest);
        },
        Value::Number(n) => {
            let c = n.text();
            lemma_numeral(n);
            lemma_number_bytes(c);
            lemma_number(c, rest);
            assert(grammar::is_number_byte(t[0]));
        },
        Value::Text(b) => {
            lemma_body(b, rest);
            assert(t.skip(1) =~= b + seq!['"' as u8] + rest);
        },
        Value::EmptyArray(w) => {
            let x = seq![']' as u8] + rest;
            assert(t.skip(1) =~= w + x);
            text::lemma_blanks_end(w, x);
            assert(x.skip(1) =~= rest);
        },
        Value::Array(items) => {
            let x = items.text() + (seq![']' as u8] + rest);
            assert(t.skip(1) =~= x);
            grammar::lemma_trimmed(x);
            lemma_items(items, lex::trimmed(x), rest);
        },
        Value::EmptyObject(w) => {
            let x = seq!['}' as u8] + rest;
            assert(t.skip(1) =~= w + x);
            text::lemma_blanks_end(w, x);
            assert(x.skip(1) =~= rest);
        },
        Value::Object(members) => {
            let x = members.text() + (seq!['}' as u8] + rest);
            assert(t.skip(1) =~= x);
            grammar::lemma_trimmed(x);
            lemma_members(members, lex::trimmed(x), rest);
        },
    }
}

proof fn lemma_items(items: Items, s: Seq<u8>, rest: Seq<u8>)
    requires
        items.wf(),
        lex::trimmed(s) == lex::trimmed(items.text() + (seq![']' as u8] + rest)),
    ensures
        grammar::after_items(s) == Ok::<Seq<u8>, grammar::ParseError>(rest),
        lex::trimmed(s).len() > 0,
        lex::trimmed(s)[0] != ']' as u8,
    decreases items,
{
    let close = seq![']' as u8] + rest;
    let whole = items.text() + close;
    match items {
        Items::Last(a, v, b) => {
            let x = v.text() + (b + close);
            assert(whole =~= a + x);
            lemma_first(*v);
            text::lemma_blanks_end(a, x);
            lemma_value(*v, s, b + close);
            text::lemma_blanks_end(b, close);
            assert(close.skip(1) =~= rest);
        },
        Items::More(a, v, b, more) => {
            let next = more.text() + close;
            let comma = seq![',' as u8] + next;
            let x = v.text() + (b + comma);
            assert(whole =~= a + x);
            lemma_first(*v);
            text::lemma_blanks_end(a, x);
            lemma_value(*v, s, b + comma);
            text::lemma_blanks_end(b, comma);
            lemma_trimmed_twice(comma);
            assert(comma.skip(1) =~= next);
            grammar::lemma_after_value_shrinks(s);
            lemma_items(*more, next, rest);
        },
    }
}

proof fn lemma_members(members: Members, s: Seq<u8>, rest: Seq<u8>)
    requires
        members.wf(),
        lex::trimmed(s) == lex::trimmed(members.text() + (seq!['}' as u8] + rest)),
    ensures
        grammar::after_members(s) == Ok::<Seq<u8>, grammar::ParseError>(rest),
        lex::trimmed(s).len() > 0,
        lex::trimmed(s)[0] == '"' as u8,
    decreases members,
{
    let close = seq!['}' as u8] + rest;
    let whole = members.text() + close;
    match members {
        Members::Last(k, v, b) => {
            let tail = b + close;
            assert(whole =~= k.text() + (v.text() + tail));
            lemma_key(k, s, *v, tail);
            let p = k.indent + (v.text() + tail);
            lemma_first(*v);
            text::lemma_blanks_end(k.indent, v.text() + tail);
            lemma_value(*v, p, tail);
            text::lemma_blanks_end(b, close);
            assert(close.skip(1) =~= rest);
        },
        Members::More(k, v, b, more) => {
            let next = more.text() + close;
            let comma = seq![',' as u8] + next;
            let tail = b + comma;
            assert(whole =~= k.text() + (v.text() + tail));
            lemma_key(k, s, *v, tail);
            let p = k.indent + (v.text() + tail);
            lemma_first(*v);
            text::lemma_blanks_end(k.indent, v.text() + tail);
            lemma_value(*v, p, tail);
            text::lemma_blanks_end(b, comma);
            lemma_trimmed_twice(comma);
            assert(comma.skip(1) =~= next);
            lemma_members(*more, next, rest);
        },
    }
}

/// A key is read up to its value.
pub proof fn lemma_key(k: Key, s: Seq<u8>, v: Value, tail: Seq<u8>)
    requires
        k.wf(),
        lex::trimmed(s) == lex::trimmed(k.text() + (v.text() + tail)),
    ensures
        ({
            let p = k.indent + (v.text() + tail);
            &&& lex::trimmed(s).len() > 0
            &&& lex::trimmed(s)[0] == '"' as u8
            &&& p.len() < s.len()
            &&& grammar::after_string(s) matches Ok(c) && grammar::expected(c, ':' as u8) == Ok::<
                Seq<u8>,
                grammar::ParseError,
            >(p)
        }),
{
    let p = k.indent + (v.text() + tail);
    let colon = seq![':' as u8] + p;
    let c = k.after + colon;
    let x = seq!['"' as u8] + (k.name + seq!['"' as u8] + c);
    assert(k.text() + (v.text() + tail) =~= k.before + x);
    text::lemma_blanks_end(k.before, x);
    assert(x.skip(1) =~= k.name + seq!['"' as u8] + c);
    lemma_body(k.name, c);
    text::lemma_blanks_end(k.after, colon);
    assert(colon.skip(1) =~= p);
    grammar::lemma_trimmed(s);
}

/// A value of JSON is skipped whole: behind white space and in front of any text that does
/// not lengthen it, skipping a value leaves exactly that text.
pub proof fn law_a_value_is_skipped_whole(white: Seq<u8>, v: Value, rest: Seq<u8>)
    requires
        is_white(white),
        v.wf(),
        v.ends_before(rest),
    ensures
        grammar::after_value(white + v.text() + rest) == Ok::<Seq<u8>, grammar::ParseError>(rest),
{
    lemma_first(v);
    assert(white + v.text() + rest =~= white + (v.text() + rest));
    lemma_trimmed_is(white, v.text() + rest);
    lemma_value(v, white + v.text() + rest, rest);
}

/// Skipping takes a whole value of JSON from the text, and white space before it, and nothing
/// of what follows.
pub proof fn law_skipping_takes_a_whole_value<S: ByteSource>(
    p: &mut StreamParser<S>,
    r: Result<(), grammar::ParseError>,
    white: Seq<u8>,
    v: Value,
    rest: Seq<u8>,
)
    requires
        call_ensures(StreamParser::<S>::skip_value, (p,), r),
        old(p).rest() == white + v.text() + rest,
        is_white(white),
        v.wf(),
        v.ends_before(rest),
    ensures
        r is Ok,
        final(p).rest() == rest,
{
    law_a_value_is_skipped_whole(white, v, rest);
}

} // verus!
