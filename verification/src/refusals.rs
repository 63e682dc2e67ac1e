//! What is not read, and why.
use crate::fixed_point;
use crate::fixed_point::Written;
use crate::grammar;
use crate::grammar::ParseError;
use crate::index::QVec;
use crate::kd::BuildRecord;
use crate::lex;
use crate::reference_text;
use crate::reference_text::{Coord, EntryText};
use crate::references;
use crate::references::Reference;
use crate::stream::{ByteSource, StreamParser};
use crate::text;
use crate::values;
use crate::values::{Key, Value};
use vstd::prelude::*;

verus! {

/// `t` does not begin with white space.
pub open spec fn is_bare(t: Seq<u8>) -> bool {
    !text::begins(t, |b: u8| text::is_blank(b))
}

/// The two end alike: both well, or both for the same reason not.
pub open spec fn end_alike(r: Result<(), ParseError>, s: Result<(), ParseError>) -> bool {
    match r {
        Ok(_) => s is Ok,
        Err(e) => s matches Err(x) && x == e,
    }
}

/// Where the text ends there is no fixed-point number, and where it goes on with something else
/// there is no digit.
pub proof fn law_no_fixed_point_number_is_refused<S: ByteSource>(
    p: &mut StreamParser<S>,
    r: Result<i16, ParseError>,
    w: Seq<u8>,
    t: Seq<u8>,
)
    requires
        call_ensures(StreamParser::<S>::parse_fixed4_i16, (p,), r),
        old(p).rest() == w + t,
        text::are_blank(w),
        is_bare(t),
    ensures
        t.len() == 0 ==> r == Err::<i16, ParseError>(ParseError::NumberAtEnd),
        t.len() > 0 && !text::is_figure(t[0]) && t[0] != 0x2d && t[0] != 0x2b && t[0] != 0x2e
            ==> r == Err::<i16, ParseError>(ParseError::NoDigit),
{
    text::lemma_blanks_end(w, t);
    if t.len() > 0 && !text::is_figure(t[0]) {
        lex::lemma_leading_is(t, |b: u8| lex::is_digit(b), 0);
        assert(t.skip(0) =~= t);
    }
}

/// A string that no quote ends is refused.
pub proof fn law_open_string_is_refused<S: ByteSource>(
    p: &mut StreamParser<S>,
    out: &mut [u8; 8],
    r: Result<usize, ParseError>,
    w: Seq<u8>,
    s: Seq<u8>,
)
    requires
        call_ensures(StreamParser::<S>::parse_string_into, (p, out), r),
        old(p).rest() == w + (seq![0x22u8] + s),
        text::are_blank(w),
        reference_text::unquoted(s),
    ensures
        r == Err::<usize, ParseError>(ParseError::UnterminatedString),
{
    reference_text::lemma_expected(w, 0x22, s);
    lex::lemma_leading_is(s, |b: u8| b != '"' as u8, s.len() as int);
}

proof fn lemma_open_body(s: Seq<u8>)
    requires
        values::is_body(s) || s.len() > 0 && values::is_body(s.drop_last()) && s.last() == 0x5c,
    ensures
        grammar::string_end(s) == Err::<Seq<u8>, ParseError>(ParseError::UnterminatedString),
    decreases s.len(),
{
    if values::is_body(s) {
        if s.len() > 0 && s[0] == 0x5c {
            assert(s[0] == '\\' as u8);
            lemma_open_body(s.skip(2));
        } else if s.len() > 0 {
            lemma_open_body(s.skip(1));
        }
    } else {
        let d = s.drop_last();
        if s.len() == 1 {
            assert(s[0] == 0x5c);
            assert(s.skip(1).len() == 0);
            assert(grammar::string_end(s.skip(1)) == Err::<Seq<u8>, ParseError>(
                ParseError::UnterminatedString,
            ));
        } else if d[0] == 0x5c {
            assert(s[0] == d[0]);
            assert(s.skip(2).drop_last() =~= d.skip(2));
            assert(s.skip(2).last() == 0x5c);
            lemma_open_body(s.skip(2));
        } else {
            assert(s[0] == d[0]);
            assert(s.skip(1).drop_last() =~= d.skip(1));
            assert(s.skip(1).last() == 0x5c);
            lemma_open_body(s.skip(1));
        }
    }
}

/// A string that is skipped is refused where every quote in it is escaped.
pub proof fn law_open_string_is_not_skipped<S: ByteSource>(
    p: &mut StreamParser<S>,
    r: Result<(), ParseError>,
    w: Seq<u8>,
    s: Seq<u8>,
)
    requires
        call_ensures(StreamParser::<S>::skip_string, (p,), r),
        old(p).rest() == w + (seq![0x22u8] + s),
        text::are_blank(w),
        values::is_body(s) || s.len() > 0 && values::is_body(s.drop_last()) && s.last() == 0x5c,
    ensures
        r == Err::<(), ParseError>(ParseError::UnterminatedString),
{
    reference_text::lemma_expected(w, 0x22, s);
    lemma_open_body(s);
}

/// The first byte says what a value is: a quote a string, a letter a word of four or five bytes,
/// and all but the brackets a number. At the end of the text there is nothing to skip.
pub proof fn law_first_byte_says_what_a_value_is<S: ByteSource>(
    p: &mut StreamParser<S>,
    r: Result<(), ParseError>,
    q: &mut StreamParser<S>,
    string: Result<(), ParseError>,
    n: &mut StreamParser<S>,
    number: Result<(), ParseError>,
    w: Seq<u8>,
    t: Seq<u8>,
)
    requires
        call_ensures(StreamParser::<S>::skip_value, (p,), r),
        call_ensures(StreamParser::<S>::skip_string, (q,), string),
        call_ensures(StreamParser::<S>::skip_number, (n,), number),
        old(p).rest() == w + t,
        old(q).rest() == t,
        old(n).rest() == t,
        text::are_blank(w),
        is_bare(t),
    ensures
        t.len() == 0 ==> r is Ok && final(p).rest().len() == 0,
        t.len() > 0 && t[0] == 0x22 ==> {
            &&& end_alike(r, string)
            &&& r is Ok ==> final(p).rest() == final(q).rest()
        },
        t.len() > 0 && (t[0] == 0x74 || t[0] == 0x6e) ==> {
            &&& r is Ok
            &&& t.len() >= 4 ==> final(p).rest() == t.skip(4)
            &&& t.len() < 4 ==> final(p).rest().len() == 0
        },
        t.len() > 0 && t[0] == 0x66 ==> {
            &&& r is Ok
            &&& t.len() >= 5 ==> final(p).rest() == t.skip(5)
            &&& t.len() < 5 ==> final(p).rest().len() == 0
        },
        t.len() > 0 && t[0] != 0x22 && t[0] != 0x5b && t[0] != 0x7b && t[0] != 0x74 && t[0] != 0x6e
            && t[0] != 0x66 ==> {
            &&& end_alike(r, number)
            &&& r is Ok ==> final(p).rest() == final(n).rest()
        },
{
    text::lemma_blanks_end(w, t);
}

/// What is skipped does not depend on white space before it.
proof fn lemma_blanks_do_not_matter(s: Seq<u8>)
    ensures
        grammar::after_value(s) == grammar::after_value(lex::trimmed(s)),
        grammar::after_items(s) == grammar::after_items(lex::trimmed(s)),
        grammar::after_members(s) == grammar::after_members(lex::trimmed(s)),
{
    let t = lex::trimmed(s);
    grammar::lemma_trimmed(s);
    lemma_values_alike(s);
    match grammar::after_value(t) {
        Ok(u) => {
            grammar::lemma_after_value_shrinks(t);
            grammar::lemma_trimmed(u);
            grammar::lemma_expected_shrinks(lex::trimmed(u), ',' as u8);
        },
        Err(_) => {},
    }
    grammar::lemma_after_string_shrinks(t);
    match grammar::after_string(t) {
        Ok(k) => {
            grammar::lemma_expected_shrinks(k, ':' as u8);
            match grammar::expected(k, ':' as u8) {
                Ok(p) => {
                    grammar::lemma_after_value_shrinks(p);
                    match grammar::after_value(p) {
                        Ok(u) => {
                            grammar::lemma_trimmed(u);
                            grammar::lemma_expected_shrinks(lex::trimmed(u), ',' as u8);
                        },
                        Err(_) => {},
                    }
                },
                Err(_) => {},
            }
        },
        Err(_) => {},
    }
}

proof fn lemma_values_alike(s: Seq<u8>)
    ensures
        grammar::after_value(s) == grammar::after_value(lex::trimmed(s)),
{
    grammar::lemma_trimmed(s);
}

/// The array that begins with `x` behind its bracket.
proof fn lemma_array(w: Seq<u8>, x: Seq<u8>)
    requires
        text::are_blank(w),
        !text::begins(lex::trimmed(x), |b: u8| b == 0x5d),
    ensures
        grammar::after_value(w + (seq![0x5bu8] + x)) == grammar::after_items(x),
{
    let t = seq![0x5bu8] + x;
    text::lemma_blanks_end(w, t);
    assert(t.skip(1) =~= x);
    lemma_blanks_do_not_matter(x);
}

/// A value, and what follows it behind white space.
proof fn lemma_item(a: Seq<u8>, v: Value, b: Seq<u8>, rest: Seq<u8>)
    requires
        text::are_blank(a),
        v.wf(),
        text::are_blank(b),
        is_bare(rest),
        b.len() == 0 ==> v.ends_before(rest),
    ensures
        grammar::after_value(a + (v.text() + (b + rest))) == Ok::<Seq<u8>, ParseError>(b + rest),
        lex::trimmed(b + rest) == rest,
{
    let tail = b + rest;
    if b.len() > 0 {
        assert(tail[0] == b[0]);
        assert(text::is_blank(b[0]));
    } else {
        assert(tail =~= rest);
    }
    values::law_a_value_is_skipped_whole(a, v, tail);
    assert(a + v.text() + tail =~= a + (v.text() + tail));
    text::lemma_blanks_end(b, rest);
}

/// A value does not begin with a closing bracket.
proof fn lemma_value_begins(a: Seq<u8>, v: Value, tail: Seq<u8>)
    requires
        text::are_blank(a),
        v.wf(),
    ensures
        !text::begins(lex::trimmed(a + (v.text() + tail)), |b: u8| b == 0x5d),
{
    values::lemma_first(v);
    let x = v.text() + tail;
    assert(x[0] == v.text()[0]);
    text::lemma_blanks_end(a, x);
}

/// An array goes on behind a comma as if it began there; behind its last item it ends with the
/// bracket or with the text, and anything else is refused. So is an item that is missing behind
/// a comma.
pub proof fn law_array_goes_on_behind_a_comma<S: ByteSource>(
    p: &mut StreamParser<S>,
    r: Result<(), ParseError>,
    q: &mut StreamParser<S>,
    s: Result<(), ParseError>,
    w: Seq<u8>,
    a: Seq<u8>,
    v: Value,
    b: Seq<u8>,
    rest: Seq<u8>,
    y: Seq<u8>,
)
    requires
        call_ensures(StreamParser::<S>::skip_value, (p,), r),
        call_ensures(StreamParser::<S>::skip_value, (q,), s),
        old(p).rest() == w + (seq![0x5bu8] + (a + (v.text() + (b + rest)))),
        old(q).rest() == seq![0x5bu8] + y,
        text::are_blank(w),
        text::are_blank(a),
        v.wf(),
        text::are_blank(b),
        is_bare(rest),
        b.len() == 0 ==> v.ends_before(rest),
    ensures
        rest.len() == 0 ==> r is Ok && final(p).rest().len() == 0,
        rest.len() > 0 && rest[0] == 0x5d ==> r is Ok && final(p).rest() == rest.skip(1),
        rest.len() > 0 && rest[0] != 0x5d && rest[0] != 0x2c ==> r == Err::<(), ParseError>(
            ParseError::Unexpected(0x2c, rest[0]),
        ),
        rest == seq![0x2cu8] + y && !text::begins(lex::trimmed(y), |b: u8| b == 0x5d) ==> {
            &&& end_alike(r, s)
            &&& r is Ok ==> final(p).rest() == final(q).rest()
        },
        rest == seq![0x2cu8] + y && text::begins(lex::trimmed(y), |b: u8| b == 0x5d) ==> r == Err::<
            (),
            ParseError,
        >(ParseError::BadNumber),
{
    let x = a + (v.text() + (b + rest));
    lemma_value_begins(a, v, b + rest);
    lemma_array(w, x);
    lemma_item(a, v, b, rest);
    if rest.len() > 0 {
        values::lemma_trimmed_twice(rest);
    }
    if rest == seq![0x2cu8] + y {
        assert(rest.skip(1) =~= y);
        grammar::lemma_trimmed(y);
        if text::begins(lex::trimmed(y), |b: u8| b == 0x5d) {
            let z = lex::trimmed(y);
            lemma_blanks_do_not_matter(y);
            lex::lemma_leading_is(z, |b: u8| grammar::is_number_byte(b), 0);
            assert(z.take(0) =~= Seq::<u8>::empty());
            lex::lemma_leading_is(Seq::<u8>::empty(), |b: u8| lex::is_digit(b), 0);
        } else {
            lemma_array(Seq::empty(), y);
            assert(Seq::<u8>::empty() + (seq![0x5bu8] + y) =~= seq![0x5bu8] + y);
        }
    }
}

/// An array whose first item is refused is refused for the same reason.
pub proof fn law_refused_item_refuses_its_array<S: ByteSource>(
    p: &mut StreamParser<S>,
    r: Result<(), ParseError>,
    q: &mut StreamParser<S>,
    s: Result<(), ParseError>,
    w: Seq<u8>,
    x: Seq<u8>,
)
    requires
        call_ensures(StreamParser::<S>::skip_value, (p,), r),
        call_ensures(StreamParser::<S>::skip_value, (q,), s),
        old(p).rest() == w + (seq![0x5bu8] + x),
        old(q).rest() == x,
        text::are_blank(w),
        !text::begins(lex::trimmed(x), |b: u8| b == 0x5d),
    ensures
        s is Err ==> r == s,
{
    lemma_array(w, x);
}

/// The object that begins with `x` behind its brace.
proof fn lemma_object(w: Seq<u8>, x: Seq<u8>)
    requires
        text::are_blank(w),
        !text::begins(lex::trimmed(x), |b: u8| b == 0x7d),
    ensures
        grammar::after_value(w + (seq![0x7bu8] + x)) == grammar::after_members(x),
{
    let t = seq![0x7bu8] + x;
    text::lemma_blanks_end(w, t);
    assert(t.skip(1) =~= x);
    lemma_blanks_do_not_matter(x);
}

/// An object goes on behind a comma as if it began there; behind its last member it ends with
/// the brace or with the text, and anything else is refused. So is a member that is missing
/// behind a comma.
pub proof fn law_object_goes_on_behind_a_comma<S: ByteSource>(
    p: &mut StreamParser<S>,
    r: Result<(), ParseError>,
    q: &mut StreamParser<S>,
    s: Result<(), ParseError>,
    w: Seq<u8>,
    k: Key,
    v: Value,
    b: Seq<u8>,
    rest: Seq<u8>,
    y: Seq<u8>,
)
    requires
        call_ensures(StreamParser::<S>::skip_value, (p,), r),
        call_ensures(StreamParser::<S>::skip_value, (q,), s),
        old(p).rest() == w + (seq![0x7bu8] + (k.text() + (v.text() + (b + rest)))),
        old(q).rest() == seq![0x7bu8] + y,
        text::are_blank(w),
        k.wf(),
        v.wf(),
        text::are_blank(b),
        is_bare(rest),
        b.len() == 0 ==> v.ends_before(rest),
    ensures
        rest.len() == 0 ==> r is Ok && final(p).rest().len() == 0,
        rest.len() > 0 && rest[0] == 0x7d ==> r is Ok && final(p).rest() == rest.skip(1),
        rest.len() > 0 && rest[0] != 0x7d && rest[0] != 0x2c ==> r == Err::<(), ParseError>(
            ParseError::Unexpected(0x2c, rest[0]),
        ),
        rest == seq![0x2cu8] + y && !text::begins(lex::trimmed(y), |b: u8| b == 0x7d) ==> {
            &&& end_alike(r, s)
            &&& r is Ok ==> final(p).rest() == final(q).rest()
        },
        rest == seq![0x2cu8] + y && text::begins(lex::trimmed(y), |b: u8| b == 0x7d) ==> r == Err::<
            (),
            ParseError,
        >(ParseError::Unexpected(0x22, 0x7d)),
{
    let tail = b + rest;
    let x = k.text() + (v.text() + tail);
    values::lemma_key(k, x, v, tail);
    lemma_object(w, x);
    lemma_item(k.indent, v, b, rest);
    if rest.len() > 0 {
        values::lemma_trimmed_twice(rest);
    }
    if rest == seq![0x2cu8] + y {
        assert(rest.skip(1) =~= y);
        grammar::lemma_trimmed(y);
        if !text::begins(lex::trimmed(y), |b: u8| b == 0x7d) {
            lemma_object(Seq::empty(), y);
            assert(Seq::<u8>::empty() + (seq![0x7bu8] + y) =~= seq![0x7bu8] + y);
        }
    }
}

/// An object whose first key is refused, whose colon is missing or whose first value is refused
/// is refused for the same reason.
pub proof fn law_refused_member_refuses_its_object<S: ByteSource>(
    p: &mut StreamParser<S>,
    r: Result<(), ParseError>,
    q: &mut StreamParser<S>,
    key: Result<(), ParseError>,
    c: &mut StreamParser<S>,
    colon: Result<(), ParseError>,
    v: &mut StreamParser<S>,
    value: Result<(), ParseError>,
    w: Seq<u8>,
    x: Seq<u8>,
)
    requires
        call_ensures(StreamParser::<S>::skip_value, (p,), r),
        call_ensures(StreamParser::<S>::skip_string, (q,), key),
        call_ensures(StreamParser::<S>::expect, (c, 0x3au8), colon),
        call_ensures(StreamParser::<S>::skip_value, (v,), value),
        old(p).rest() == w + (seq![0x7bu8] + x),
        old(q).rest() == x,
        old(c).rest() == final(q).rest(),
        old(v).rest() == final(c).rest(),
        text::are_blank(w),
        !text::begins(lex::trimmed(x), |b: u8| b == 0x7d),
    ensures
        key is Err ==> r == key,
        key is Ok && colon is Err ==> r == colon,
        key is Ok && colon is Ok && value is Err ==> r == value,
{
    lemma_object(w, x);
    grammar::lemma_after_string_shrinks(x);
    if key is Ok {
        grammar::lemma_expected_shrinks(final(q).rest(), ':' as u8);
    }
}

/// What does not begin with a bracket holds no references.
pub proof fn law_references_are_an_array<S: ByteSource>(
    p: &mut StreamParser<S>,
    r: Result<Vec<BuildRecord>, ParseError>,
    w: Seq<u8>,
    t: Seq<u8>,
)
    requires
        call_ensures(StreamParser::<S>::read_references, (p,), r),
        old(p).rest() == w + t,
        text::are_blank(w),
        is_bare(t),
    ensures
        t.len() == 0 ==> r == Err::<Vec<BuildRecord>, ParseError>(ParseError::ExpectedAtEnd(0x5b)),
        t.len() > 0 && t[0] != 0x5b ==> r == Err::<Vec<BuildRecord>, ParseError>(
            ParseError::Unexpected(0x5b, t[0]),
        ),
{
    text::lemma_blanks_end(w, t);
}

/// The two records are the same.
pub open spec fn same_record(a: BuildRecord, b: BuildRecord) -> bool {
    &&& forall|d: int| 0 <= d < 16 ==> #[trigger] a.qvec.at(d) == b.qvec.at(d)
    &&& a.label == b.label
    &&& a.key == b.key
}

/// What the references are where the first one is `e` and `rest` follows it.
proof fn lemma_first_entry(w: Seq<u8>, e: EntryText, rest: Seq<u8>)
    requires
        text::are_blank(w),
        e.wf(),
        is_bare(rest),
    ensures
        ({
            let x = e.text() + rest;
            &&& references::references(w + (seq![0x5bu8] + x)) == references::entries(
                lex::trimmed(x),
            )
            &&& match references::entry(lex::trimmed(x)) {
                Ok((r, t)) => {
                    &&& e.refusal() is None
                    &&& reference_text::is_as_written(r, e)
                    &&& r.vector.len() == 14
                    &&& lex::trimmed(t) == rest
                    &&& rest.len() < lex::trimmed(x).len()
                },
                Err(y) => e.refusal() == Some(y),
            }
        }),
{
    let x = e.text() + rest;
    let tail = e.after + rest;
    let inside = e.inner + reference_text::open_fields(e.fields, 0, tail);
    let brace = seq![0x7bu8] + inside;
    assert(x =~= e.before + brace);
    text::lemma_blanks_end(e.before, brace);
    reference_text::lemma_expected(w, 0x5b, x);
    reference_text::lemma_entry(e, Seq::empty(), tail);
    assert(Seq::<u8>::empty() + brace =~= brace);
    text::lemma_blanks_end(e.after, rest);
}

/// References go on behind a comma as if they began there; behind the last one they end with
/// the bracket or with the text, and anything else is refused. So is one that is missing behind
/// a comma, and one that is refused refuses them all.
pub proof fn law_references_go_on_behind_a_comma<S: ByteSource>(
    p: &mut StreamParser<S>,
    r: Result<Vec<BuildRecord>, ParseError>,
    q: &mut StreamParser<S>,
    s: Result<Vec<BuildRecord>, ParseError>,
    w: Seq<u8>,
    e: EntryText,
    rest: Seq<u8>,
    y: Seq<u8>,
)
    requires
        call_ensures(StreamParser::<S>::read_references, (p,), r),
        call_ensures(StreamParser::<S>::read_references, (q,), s),
        old(p).rest() == w + (seq![0x5bu8] + (e.text() + rest)),
        old(q).rest() == seq![0x5bu8] + y,
        text::are_blank(w),
        e.wf(),
        is_bare(rest),
    ensures
        e.refusal() matches Some(x) ==> r == Err::<Vec<BuildRecord>, ParseError>(x),
        e.refusal() is None && (rest.len() == 0 || rest[0] == 0x5d) ==> {
            &&& r is Ok
            &&& r->Ok_0@.len() == 1
            &&& reference_text::is_record_as_written(r->Ok_0@[0], e)
        },
        e.refusal() is None && rest.len() > 0 && rest[0] != 0x5d && rest[0] != 0x2c ==> r == Err::<
            Vec<BuildRecord>,
            ParseError,
        >(ParseError::Unexpected(0x2c, rest[0])),
        e.refusal() is None && rest == seq![0x2cu8] + y && !text::begins(
            lex::trimmed(y),
            |b: u8| b == 0x5d,
        ) ==> match s {
            Ok(others) => {
                &&& r is Ok
                &&& r->Ok_0@.len() == others@.len() + 1
                &&& reference_text::is_record_as_written(r->Ok_0@[0], e)
                &&& forall|i: int|
                    0 <= i < others@.len() ==> same_record(
                        r->Ok_0@[i + 1],
                        #[trigger] others@[i],
                    )
            },
            Err(x) => r == Err::<Vec<BuildRecord>, ParseError>(x),
        },
        e.refusal() is None && rest == seq![0x2cu8] + y && text::begins(
            lex::trimmed(y),
            |b: u8| b == 0x5d,
        ) ==> r == Err::<Vec<BuildRecord>, ParseError>(ParseError::Unexpected(0x7b, 0x5d)),
{
    let x = e.text() + rest;
    let t = lex::trimmed(x);
    lemma_first_entry(w, e, rest);
    if rest.len() > 0 {
        values::lemma_trimmed_twice(rest);
    }
    if e.refusal() is None && (rest.len() == 0 || rest[0] == 0x5d) {
        let refs = references::references(old(p).rest())->Ok_0;
        let records = r->Ok_0;
        reference_text::lemma_record(records@[0], refs[0], e);
    }
    if e.refusal() is None && rest == seq![0x2cu8] + y {
        assert(rest.skip(1) =~= y);
        grammar::lemma_trimmed(y);
        lemma_entries_alike(y);
        assert(grammar::expected(rest, 0x2c) == Ok::<Seq<u8>, ParseError>(y));
        if !text::begins(lex::trimmed(y), |b: u8| b == 0x5d) {
            reference_text::lemma_expected(Seq::empty(), 0x5b, y);
            assert(Seq::<u8>::empty() + (seq![0x5bu8] + y) =~= seq![0x5bu8] + y);
            let first = references::entry(t)->Ok_0.0;
            match s {
                Ok(others) => {
                    let more = references::entries(y)->Ok_0;
                    let refs = references::references(old(p).rest())->Ok_0;
                    let records = r->Ok_0;
                    assert(refs == seq![first] + more);
                    assert(refs[0] == first);
                    reference_text::lemma_record(records@[0], refs[0], e);
                    assert forall|i: int| 0 <= i < others@.len() implies same_record(
                        records@[i + 1],
                        #[trigger] others@[i],
                    ) by {
                        assert(refs[i + 1] == more[i]);
                        assert(references::is_record_of(records@[i + 1], refs[i + 1]));
                        assert(references::is_record_of(others@[i], more[i]));
                        lemma_same_record(records@[i + 1], others@[i], more[i]);
                    }
                },
                Err(_) => {},
            }
        }
    }
}

proof fn lemma_same_record(a: BuildRecord, b: BuildRecord, r: Reference)
    requires
        references::is_record_of(a, r),
        references::is_record_of(b, r),
    ensures
        same_record(a, b),
{
    assert forall|d: int| 0 <= d < 16 implies #[trigger] a.qvec.at(d) == b.qvec.at(d) by {
        if d < 14 {
            assert(a.qvec.0@[d] == r.vector[d]);
            assert(b.qvec.0@[d] == r.vector[d]);
        }
    }
    assert(a.qvec.0@ =~= b.qvec.0@);
    assert(a.qvec.0 =~= b.qvec.0);
}

/// References do not depend on white space before them.
proof fn lemma_entries_alike(s: Seq<u8>)
    ensures
        references::entries(s) == references::entries(lex::trimmed(s)),
{
    let t = lex::trimmed(s);
    grammar::lemma_trimmed(s);
    reference_text::lemma_entry_trimmed(s, t);
    references::lemma_entry_shrinks(t);
    match references::entry(t) {
        Ok((r, u)) => {
            grammar::lemma_trimmed(u);
            grammar::lemma_expected_shrinks(lex::trimmed(u), ',' as u8);
        },
        Err(_) => {},
    }
}

/// A vector of too few coordinates lacks a comma, one of too many the bracket, and one of none
/// a digit.
pub proof fn law_vector_has_fourteen_coordinates<S: ByteSource>(
    p: &mut StreamParser<S>,
    r: Result<(QVec, bool), ParseError>,
    before: Seq<u8>,
    inner: Seq<u8>,
    after: Seq<u8>,
    indent: Seq<u8>,
    items: Seq<Coord>,
    rest: Seq<u8>,
)
    requires
        call_ensures(StreamParser::<S>::parse_entry, (p,), r),
        old(p).rest() == vector_first(
            before,
            inner,
            after,
            indent,
            reference_text::coords_from(items, 0) + (seq![0x5du8] + rest),
        ),
        text::are_blank(before),
        text::are_blank(inner),
        text::are_blank(after),
        text::are_blank(indent),
        items.len() != 14,
        forall|i: int|
            0 <= i < items.len() ==> (#[trigger] items[i]).wf() && items[i].number.fits(),
    ensures
        r == Err::<(QVec, bool), ParseError>(
            if items.len() == 0 {
                ParseError::NoDigit
            } else if items.len() < 14 {
                ParseError::Unexpected(0x2c, 0x5d)
            } else {
                ParseError::Unexpected(0x5d, 0x2c)
            },
        ),
{
    let close = seq![0x5du8] + rest;
    let list = reference_text::coords_from(items, 0) + close;
    let value = indent + (seq![0x5bu8] + list);
    let colon = after + (seq![0x3au8] + value);
    let name = reference_text::vector_name();
    let member = seq![0x22u8] + (name + (seq![0x22u8] + colon));
    reference_text::lemma_names();
    reference_text::lemma_expected(before, 0x7b, inner + member);
    text::lemma_blanks_end(inner, member);
    assert(Seq::<u8>::empty() + member =~= member);
    assert(reference_text::unquoted(name));
    reference_text::lemma_quoted(Seq::empty(), name, colon);
    reference_text::lemma_expected(after, 0x3a, value);
    reference_text::lemma_expected(indent, 0x5b, list);
    lemma_wrong_count(items, close);
}

proof fn lemma_wrong_count(items: Seq<Coord>, close: Seq<u8>)
    requires
        items.len() != 14,
        close.len() > 0 && close[0] == 0x5d,
        forall|i: int|
            0 <= i < items.len() ==> (#[trigger] items[i]).wf() && items[i].number.fits(),
    ensures
        ({
            let list = reference_text::coords_from(items, 0) + close;
            match references::coordinates(list, 14) {
                Err(e) => items.len() < 14 && e == if items.len() == 0 {
                    ParseError::NoDigit
                } else {
                    ParseError::Unexpected(0x2c, 0x5d)
                },
                Ok((v, u)) => items.len() > 14 && grammar::expected(u, 0x5d) == Err::<
                    Seq<u8>,
                    ParseError,
                >(ParseError::Unexpected(0x5d, 0x2c)),
            }
        }),
{
    let list = reference_text::coords_from(items, 0) + close;
    if items.len() == 0 {
        assert(list =~= close);
        values::lemma_trimmed_twice(close);
        lex::lemma_leading_is(close, |b: u8| lex::is_digit(b), 0);
        assert(close.skip(0) =~= close);
        lemma_refused_early(list, 1, 14);
    } else if items.len() < 14 {
        let n = items.len() as nat;
        let v = reference_text::lemma_coordinates(items, n, close);
        let u = reference_text::behind(items, n as int, close);
        assert(reference_text::coords_from(items, n as int) + close =~= close);
        assert(items[n - 1].wf());
        text::lemma_blanks_end(items[n - 1].after, close);
        lemma_refused_early(list, n + 1, 14);
    } else {
        let v = reference_text::lemma_coordinates(items, 14, close);
        let more = reference_text::coords_from(items, 14) + close;
        assert(more[0] == 0x2c);
        assert(items[13].wf());
        text::lemma_blanks_end(items[13].after, more);
    }
}

/// What is refused with the first `m` coordinates is refused with more.
proof fn lemma_refused_early(s: Seq<u8>, m: nat, n: nat)
    requires
        m <= n,
        references::coordinates(s, m) is Err,
    ensures
        references::coordinates(s, n) == references::coordinates(s, m),
    decreases n,
{
    if m < n {
        lemma_refused_early(s, m, (n - 1) as nat);
    }
}

/// A reference whose first field is the vector that begins with `list`.
pub open spec fn vector_first(
    before: Seq<u8>,
    inner: Seq<u8>,
    after: Seq<u8>,
    indent: Seq<u8>,
    list: Seq<u8>,
) -> Seq<u8> {
    before + (seq![0x7bu8] + (inner + (seq![0x22u8] + (reference_text::vector_name() + (
    seq![0x22u8] + (after + (seq![0x3au8] + (indent + (seq![0x5bu8] + list)))))))))
}

proof fn lemma_vector_first(
    before: Seq<u8>,
    inner: Seq<u8>,
    after: Seq<u8>,
    indent: Seq<u8>,
    list: Seq<u8>,
)
    requires
        text::are_blank(before),
        text::are_blank(inner),
        text::are_blank(after),
        text::are_blank(indent),
    ensures
        references::coordinates(list, 14) matches Err(e) ==> references::entry(
            vector_first(before, inner, after, indent, list),
        ) == Err::<(Reference, Seq<u8>), ParseError>(e),
{
    let value = indent + (seq![0x5bu8] + list);
    let colon = after + (seq![0x3au8] + value);
    let name = reference_text::vector_name();
    let member = seq![0x22u8] + (name + (seq![0x22u8] + colon));
    reference_text::lemma_names();
    reference_text::lemma_expected(before, 0x7b, inner + member);
    text::lemma_blanks_end(inner, member);
    assert(Seq::<u8>::empty() + member =~= member);
    assert(reference_text::unquoted(name));
    reference_text::lemma_quoted(Seq::empty(), name, colon);
    reference_text::lemma_expected(after, 0x3a, value);
    reference_text::lemma_expected(indent, 0x5b, list);
}

/// A coordinate that does not fit refuses its vector: for its decimal places, for want of a
/// digit, or for its size.
pub proof fn law_refused_coordinate_refuses_its_vector<S: ByteSource>(
    p: &mut StreamParser<S>,
    r: Result<(QVec, bool), ParseError>,
    before: Seq<u8>,
    inner: Seq<u8>,
    after: Seq<u8>,
    indent: Seq<u8>,
    items: Seq<Coord>,
    w: Seq<u8>,
    n: Written,
    rest: Seq<u8>,
)
    requires
        call_ensures(StreamParser::<S>::parse_entry, (p,), r),
        old(p).rest() == vector_first(
            before,
            inner,
            after,
            indent,
            if items.len() == 0 {
                w + n.text() + rest
            } else {
                reference_text::coords_from(items, 0) + (seq![0x2cu8] + (w + n.text() + rest))
            },
        ),
        text::are_blank(before),
        text::are_blank(inner),
        text::are_blank(after),
        text::are_blank(indent),
        text::are_blank(w),
        items.len() < 14,
        forall|i: int|
            0 <= i < items.len() ==> (#[trigger] items[i]).wf() && items[i].number.fits(),
        n.wf(),
        n.ends_before(rest),
        !n.fits(),
    ensures
        r == Err::<(QVec, bool), ParseError>(
            if n.fraction.len() > 4 {
                ParseError::TooManyDecimals
            } else if n.whole.len() + n.fraction.len() == 0 {
                ParseError::NoDigit
            } else {
                ParseError::OutOfRange
            },
        ),
{
    let x = w + n.text() + rest;
    fixed_point::lemma_fixed4(w, n, rest);
    if items.len() == 0 {
        assert(references::coordinates(x, 0) == Ok::<(Seq<i16>, Seq<u8>), ParseError>(
            (Seq::empty(), x),
        ));
        lemma_refused_early(x, 1, 14);
        lemma_vector_first(before, inner, after, indent, x);
    } else {
        let m = items.len();
        let close = seq![0x2cu8] + x;
        let list = reference_text::coords_from(items, 0) + close;
        let v = reference_text::lemma_coordinates(items, m, close);
        assert(reference_text::coords_from(items, m as int) + close =~= close);
        assert(items[m - 1].wf());
        reference_text::lemma_expected(items[m - 1].after, 0x2c, x);
        lemma_refused_early(list, m + 1, 14);
        lemma_vector_first(before, inner, after, indent, list);
    }
}

/// A reference begins with a brace.
pub proof fn law_reference_is_an_object<S: ByteSource>(
    p: &mut StreamParser<S>,
    r: Result<(QVec, bool), ParseError>,
    w: Seq<u8>,
    t: Seq<u8>,
)
    requires
        call_ensures(StreamParser::<S>::parse_entry, (p,), r),
        old(p).rest() == w + t,
        text::are_blank(w),
        is_bare(t),
    ensures
        t.len() == 0 ==> r == Err::<(QVec, bool), ParseError>(ParseError::ExpectedAtEnd(0x7b)),
        t.len() > 0 && t[0] != 0x7b ==> r == Err::<(QVec, bool), ParseError>(
            ParseError::Unexpected(0x7b, t[0]),
        ),
{
    text::lemma_blanks_end(w, t);
}

} // verus!
