//! What reading a text step by step leaves of it.
use crate::grammar;
use crate::grammar::ParseError;
use crate::lex;
use crate::reference_text;
use crate::stream::{ByteSource, StreamParser};
use crate::text;
use crate::values;
use crate::values::Numeral;
use vstd::prelude::*;

verus! {

/// White space is skipped up to the next byte that is none.
pub proof fn law_white_space_is_skipped<S: ByteSource>(
    p: &mut StreamParser<S>,
    w: Seq<u8>,
    rest: Seq<u8>,
)
    requires
        call_ensures(StreamParser::<S>::skip_ws, (p,), ()),
        old(p).rest() == w + rest,
        text::are_blank(w),
        !text::begins(rest, |b: u8| text::is_blank(b)),
    ensures
        final(p).rest() == rest,
{
    text::lemma_blanks_end(w, rest);
}

/// A byte that is expected is taken, behind white space; another one, or none, is named.
pub proof fn law_expected_byte_is_taken<S: ByteSource>(
    p: &mut StreamParser<S>,
    b: u8,
    r: Result<(), ParseError>,
    w: Seq<u8>,
    rest: Seq<u8>,
)
    requires
        call_ensures(StreamParser::<S>::expect, (p, b), r),
        old(p).rest() == w + rest,
        text::are_blank(w),
        !text::begins(rest, |b: u8| text::is_blank(b)),
    ensures
        rest.len() == 0 ==> r == Err::<(), ParseError>(ParseError::ExpectedAtEnd(b)),
        rest.len() > 0 && rest[0] != b ==> r == Err::<(), ParseError>(
            ParseError::Unexpected(b, rest[0]),
        ),
        rest.len() > 0 && rest[0] == b ==> r is Ok && final(p).rest() == rest.skip(1),
{
    text::lemma_blanks_end(w, rest);
}

/// A string without escapes is read up to the next quote: its length, and its first eight bytes.
pub proof fn law_string_is_read_up_to_its_quote<S: ByteSource>(
    p: &mut StreamParser<S>,
    out: &mut [u8; 8],
    r: Result<usize, ParseError>,
    w: Seq<u8>,
    s: Seq<u8>,
    rest: Seq<u8>,
)
    requires
        call_ensures(StreamParser::<S>::parse_string_into, (p, out), r),
        old(p).rest() == w + (seq![0x22u8] + (s + (seq![0x22u8] + rest))),
        text::are_blank(w),
        reference_text::unquoted(s),
        s.len() <= usize::MAX,
    ensures
        r == Ok::<usize, ParseError>(s.len() as usize),
        final(p).rest() == rest,
        forall|i: int| 0 <= i < 8 && i < s.len() ==> #[trigger] final(out)@[i] == s[i],
        forall|i: int| s.len() <= i < 8 ==> #[trigger] final(out)@[i] == old(out)@[i],
{
    reference_text::lemma_quoted(w, s, rest);
}

/// A string is skipped up to its closing quote, which no escape hides.
pub proof fn law_string_is_skipped_up_to_its_quote<S: ByteSource>(
    p: &mut StreamParser<S>,
    r: Result<(), ParseError>,
    w: Seq<u8>,
    s: Seq<u8>,
    rest: Seq<u8>,
)
    requires
        call_ensures(StreamParser::<S>::skip_string, (p,), r),
        old(p).rest() == w + (seq![0x22u8] + (s + seq![0x22u8] + rest)),
        text::are_blank(w),
        values::is_body(s),
    ensures
        r is Ok,
        final(p).rest() == rest,
{
    reference_text::lemma_expected(w, 0x22, s + seq![0x22u8] + rest);
    values::lemma_body(s, rest);
}

/// Bytes of which numbers are made are skipped exactly if together they are a number.
pub proof fn law_number_is_skipped_whole<S: ByteSource>(
    p: &mut StreamParser<S>,
    r: Result<(), ParseError>,
    w: Seq<u8>,
    c: Seq<u8>,
    rest: Seq<u8>,
)
    requires
        call_ensures(StreamParser::<S>::skip_number, (p,), r),
        old(p).rest() == w + (c + rest),
        text::are_blank(w),
        forall|i: int| 0 <= i < c.len() ==> values::lengthens(#[trigger] c[i]),
        !text::begins(rest, |b: u8| values::lengthens(b)),
        c.len() == 0 ==> !text::begins(rest, |b: u8| text::is_blank(b)),
    ensures
        r is Ok <==> exists|n: Numeral| n.wf() && #[trigger] n.text() == c,
        r is Ok ==> final(p).rest() == rest,
        r is Err ==> r == Err::<(), ParseError>(ParseError::BadNumber),
{
    let s = c + rest;
    if c.len() > 0 {
        assert(values::lengthens(c[0]));
        assert(s[0] == c[0]);
    } else {
        assert(s =~= rest);
    }
    text::lemma_blanks_end(w, s);
    assert forall|i: int| 0 <= i < c.len() implies grammar::is_number_byte(#[trigger] s[i]) by {
        assert(s[i] == c[i]);
    }
    lex::lemma_leading_is(s, |b: u8| grammar::is_number_byte(b), c.len() as int);
    assert(s.take(c.len() as int) =~= c);
    assert(s.skip(c.len() as int) =~= rest);
    if grammar::is_number(c) {
        let n = values::lemma_numeral_of(c);
        assert(n.text() == c);
    }
    if exists|n: Numeral| n.wf() && #[trigger] n.text() == c {
        let n = choose|n: Numeral| n.wf() && #[trigger] n.text() == c;
        values::lemma_numeral(n);
    }
}

} // verus!
