//! What is found and read in a JSON text, stated byte by byte.
use crate::bytes;
use crate::json;
use crate::json::{Decimal, NumberText};
use crate::lex;
use crate::text;
use vstd::prelude::*;

verus! {

/// The quoted `key` stands at `i`, and its colon, behind any number of spaces, at `c`.
pub open spec fn colon_of(data: Seq<u8>, key: Seq<u8>, i: int, c: int) -> bool {
    let q = i + 1 + key.len();
    &&& 0 <= i
    &&& q + 1 <= c < data.len()
    &&& data[i] == 0x22
    &&& forall|j: int| 0 <= j < key.len() ==> data[i + 1 + j] == #[trigger] key[j]
    &&& data[q] == 0x22
    &&& forall|j: int| q < j < c ==> #[trigger] data[j] == 0x20
    &&& data[c] == 0x3a
}

/// Behind the colon at `c` there is white space up to `p`, and no further.
pub open spec fn value_of(data: Seq<u8>, c: int, p: int) -> bool {
    &&& c < p <= data.len()
    &&& forall|j: int| c < j < p ==> text::is_blank(#[trigger] data[j])
    &&& p < data.len() ==> !text::is_blank(data[p])
}

/// The quoted `key` stands at `i`, with its colon.
pub open spec fn key_stands(data: Seq<u8>, key: Seq<u8>, i: int) -> bool {
    exists|c: int| #[trigger] colon_of(data, key, i, c)
}

/// The first `key` from `from` on has its value at `p`.
pub open spec fn first_value(data: Seq<u8>, key: Seq<u8>, from: int, p: int) -> bool {
    exists|i: int, c: int|
        {
            &&& from <= i
            &&& #[trigger] colon_of(data, key, i, c)
            &&& value_of(data, c, p)
            &&& forall|j: int| from <= j < i ==> !#[trigger] key_stands(data, key, j)
        }
}

/// There is no `key` from `from` on.
pub open spec fn no_value(data: Seq<u8>, key: Seq<u8>, from: int) -> bool {
    forall|j: int| from <= j ==> !#[trigger] key_stands(data, key, j)
}

proof fn lemma_key_at(data: Seq<u8>, key: Seq<u8>, i: int)
    requires
        0 <= i,
    ensures
        json::is_key_at(data, key, i) <==> key_stands(data, key, i),
        json::is_key_at(data, key, i) ==> {
            &&& colon_of(data, key, i, json::colon_pos(data, key, i))
            &&& value_of(data, json::colon_pos(data, key, i), json::value_pos(data, key, i))
        },
{
    let q = i + 1 + key.len();
    let space = |b: u8| b == ' ' as u8;
    let c = json::colon_pos(data, key, i);
    if json::is_key_at(data, key, i) {
        let s = data.skip(q + 1);
        lex::lemma_leading(s, space);
        assert forall|j: int| q < j < c implies #[trigger] data[j] == 0x20 by {
            assert(s[j - q - 1] == data[j]);
        }
        assert forall|j: int| 0 <= j < key.len() implies data[i + 1 + j] == #[trigger] key[j] by {
            assert(data.subrange(i + 1, i + 1 + key.len())[j] == key[j]);
        }
        assert(colon_of(data, key, i, c));
        let t = data.skip(c + 1);
        lex::lemma_leading(t, |b: u8| lex::is_space(b));
        let p = json::value_pos(data, key, i);
        assert forall|j: int| c < j < p implies text::is_blank(#[trigger] data[j]) by {
            assert(t[j - c - 1] == data[j]);
        }
        if p < data.len() {
            assert(t[p - c - 1] == data[p]);
        }
    }
    if key_stands(data, key, i) {
        let d = choose|d: int| #[trigger] colon_of(data, key, i, d);
        let s = data.skip(q + 1);
        assert forall|j: int| 0 <= j < d - q - 1 implies space(#[trigger] s[j]) by {
            assert(s[j] == data[j + q + 1]);
        }
        assert(s[d - q - 1] == data[d]);
        lex::lemma_leading_is(s, space, d - q - 1);
        assert(data.subrange(i + 1, i + 1 + key.len()) =~= key);
    }
}

/// What looking for a key finds.
pub proof fn lemma_find(data: Seq<u8>, key: Seq<u8>, from: int)
    requires
        0 <= from,
    ensures
        match json::find(data, key, from) {
            Some(p) => first_value(data, key, from, p) && p <= data.len(),
            None => no_value(data, key, from),
        },
    decreases data.len() - from,
{
    lemma_key_at(data, key, from);
    if from + key.len() + 2 >= data.len() {
        assert forall|j: int| from <= j implies !#[trigger] key_stands(data, key, j) by {}
    } else if json::is_key_at(data, key, from) {
        let c = json::colon_pos(data, key, from);
        assert(colon_of(data, key, from, c));
    } else {
        lemma_find(data, key, from + 1);
        match json::find(data, key, from + 1) {
            Some(p) => {
                let (i, c) = choose|i: int, c: int|
                    {
                        &&& from + 1 <= i
                        &&& #[trigger] colon_of(data, key, i, c)
                        &&& value_of(data, c, p)
                        &&& forall|j: int|
                            from + 1 <= j < i ==> !#[trigger] key_stands(data, key, j)
                    };
                assert(colon_of(data, key, i, c));
            },
            None => {},
        }
    }
}

/// The first value is only one.
pub proof fn lemma_first_is_found(data: Seq<u8>, key: Seq<u8>, from: int)
    requires
        0 <= from,
    ensures
        forall|p: int| #[trigger]
            first_value(data, key, from, p) ==> json::find(data, key, from) == Some(p),
        no_value(data, key, from) ==> json::find(data, key, from) is None,
{
    lemma_find(data, key, from);
    assert forall|p: int| #[trigger] first_value(data, key, from, p) implies json::find(
        data,
        key,
        from,
    ) == Some(p) by {
        let (i, c) = choose|i: int, c: int|
            {
                &&& from <= i
                &&& #[trigger] colon_of(data, key, i, c)
                &&& value_of(data, c, p)
                &&& forall|j: int| from <= j < i ==> !#[trigger] key_stands(data, key, j)
            };
        assert(key_stands(data, key, i));
        match json::find(data, key, from) {
            None => {},
            Some(p2) => {
                let (i2, c2) = choose|i: int, c: int|
                    {
                        &&& from <= i
                        &&& #[trigger] colon_of(data, key, i, c)
                        &&& value_of(data, c, p2)
                        &&& forall|j: int| from <= j < i ==> !#[trigger] key_stands(data, key, j)
                    };
                assert(key_stands(data, key, i2));
                assert(i == i2);
                if c < c2 {
                    assert(data[c] == 0x20);
                }
                if c2 < c {
                    assert(data[c2] == 0x20);
                }
                if p < p2 {
                    assert(text::is_blank(data[p]));
                }
                if p2 < p {
                    assert(text::is_blank(data[p2]));
                }
            },
        }
    }
    if no_value(data, key, from) && json::find(data, key, from) is Some {
        let p = json::find(data, key, from)->0;
        let (i, c) = choose|i: int, c: int|
            {
                &&& from <= i
                &&& #[trigger] colon_of(data, key, i, c)
                &&& value_of(data, c, p)
                &&& forall|j: int| from <= j < i ==> !#[trigger] key_stands(data, key, j)
            };
        assert(key_stands(data, key, i));
    }
}

/// A key is found where it first stands, quoted and with its colon, and what is found is
/// where its value begins: spaces may stand before the colon, white space behind it.
pub proof fn law_key_is_found_where_it_stands(
    data: &[u8],
    key: &[u8],
    from: usize,
    r: Option<usize>,
)
    requires
        call_ensures(json::find_key, (data, key, from), r),
    ensures
        match r {
            Some(p) => first_value(data@, key@, from as int, p as int),
            None => no_value(data@, key@, from as int),
        },
{
    lemma_find(data@, key@, from as int);
}

/// A section is found where its key first stands in the whole text.
pub proof fn law_section_is_found_where_it_stands(data: &[u8], name: &[u8], r: Option<usize>)
    requires
        call_ensures(json::find_section, (data, name), r),
    ensures
        match r {
            Some(p) => first_value(data@, name@, 0, p as int),
            None => no_value(data@, name@, 0),
        },
{
    lemma_find(data@, name@, 0);
}

/// `n` stands at `p`: a minus sign if it is negative, all figures up to the next byte that is
/// none, and where that is a point, all figures behind it. Where nothing of it stands, it has
/// no figure.
pub open spec fn number_stands(data: Seq<u8>, p: int, n: NumberText) -> bool {
    let a = p + if n.negative {
        1int
    } else {
        0
    };
    let b = a + n.whole.len();
    let c = b + 1 + n.fraction.len();
    &&& text::are_figures(n.whole)
    &&& text::are_figures(n.fraction)
    &&& n.negative <==> p < data.len() && data[p] == 0x2d
    &&& n.whole.len() > 0 ==> b <= data.len() && data.subrange(a, b) == n.whole
    &&& b < data.len() ==> !text::is_figure(data[b])
    &&& if b < data.len() && data[b] == 0x2e {
        &&& c <= data.len()
        &&& data.subrange(b + 1, c) == n.fraction
        &&& c < data.len() ==> !text::is_figure(data[c])
    } else {
        n.fraction.len() == 0
    }
}

proof fn lemma_digits_at(data: Seq<u8>, a: int)
    requires
        0 <= a <= data.len(),
    ensures
        ({
            let b = a + lex::digits(data.skip(a));
            &&& a <= b <= data.len()
            &&& text::are_figures(data.subrange(a, b))
            &&& b < data.len() ==> !text::is_figure(data[b])
        }),
{
    let s = data.skip(a);
    lex::lemma_leading(s, |b: u8| lex::is_digit(b));
    let b = a + lex::digits(s);
    assert forall|i: int| 0 <= i < b - a implies text::is_figure(
        #[trigger] data.subrange(a, b)[i],
    ) by {
        assert(s[i] == data[a + i]);
    }
    if b < data.len() {
        assert(s[b - a] == data[b]);
    }
}

pub proof fn lemma_number_at(data: Seq<u8>, p: int)
    requires
        0 <= p,
    ensures
        number_stands(data, p, json::number_at(data, p).0),
{
    if p < data.len() {
        let a = if data[p] == '-' as u8 {
            p + 1
        } else {
            p
        };
        lemma_digits_at(data, a);
        let b = a + lex::digits(data.skip(a));
        if b < data.len() && data[b] == '.' as u8 {
            lemma_digits_at(data, b + 1);
        }
    }
}

/// Only one number stands at a place.
pub proof fn law_only_one_number_stands(data: Seq<u8>, p: int, m: NumberText, n: NumberText)
    requires
        0 <= p <= data.len(),
        number_stands(data, p, m),
        number_stands(data, p, n),
    ensures
        m == n,
{
    assert(m.negative == n.negative);
    let a = p + if n.negative {
        1int
    } else {
        0
    };
    let b = a + m.whole.len();
    let d = a + n.whole.len();
    if b < d {
        assert(n.whole[b - a] == data.subrange(a, d)[b - a]);
        assert(text::is_figure(n.whole[b - a]));
    }
    if d < b {
        assert(m.whole[d - a] == data.subrange(a, b)[d - a]);
        assert(text::is_figure(m.whole[d - a]));
    }
    assert(m.whole =~= n.whole);
    if b < data.len() && data[b] == 0x2e {
        let e = b + 1 + m.fraction.len();
        let f = b + 1 + n.fraction.len();
        if e < f {
            assert(n.fraction[e - b - 1] == data.subrange(b + 1, f)[e - b - 1]);
            assert(text::is_figure(n.fraction[e - b - 1]));
        }
        if f < e {
            assert(m.fraction[f - b - 1] == data.subrange(b + 1, e)[f - b - 1]);
            assert(text::is_figure(m.fraction[f - b - 1]));
        }
        assert(m.fraction =~= n.fraction);
    } else {
        assert(m.fraction =~= n.fraction);
    }
}

/// A number is read as it stands, and reading ends behind it.
pub proof fn law_number_is_read_as_it_stands(data: &[u8], pos: usize, r: (Decimal, usize))
    requires
        call_ensures(json::parse_json_float, (data, pos), r),
    ensures
        number_stands(data@, pos as int, r.0@),
        ({
            let b = pos + (if r.0.negative {
                1int
            } else {
                0
            }) + r.0.whole@.len();
            r.1 == if b < data@.len() && data@[b] == 0x2e {
                b + 1 + r.0.fraction@.len()
            } else {
                b
            }
        }),
{
    lemma_number_at(data@, pos as int);
    if pos < data@.len() {
        let a = if data@[pos as int] == '-' as u8 {
            pos + 1
        } else {
            pos as int
        };
        lemma_digits_at(data@, a);
        let b = a + lex::digits(data@.skip(a));
        if b < data@.len() && data@[b] == '.' as u8 {
            lemma_digits_at(data@, b + 1);
        }
    }
}

/// `s` stands in quotes at `p`: all bytes from the quote at `p` to the next one, or to the end
/// of the text. Where there is no quote, nothing stands.
pub open spec fn text_stands(data: Seq<u8>, p: int, s: Seq<u8>) -> bool {
    if p < data.len() && data[p] == 0x22 {
        let e = p + 1 + s.len();
        &&& e <= data.len()
        &&& data.subrange(p + 1, e) == s
        &&& forall|i: int| 0 <= i < s.len() ==> #[trigger] s[i] != 0x22
        &&& e < data.len() ==> data[e] == 0x22
    } else {
        s.len() == 0
    }
}

pub proof fn lemma_string_at(data: Seq<u8>, p: int)
    requires
        0 <= p,
    ensures
        text_stands(data, p, json::string_at(data, p).0),
        ({
            let (s, end) = json::string_at(data, p);
            end == if p < data.len() && data[p] == 0x22 {
                if p + 1 + s.len() < data.len() {
                    p + 2 + s.len()
                } else {
                    data.len() as int
                }
            } else {
                p
            }
        }),
{
    if p < data.len() && data[p] == '"' as u8 {
        let t = data.skip(p + 1);
        lex::lemma_leading(t, |b: u8| b != '"' as u8);
        let n = lex::leading(t, |b: u8| b != '"' as u8);
        let s = data.subrange(p + 1, p + 1 + n);
        assert forall|i: int| 0 <= i < s.len() implies #[trigger] s[i] != 0x22 by {
            assert(t[i] == data[p + 1 + i]);
        }
        if p + 1 + n < data.len() {
            assert(t[n] == data[p + 1 + n]);
        }
    }
}

/// Only one text stands at a place.
pub proof fn lemma_one_text(data: Seq<u8>, p: int, s: Seq<u8>, t: Seq<u8>)
    requires
        0 <= p,
        text_stands(data, p, s),
        text_stands(data, p, t),
    ensures
        s == t,
{
    if p < data.len() && data[p] == 0x22 {
        if s.len() < t.len() {
            assert(t[s.len() as int] == data.subrange(p + 1, p + 1 + t.len())[s.len() as int]);
        }
        if t.len() < s.len() {
            assert(s[t.len() as int] == data.subrange(p + 1, p + 1 + s.len())[t.len() as int]);
        }
    }
    assert(s =~= t);
}

/// A string is read as it stands between its quotes, and reading ends behind the closing one.
pub proof fn law_string_is_read_as_it_stands(data: &[u8], pos: usize, r: (&[u8], usize))
    requires
        call_ensures(json::parse_json_string, (data, pos), r),
    ensures
        text_stands(data@, pos as int, r.0@),
        r.1 == if pos < data@.len() && data@[pos as int] == 0x22 {
            if pos + 1 + r.0@.len() < data@.len() {
                pos + 2 + r.0@.len()
            } else {
                data@.len() as int
            }
        } else {
            pos as int
        },
{
    lemma_string_at(data@, pos as int);
}

/// `word` stands at `p`.
pub open spec fn word_stands(data: Seq<u8>, p: int, word: Seq<u8>) -> bool {
    &&& 0 <= p
    &&& p + word.len() <= data.len()
    &&& forall|j: int| 0 <= j < word.len() ==> data[p + j] == #[trigger] word[j]
}

/// `true`.
pub open spec fn yes() -> Seq<u8> {
    seq![0x74u8, 0x72, 0x75, 0x65]
}

/// `false`.
pub open spec fn no() -> Seq<u8> {
    seq![0x66u8, 0x61, 0x6c, 0x73, 0x65]
}

/// `null`.
pub open spec fn nothing() -> Seq<u8> {
    seq![0x6eu8, 0x75, 0x6c, 0x6c]
}

proof fn lemma_words()
    ensures
        json::text("true") == yes(),
        json::text("false") == no(),
        json::text("null") == nothing(),
{
    reveal_strlit("true");
    reveal_strlit("false");
    reveal_strlit("null");
    vstd::string::is_ascii_spec_bytes("true");
    vstd::string::is_ascii_spec_bytes("false");
    vstd::string::is_ascii_spec_bytes("null");
    assert(json::text("true") =~= yes());
    assert(json::text("false") =~= no());
    assert(json::text("null") =~= nothing());
}

pub proof fn lemma_holds(data: Seq<u8>, p: int, word: Seq<u8>)
    requires
        0 <= p,
    ensures
        bytes::holds_at(data, p, word) <==> word_stands(data, p, word),
{
    if bytes::holds_at(data, p, word) {
        assert forall|j: int| 0 <= j < word.len() implies data[p + j] == #[trigger] word[j] by {
            assert(data.subrange(p, p + word.len())[j] == word[j]);
        }
    }
    if word_stands(data, p, word) {
        assert(data.subrange(p, p + word.len()) =~= word);
    }
}

pub proof fn lemma_bool_at(data: Seq<u8>, p: int)
    requires
        0 <= p,
    ensures
        json::bool_at(data, p).0 <==> word_stands(data, p, yes()),
        json::bool_at(data, p).1 == if word_stands(data, p, yes()) {
            p + 4
        } else if word_stands(data, p, no()) {
            p + 5
        } else {
            p
        },
        bytes::holds_at(data, p, json::text("null")) <==> word_stands(data, p, nothing()),
{
    lemma_words();
    lemma_holds(data, p, yes());
    lemma_holds(data, p, no());
    lemma_holds(data, p, nothing());
}

/// Only the word `true` is read as true; reading ends behind it or behind `false`, and where
/// neither stands it has not moved.
pub proof fn law_boolean_is_read_as_it_stands(data: &[u8], pos: usize, r: (bool, usize))
    requires
        call_ensures(json::parse_json_bool, (data, pos), r),
    ensures
        r.0 <==> word_stands(data@, pos as int, yes()),
        r.1 == if word_stands(data@, pos as int, yes()) {
            pos + 4
        } else if word_stands(data@, pos as int, no()) {
            pos + 5
        } else {
            pos as int
        },
{
    lemma_bool_at(data@, pos as int);
}

/// Only the word `null` is null.
pub proof fn law_null_is_read_as_it_stands(data: &[u8], pos: usize, r: bool)
    requires
        call_ensures(json::is_json_null, (data, pos), r),
    ensures
        r <==> word_stands(data@, pos as int, nothing()),
{
    lemma_bool_at(data@, pos as int);
}

} // verus!
