//! Finding and reading single values in a JSON text.
use crate::bytes;
use crate::bytes::matches_at;
use crate::lex;
use crate::lex::{skip_digits, skip_white};
use vstd::prelude::*;
use vstd::string::StringSliceAdditionalSpecFns;

verus! {

/// The bytes of a text.
pub open spec fn text(s: &str) -> Seq<u8> {
    s.spec_bytes()
}

/// The spaces at the start of `s`.
pub open spec fn blanks(s: Seq<u8>) -> int {
    lex::leading(s, |b: u8| b == ' ' as u8)
}

/// Where the colon of a quoted `key` at `i` is expected.
pub open spec fn colon_pos(data: Seq<u8>, key: Seq<u8>, i: int) -> int {
    let p = i + key.len() + 2;
    p + blanks(data.skip(p))
}

/// The quoted `key` and a colon stand at `i`.
pub open spec fn is_key_at(data: Seq<u8>, key: Seq<u8>, i: int) -> bool {
    &&& 0 <= i
    &&& i + key.len() + 2 < data.len()
    &&& data[i] == '"' as u8
    &&& bytes::holds_at(data, i + 1, key)
    &&& data[i + 1 + key.len()] == '"' as u8
    &&& colon_pos(data, key, i) < data.len()
    &&& data[colon_pos(data, key, i)] == ':' as u8
}

/// Where the value of the `key` at `i` starts.
pub open spec fn value_pos(data: Seq<u8>, key: Seq<u8>, i: int) -> int {
    let p = colon_pos(data, key, i) + 1;
    p + lex::leading(data.skip(p), |b: u8| lex::is_space(b))
}

/// Where the value of the first `key` from `from` on starts.
pub open spec fn find(data: Seq<u8>, key: Seq<u8>, from: int) -> Option<int>
    decreases data.len() - from,
{
    if from + key.len() + 2 >= data.len() {
        None
    } else if is_key_at(data, key, from) {
        Some(value_pos(data, key, from))
    } else {
        find(data, key, from + 1)
    }
}

/// What `find` finds: the first occurrence of the key, or that there is none.
pub proof fn law_find_is_first(data: Seq<u8>, key: Seq<u8>, from: int)
    requires
        0 <= from,
    ensures
        match find(data, key, from) {
            Some(p) => exists|i: int|
                #![trigger is_key_at(data, key, i)]
                {
                    &&& from <= i
                    &&& is_key_at(data, key, i)
                    &&& p == value_pos(data, key, i)
                    &&& i < p <= data.len()
                    &&& forall|j: int| from <= j < i ==> !is_key_at(data, key, j)
                },
            None => forall|j: int| from <= j ==> !is_key_at(data, key, j),
        },
    decreases data.len() - from,
{
    if from + key.len() + 2 >= data.len() {
    } else if is_key_at(data, key, from) {
        let q = from + key.len() + 2;
        lex::lemma_leading(data.skip(q), |b: u8| b == ' ' as u8);
        let p = colon_pos(data, key, from) + 1;
        lex::lemma_leading(data.skip(p), |b: u8| lex::is_space(b));
        assert(find(data, key, from) == Some(value_pos(data, key, from)));
    } else {
        law_find_is_first(data, key, from + 1);
    }
}

/// Finds the value of the first `key` from `from` on.
pub fn find_key(data: &[u8], key: &[u8], from: usize) -> (r: Option<usize>)
    ensures
        match r {
            Some(p) => find(data@, key@, from as int) == Some(p as int) && p <= data@.len(),
            None => find(data@, key@, from as int) is None,
        },
{
    let len: usize = data.len();
    let k: usize = key.len();
    let mut i: usize = from;
    while i < len && k < len - i && len - i - k > 2
        invariant
            len == data@.len(),
            k == key@.len(),
            find(data@, key@, from as int) == find(data@, key@, i as int),
        decreases len - i,
    {
        if data[i] == '"' as u8 && matches_at(data, i + 1, key) && data[i + 1 + k] == '"' as u8 {
            let start: usize = i + k + 2;
            let ghost s = data@.skip(start as int);
            let mut p: usize = start;
            while p < len && data[p] == ' ' as u8
                invariant
                    len == data@.len(),
                    start <= p <= len,
                    s == data@.skip(start as int),
                    forall|j: int| 0 <= j < p - start ==> #[trigger] s[j] == ' ' as u8,
                decreases len - p,
            {
                assert(s[p - start] == data@[p as int]);
                p = p + 1;
            }
            proof {
                lex::lemma_leading_is(s, |b: u8| b == ' ' as u8, p - start);
            }
            if p < len && data[p] == ':' as u8 {
                return Some(skip_white(data, p + 1));
            }
        }
        i = i + 1;
    }
    None
}

/// Finds the value of a section of the text.
pub fn find_section(data: &[u8], section: &[u8]) -> (r: Option<usize>)
    ensures
        match r {
            Some(p) => find(data@, section@, 0) == Some(p as int) && p <= data@.len(),
            None => find(data@, section@, 0) is None,
        },
{
    find_key(data, section, 0)
}

/// A number as it is written: a sign, and the digits before and behind the point.
pub struct NumberText {
    pub negative: bool,
    pub whole: Seq<u8>,
    pub fraction: Seq<u8>,
}

/// A number as it is written.
pub struct Decimal {
    pub negative: bool,
    pub whole: Vec<u8>,
    pub fraction: Vec<u8>,
}

impl View for Decimal {
    type V = NumberText;

    open spec fn view(&self) -> NumberText {
        NumberText { negative: self.negative, whole: self.whole@, fraction: self.fraction@ }
    }
}

/// The number that is written without any digit.
pub open spec fn zero() -> NumberText {
    NumberText { negative: false, whole: Seq::empty(), fraction: Seq::empty() }
}

/// The number one.
pub open spec fn one() -> NumberText {
    NumberText { negative: false, whole: seq!['1' as u8], fraction: Seq::empty() }
}

impl Decimal {
    pub fn zero() -> (r: Decimal)
        ensures
            r@ == zero(),
    {
        Decimal { negative: false, whole: Vec::new(), fraction: Vec::new() }
    }

    pub fn one() -> (r: Decimal)
        ensures
            r@ == one(),
    {
        let mut whole: Vec<u8> = Vec::new();
        whole.push('1' as u8);
        assert(whole@ =~= one().whole);
        Decimal { negative: false, whole, fraction: Vec::new() }
    }
}

/// The number at `pos`, and where it ends. Where none stands, it has no digit.
pub open spec fn number_at(data: Seq<u8>, pos: int) -> (NumberText, int) {
    if pos >= data.len() {
        (zero(), pos)
    } else {
        let negative = data[pos] == '-' as u8;
        let a = if negative {
            pos + 1
        } else {
            pos
        };
        let b = a + lex::digits(data.skip(a));
        let whole = data.subrange(a, b);
        if b < data.len() && data[b] == '.' as u8 {
            let c = b + 1 + lex::digits(data.skip(b + 1));
            (NumberText { negative, whole, fraction: data.subrange(b + 1, c) }, c)
        } else {
            (NumberText { negative, whole, fraction: Seq::empty() }, b)
        }
    }
}

/// A copy of `data[from..to]`.
pub fn copied(data: &[u8], from: usize, to: usize) -> (r: Vec<u8>)
    requires
        from <= to <= data@.len(),
    ensures
        r@ == data@.subrange(from as int, to as int),
{
    let mut out: Vec<u8> = Vec::new();
    bytes::write_bytes(&mut out, &data[from..to]);
    assert(out@ =~= data@.subrange(from as int, to as int));
    out
}

/// Reads the number at `pos`. Returns it and where it ends.
pub fn parse_json_float(data: &[u8], pos: usize) -> (r: (Decimal, usize))
    ensures
        (r.0@, r.1 as int) == number_at(data@, pos as int),
        pos <= r.1,
        pos <= data@.len() ==> r.1 <= data@.len(),
{
    if pos >= data.len() {
        return (Decimal::zero(), pos);
    }
    let negative: bool = data[pos] == '-' as u8;
    let a: usize = if negative { pos + 1 } else { pos };
    let b: usize = skip_digits(data, a);
    let whole: Vec<u8> = copied(data, a, b);
    if b < data.len() && data[b] == '.' as u8 {
        let c: usize = skip_digits(data, b + 1);
        (Decimal { negative, whole, fraction: copied(data, b + 1, c) }, c)
    } else {
        (Decimal { negative, whole, fraction: Vec::new() }, b)
    }
}

/// The bytes between the quotes of the string at `pos`, and where it ends. Where none
/// stands, nothing.
pub open spec fn string_at(data: Seq<u8>, pos: int) -> (Seq<u8>, int) {
    if pos >= data.len() || data[pos] != '"' as u8 {
        (Seq::empty(), pos)
    } else {
        let end = pos + 1 + lex::leading(data.skip(pos + 1), |b: u8| b != '"' as u8);
        (
            data.subrange(pos + 1, end),
            if end < data.len() {
                end + 1
            } else {
                end
            },
        )
    }
}

/// Reads the string at `pos`. Returns the bytes between its quotes and where it ends.
pub fn parse_json_string(data: &[u8], pos: usize) -> (r: (&[u8], usize))
    ensures
        (r.0@, r.1 as int) == string_at(data@, pos as int),
        pos <= r.1,
        pos <= data@.len() ==> r.1 <= data@.len(),
{
    if pos >= data.len() || data[pos] != '"' as u8 {
        let none: &[u8] = &data[0..0];
        assert(none@ =~= Seq::<u8>::empty());
        return (none, pos);
    }
    let start: usize = pos + 1;
    let ghost s = data@.skip(start as int);
    let mut i: usize = start;
    while i < data.len() && data[i] != '"' as u8
        invariant
            start <= i <= data@.len(),
            s == data@.skip(start as int),
            forall|j: int| 0 <= j < i - start ==> #[trigger] s[j] != '"' as u8,
        decreases data@.len() - i,
    {
        assert(s[i - start] == data@[i as int]);
        i = i + 1;
    }
    proof {
        lex::lemma_leading_is(s, |b: u8| b != '"' as u8, i - start);
    }
    let end: usize = if i < data.len() { i + 1 } else { i };
    (&data[start..i], end)
}

/// The boolean at `pos`, and where it ends. What is neither true nor false is false.
pub open spec fn bool_at(data: Seq<u8>, pos: int) -> (bool, int) {
    if bytes::holds_at(data, pos, text("true")) {
        (true, pos + 4)
    } else if bytes::holds_at(data, pos, text("false")) {
        (false, pos + 5)
    } else {
        (false, pos)
    }
}

proof fn lemma_word_lengths()
    ensures
        text("true").len() == 4,
        text("false").len() == 5,
        text("null").len() == 4,
{
    reveal_strlit("true");
    reveal_strlit("false");
    reveal_strlit("null");
    vstd::string::is_ascii_spec_bytes("true");
    vstd::string::is_ascii_spec_bytes("false");
    vstd::string::is_ascii_spec_bytes("null");
}

/// Reads the boolean at `pos`. Returns it and where it ends.
pub fn parse_json_bool(data: &[u8], pos: usize) -> (r: (bool, usize))
    ensures
        (r.0, r.1 as int) == bool_at(data@, pos as int),
{
    proof {
        lemma_word_lengths();
    }
    if matches_at(data, pos, "true".as_bytes()) {
        (true, pos + 4)
    } else if matches_at(data, pos, "false".as_bytes()) {
        (false, pos + 5)
    } else {
        (false, pos)
    }
}

/// Whether the value at `pos` is null.
pub fn is_json_null(data: &[u8], pos: usize) -> (r: bool)
    ensures
        r == bytes::holds_at(data@, pos as int, text("null")),
{
    matches_at(data, pos, "null".as_bytes())
}

} // verus!
