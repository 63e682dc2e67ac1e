//! The small vocabulary of text: digits, white space and runs of bytes.
use vstd::prelude::*;

verus! {

pub open spec fn is_digit(b: u8) -> bool {
    '0' as u8 <= b <= '9' as u8
}

/// Space, line feed, carriage return or tab.
pub open spec fn is_space(b: u8) -> bool {
    b == ' ' as u8 || b == '\n' as u8 || b == '\r' as u8 || b == '\t' as u8
}

/// The number of bytes at the start of `s` that are all of one class.
pub open spec fn leading(s: Seq<u8>, class: spec_fn(u8) -> bool) -> int
    decreases s.len(),
{
    if s.len() == 0 || !class(s[0]) {
        0
    } else {
        1 + leading(s.skip(1), class)
    }
}

/// The digits at the start of `s`.
pub open spec fn digits(s: Seq<u8>) -> int {
    leading(s, |b: u8| is_digit(b))
}

/// `s` without the white space at its start.
pub open spec fn trimmed(s: Seq<u8>) -> Seq<u8> {
    s.skip(leading(s, |b: u8| is_space(b)))
}

/// The value of the digits in `s`.
pub open spec fn decimal(s: Seq<u8>) -> int
    decreases s.len(),
{
    if s.len() == 0 {
        0
    } else {
        decimal(s.drop_last()) * 10 + (s.last() - '0' as u8)
    }
}

/// What `leading` counts: all bytes before it are of the class, and none stands at it.
pub proof fn lemma_leading(s: Seq<u8>, class: spec_fn(u8) -> bool)
    ensures
        0 <= leading(s, class) <= s.len(),
        forall|i: int| 0 <= i < leading(s, class) ==> class(#[trigger] s[i]),
        leading(s, class) < s.len() ==> !class(s[leading(s, class)]),
    decreases s.len(),
{
    if s.len() > 0 && class(s[0]) {
        lemma_leading(s.skip(1), class);
        let n = leading(s.skip(1), class);
        assert forall|i: int| 0 <= i < n + 1 implies class(#[trigger] s[i]) by {
            if i > 0 {
                assert(s.skip(1)[i - 1] == s[i]);
            }
        }
        if n + 1 < s.len() {
            assert(s.skip(1)[n] == s[n + 1]);
        }
    }
}

/// A run of bytes of the class that is followed by none is what `leading` counts.
pub proof fn lemma_leading_is(s: Seq<u8>, class: spec_fn(u8) -> bool, n: int)
    requires
        0 <= n <= s.len(),
        forall|i: int| 0 <= i < n ==> class(#[trigger] s[i]),
        n < s.len() ==> !class(s[n]),
    ensures
        leading(s, class) == n,
{
    lemma_leading(s, class);
    let m = leading(s, class);
    if m < n {
        assert(class(s[m]));
    }
    if n < m {
        assert(class(s[n]));
    }
}

pub proof fn lemma_decimal_push(s: Seq<u8>, b: u8)
    ensures
        decimal(s.push(b)) == decimal(s) * 10 + (b - '0' as u8),
{
    assert(s.push(b).drop_last() =~= s);
}

/// Digits have a value that is not negative.
pub proof fn lemma_decimal_nonneg(s: Seq<u8>)
    requires
        forall|i: int| 0 <= i < s.len() ==> is_digit(#[trigger] s[i]),
    ensures
        decimal(s) >= 0,
    decreases s.len(),
{
    if s.len() > 0 {
        lemma_decimal_nonneg(s.drop_last());
        assert(is_digit(s[s.len() - 1]));
    }
}

pub fn is_ascii_digit(b: u8) -> (r: bool)
    ensures
        r == is_digit(b),
{
    '0' as u8 <= b && b <= '9' as u8
}

pub fn is_white(b: u8) -> (r: bool)
    ensures
        r == is_space(b),
{
    b == ' ' as u8 || b == '\n' as u8 || b == '\r' as u8 || b == '\t' as u8
}

/// The position behind the digits at `pos`.
pub fn skip_digits(data: &[u8], pos: usize) -> (r: usize)
    requires
        pos <= data@.len(),
    ensures
        r == pos + digits(data@.skip(pos as int)),
        pos <= r <= data@.len(),
{
    let ghost s = data@.skip(pos as int);
    let mut i: usize = pos;
    while i < data.len() && is_ascii_digit(data[i])
        invariant
            pos <= i <= data@.len(),
            s == data@.skip(pos as int),
            forall|j: int| 0 <= j < i - pos ==> is_digit(#[trigger] s[j]),
        decreases data@.len() - i,
    {
        assert(s[i - pos] == data@[i as int]);
        i = i + 1;
    }
    proof {
        lemma_leading_is(s, |b: u8| is_digit(b), i - pos);
    }
    i
}

/// The position behind the white space at `pos`.
pub fn skip_white(data: &[u8], pos: usize) -> (r: usize)
    requires
        pos <= data@.len(),
    ensures
        r == pos + leading(data@.skip(pos as int), |b: u8| is_space(b)),
        pos <= r <= data@.len(),
{
    let ghost s = data@.skip(pos as int);
    let mut i: usize = pos;
    while i < data.len() && is_white(data[i])
        invariant
            pos <= i <= data@.len(),
            s == data@.skip(pos as int),
            forall|j: int| 0 <= j < i - pos ==> is_space(#[trigger] s[j]),
        decreases data@.len() - i,
    {
        assert(s[i - pos] == data@[i as int]);
        i = i + 1;
    }
    proof {
        lemma_leading_is(s, |b: u8| is_space(b), i - pos);
    }
    i
}

} // verus!
