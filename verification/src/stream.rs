//! Reading JSON text from a stream of bytes, through a buffer of fixed size.
use crate::grammar;
use crate::grammar::ParseError;
use crate::index::FIXED_SCALE;
use crate::lex;
use crate::lex::{is_ascii_digit, is_white, skip_digits};
use vstd::prelude::*;

verus! {

/// Bytes of the read buffer.
pub const BUF_SIZE: usize = 4_194_304;

/// A source of bytes.
pub trait ByteSource {
    /// The bytes that have not been read yet. A source that cannot say which they are, such as
    /// a file, leaves this open.
    closed spec fn rest(&self) -> Seq<u8> {
        vstd::pervasive::arbitrary()
    }

    /// Reads some of the next bytes to `buf[from..]`, at least one unless there are none left,
    /// and returns how many.
    fn read(&mut self, buf: &mut Vec<u8>, from: usize) -> (n: usize)
        requires
            from < old(buf)@.len(),
        ensures
            n <= old(buf)@.len() - from,
            n <= old(self).rest().len(),
            n == 0 ==> old(self).rest().len() == 0,
            final(buf)@ == old(buf)@.take(from as int) + old(self).rest().take(n as int) + old(
                buf,
            )@.skip(from + n),
            final(self).rest() == old(self).rest().skip(n as int),
    ;
}

/// Bytes in memory as a source.
pub struct MemorySource {
    pub data: Vec<u8>,
    pub pos: usize,
}

impl MemorySource {
    pub fn new(data: Vec<u8>) -> (r: MemorySource)
        ensures
            r.rest() == data@,
    {
        let r: MemorySource = MemorySource { data, pos: 0 };
        assert(r.rest() =~= data@);
        r
    }
}

impl ByteSource for MemorySource {
    open spec fn rest(&self) -> Seq<u8> {
        if self.pos <= self.data@.len() {
            self.data@.skip(self.pos as int)
        } else {
            Seq::empty()
        }
    }

    fn read(&mut self, buf: &mut Vec<u8>, from: usize) -> (n: usize) {
        let ghost rest = self.rest();
        let ghost before = buf@;
        let start: usize = self.pos;
        if start >= self.data.len() {
            assert(buf@ =~= before.take(from as int) + rest.take(0) + before.skip(from as int));
            assert(self.rest() =~= rest.skip(0));
            return 0;
        }
        let size: usize = self.data.len();
        let room: usize = buf.len();
        let left: usize = size - start;
        let space: usize = room - from;
        let n: usize = if left < space { left } else { space };
        let mut i: usize = 0;
        while i < n
            invariant
                i <= n,
                buf@.len() == before.len(),
                room == before.len(),
                size == self.data@.len(),
                from + n <= room,
                start + n <= size,
                rest == self.data@.skip(start as int),
                forall|j: int| 0 <= j < i ==> buf@[from + j] == #[trigger] rest[j],
                forall|j: int| 0 <= j < from ==> buf@[j] == before[j],
                forall|j: int| from + i <= j < before.len() ==> buf@[j] == before[j],
            decreases n - i,
        {
            buf[from + i] = self.data[start + i];
            i = i + 1;
        }
        self.pos = start + n;
        assert(buf@ =~= before.take(from as int) + rest.take(n as int) + before.skip(from + n));
        assert(self.rest() =~= rest.skip(n as int));
        n
    }
}

fn is_number_text_byte(b: u8) -> (r: bool)
    ensures
        r == grammar::is_number_byte(b),
{
    is_ascii_digit(b) || b == '-' as u8 || b == '+' as u8 || b == '.' as u8 || b == 'e' as u8 || b
        == 'E' as u8
}

fn skip_sign(c: &[u8], pos: usize) -> (r: usize)
    requires
        pos <= c@.len(),
    ensures
        pos <= r <= c@.len(),
        c@.skip(r as int) == grammar::unsigned(c@.skip(pos as int)),
{
    if pos < c.len() && (c[pos] == '-' as u8 || c[pos] == '+' as u8) {
        assert(c@.skip(pos as int).skip(1) =~= c@.skip(pos + 1));
        pos + 1
    } else {
        pos
    }
}

fn is_exponent_at(c: &[u8], pos: usize) -> (r: bool)
    requires
        pos <= c@.len(),
    ensures
        r == grammar::is_exponent(c@.skip(pos as int)),
{
    let ghost e = c@.skip(pos as int);
    if pos == c.len() {
        return true;
    }
    assert(e[0] == c@[pos as int]);
    assert(e.skip(1) =~= c@.skip(pos + 1));
    if c[pos] != 'e' as u8 && c[pos] != 'E' as u8 {
        return false;
    }
    let start: usize = skip_sign(c, pos + 1);
    let end: usize = skip_digits(c, start);
    start < c.len() && end == c.len()
}

/// Whether `c` is a number.
pub fn is_number_text(c: &[u8]) -> (r: bool)
    ensures
        r == grammar::is_number(c@),
{
    assert(c@.skip(0) =~= c@);
    let start: usize = skip_sign(c, 0);
    let point: usize = skip_digits(c, start);
    let ghost u = grammar::unsigned(c@);
    let ghost v = u.skip(point - start);
    assert(v =~= c@.skip(point as int));
    if point < c.len() && c[point] == '.' as u8 {
        assert(v[0] == c@[point as int]);
        assert(v.skip(1) =~= c@.skip(point + 1));
        let end: usize = skip_digits(c, point + 1);
        assert(v.skip(1).skip(end - point - 1) =~= c@.skip(end as int));
        (point - start) + (end - point - 1) > 0 && is_exponent_at(c, end)
    } else {
        point > start && is_exponent_at(c, point)
    }
}

/// A reader of JSON text.
pub struct StreamParser<S: ByteSource> {
    pub source: S,
    pub buf: Vec<u8>,
    pub pos: usize,
    pub len: usize,
    pub eof: bool,
}

impl<S: ByteSource> StreamParser<S> {
    /// The buffer is whole, and the source has nothing left once its end was seen.
    pub open spec fn wf(&self) -> bool {
        &&& self.buf@.len() == BUF_SIZE
        &&& self.pos <= self.len <= BUF_SIZE
        &&& self.eof ==> self.source.rest().len() == 0
    }

    /// The text that is still to be read.
    pub open spec fn rest(&self) -> Seq<u8> {
        self.buf@.subrange(self.pos as int, self.len as int) + self.source.rest()
    }

    /// The bytes of the text that are in the buffer.
    pub open spec fn buffered(&self) -> int {
        self.len - self.pos
    }

    pub fn new(source: S) -> (r: Self)
        ensures
            r.wf(),
            r.rest() == source.rest(),
    {
        let mut buf: Vec<u8> = Vec::with_capacity(BUF_SIZE);
        while buf.len() < BUF_SIZE
            invariant
                buf@.len() <= BUF_SIZE,
            decreases BUF_SIZE - buf@.len(),
        {
            buf.push(0);
        }
        let r: Self = StreamParser { source, buf, pos: 0, len: 0, eof: false };
        assert(r.rest() =~= source.rest());
        r
    }

    /// Moves what is buffered to the front of the buffer.
    fn shift(&mut self)
        requires
            old(self).wf(),
        ensures
            final(self).wf(),
            final(self).rest() == old(self).rest(),
            final(self).pos == 0,
            final(self).eof == old(self).eof,
    {
        let ghost rest = self.rest();
        let ghost before = self.buf@;
        let remaining: usize = self.len - self.pos;
        let mut i: usize = 0;
        while i < remaining
            invariant
                i <= remaining,
                remaining == self.len - self.pos,
                self.pos <= self.len <= BUF_SIZE,
                self.buf@.len() == BUF_SIZE,
                before.len() == BUF_SIZE,
                self.source == old(self).source,
                self.pos == old(self).pos,
                self.len == old(self).len,
                self.eof == old(self).eof,
                forall|j: int| 0 <= j < i ==> self.buf@[j] == before[self.pos + j],
                forall|j: int| i <= j < BUF_SIZE ==> self.buf@[j] == before[j],
            decreases remaining - i,
        {
            let b: u8 = self.buf[self.pos + i];
            self.buf[i] = b;
            i = i + 1;
        }
        let ghost start = self.pos as int;
        let ghost end = self.len as int;
        assert(self.buf@.subrange(0, remaining as int) =~= before.subrange(start, end));
        self.pos = 0;
        self.len = remaining;
        assert(self.rest() =~= rest);
    }

    /// Makes `need` bytes of the text available in the buffer, or all that is left of it, or as
    /// many as the buffer holds. Returns false only at the end of the text.
    pub fn ensure(&mut self, need: usize) -> (r: bool)
        requires
            old(self).wf(),
        ensures
            final(self).wf(),
            final(self).rest() == old(self).rest(),
            r == (need == 0 || old(self).rest().len() > 0),
            final(self).buffered() >= need || final(self).buffered() == old(self).rest().len()
                || final(self).buffered() == BUF_SIZE,
    {
        let ghost rest = self.rest();
        if need <= self.len - self.pos {
            return true;
        }
        if self.eof {
            return self.pos < self.len;
        }
        self.shift();
        while self.len < BUF_SIZE && !self.eof
            invariant
                self.wf(),
                self.pos == 0,
                self.rest() == rest,
            decreases BUF_SIZE - self.len, if self.eof { 0int } else { 1int },
        {
            let ghost buffered = self.buf@.subrange(0, self.len as int);
            let ghost coming = self.source.rest();
            let from: usize = self.len;
            let n: usize = self.source.read(&mut self.buf, from);
            if n == 0 {
                self.eof = true;
            }
            self.len = self.len + n;
            assert(self.buf@.subrange(0, self.len as int) =~= buffered + coming.take(n as int));
            assert(self.rest() =~= rest);
        }
        self.pos < self.len
    }

    pub fn peek(&self) -> (r: u8)
        requires
            self.wf(),
            self.buffered() > 0,
        ensures
            r == self.rest()[0],
    {
        self.buf[self.pos]
    }

    pub fn advance(&mut self)
        requires
            old(self).wf(),
            old(self).buffered() > 0,
        ensures
            final(self).wf(),
            final(self).rest() == old(self).rest().skip(1),
            final(self).buffered() == old(self).buffered() - 1,
    {
        let ghost rest = self.rest();
        self.pos = self.pos + 1;
        assert(self.rest() =~= rest.skip(1));
    }

    pub fn has_data(&mut self) -> (r: bool)
        requires
            old(self).wf(),
        ensures
            final(self).wf(),
            final(self).rest() == old(self).rest(),
            r == (old(self).rest().len() > 0),
            r ==> final(self).buffered() > 0,
    {
        self.ensure(1)
    }

    /// Skips white space.
    pub fn skip_ws(&mut self)
        requires
            old(self).wf(),
        ensures
            final(self).wf(),
            final(self).rest() == lex::trimmed(old(self).rest()),
    {
        let ghost s = self.rest();
        let ghost class = |b: u8| lex::is_space(b);
        let ghost mut n: int = 0;
        let mut more: bool = true;
        assert(s.skip(0) =~= s);
        while more
            invariant
                self.wf(),
                0 <= n <= s.len(),
                self.rest() == s.skip(n),
                class == (|b: u8| lex::is_space(b)),
                forall|i: int| 0 <= i < n ==> class(#[trigger] s[i]),
                !more ==> n < s.len() ==> !class(s[n]),
            decreases s.len() - n, if more { 1int } else { 0int },
        {
            if self.has_data() && is_white(self.peek()) {
                self.advance();
                proof {
                    assert(s.skip(n)[0] == s[n]);
                    assert(s.skip(n).skip(1) =~= s.skip(n + 1));
                    n = n + 1;
                }
            } else {
                proof {
                    if n < s.len() {
                        assert(s.skip(n)[0] == s[n]);
                    }
                }
                more = false;
            }
        }
        proof {
            lex::lemma_leading_is(s, class, n);
        }
    }

    /// Takes the byte `b` behind white space.
    pub fn expect(&mut self, b: u8) -> (r: Result<(), ParseError>)
        requires
            old(self).wf(),
        ensures
            final(self).wf(),
            match r {
                Ok(_) => grammar::expected(old(self).rest(), b) == Ok::<Seq<u8>, ParseError>(
                    final(self).rest(),
                ),
                Err(e) => grammar::expected(old(self).rest(), b) == Err::<Seq<u8>, ParseError>(e),
            },
    {
        self.skip_ws();
        if !self.has_data() {
            return Err(ParseError::ExpectedAtEnd(b));
        }
        let found: u8 = self.peek();
        if found != b {
            return Err(ParseError::Unexpected(b, found));
        }
        self.advance();
        Ok(())
    }

    /// Reads digits: how many there are, up to five, and their value, up to a million.
    fn read_digits(&mut self) -> (r: (usize, i64))
        requires
            old(self).wf(),
        ensures
            final(self).wf(),
            ({
                let s = old(self).rest();
                let n = lex::digits(s);
                let value = lex::decimal(s.take(n));
                &&& 0 <= n <= s.len()
                &&& final(self).rest() == s.skip(n)
                &&& r.0 == (if n < 5 {
                    n
                } else {
                    5
                })
                &&& r.1 == (if value < 1_000_000 {
                    value
                } else {
                    1_000_000
                })
                &&& value >= 0
                &&& n <= 4 ==> value < 10_000
            }),
    {
        let ghost s = self.rest();
        let ghost class = |b: u8| lex::is_digit(b);
        let ghost mut n: int = 0;
        let mut count: usize = 0;
        let mut value: i64 = 0;
        let mut more: bool = true;
        assert(s.skip(0) =~= s);
        assert(lex::decimal(s.take(0)) == 0);
        while more
            invariant
                self.wf(),
                0 <= n <= s.len(),
                self.rest() == s.skip(n),
                class == (|b: u8| lex::is_digit(b)),
                forall|i: int| 0 <= i < n ==> class(#[trigger] s[i]),
                !more ==> n < s.len() ==> !class(s[n]),
                count == (if n < 5 {
                    n
                } else {
                    5
                }),
                0 <= lex::decimal(s.take(n)),
                n == 0 ==> lex::decimal(s.take(n)) == 0,
                n == 1 ==> lex::decimal(s.take(n)) < 10,
                n == 2 ==> lex::decimal(s.take(n)) < 100,
                n == 3 ==> lex::decimal(s.take(n)) < 1_000,
                n == 4 ==> lex::decimal(s.take(n)) < 10_000,
                value == (if lex::decimal(s.take(n)) < 1_000_000 {
                    lex::decimal(s.take(n))
                } else {
                    1_000_000
                }),
            decreases s.len() - n, if more { 1int } else { 0int },
        {
            if self.has_data() && is_ascii_digit(self.peek()) {
                let b: u8 = self.peek();
                self.advance();
                value = value * 10 + (b - '0' as u8) as i64;
                if value > 1_000_000 {
                    value = 1_000_000;
                }
                if count < 5 {
                    count = count + 1;
                }
                proof {
                    assert(s.skip(n)[0] == s[n]);
                    assert(s.skip(n).skip(1) =~= s.skip(n + 1));
                    assert(s.take(n + 1) =~= s.take(n).push(s[n]));
                    lex::lemma_decimal_push(s.take(n), s[n]);
                    n = n + 1;
                }
            } else {
                proof {
                    if n < s.len() {
                        assert(s.skip(n)[0] == s[n]);
                    }
                }
                more = false;
            }
        }
        proof {
            lex::lemma_leading_is(s, class, n);
        }
        (count, value)
    }

    /// Reads a number with at most four decimal places as a fixed-point number.
    pub fn parse_fixed4_i16(&mut self) -> (r: Result<i16, ParseError>)
        requires
            old(self).wf(),
        ensures
            final(self).wf(),
            match r {
                Ok(v) => grammar::fixed4(old(self).rest()) == Ok::<(i16, Seq<u8>), ParseError>(
                    (v, final(self).rest()),
                ),
                Err(e) => grammar::fixed4(old(self).rest()) == Err::<(i16, Seq<u8>), ParseError>(e),
            },
    {
        self.skip_ws();
        if !self.has_data() {
            return Err(ParseError::NumberAtEnd);
        }
        let sign: u8 = self.peek();
        let negative: bool = sign == '-' as u8;
        if negative || sign == '+' as u8 {
            self.advance();
        }
        let ghost u = self.rest();
        let (int_digits, int_part): (usize, i64) = self.read_digits();
        let ghost v = self.rest();
        let ghost w = v.skip(1);
        let mut digits: usize = 0;
        let mut frac: i64 = 0;
        if self.has_data() && self.peek() == '.' as u8 {
            self.advance();
            let (frac_digits, frac_part): (usize, i64) = self.read_digits();
            digits = frac_digits;
            frac = frac_part;
        } else {
            assert(lex::decimal(w.take(0)) == 0);
        }
        if digits > 4 {
            return Err(ParseError::TooManyDecimals);
        }
        if int_digits + digits == 0 {
            return Err(ParseError::NoDigit);
        }
        let unit: i64 = if digits == 0 {
            10_000
        } else if digits == 1 {
            1_000
        } else if digits == 2 {
            100
        } else if digits == 3 {
            10
        } else {
            1
        };
        assert(unit == grammar::place_value(digits as int));
        assert(0 <= frac < 10_000);
        assert(0 <= frac * unit <= 100_000_000) by (nonlinear_arith)
            requires
                0 <= frac < 10_000,
                1 <= unit <= 10_000,
        ;
        let size: i64 = int_part * FIXED_SCALE as i64 + frac * unit;
        let fixed: i64 = if negative { -size } else { size };
        if fixed < i16::MIN as i64 || fixed > i16::MAX as i64 {
            return Err(ParseError::OutOfRange);
        }
        Ok(fixed as i16)
    }

    /// Reads a string without escapes. Keeps its first eight bytes, and returns its length.
    pub fn parse_string_into(&mut self, out: &mut [u8; 8]) -> (r: Result<usize, ParseError>)
        requires
            old(self).wf(),
        ensures
            final(self).wf(),
            match r {
                Ok(n) => match grammar::quoted(old(self).rest()) {
                    Ok((text, rest)) => {
                        &&& final(self).rest() == rest
                        &&& n == (if text.len() < usize::MAX {
                            text.len() as int
                        } else {
                            usize::MAX as int
                        })
                        &&& forall|i: int|
                            0 <= i < 8 && i < text.len() ==> #[trigger] final(out)@[i] == text[i]
                        &&& forall|i: int|
                            text.len() <= i < 8 ==> #[trigger] final(out)@[i] == old(out)@[i]
                        &&& final(out)@ == grammar::laid_over(old(out)@, text)
                    },
                    Err(_) => false,
                },
                Err(e) => grammar::quoted(old(self).rest()) == Err::<
                    (Seq<u8>, Seq<u8>),
                    ParseError,
                >(e),
            },
    {
        match self.expect('"' as u8) {
            Ok(_) => {},
            Err(e) => {
                return Err(e);
            },
        }
        let ghost s = self.rest();
        let ghost class = |b: u8| b != '"' as u8;
        let ghost mut k: int = 0;
        let ghost before = out@;
        let mut n: usize = 0;
        assert(s.skip(0) =~= s);
        while self.has_data()
            invariant
                self.wf(),
                0 <= k <= s.len(),
                self.rest() == s.skip(k),
                class == (|b: u8| b != '"' as u8),
                forall|i: int| 0 <= i < k ==> class(#[trigger] s[i]),
                n == (if k < usize::MAX {
                    k
                } else {
                    usize::MAX as int
                }),
                before == old(out)@,
                grammar::expected(old(self).rest(), '"' as u8) == Ok::<Seq<u8>, ParseError>(s),
                forall|i: int| 0 <= i < 8 && i < k ==> #[trigger] out@[i] == s[i],
                forall|i: int| k <= i < 8 ==> #[trigger] out@[i] == before[i],
            decreases s.len() - k,
        {
            let b: u8 = self.peek();
            self.advance();
            proof {
                assert(s.skip(k)[0] == s[k]);
                assert(s.skip(k).skip(1) =~= s.skip(k + 1));
            }
            if b == '"' as u8 {
                proof {
                    lex::lemma_leading_is(s, class, k);
                }
                return Ok(n);
            }
            if n < 8 {
                out[n] = b;
            }
            if n < usize::MAX {
                n = n + 1;
            }
            proof {
                k = k + 1;
            }
        }
        proof {
            lex::lemma_leading_is(s, class, k);
        }
        Err(ParseError::UnterminatedString)
    }

    /// Skips a string with escapes.
    pub fn skip_string(&mut self) -> (r: Result<(), ParseError>)
        requires
            old(self).wf(),
        ensures
            final(self).wf(),
            match r {
                Ok(_) => grammar::after_string(old(self).rest()) == Ok::<Seq<u8>, ParseError>(
                    final(self).rest(),
                ),
                Err(e) => grammar::after_string(old(self).rest()) == Err::<Seq<u8>, ParseError>(e),
            },
    {
        match self.expect('"' as u8) {
            Ok(_) => {},
            Err(e) => {
                return Err(e);
            },
        }
        let ghost want = grammar::string_end(self.rest());
        while self.has_data()
            invariant
                self.wf(),
                grammar::after_string(old(self).rest()) == want,
                grammar::string_end(self.rest()) == want,
            decreases self.rest().len(),
        {
            let ghost s = self.rest();
            let b: u8 = self.peek();
            self.advance();
            if b == '"' as u8 {
                return Ok(());
            }
            if b == '\\' as u8 && self.has_data() {
                self.advance();
                assert(s.skip(1).skip(1) =~= s.skip(2));
            }
        }
        Err(ParseError::UnterminatedString)
    }

    /// Skips a number.
    pub fn skip_number(&mut self) -> (r: Result<(), ParseError>)
        requires
            old(self).wf(),
        ensures
            final(self).wf(),
            match r {
                Ok(_) => grammar::after_number(old(self).rest()) == Ok::<Seq<u8>, ParseError>(
                    final(self).rest(),
                ),
                Err(e) => grammar::after_number(old(self).rest()) == Err::<Seq<u8>, ParseError>(e),
            },
    {
        self.skip_ws();
        let ghost s = self.rest();
        let ghost class = |b: u8| grammar::is_number_byte(b);
        let mut text: Vec<u8> = Vec::new();
        let mut more: bool = true;
        assert(s.skip(0) =~= s);
        assert(s.take(0) =~= text@);
        while more
            invariant
                self.wf(),
                text@.len() <= s.len(),
                self.rest() == s.skip(text@.len() as int),
                text@ == s.take(text@.len() as int),
                class == (|b: u8| grammar::is_number_byte(b)),
                forall|i: int| 0 <= i < text@.len() ==> class(#[trigger] s[i]),
                !more ==> text@.len() < s.len() ==> !class(s[text@.len() as int]),
            decreases s.len() - text@.len(), if more { 1int } else { 0int },
        {
            let ghost n = text@.len() as int;
            if self.has_data() && is_number_text_byte(self.peek()) {
                text.push(self.peek());
                self.advance();
                assert(s.skip(n)[0] == s[n]);
                assert(s.skip(n).skip(1) =~= s.skip(n + 1));
                assert(text@ =~= s.take(n + 1));
            } else {
                proof {
                    if n < s.len() {
                        assert(s.skip(n)[0] == s[n]);
                    }
                }
                more = false;
            }
        }
        proof {
            lex::lemma_leading_is(s, class, text@.len() as int);
        }
        if is_number_text(text.as_slice()) {
            Ok(())
        } else {
            Err(ParseError::BadNumber)
        }
    }

    /// Skips `n` bytes, or what is left of the text.
    fn skip_bytes(&mut self, n: usize)
        requires
            old(self).wf(),
        ensures
            final(self).wf(),
            final(self).rest() == grammar::without(old(self).rest(), n as int),
    {
        let ghost s = self.rest();
        let mut i: usize = 0;
        assert(s.skip(0) =~= s);
        while i < n && self.has_data()
            invariant
                self.wf(),
                i <= n,
                i <= s.len(),
                self.rest() == s.skip(i as int),
            decreases n - i,
        {
            self.advance();
            assert(s.skip(i as int).skip(1) =~= s.skip(i + 1));
            i = i + 1;
        }
        assert(self.rest() =~= grammar::without(s, n as int));
    }

    /// Skips any value.
    pub fn skip_value(&mut self) -> (r: Result<(), ParseError>)
        requires
            old(self).wf(),
        ensures
            final(self).wf(),
            match r {
                Ok(_) => grammar::after_value(old(self).rest()) == Ok::<Seq<u8>, ParseError>(
                    final(self).rest(),
                ),
                Err(e) => grammar::after_value(old(self).rest()) == Err::<Seq<u8>, ParseError>(e),
            },
        decreases old(self).rest().len(), 0int,
    {
        let ghost s = self.rest();
        proof {
            grammar::lemma_trimmed(s);
        }
        self.skip_ws();
        if !self.has_data() {
            return Ok(());
        }
        let ghost t = self.rest();
        let first: u8 = self.peek();
        if first == '"' as u8 {
            return self.skip_string();
        }
        if first == '[' as u8 {
            self.advance();
            proof {
                grammar::lemma_trimmed(self.rest());
            }
            self.skip_ws();
            if self.has_data() && self.peek() == ']' as u8 {
                self.advance();
                return Ok(());
            }
            return self.skip_items();
        }
        if first == '{' as u8 {
            self.advance();
            proof {
                grammar::lemma_trimmed(self.rest());
            }
            self.skip_ws();
            if self.has_data() && self.peek() == '}' as u8 {
                self.advance();
                return Ok(());
            }
            return self.skip_members();
        }
        if first == 't' as u8 || first == 'n' as u8 {
            self.skip_bytes(4);
            return Ok(());
        }
        if first == 'f' as u8 {
            self.skip_bytes(5);
            return Ok(());
        }
        self.skip_number()
    }

    /// Skips the items of an array, up to its closing bracket.
    fn skip_items(&mut self) -> (r: Result<(), ParseError>)
        requires
            old(self).wf(),
        ensures
            final(self).wf(),
            match r {
                Ok(_) => grammar::after_items(old(self).rest()) == Ok::<Seq<u8>, ParseError>(
                    final(self).rest(),
                ),
                Err(e) => grammar::after_items(old(self).rest()) == Err::<Seq<u8>, ParseError>(e),
            },
        decreases old(self).rest().len(), 1int,
    {
        let ghost want = grammar::after_items(self.rest());
        loop
            invariant
                self.wf(),
                self.rest().len() <= old(self).rest().len(),
                grammar::after_items(old(self).rest()) == want,
                grammar::after_items(self.rest()) == want,
            decreases self.rest().len(),
        {
            let ghost s = self.rest();
            proof {
                grammar::lemma_after_items_shrinks(s);
            }
            match self.skip_value() {
                Ok(_) => {},
                Err(e) => {
                    return Err(e);
                },
            }
            proof {
                grammar::lemma_trimmed(self.rest());
            }
            self.skip_ws();
            if !self.has_data() {
                return Ok(());
            }
            if self.peek() == ']' as u8 {
                self.advance();
                return Ok(());
            }
            proof {
                grammar::lemma_expected_shrinks(self.rest(), ',' as u8);
            }
            match self.expect(',' as u8) {
                Ok(_) => {},
                Err(e) => {
                    return Err(e);
                },
            }
        }
    }

    /// Skips the members of an object, up to its closing brace.
    fn skip_members(&mut self) -> (r: Result<(), ParseError>)
        requires
            old(self).wf(),
        ensures
            final(self).wf(),
            match r {
                Ok(_) => grammar::after_members(old(self).rest()) == Ok::<Seq<u8>, ParseError>(
                    final(self).rest(),
                ),
                Err(e) => grammar::after_members(old(self).rest()) == Err::<Seq<u8>, ParseError>(e),
            },
        decreases old(self).rest().len(), 1int,
    {
        let ghost want = grammar::after_members(self.rest());
        loop
            invariant
                self.wf(),
                self.rest().len() <= old(self).rest().len(),
                grammar::after_members(old(self).rest()) == want,
                grammar::after_members(self.rest()) == want,
            decreases self.rest().len(),
        {
            let ghost s = self.rest();
            proof {
                grammar::lemma_after_string_shrinks(s);
            }
            match self.skip_string() {
                Ok(_) => {},
                Err(e) => {
                    return Err(e);
                },
            }
            proof {
                grammar::lemma_expected_shrinks(self.rest(), ':' as u8);
            }
            match self.expect(':' as u8) {
                Ok(_) => {},
                Err(e) => {
                    return Err(e);
                },
            }
            proof {
                grammar::lemma_after_value_shrinks(self.rest());
            }
            match self.skip_value() {
                Ok(_) => {},
                Err(e) => {
                    return Err(e);
                },
            }
            proof {
                grammar::lemma_trimmed(self.rest());
            }
            self.skip_ws();
            if !self.has_data() {
                return Ok(());
            }
            if self.peek() == '}' as u8 {
                self.advance();
                return Ok(());
            }
            proof {
                grammar::lemma_expected_shrinks(self.rest(), ',' as u8);
            }
            match self.expect(',' as u8) {
                Ok(_) => {},
                Err(e) => {
                    return Err(e);
                },
            }
        }
    }
}

} // verus!
