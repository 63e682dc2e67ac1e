//! Reading labelled reference vectors from a JSON array of objects:
//! `[{"vector":[0.01,...],"label":"legit"}, ...]`. Fields may come in any order, and others
//! are skipped.
use crate::bytes::matches_at;
use crate::grammar;
use crate::grammar::ParseError;
use crate::index;
use crate::index::{QVec, DIM, FIXED_SCALE};
use crate::kd::BuildRecord;
use crate::lex;
use crate::stream::{ByteSource, StreamParser};
use vstd::prelude::*;

verus! {

/// `vector`.
pub const VECTOR_KEY: [u8; 6] = [
    'v' as u8, 'e' as u8, 'c' as u8, 't' as u8, 'o' as u8, 'r' as u8,
];

/// `label`.
pub const LABEL_KEY: [u8; 5] = ['l' as u8, 'a' as u8, 'b' as u8, 'e' as u8, 'l' as u8];

/// `fraud`.
pub const FRAUD_LABEL: [u8; 5] = ['f' as u8, 'r' as u8, 'a' as u8, 'u' as u8, 'd' as u8];

/// What the fields of an object have given so far.
pub struct Fields {
    pub vector: Option<Seq<i16>>,
    pub fraud: Option<bool>,
}

/// A labelled vector.
pub struct Reference {
    pub vector: Seq<i16>,
    pub fraud: bool,
}

/// `n` numbers with commas between them, and what follows.
pub open spec fn coordinates(s: Seq<u8>, n: nat) -> Result<(Seq<i16>, Seq<u8>), ParseError>
    decreases n,
{
    if n == 0 {
        Ok((Seq::empty(), s))
    } else {
        match coordinates(s, (n - 1) as nat) {
            Err(e) => Err(e),
            Ok((v, t)) => {
                let next = if n == 1 {
                    Ok(t)
                } else {
                    grammar::expected(t, ',' as u8)
                };
                match next {
                    Err(e) => Err(e),
                    Ok(u) => match grammar::fixed4(u) {
                        Err(e) => Err(e),
                        Ok((c, rest)) => Ok((v.push(c), rest)),
                    },
                }
            },
        }
    }
}

/// The vector at the start of `s`, and what follows.
pub open spec fn vector(s: Seq<u8>) -> Result<(Seq<i16>, Seq<u8>), ParseError> {
    match grammar::expected(s, '[' as u8) {
        Err(e) => Err(e),
        Ok(t) => match coordinates(t, 14) {
            Err(e) => Err(e),
            Ok((v, u)) => match grammar::expected(u, ']' as u8) {
                Err(e) => Err(e),
                Ok(rest) => Ok((v, rest)),
            },
        },
    }
}

/// What the fields give once the value of `key` at the start of `s` is read.
pub open spec fn field_value(s: Seq<u8>, key: Seq<u8>, f: Fields) -> Result<
    (Fields, Seq<u8>),
    ParseError,
> {
    if key == VECTOR_KEY@ {
        match vector(s) {
            Err(e) => Err(e),
            Ok((v, rest)) => Ok((Fields { vector: Some(v), ..f }, rest)),
        }
    } else if key == LABEL_KEY@ {
        match grammar::quoted(s) {
            Err(e) => Err(e),
            Ok((text, rest)) => Ok((Fields { fraud: Some(text == FRAUD_LABEL@), ..f }, rest)),
        }
    } else {
        match grammar::after_value(s) {
            Err(e) => Err(e),
            Ok(rest) => Ok((f, rest)),
        }
    }
}

/// What the fields give once the field at the start of `s` is read.
pub open spec fn field(s: Seq<u8>, first: bool, f: Fields) -> Result<
    (Fields, Seq<u8>),
    ParseError,
> {
    let start = if first {
        Ok(s)
    } else {
        grammar::expected(s, ',' as u8)
    };
    match start {
        Err(e) => Err(e),
        Ok(t) => match grammar::quoted(t) {
            Err(e) => Err(e),
            Ok((key, u)) => match grammar::expected(u, ':' as u8) {
                Err(e) => Err(e),
                Ok(v) => field_value(v, key, f),
            },
        },
    }
}

/// What all fields of an object give, up to its closing brace or the end of the text. A field
/// always takes something, so the last branch is never taken.
pub open spec fn fields(s: Seq<u8>, first: bool, f: Fields) -> Result<(Fields, Seq<u8>), ParseError>
    decreases s.len(),
{
    let t = lex::trimmed(s);
    if t.len() == 0 {
        Ok((f, t))
    } else if t[0] == '}' as u8 {
        Ok((f, t.skip(1)))
    } else {
        match field(t, first, f) {
            Err(e) => Err(e),
            Ok((g, u)) => if u.len() < s.len() {
                fields(u, false, g)
            } else {
                Ok((g, u))
            },
        }
    }
}

/// The first dimension from `d` on in which a vector leaves its domain.
pub open spec fn outside(v: Seq<i16>, d: int) -> Option<int>
    decreases 14 - d,
{
    if d >= 14 {
        None
    } else if !index::coordinate_in_domain(d, v[d] as int) {
        Some(d)
    } else {
        outside(v, d + 1)
    }
}

/// The reference at the start of `s`, and what follows.
pub open spec fn entry(s: Seq<u8>) -> Result<(Reference, Seq<u8>), ParseError> {
    match grammar::expected(s, '{' as u8) {
        Err(e) => Err(e),
        Ok(t) => match fields(t, true, Fields { vector: None, fraud: None }) {
            Err(e) => Err(e),
            Ok((f, rest)) => match f.vector {
                None => Err(ParseError::MissingVector),
                Some(v) => match f.fraud {
                    None => Err(ParseError::MissingLabel),
                    Some(fraud) => match outside(v, 0) {
                        Some(d) => Err(ParseError::OutOfDomain(d as usize)),
                        None => Ok((Reference { vector: v, fraud }, rest)),
                    },
                },
            },
        },
    }
}

/// The references at the start of `s`, up to the closing bracket or the end of the text. What
/// follows a comma is always shorter, so the last branch is never taken.
pub open spec fn entries(s: Seq<u8>) -> Result<Seq<Reference>, ParseError>
    decreases s.len(),
{
    match entry(s) {
        Err(e) => Err(e),
        Ok((r, t)) => {
            let u = lex::trimmed(t);
            if u.len() == 0 || u[0] == ']' as u8 {
                Ok(seq![r])
            } else {
                match grammar::expected(u, ',' as u8) {
                    Err(e) => Err(e),
                    Ok(v) => if v.len() < s.len() {
                        match entries(v) {
                            Err(e) => Err(e),
                            Ok(more) => Ok(seq![r] + more),
                        }
                    } else {
                        Ok(seq![r])
                    },
                }
            }
        },
    }
}

/// The references of a text. What follows the array is not looked at.
pub open spec fn references(s: Seq<u8>) -> Result<Seq<Reference>, ParseError> {
    match grammar::expected(s, '[' as u8) {
        Err(e) => Err(e),
        Ok(t) => {
            let u = lex::trimmed(t);
            if u.len() > 0 && u[0] == ']' as u8 {
                Ok(Seq::empty())
            } else {
                entries(u)
            }
        },
    }
}

/// `q` has the coordinates `v` and zero in the padding.
pub open spec fn is_padded(q: QVec, v: Seq<i16>) -> bool {
    &&& v.len() == 14
    &&& forall|d: int| 0 <= d < 14 ==> #[trigger] q.0@[d] == v[d]
    &&& q.0@[14] == 0
    &&& q.0@[15] == 0
}

/// `rec` is the record of reference `r`.
pub open spec fn is_record_of(rec: BuildRecord, r: Reference) -> bool {
    &&& is_padded(rec.qvec, r.vector)
    &&& rec.label == (if r.fraud {
        1u8
    } else {
        0u8
    })
    &&& rec.key == index::key_of(rec.qvec)
}

proof fn lemma_fixed4_shrinks(s: Seq<u8>)
    ensures
        grammar::fixed4(s) matches Ok((v, t)) ==> t.len() <= s.len(),
{
    grammar::lemma_trimmed(s);
    let t = lex::trimmed(s);
    let class = |b: u8| lex::is_digit(b);
    if t.len() > 0 {
        lex::lemma_leading(t, class);
        lex::lemma_leading(t.skip(1), class);
        let signed = t[0] == '-' as u8 || t[0] == '+' as u8;
        let u = if signed {
            t.skip(1)
        } else {
            t
        };
        let v = u.skip(lex::digits(u));
        if v.len() > 0 {
            lex::lemma_leading(v.skip(1), class);
        }
    }
}

proof fn lemma_coordinates_shrink(s: Seq<u8>, n: nat)
    ensures
        coordinates(s, n) matches Ok((v, t)) ==> t.len() <= s.len() && v.len() == n,
    decreases n,
{
    if n > 0 {
        lemma_coordinates_shrink(s, (n - 1) as nat);
        match coordinates(s, (n - 1) as nat) {
            Ok((v, t)) => {
                grammar::lemma_expected_shrinks(t, ',' as u8);
                lemma_fixed4_shrinks(t);
                match grammar::expected(t, ',' as u8) {
                    Ok(u) => lemma_fixed4_shrinks(u),
                    Err(e) => {},
                }
            },
            Err(e) => {},
        }
    }
}

proof fn lemma_vector_shrinks(s: Seq<u8>)
    ensures
        vector(s) matches Ok((v, t)) ==> t.len() <= s.len() && v.len() == 14,
{
    grammar::lemma_expected_shrinks(s, '[' as u8);
    match grammar::expected(s, '[' as u8) {
        Ok(t) => {
            lemma_coordinates_shrink(t, 14);
            match coordinates(t, 14) {
                Ok((v, u)) => grammar::lemma_expected_shrinks(u, ']' as u8),
                Err(e) => {},
            }
        },
        Err(e) => {},
    }
}

proof fn lemma_quoted_shrinks(s: Seq<u8>)
    ensures
        grammar::quoted(s) matches Ok((v, t)) ==> t.len() < s.len(),
{
    grammar::lemma_expected_shrinks(s, '"' as u8);
    match grammar::expected(s, '"' as u8) {
        Ok(t) => lex::lemma_leading(t, |b: u8| b != '"' as u8),
        Err(e) => {},
    }
}

proof fn lemma_field_value_shrinks(s: Seq<u8>, key: Seq<u8>, f: Fields)
    ensures
        field_value(s, key, f) matches Ok((g, t)) ==> t.len() <= s.len(),
{
    lemma_vector_shrinks(s);
    lemma_quoted_shrinks(s);
    grammar::lemma_after_value_shrinks(s);
}

proof fn lemma_field_shrinks(s: Seq<u8>, first: bool, f: Fields)
    ensures
        field(s, first, f) matches Ok((g, t)) ==> t.len() < s.len(),
{
    grammar::lemma_expected_shrinks(s, ',' as u8);
    let start = if first {
        Ok(s)
    } else {
        grammar::expected(s, ',' as u8)
    };
    match start {
        Ok(t) => {
            lemma_quoted_shrinks(t);
            match grammar::quoted(t) {
                Ok((key, u)) => {
                    grammar::lemma_expected_shrinks(u, ':' as u8);
                    match grammar::expected(u, ':' as u8) {
                        Ok(v) => lemma_field_value_shrinks(v, key, f),
                        Err(e) => {},
                    }
                },
                Err(e) => {},
            }
        },
        Err(e) => {},
    }
}

proof fn lemma_fields_shrink(s: Seq<u8>, first: bool, f: Fields)
    ensures
        fields(s, first, f) matches Ok((g, t)) ==> t.len() <= s.len(),
    decreases s.len(),
{
    grammar::lemma_trimmed(s);
    let t = lex::trimmed(s);
    if t.len() > 0 && t[0] != '}' as u8 {
        lemma_field_shrinks(t, first, f);
        match field(t, first, f) {
            Ok((g, u)) => if u.len() < s.len() {
                lemma_fields_shrink(u, false, g);
            },
            Err(e) => {},
        }
    }
}

pub proof fn lemma_entry_shrinks(s: Seq<u8>)
    ensures
        entry(s) matches Ok((r, t)) ==> t.len() < s.len(),
{
    grammar::lemma_expected_shrinks(s, '{' as u8);
    match grammar::expected(s, '{' as u8) {
        Ok(t) => lemma_fields_shrink(t, true, Fields { vector: None, fraud: None }),
        Err(e) => {},
    }
}

/// The dimension in which the features of `qvec` first leave their domain.
pub fn assert_qvec_domain(qvec: &QVec) -> (r: Result<(), usize>)
    ensures
        match r {
            Ok(_) => outside(qvec.0@, 0) is None && qvec.features_in_domain(),
            Err(d) => outside(qvec.0@, 0) == Some(d as int),
        },
{
    let mut i: usize = 0;
    while i < DIM
        invariant
            i <= 14,
            outside(qvec.0@, 0) == outside(qvec.0@, i as int),
            forall|d: int| 0 <= d < i ==> index::coordinate_in_domain(d, #[trigger] qvec.at(d)),
        decreases 14 - i,
    {
        let v: i32 = qvec.0[i] as i32;
        let lo: i32 = if i == 5 || i == 6 { -FIXED_SCALE } else { 0 };
        if v < lo || v > FIXED_SCALE {
            return Err(i);
        }
        i = i + 1;
    }
    Ok(())
}

proof fn lemma_outside_padded(q: QVec, v: Seq<i16>, d: int)
    requires
        is_padded(q, v),
        0 <= d <= 14,
    ensures
        outside(q.0@, d) == outside(v, d),
    decreases 14 - d,
{
    if d < 14 {
        assert(q.0@[d] == v[d]);
        lemma_outside_padded(q, v, d + 1);
    }
}

/// Whether the string whose first bytes are in `buf` and whose length is `n` is `word`.
fn is_word(buf: &[u8; 8], n: usize, word: &[u8], Ghost(text): Ghost<Seq<u8>>) -> (r: bool)
    requires
        word@.len() <= 8,
        n == (if text.len() < usize::MAX {
            text.len() as int
        } else {
            usize::MAX as int
        }),
        forall|i: int| 0 <= i < 8 && i < text.len() ==> #[trigger] buf@[i] == text[i],
    ensures
        r == (text == word@),
{
    if n != word.len() {
        return false;
    }
    if matches_at(buf.as_slice(), 0, word) {
        let ghost start = buf@.subrange(0, word@.len() as int);
        assert forall|i: int| 0 <= i < text.len() implies text[i] == word@[i] by {
            assert(start[i] == word@[i]);
            assert(buf@[i] == text[i]);
        }
        assert(text =~= word@);
        true
    } else {
        proof {
            if text == word@ {
                assert(buf@.subrange(0, word@.len() as int) =~= word@);
            }
        }
        false
    }
}

impl<S: ByteSource> StreamParser<S> {
    fn parse_vector(&mut self) -> (r: Result<QVec, ParseError>)
        requires
            old(self).wf(),
        ensures
            final(self).wf(),
            match r {
                Ok(q) => match vector(old(self).rest()) {
                    Ok((v, rest)) => is_padded(q, v) && final(self).rest() == rest,
                    Err(_) => false,
                },
                Err(e) => vector(old(self).rest()) == Err::<(Seq<i16>, Seq<u8>), ParseError>(e),
            },
    {
        match self.expect('[' as u8) {
            Ok(_) => {},
            Err(e) => {
                return Err(e);
            },
        }
        let ghost s = self.rest();
        let mut qvec: QVec = QVec::zero();
        let ghost mut v = Seq::<i16>::empty();
        let mut i: usize = 0;
        proof {
            assert(qvec.at(14) == 0 && qvec.at(15) == 0);
        }
        while i < DIM
            invariant
                i <= 14,
                self.wf(),
                grammar::expected(old(self).rest(), '[' as u8) == Ok::<Seq<u8>, ParseError>(s),
                v.len() == i,
                coordinates(s, i as nat) == Ok::<(Seq<i16>, Seq<u8>), ParseError>(
                    (v, self.rest()),
                ),
                forall|d: int| 0 <= d < i ==> #[trigger] qvec.0@[d] == v[d],
                qvec.0@[14] == 0,
                qvec.0@[15] == 0,
            decreases 14 - i,
        {
            proof {
                lemma_coordinates_fail(s, (i + 1) as nat, 14);
            }
            if i > 0 {
                match self.expect(',' as u8) {
                    Ok(_) => {},
                    Err(e) => {
                        return Err(e);
                    },
                }
            }
            match self.parse_fixed4_i16() {
                Ok(c) => {
                    qvec.0[i] = c;
                    proof {
                        v = v.push(c);
                    }
                },
                Err(e) => {
                    return Err(e);
                },
            }
            i = i + 1;
        }
        match self.expect(']' as u8) {
            Ok(_) => Ok(qvec),
            Err(e) => Err(e),
        }
    }

    /// Reads one reference.
    pub fn parse_entry(&mut self) -> (r: Result<(QVec, bool), ParseError>)
        requires
            old(self).wf(),
        ensures
            final(self).wf(),
            match r {
                Ok((q, fraud)) => match entry(old(self).rest()) {
                    Ok((r, rest)) => {
                        &&& is_padded(q, r.vector)
                        &&& q.in_domain()
                        &&& fraud == r.fraud
                        &&& final(self).rest() == rest
                    },
                    Err(_) => false,
                },
                Err(e) => entry(old(self).rest()) == Err::<(Reference, Seq<u8>), ParseError>(e),
            },
    {
        match self.expect('{' as u8) {
            Ok(_) => {},
            Err(e) => {
                return Err(e);
            },
        }
        let ghost want = fields(self.rest(), true, Fields { vector: None, fraud: None });
        let mut qvec: QVec = QVec::zero();
        let mut is_fraud: bool = false;
        let mut got_vector: bool = false;
        let mut got_label: bool = false;
        let mut first_field: bool = true;
        let mut open: bool = true;
        let ghost mut f = Fields { vector: None, fraud: None };
        while open
            invariant
                self.wf(),
                open ==> fields(self.rest(), first_field, f) == want,
                !open ==> want == Ok::<(Fields, Seq<u8>), ParseError>((f, self.rest())),
                got_vector == (f.vector is Some),
                got_label == (f.fraud is Some),
                f.vector matches Some(v) ==> is_padded(qvec, v),
                f.fraud matches Some(b) ==> is_fraud == b,
                match grammar::expected(old(self).rest(), '{' as u8) {
                    Ok(t) => fields(t, true, Fields { vector: None, fraud: None }) == want,
                    Err(_) => false,
                },
            decreases self.rest().len(), if open { 1int } else { 0int },
        {
            let ghost s = self.rest();
            proof {
                grammar::lemma_trimmed(s);
            }
            self.skip_ws();
            if !self.has_data() {
                open = false;
            } else if self.peek() == '}' as u8 {
                self.advance();
                open = false;
            } else {
                let ghost t = self.rest();
                proof {
                    lemma_field_shrinks(t, first_field, f);
                }
                if !first_field {
                    match self.expect(',' as u8) {
                        Ok(_) => {},
                        Err(e) => {
                            return Err(e);
                        },
                    }
                }
                first_field = false;
                let ghost at_key = self.rest();
                let mut key_buf: [u8; 8] = [0u8; 8];
                let key_len: usize = match self.parse_string_into(&mut key_buf) {
                    Ok(n) => n,
                    Err(e) => {
                        return Err(e);
                    },
                };
                let ghost key = match grammar::quoted(at_key) {
                    Ok((text, rest)) => text,
                    Err(e) => Seq::empty(),
                };
                match self.expect(':' as u8) {
                    Ok(_) => {},
                    Err(e) => {
                        return Err(e);
                    },
                }
                if is_word(&key_buf, key_len, VECTOR_KEY.as_slice(), Ghost(key)) {
                    let ghost at_value = self.rest();
                    match self.parse_vector() {
                        Ok(q) => {
                            qvec = q;
                            proof {
                                let v = match vector(at_value) {
                                    Ok((v, rest)) => v,
                                    Err(e) => Seq::empty(),
                                };
                                f = Fields { vector: Some(v), ..f };
                            }
                        },
                        Err(e) => {
                            return Err(e);
                        },
                    }
                    got_vector = true;
                } else if is_word(&key_buf, key_len, LABEL_KEY.as_slice(), Ghost(key)) {
                    let ghost at_value = self.rest();
                    let mut label_buf: [u8; 8] = [0u8; 8];
                    let label_len: usize = match self.parse_string_into(&mut label_buf) {
                        Ok(n) => n,
                        Err(e) => {
                            return Err(e);
                        },
                    };
                    let ghost label = match grammar::quoted(at_value) {
                        Ok((text, rest)) => text,
                        Err(e) => Seq::empty(),
                    };
                    is_fraud = is_word(
                        &label_buf,
                        label_len,
                        FRAUD_LABEL.as_slice(),
                        Ghost(label),
                    );
                    got_label = true;
                    proof {
                        f = Fields { fraud: Some(label == FRAUD_LABEL@), ..f };
                    }
                } else {
                    match self.skip_value() {
                        Ok(_) => {},
                        Err(e) => {
                            return Err(e);
                        },
                    }
                }
            }
        }
        if !got_vector {
            return Err(ParseError::MissingVector);
        }
        if !got_label {
            return Err(ParseError::MissingLabel);
        }
        proof {
            lemma_outside_padded(qvec, f.vector.unwrap(), 0);
        }
        match assert_qvec_domain(&qvec) {
            Ok(_) => Ok((qvec, is_fraud)),
            Err(d) => Err(ParseError::OutOfDomain(d)),
        }
    }
}

/// Where the first `i` numbers of a vector cannot be read, the vector cannot.
proof fn lemma_coordinates_fail(s: Seq<u8>, i: nat, n: nat)
    requires
        i <= n,
    ensures
        coordinates(s, i) matches Err(e) ==> coordinates(s, n) == Err::<
            (Seq<i16>, Seq<u8>),
            ParseError,
        >(e),
    decreases n,
{
    if i < n {
        lemma_coordinates_fail(s, i, (n - 1) as nat);
    }
}

/// `got` are the records of the references `want`.
pub open spec fn are_records_of(got: Seq<BuildRecord>, want: Seq<Reference>) -> bool {
    &&& got.len() == want.len()
    &&& forall|i: int| 0 <= i < got.len() ==> is_record_of(#[trigger] got[i], want[i])
}

/// The references `done`, then those of `more`.
spec fn continued(done: Seq<Reference>, more: Result<Seq<Reference>, ParseError>) -> Result<
    Seq<Reference>,
    ParseError,
> {
    match more {
        Ok(rs) => Ok(done + rs),
        Err(e) => Err(e),
    }
}

impl<S: ByteSource> StreamParser<S> {
    /// Reads all references of a text.
    pub fn read_references(&mut self) -> (r: Result<Vec<BuildRecord>, ParseError>)
        requires
            old(self).wf(),
        ensures
            final(self).wf(),
            match r {
                Ok(records) => {
                    &&& match references(old(self).rest()) {
                        Ok(want) => are_records_of(records@, want),
                        Err(_) => false,
                    }
                    &&& forall|i: int| 0 <= i < records@.len() ==> (#[trigger] records@[i]).proper()
                },
                Err(e) => references(old(self).rest()) == Err::<Seq<Reference>, ParseError>(e),
            },
    {
        let mut records: Vec<BuildRecord> = Vec::new();
        match self.expect('[' as u8) {
            Ok(_) => {},
            Err(e) => {
                return Err(e);
            },
        }
        self.skip_ws();
        if self.has_data() && self.peek() == ']' as u8 {
            self.advance();
            return Ok(records);
        }
        let ghost want = entries(self.rest());
        let ghost mut done = Seq::<Reference>::empty();
        proof {
            match want {
                Ok(rs) => assert(done + rs =~= rs),
                Err(e) => {},
            }
        }
        loop
            invariant
                self.wf(),
                references(old(self).rest()) == want,
                continued(done, entries(self.rest())) == want,
                are_records_of(records@, done),
                forall|i: int| 0 <= i < records@.len() ==> (#[trigger] records@[i]).proper(),
            decreases self.rest().len(),
        {
            let ghost s = self.rest();
            proof {
                lemma_entry_shrinks(s);
            }
            let (qvec, is_fraud): (QVec, bool) = match self.parse_entry() {
                Ok(parsed) => parsed,
                Err(e) => {
                    return Err(e);
                },
            };
            let ghost r = match entry(s) {
                Ok((r, rest)) => r,
                Err(e) => Reference { vector: Seq::empty(), fraud: false },
            };
            records.push(BuildRecord::new(qvec, is_fraud));
            let ghost before = done;
            proof {
                done = done.push(r);
                assert(before + seq![r] =~= done);
                grammar::lemma_trimmed(self.rest());
            }
            self.skip_ws();
            if !self.has_data() {
                return Ok(records);
            }
            if self.peek() == ']' as u8 {
                self.advance();
                return Ok(records);
            }
            proof {
                grammar::lemma_expected_shrinks(self.rest(), ',' as u8);
            }
            match self.expect(',' as u8) {
                Ok(_) => {},
                Err(e) => {
                    return Err(e);
                },
            }
            proof {
                match entries(self.rest()) {
                    Ok(more) => assert(before + (seq![r] + more) =~= done + more),
                    Err(e) => {},
                }
            }
        }
    }
}

} // verus!
