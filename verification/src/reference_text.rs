//! How references are written, and that they are read as they are written.
use crate::fixed_point;
use crate::fixed_point::Written;
use crate::grammar;
use crate::grammar::ParseError;
use crate::index::QVec;
use crate::kd::BuildRecord;
use crate::lex;
use crate::queries;
use crate::references;
use crate::references::{Fields, Reference};
use crate::stream::{ByteSource, StreamParser};
use crate::text;
use crate::values;
use crate::values::{Key, Value};
use vstd::prelude::*;

verus! {

/// A coordinate between white space.
pub struct Coord {
    pub before: Seq<u8>,
    pub number: Written,
    pub after: Seq<u8>,
}

/// What stands behind a key: a vector, a label or anything else.
pub enum Content {
    Vector(Seq<Coord>),
    Label(Seq<u8>),
    Other(Value),
}

/// A field, with the white space around it.
pub struct FieldText {
    pub key: Key,
    pub content: Content,
    pub after: Seq<u8>,
}

/// A reference, with the white space around it and behind its opening brace.
pub struct EntryText {
    pub before: Seq<u8>,
    pub inner: Seq<u8>,
    pub fields: Seq<FieldText>,
    pub after: Seq<u8>,
}

/// What the fields of an object say: the last vector and the last label.
pub struct Said {
    pub vector: Option<Seq<Coord>>,
    pub label: Option<Seq<u8>>,
}

/// `vector`.
pub open spec fn vector_name() -> Seq<u8> {
    seq![0x76u8, 0x65, 0x63, 0x74, 0x6f, 0x72]
}

/// `label`.
pub open spec fn label_name() -> Seq<u8> {
    seq![0x6cu8, 0x61, 0x62, 0x65, 0x6c]
}

/// `fraud`.
pub open spec fn fraud_name() -> Seq<u8> {
    seq![0x66u8, 0x72, 0x61, 0x75, 0x64]
}

/// There is no quote in `s`.
pub open spec fn unquoted(s: Seq<u8>) -> bool {
    forall|i: int| 0 <= i < s.len() ==> #[trigger] s[i] != 0x22
}

impl Coord {
    pub open spec fn wf(self) -> bool {
        text::are_blank(self.before) && self.number.wf() && text::are_blank(self.after)
    }

    pub open spec fn text(self) -> Seq<u8> {
        self.before + self.number.text() + self.after
    }
}

/// The coordinates from `k` on, with commas between them.
pub open spec fn coords_from(items: Seq<Coord>, k: int) -> Seq<u8>
    decreases items.len() - k,
{
    if k >= items.len() {
        Seq::empty()
    } else {
        (if k > 0 {
            seq![0x2cu8]
        } else {
            Seq::empty()
        }) + items[k].text() + coords_from(items, k + 1)
    }
}

impl Content {
    pub open spec fn text(self) -> Seq<u8> {
        match self {
            Content::Vector(items) => seq![0x5bu8] + coords_from(items, 0) + seq![0x5du8],
            Content::Label(t) => seq![0x22u8] + t + seq![0x22u8],
            Content::Other(v) => v.text(),
        }
    }
}

impl FieldText {
    pub open spec fn wf(self) -> bool {
        &&& self.key.wf()
        &&& unquoted(self.key.name)
        &&& text::are_blank(self.after)
        &&& match self.content {
            Content::Vector(items) => {
                &&& self.key.name == vector_name()
                &&& items.len() == 14
                &&& forall|i: int|
                    0 <= i < 14 ==> (#[trigger] items[i]).wf() && items[i].number.fits()
            },
            Content::Label(t) => self.key.name == label_name() && unquoted(t),
            Content::Other(v) => {
                &&& self.key.name != vector_name()
                &&& self.key.name != label_name()
                &&& v.wf()
            },
        }
    }

    pub open spec fn text(self) -> Seq<u8> {
        self.key.text() + self.content.text() + self.after
    }

    /// What is said once this field was said too.
    pub open spec fn adds(self, g: Said) -> Said {
        match self.content {
            Content::Vector(items) => Said { vector: Some(items), ..g },
            Content::Label(t) => Said { label: Some(t), ..g },
            Content::Other(_) => g,
        }
    }
}

/// The fields from `k` on, with commas between them.
pub open spec fn fields_from(fs: Seq<FieldText>, k: int) -> Seq<u8>
    decreases fs.len() - k,
{
    if k >= fs.len() {
        Seq::empty()
    } else {
        (if k > 0 {
            seq![0x2cu8]
        } else {
            Seq::empty()
        }) + fs[k].text() + fields_from(fs, k + 1)
    }
}

/// What is said once the fields from `k` on were said too.
pub open spec fn said_from(fs: Seq<FieldText>, k: int, g: Said) -> Said
    decreases fs.len() - k,
{
    if k >= fs.len() {
        g
    } else {
        said_from(fs, k + 1, fs[k].adds(g))
    }
}

/// The number lies in the domain of dimension `d`: between zero and one, or for the two about
/// the previous transaction between minus one and one.
pub open spec fn in_range(d: int, n: Written) -> bool {
    exists|v: int| #[trigger] n.is(v) && (if d == 5 || d == 6 {
        -10_000int
    } else {
        0
    }) <= v <= 10_000
}

/// The first dimension from `d` on that is out of range.
pub open spec fn first_out_of_range(items: Seq<Coord>, d: int) -> Option<int>
    decreases 14 - d,
{
    if d >= 14 {
        None
    } else if in_range(d, items[d].number) {
        first_out_of_range(items, d + 1)
    } else {
        Some(d)
    }
}

impl EntryText {
    pub open spec fn wf(self) -> bool {
        &&& text::are_blank(self.before)
        &&& text::are_blank(self.inner)
        &&& text::are_blank(self.after)
        &&& forall|i: int| 0 <= i < self.fields.len() ==> (#[trigger] self.fields[i]).wf()
    }

    pub open spec fn text(self) -> Seq<u8> {
        self.before + seq![0x7bu8] + self.inner + fields_from(self.fields, 0) + seq![0x7du8]
            + self.after
    }

    /// What the reference says.
    pub open spec fn said(self) -> Said {
        said_from(self.fields, 0, Said { vector: None, label: None })
    }

    /// Why the reference is refused, if it is.
    pub open spec fn refusal(self) -> Option<ParseError> {
        match self.said().vector {
            None => Some(ParseError::MissingVector),
            Some(items) => match self.said().label {
                None => Some(ParseError::MissingLabel),
                Some(_) => match first_out_of_range(items, 0) {
                    Some(d) => Some(ParseError::OutOfDomain(d as usize)),
                    None => None,
                },
            },
        }
    }
}

/// The references from `k` on, with commas between them.
pub open spec fn entries_from(es: Seq<EntryText>, k: int) -> Seq<u8>
    decreases es.len() - k,
{
    if k >= es.len() {
        Seq::empty()
    } else {
        (if k > 0 {
            seq![0x2cu8]
        } else {
            Seq::empty()
        }) + es[k].text() + entries_from(es, k + 1)
    }
}

/// `v` are the coordinates as they are written.
pub open spec fn are_written(v: Seq<i16>, items: Seq<Coord>) -> bool {
    &&& v.len() == items.len()
    &&& forall|i: int| 0 <= i < v.len() ==> items[i].number.is(#[trigger] v[i] as int)
}

/// The fields give what was said.
spec fn gives(f: Fields, g: Said) -> bool {
    &&& match (f.vector, g.vector) {
        (Some(v), Some(items)) => items.len() == 14 && are_written(v, items),
        (None, None) => true,
        _ => false,
    }
    &&& match (f.fraud, g.label) {
        (Some(b), Some(t)) => b == (t == fraud_name()),
        (None, None) => true,
        _ => false,
    }
}

pub proof fn lemma_expected(w: Seq<u8>, b: u8, x: Seq<u8>)
    requires
        text::are_blank(w),
        !text::is_blank(b),
    ensures
        grammar::expected(w + (seq![b] + x), b) == Ok::<Seq<u8>, ParseError>(x),
{
    text::lemma_blanks_end(w, seq![b] + x);
    assert((seq![b] + x).skip(1) =~= x);
}

pub proof fn lemma_quoted(w: Seq<u8>, name: Seq<u8>, x: Seq<u8>)
    requires
        text::are_blank(w),
        unquoted(name),
    ensures
        grammar::quoted(w + (seq![0x22u8] + (name + (seq![0x22u8] + x)))) == Ok::<
            (Seq<u8>, Seq<u8>),
            ParseError,
        >((name, x)),
{
    let t = name + (seq![0x22u8] + x);
    lemma_expected(w, 0x22, t);
    let class = |b: u8| b != '"' as u8;
    assert forall|i: int| 0 <= i < name.len() implies class(#[trigger] t[i]) by {
        assert(t[i] == name[i]);
    }
    lex::lemma_leading_is(t, class, name.len() as int);
    assert(t.take(name.len() as int) =~= name);
    assert(t.skip(name.len() as int + 1) =~= x);
}

/// What follows the number of coordinate `n - 1`.
pub open spec fn behind(items: Seq<Coord>, n: int, close: Seq<u8>) -> Seq<u8> {
    items[n - 1].after + (coords_from(items, n) + close)
}

proof fn lemma_coordinate(items: Seq<Coord>, k: int, close: Seq<u8>) -> (v: i16)
    requires
        0 <= k < items.len(),
        items[k].wf(),
        items[k].number.fits(),
        close.len() > 0 && (close[0] == 0x5d || close[0] == 0x2c),
    ensures
        grammar::fixed4(items[k].before + (items[k].number.text() + behind(items, k + 1, close)))
            == Ok::<(i16, Seq<u8>), ParseError>((v, behind(items, k + 1, close))),
        items[k].number.is(v as int),
{
    let c = items[k];
    let rest = behind(items, k + 1, close);
    let tail = coords_from(items, k + 1) + close;
    assert(tail[0] == 0x5d || tail[0] == 0x2c);
    if c.after.len() > 0 {
        assert(text::is_blank(c.after[0]));
        assert(rest[0] == c.after[0]);
    } else {
        assert(rest =~= tail);
    }
    fixed_point::lemma_fixed4(c.before, c.number, rest);
    assert(c.before + c.number.text() + rest =~= c.before + (c.number.text() + rest));
    grammar::fixed4(c.before + (c.number.text() + rest))->Ok_0.0
}

pub proof fn lemma_coordinates(items: Seq<Coord>, n: nat, close: Seq<u8>) -> (v: Seq<i16>)
    requires
        1 <= n <= items.len(),
        forall|i: int|
            0 <= i < items.len() ==> (#[trigger] items[i]).wf() && items[i].number.fits(),
        close.len() > 0 && (close[0] == 0x5d || close[0] == 0x2c),
    ensures
        references::coordinates(coords_from(items, 0) + close, n) == Ok::<
            (Seq<i16>, Seq<u8>),
            ParseError,
        >((v, behind(items, n as int, close))),
        v.len() == n,
        forall|i: int| 0 <= i < n ==> items[i].number.is(#[trigger] v[i] as int),
    decreases n,
{
    let s = coords_from(items, 0) + close;
    let k = n - 1;
    assert(items[k].wf());
    let c = items[k];
    let x = c.before + (c.number.text() + behind(items, n as int, close));
    let last = lemma_coordinate(items, k, close);
    if n == 1 {
        assert(s =~= x);
        assert(references::coordinates(s, 0) == Ok::<(Seq<i16>, Seq<u8>), ParseError>(
            (Seq::empty(), s),
        ));
        let v = Seq::<i16>::empty().push(last);
        v
    } else {
        let before = lemma_coordinates(items, (n - 1) as nat, close);
        let t = behind(items, k, close);
        assert(coords_from(items, k) + close =~= seq![0x2cu8] + x);
        assert(items[k - 1].wf());
        lemma_expected(items[k - 1].after, 0x2c, x);
        before.push(last)
    }
}

proof fn lemma_vector(w: Seq<u8>, items: Seq<Coord>, rest: Seq<u8>) -> (v: Seq<i16>)
    requires
        text::are_blank(w),
        items.len() == 14,
        forall|i: int| 0 <= i < 14 ==> (#[trigger] items[i]).wf() && items[i].number.fits(),
    ensures
        references::vector(w + (seq![0x5bu8] + (coords_from(items, 0) + (seq![0x5du8] + rest))))
            == Ok::<(Seq<i16>, Seq<u8>), ParseError>((v, rest)),
        are_written(v, items),
{
    let close = seq![0x5du8] + rest;
    lemma_expected(w, 0x5b, coords_from(items, 0) + close);
    let v = lemma_coordinates(items, 14, close);
    assert(items[13].wf());
    assert(coords_from(items, 14) + close =~= close);
    lemma_expected(items[13].after, 0x5d, rest);
    v
}

/// The names of the fields are the ones that are looked for.
pub proof fn lemma_names()
    ensures
        references::VECTOR_KEY@ == vector_name(),
        references::LABEL_KEY@ == label_name(),
        references::FRAUD_LABEL@ == fraud_name(),
        vector_name() != label_name(),
{
    assert(references::VECTOR_KEY@ =~= vector_name());
    assert(references::LABEL_KEY@ =~= label_name());
    assert(references::FRAUD_LABEL@ =~= fraud_name());
    assert(vector_name().len() != label_name().len());
}

proof fn lemma_content(fld: FieldText, f: Fields, g: Said, tail: Seq<u8>) -> (h: Fields)
    requires
        fld.wf(),
        gives(f, g),
        tail.len() == 0 || tail[0] == 0x2c || tail[0] == 0x7d || text::is_blank(tail[0]),
    ensures
        references::field_value(
            fld.key.indent + (fld.content.text() + tail),
            fld.key.name,
            f,
        ) == Ok::<(Fields, Seq<u8>), ParseError>((h, tail)),
        gives(h, fld.adds(g)),
{
    lemma_names();
    let w = fld.key.indent;
    match fld.content {
        Content::Vector(items) => {
            let v = lemma_vector(w, items, tail);
            assert(fld.content.text() + tail =~= seq![0x5bu8] + (coords_from(items, 0) + (
            seq![0x5du8] + tail)));
            Fields { vector: Some(v), ..f }
        },
        Content::Label(t) => {
            lemma_quoted(w, t, tail);
            assert(fld.content.text() + tail =~= seq![0x22u8] + (t + (seq![0x22u8] + tail)));
            Fields { fraud: Some(t == fraud_name()), ..f }
        },
        Content::Other(v) => {
            values::law_a_value_is_skipped_whole(w, v, tail);
            assert(w + v.text() + tail =~= w + (v.text() + tail));
            f
        },
    }
}

/// One field is read, with what leads to it.
proof fn lemma_field(fld: FieldText, first: bool, f: Fields, g: Said, tail: Seq<u8>) -> (h: Fields)
    requires
        fld.wf(),
        gives(f, g),
        tail.len() == 0 || tail[0] == 0x2c || tail[0] == 0x7d || text::is_blank(tail[0]),
    ensures
        ({
            let x = fld.key.text() + (fld.content.text() + tail);
            let t = if first {
                lex::trimmed(x)
            } else {
                seq![0x2cu8] + x
            };
            references::field(t, first, f) == Ok::<(Fields, Seq<u8>), ParseError>((h, tail))
        }),
        gives(h, fld.adds(g)),
        ({
            let x = fld.key.text() + (fld.content.text() + tail);
            lex::trimmed(x).len() > tail.len() && lex::trimmed(x)[0] == 0x22
        }),
{
    let k = fld.key;
    let value = k.indent + (fld.content.text() + tail);
    let colon = k.after + (seq![0x3au8] + value);
    let x = k.text() + (fld.content.text() + tail);
    let name = seq![0x22u8] + (k.name + (seq![0x22u8] + colon));
    assert(x =~= k.before + name);
    text::lemma_blanks_end(k.before, name);
    if first {
        assert(Seq::<u8>::empty() + name =~= name);
        lemma_quoted(Seq::empty(), k.name, colon);
    } else {
        lemma_expected(Seq::empty(), 0x2c, x);
        assert(Seq::<u8>::empty() + (seq![0x2cu8] + x) =~= seq![0x2cu8] + x);
        lemma_quoted(k.before, k.name, colon);
    }
    lemma_expected(k.after, 0x3a, value);
    lemma_content(fld, f, g, tail)
}

/// What stands from field `k` on to the closing brace and beyond.
pub open spec fn open_fields(fs: Seq<FieldText>, k: int, rest: Seq<u8>) -> Seq<u8> {
    fields_from(fs, k) + (seq![0x7du8] + rest)
}

/// Reading the fields goes on behind the first of them.
proof fn lemma_first_field(
    fld: FieldText,
    next: Seq<u8>,
    w: Seq<u8>,
    first: bool,
    f: Fields,
    g: Said,
) -> (h: Fields)
    requires
        fld.wf(),
        text::are_blank(w),
        next.len() == 0 || next[0] == 0x2c || next[0] == 0x7d,
        gives(f, g),
    ensures
        ({
            let x = fld.text() + next;
            let s = w + (if first {
                x
            } else {
                seq![0x2cu8] + x
            });
            references::fields(s, first, f) == references::fields(fld.after + next, false, h)
        }),
        gives(h, fld.adds(g)),
{
    let tail = fld.after + next;
    if fld.after.len() > 0 {
        assert(tail[0] == fld.after[0]);
        assert(text::is_blank(fld.after[0]));
    } else {
        assert(tail =~= next);
    }
    let x = fld.key.text() + (fld.content.text() + tail);
    assert(fld.text() + next =~= x);
    let h = lemma_field(fld, first, f, g, tail);
    grammar::lemma_trimmed(x);
    if first {
        text::lemma_blanks_before(w, x);
        assert(lex::trimmed(w + x)[0] == 0x22);
    } else {
        text::lemma_blanks_end(w, seq![0x2cu8] + x);
    }
    h
}

proof fn lemma_fields(
    fs: Seq<FieldText>,
    k: int,
    w: Seq<u8>,
    f: Fields,
    g: Said,
    rest: Seq<u8>,
) -> (h: Fields)
    requires
        0 <= k <= fs.len(),
        forall|i: int| 0 <= i < fs.len() ==> (#[trigger] fs[i]).wf(),
        text::are_blank(w),
        gives(f, g),
    ensures
        references::fields(w + open_fields(fs, k, rest), k == 0, f) == Ok::<
            (Fields, Seq<u8>),
            ParseError,
        >((h, rest)),
        gives(h, said_from(fs, k, g)),
    decreases fs.len() - k,
{
    if k == fs.len() {
        let t = seq![0x7du8] + rest;
        assert(open_fields(fs, k, rest) =~= t);
        text::lemma_blanks_end(w, t);
        assert(t.skip(1) =~= rest);
        f
    } else {
        let fld = fs[k];
        assert(fld.wf());
        let next = open_fields(fs, k + 1, rest);
        assert(next[0] == 0x2c || next[0] == 0x7d);
        let h = lemma_first_field(fld, next, w, k == 0, f, g);
        let x = fld.text() + next;
        assert(open_fields(fs, k, rest) =~= if k == 0 {
            x
        } else {
            seq![0x2cu8] + x
        });
        lemma_fields(fs, k + 1, fld.after, h, fld.adds(g), rest)
    }
}

/// Fields that the text cuts off are read up to its end.
proof fn lemma_cut_fields(
    fs: Seq<FieldText>,
    k: int,
    w: Seq<u8>,
    f: Fields,
    g: Said,
) -> (h: Fields)
    requires
        0 <= k <= fs.len(),
        forall|i: int| 0 <= i < fs.len() ==> (#[trigger] fs[i]).wf(),
        text::are_blank(w),
        gives(f, g),
    ensures
        references::fields(w + fields_from(fs, k), k == 0, f) == Ok::<
            (Fields, Seq<u8>),
            ParseError,
        >((h, Seq::empty())),
        gives(h, said_from(fs, k, g)),
    decreases fs.len() - k,
{
    if k == fs.len() {
        assert(fields_from(fs, k) =~= Seq::<u8>::empty());
        text::lemma_blanks_end(w, Seq::empty());
        f
    } else {
        let fld = fs[k];
        assert(fld.wf());
        let next = fields_from(fs, k + 1);
        assert(next.len() == 0 || next[0] == 0x2c);
        let h = lemma_first_field(fld, next, w, k == 0, f, g);
        let x = fld.text() + next;
        assert(fields_from(fs, k) =~= if k == 0 {
            x
        } else {
            seq![0x2cu8] + x
        });
        lemma_cut_fields(fs, k + 1, fld.after, h, fld.adds(g))
    }
}

/// A reference that the text cuts off behind one of its fields is read as if it were closed
/// there.
pub proof fn law_cut_off_reference_is_read_as_if_closed<S: ByteSource>(
    p: &mut StreamParser<S>,
    r: Result<(QVec, bool), ParseError>,
    e: EntryText,
)
    requires
        call_ensures(StreamParser::<S>::parse_entry, (p,), r),
        old(p).rest() == e.before + (seq![0x7bu8] + (e.inner + fields_from(e.fields, 0))),
        e.wf(),
    ensures
        match r {
            Ok((q, fraud)) => {
                &&& e.refusal() is None
                &&& forall|d: int|
                    0 <= d < 14 ==> (e.said().vector->0)[d].number.is(#[trigger] q.at(d))
                &&& q.at(14) == 0 && q.at(15) == 0
                &&& fraud <==> e.said().label->0 == fraud_name()
                &&& final(p).rest().len() == 0
            },
            Err(x) => e.refusal() == Some(x),
        },
{
    let inside = e.inner + fields_from(e.fields, 0);
    lemma_expected(e.before, 0x7b, inside);
    let f = Fields { vector: None, fraud: None };
    let g = Said { vector: None, label: None };
    let h = lemma_cut_fields(e.fields, 0, e.inner, f, g);
    match h.vector {
        Some(v) => lemma_outside(v, e.said().vector->0, 0),
        None => {},
    }
    match r {
        Ok((q, fraud)) => {
            let got = references::entry(old(p).rest())->Ok_0.0;
            assert(is_as_written(got, e));
            let items = e.said().vector->0;
            assert forall|d: int| 0 <= d < 14 implies items[d].number.is(
                #[trigger] q.at(d),
            ) by {
                assert(q.0@[d] == got.vector[d]);
            }
        },
        Err(_) => {},
    }
}

proof fn lemma_in_range(d: int, n: Written, v: int)
    requires
        n.is(v),
    ensures
        in_range(d, n) <==> crate::index::coordinate_in_domain(d, v),
{
    if in_range(d, n) {
        let w = choose|w: int| #[trigger] n.is(w) && (if d == 5 || d == 6 {
            -10_000int
        } else {
            0
        }) <= w <= 10_000;
        fixed_point::lemma_only_one(n, v, w);
    }
}

proof fn lemma_outside(v: Seq<i16>, items: Seq<Coord>, d: int)
    requires
        items.len() == 14,
        are_written(v, items),
        0 <= d,
    ensures
        references::outside(v, d) == first_out_of_range(items, d),
    decreases 14 - d,
{
    if d < 14 {
        lemma_in_range(d, items[d].number, v[d] as int);
        lemma_outside(v, items, d + 1);
    }
}

/// The reference is what the text says.
pub open spec fn is_as_written(r: Reference, e: EntryText) -> bool {
    &&& e.said().vector is Some
    &&& e.said().label is Some
    &&& are_written(r.vector, e.said().vector->0)
    &&& r.fraud == (e.said().label->0 == fraud_name())
}

pub proof fn lemma_entry(e: EntryText, w: Seq<u8>, tail: Seq<u8>)
    requires
        e.wf(),
        text::are_blank(w),
    ensures
        match references::entry(
            w + (seq![0x7bu8] + (e.inner + open_fields(e.fields, 0, tail))),
        ) {
            Ok((r, rest)) => {
                &&& e.refusal() is None
                &&& rest == tail
                &&& is_as_written(r, e)
                &&& r.vector.len() == 14
            },
            Err(x) => e.refusal() == Some(x),
        },
{
    let inside = e.inner + open_fields(e.fields, 0, tail);
    lemma_expected(w, 0x7b, inside);
    let f = Fields { vector: None, fraud: None };
    let g = Said { vector: None, label: None };
    let h = lemma_fields(e.fields, 0, e.inner, f, g, tail);
    match h.vector {
        Some(v) => lemma_outside(v, e.said().vector->0, 0),
        None => {},
    }
}

/// What stands from reference `k` on, without the comma before it, to the closing bracket and
/// beyond.
spec fn open_entries(es: Seq<EntryText>, k: int, rest: Seq<u8>) -> Seq<u8> {
    es[k].text() + (entries_from(es, k + 1) + (seq![0x5du8] + rest))
}

/// Where the first reference from `k` on that is refused stands.
pub open spec fn first_refused(es: Seq<EntryText>, k: int) -> Option<int>
    decreases es.len() - k,
{
    if k >= es.len() {
        None
    } else if es[k].refusal() is Some {
        Some(k)
    } else {
        first_refused(es, k + 1)
    }
}

/// The references are those from `k` on, or the reason for which one is refused.
spec fn reads_from(
    got: Result<Seq<Reference>, ParseError>,
    es: Seq<EntryText>,
    k: int,
) -> bool {
    match got {
        Ok(refs) => {
            &&& first_refused(es, k) is None
            &&& refs.len() == es.len() - k
            &&& forall|i: int|
                0 <= i < refs.len() ==> is_as_written(#[trigger] refs[i], es[k + i])
        },
        Err(x) => first_refused(es, k) matches Some(j) && es[j].refusal() == Some(x),
    }
}

/// The entry at the start of a text depends on nothing before its brace.
pub proof fn lemma_entry_trimmed(s: Seq<u8>, t: Seq<u8>)
    requires
        lex::trimmed(s) == lex::trimmed(t),
    ensures
        references::entry(s) == references::entry(t),
{
}

proof fn lemma_entries(es: Seq<EntryText>, k: int, s: Seq<u8>, rest: Seq<u8>)
    requires
        0 <= k < es.len(),
        forall|i: int| 0 <= i < es.len() ==> (#[trigger] es[i]).wf(),
        lex::trimmed(s) == lex::trimmed(open_entries(es, k, rest)),
    ensures
        reads_from(references::entries(s), es, k),
    decreases es.len() - k,
{
    let e = es[k];
    assert(e.wf());
    let next = entries_from(es, k + 1) + (seq![0x5du8] + rest);
    let tail = e.after + next;
    let brace = seq![0x7bu8] + (e.inner + open_fields(e.fields, 0, tail));
    assert(open_entries(es, k, rest) =~= e.before + brace);
    text::lemma_blanks_end(e.before, brace);
    lemma_entry(e, e.before, tail);
    lemma_entry_trimmed(s, e.before + brace);
    match references::entry(s) {
        Ok((r, t)) => {
            if k + 1 == es.len() {
                assert(next =~= seq![0x5du8] + rest);
                text::lemma_blanks_end(e.after, next);
                assert(first_refused(es, k + 1) is None);
            } else {
                let x = open_entries(es, k + 1, rest);
                assert(next =~= seq![0x2cu8] + x);
                text::lemma_blanks_end(e.after, next);
                lemma_expected(Seq::empty(), 0x2c, x);
                assert(Seq::<u8>::empty() + next =~= next);
                grammar::lemma_trimmed(s);
                lemma_entries(es, k + 1, x, rest);
                match references::entries(x) {
                    Ok(more) => {
                        let all = seq![r] + more;
                        assert forall|i: int| 0 <= i < all.len() implies is_as_written(
                            #[trigger] all[i],
                            es[k + i],
                        ) by {
                            if i > 0 {
                                assert(all[i] == more[i - 1]);
                            }
                        }
                    },
                    Err(_) => {},
                }
            }
        },
        Err(_) => {},
    }
}

/// A reference begins with its brace.
proof fn lemma_first_brace(e: EntryText, next: Seq<u8>)
    requires
        e.wf(),
    ensures
        lex::trimmed(e.text() + next).len() > 0,
        lex::trimmed(e.text() + next)[0] == 0x7b,
{
    let brace = seq![0x7bu8] + (e.inner + fields_from(e.fields, 0) + seq![0x7du8] + e.after + next);
    assert(e.text() + next =~= e.before + brace);
    text::lemma_blanks_end(e.before, brace);
}

/// The array of the references, with white space before it and behind its opening bracket.
pub open spec fn array_text(
    w: Seq<u8>,
    inner: Seq<u8>,
    es: Seq<EntryText>,
    rest: Seq<u8>,
) -> Seq<u8> {
    w + seq![0x5bu8] + inner + entries_from(es, 0) + seq![0x5du8] + rest
}

proof fn lemma_references(w: Seq<u8>, inner: Seq<u8>, es: Seq<EntryText>, rest: Seq<u8>)
    requires
        text::are_blank(w),
        text::are_blank(inner),
        forall|i: int| 0 <= i < es.len() ==> (#[trigger] es[i]).wf(),
    ensures
        reads_from(references::references(array_text(w, inner, es, rest)), es, 0),
{
    let close = seq![0x5du8] + rest;
    let x = inner + (entries_from(es, 0) + close);
    assert(array_text(w, inner, es, rest) =~= w + (seq![0x5bu8] + x));
    lemma_expected(w, 0x5b, x);
    if es.len() == 0 {
        assert(x =~= inner + close);
        text::lemma_blanks_end(inner, close);
        assert(first_refused(es, 0) is None);
    } else {
        let e = es[0];
        assert(e.wf());
        let s = open_entries(es, 0, rest);
        assert(x =~= inner + s);
        text::lemma_blanks_before(inner, s);
        lemma_first_brace(e, entries_from(es, 1) + close);
        grammar::lemma_trimmed(x);
        lemma_entries(es, 0, lex::trimmed(x), rest);
    }
}

/// The record is what the reference says: the coordinates in ten thousandths, zeroes behind
/// them, one for a fraud and zero for everything else, and the key of its partition.
pub open spec fn is_record_as_written(rec: BuildRecord, e: EntryText) -> bool {
    &&& e.said().vector is Some
    &&& e.said().label is Some
    &&& forall|d: int|
        0 <= d < 14 ==> (e.said().vector->0)[d].number.is(#[trigger] rec.qvec.at(d))
    &&& rec.qvec.at(14) == 0 && rec.qvec.at(15) == 0
    &&& rec.label == if e.said().label->0 == fraud_name() {
        1int
    } else {
        0
    }
    &&& queries::is_key_of(rec.key as int, rec.qvec)
}

pub proof fn lemma_record(rec: BuildRecord, r: Reference, e: EntryText)
    requires
        references::is_record_of(rec, r),
        is_as_written(r, e),
    ensures
        is_record_as_written(rec, e),
{
    queries::lemma_is_key(rec.qvec);
    let items = e.said().vector->0;
    assert forall|d: int| 0 <= d < 14 implies items[d].number.is(#[trigger] rec.qvec.at(d)) by {
        assert(rec.qvec.0@[d] == r.vector[d]);
    }
}

/// References are read as they are written, whatever the white space, the order of the fields
/// and the fields beside the vector and the label. One without a vector, without a label or
/// with a coordinate out of range is refused for that reason.
pub proof fn law_references_are_read_as_written<S: ByteSource>(
    p: &mut StreamParser<S>,
    r: Result<Vec<BuildRecord>, ParseError>,
    w: Seq<u8>,
    inner: Seq<u8>,
    es: Seq<EntryText>,
    rest: Seq<u8>,
)
    requires
        call_ensures(StreamParser::<S>::read_references, (p,), r),
        old(p).rest() == array_text(w, inner, es, rest),
        text::are_blank(w),
        text::are_blank(inner),
        forall|i: int| 0 <= i < es.len() ==> (#[trigger] es[i]).wf(),
    ensures
        match r {
            Ok(records) => {
                &&& first_refused(es, 0) is None
                &&& records@.len() == es.len()
                &&& forall|i: int|
                    0 <= i < es.len() ==> is_record_as_written(#[trigger] records@[i], es[i])
            },
            Err(x) => first_refused(es, 0) matches Some(j) && es[j].refusal() == Some(x),
        },
{
    lemma_references(w, inner, es, rest);
    match r {
        Ok(records) => {
            let refs = references::references(old(p).rest())->Ok_0;
            assert forall|i: int| 0 <= i < es.len() implies is_record_as_written(
                #[trigger] records@[i],
                es[i],
            ) by {
                assert(references::is_record_of(records@[i], refs[i]));
                assert(is_as_written(refs[i], es[i]));
                lemma_record(records@[i], refs[i], es[i]);
            }
        },
        Err(_) => {},
    }
}

/// A single reference is read as it is written, and what follows it stays.
pub proof fn law_reference_is_read_as_written<S: ByteSource>(
    p: &mut StreamParser<S>,
    r: Result<(QVec, bool), ParseError>,
    e: EntryText,
    rest: Seq<u8>,
)
    requires
        call_ensures(StreamParser::<S>::parse_entry, (p,), r),
        old(p).rest() == e.text() + rest,
        e.wf(),
    ensures
        match r {
            Ok((q, fraud)) => {
                &&& e.refusal() is None
                &&& forall|d: int|
                    0 <= d < 14 ==> (e.said().vector->0)[d].number.is(#[trigger] q.at(d))
                &&& q.at(14) == 0 && q.at(15) == 0
                &&& fraud <==> e.said().label->0 == fraud_name()
                &&& final(p).rest() == e.after + rest
            },
            Err(x) => e.refusal() == Some(x),
        },
{
    let tail = e.after + rest;
    let brace = seq![0x7bu8] + (e.inner + open_fields(e.fields, 0, tail));
    assert(e.text() + rest =~= e.before + brace);
    lemma_entry(e, e.before, tail);
    match r {
        Ok((q, fraud)) => {
            let got = references::entry(old(p).rest())->Ok_0.0;
            assert forall|d: int| 0 <= d < 14 implies (e.said().vector->0)[d].number.is(
                #[trigger] q.at(d),
            ) by {
                assert(q.0@[d] == got.vector[d]);
            }
        },
        Err(_) => {},
    }
}

/// A vector is in the domain of the search exactly if each feature lies between zero and one,
/// those about the previous transaction between minus one and one; otherwise the first that
/// does not is named.
pub proof fn law_domain_is_the_unit_interval(q: QVec, r: Result<(), usize>)
    requires
        call_ensures(references::assert_qvec_domain, (&q,), r),
    ensures
        match r {
            Ok(_) => forall|d: int|
                0 <= d < 14 ==> -10_000 <= #[trigger] q.at(d) <= 10_000 && (d == 5 || d == 6
                    || q.at(d) >= 0),
            Err(d) => {
                &&& 0 <= d < 14
                &&& q.at(d as int) > 10_000 || q.at(d as int) < if d == 5 || d == 6 {
                    -10_000int
                } else {
                    0
                }
                &&& forall|c: int|
                    0 <= c < d ==> -10_000 <= #[trigger] q.at(c) <= 10_000 && (c == 5 || c == 6
                        || q.at(c) >= 0)
            },
        },
{
    lemma_first_outside(q, 0);
}

proof fn lemma_first_outside(q: QVec, k: int)
    requires
        0 <= k <= 14,
    ensures
        match references::outside(q.0@, k) {
            None => forall|d: int|
                k <= d < 14 ==> -10_000 <= #[trigger] q.at(d) <= 10_000 && (d == 5 || d == 6
                    || q.at(d) >= 0),
            Some(d) => {
                &&& k <= d < 14
                &&& q.at(d) > 10_000 || q.at(d) < if d == 5 || d == 6 {
                    -10_000int
                } else {
                    0
                }
                &&& forall|c: int|
                    k <= c < d ==> -10_000 <= #[trigger] q.at(c) <= 10_000 && (c == 5 || c == 6
                        || q.at(c) >= 0)
            },
        },
    decreases 14 - k,
{
    if k < 14 {
        assert(q.at(k) == q.0@[k] as int);
        lemma_first_outside(q, k + 1);
    }
}

} // verus!
