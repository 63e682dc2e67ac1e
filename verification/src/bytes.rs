//! Little-endian numbers in byte sequences.
use crate::index::{QVec, STORE_DIM};
use vstd::prelude::*;

verus! {

/// `v` as an unsigned number of 16 bits.
pub open spec fn unsigned16(v: int) -> int {
    if v < 0 {
        v + 0x1_0000
    } else {
        v
    }
}

/// The number of 16 bits `u` with its sign.
pub open spec fn signed16(u: int) -> int {
    if u >= 0x8000 {
        u - 0x1_0000
    } else {
        u
    }
}

/// `v` as an unsigned number of 32 bits.
pub open spec fn unsigned32(v: int) -> int {
    if v < 0 {
        v + 0x1_0000_0000
    } else {
        v
    }
}

/// The number of 32 bits `u` with its sign.
pub open spec fn signed32(u: int) -> int {
    if u >= 0x8000_0000 {
        u - 0x1_0000_0000
    } else {
        u
    }
}

pub open spec fn i16_bytes(v: i16) -> Seq<u8> {
    let u = unsigned16(v as int);
    seq![(u % 256) as u8, (u / 256) as u8]
}

pub open spec fn u32_bytes(v: u32) -> Seq<u8> {
    seq![
        (v % 256) as u8,
        (v / 0x100 % 256) as u8,
        (v / 0x1_0000 % 256) as u8,
        (v / 0x100_0000) as u8,
    ]
}

pub open spec fn i32_bytes(v: i32) -> Seq<u8> {
    u32_bytes(unsigned32(v as int) as u32)
}

pub open spec fn u64_bytes(v: u64) -> Seq<u8> {
    u32_bytes((v % 0x1_0000_0000) as u32) + u32_bytes((v / 0x1_0000_0000) as u32)
}

/// The signed number of 16 bits at `pos`.
pub open spec fn i16_at(data: Seq<u8>, pos: int) -> int {
    signed16(data[pos] + data[pos + 1] * 256)
}

/// The unsigned number of 32 bits at `pos`.
pub open spec fn u32_at(data: Seq<u8>, pos: int) -> int {
    data[pos] + data[pos + 1] * 0x100 + data[pos + 2] * 0x1_0000 + data[pos + 3] * 0x100_0000
}

/// The signed number of 32 bits at `pos`.
pub open spec fn i32_at(data: Seq<u8>, pos: int) -> int {
    signed32(u32_at(data, pos))
}

/// The unsigned number of 64 bits at `pos`.
pub open spec fn u64_at(data: Seq<u8>, pos: int) -> int {
    u32_at(data, pos) + u32_at(data, pos + 4) * 0x1_0000_0000
}

/// The vector whose 16 coordinates stand at `pos`.
pub open spec fn is_qvec_at(data: Seq<u8>, pos: int, q: QVec) -> bool {
    forall|d: int| 0 <= d < 16 ==> #[trigger] q.at(d) == i16_at(data, pos + 2 * d)
}

/// `f(0)`, `f(1)`, up to `f(n - 1)`, one behind the other.
pub open spec fn flat(n: nat, f: spec_fn(int) -> Seq<u8>) -> Seq<u8>
    decreases n,
{
    if n == 0 {
        Seq::empty()
    } else {
        flat((n - 1) as nat, f) + f(n - 1)
    }
}

/// The 16 coordinates of a vector.
pub open spec fn qvec_bytes(q: QVec) -> Seq<u8> {
    flat(16, |d: int| i16_bytes(q.0@[d]))
}

/// `n` zero bytes.
pub open spec fn zeroes(n: int) -> Seq<u8> {
    Seq::new(n as nat, |i: int| 0u8)
}

/// `piece` is what stands in `s` behind `i` pieces of length `c`.
pub open spec fn is_piece(s: Seq<u8>, i: int, c: int, piece: Seq<u8>) -> bool {
    0 <= i * c && i * c + c <= s.len() && s.subrange(i * c, i * c + c) == piece
}

/// Pieces of the same length can be cut out again.
pub proof fn lemma_flat(n: nat, f: spec_fn(int) -> Seq<u8>, c: nat)
    requires
        forall|i: int| 0 <= i < n ==> (#[trigger] f(i)).len() == c,
    ensures
        flat(n, f).len() == n * c,
        forall|i: int| 0 <= i < n ==> is_piece(flat(n, f), i, c as int, #[trigger] f(i)),
    decreases n,
{
    if n > 0 {
        let m = (n - 1) as nat;
        lemma_flat(m, f, c);
        assert(n * c == m * c + c) by (nonlinear_arith)
            requires
                n == m + 1,
        ;
        assert(f(m as int).len() == c);
        assert forall|i: int| 0 <= i < n implies is_piece(
            flat(n, f),
            i,
            c as int,
            #[trigger] f(i),
        ) by {
            let at = i * c;
            assert(0 <= at) by (nonlinear_arith)
                requires
                    0 <= i,
                    at == i * c,
            ;
            if i < m {
                assert(is_piece(flat(m, f), i, c as int, f(i)));
                assert(at + c <= m * c);
                assert(flat(n, f).subrange(at, at + c) =~= flat(m, f).subrange(at, at + c));
            } else {
                assert(flat(n, f).subrange(at, at + c) =~= f(i));
            }
        }
    } else {
        assert(n * c == 0) by (nonlinear_arith)
            requires
                n == 0,
        ;
    }
}

/// Reading back a number gives what was written.
pub proof fn law_i16_reads_back(data: Seq<u8>, pos: int, v: i16)
    requires
        0 <= pos,
        pos + 2 <= data.len(),
        data.subrange(pos, pos + 2) == i16_bytes(v),
    ensures
        i16_at(data, pos) == v,
{
    let s = data.subrange(pos, pos + 2);
    assert(s[0] == data[pos] && s[1] == data[pos + 1]);
}

/// Reading back a number gives what was written.
pub proof fn law_u32_reads_back(data: Seq<u8>, pos: int, v: u32)
    requires
        0 <= pos,
        pos + 4 <= data.len(),
        data.subrange(pos, pos + 4) == u32_bytes(v),
    ensures
        u32_at(data, pos) == v,
{
    let s = data.subrange(pos, pos + 4);
    assert(s[0] == data[pos] && s[1] == data[pos + 1] && s[2] == data[pos + 2] && s[3] == data[pos
        + 3]);
}

/// Reading back a number gives what was written.
pub proof fn law_i32_reads_back(data: Seq<u8>, pos: int, v: i32)
    requires
        0 <= pos,
        pos + 4 <= data.len(),
        data.subrange(pos, pos + 4) == i32_bytes(v),
    ensures
        i32_at(data, pos) == v,
{
    law_u32_reads_back(data, pos, unsigned32(v as int) as u32);
}

/// Reading back a number gives what was written.
pub proof fn law_u64_reads_back(data: Seq<u8>, pos: int, v: u64)
    requires
        0 <= pos,
        pos + 8 <= data.len(),
        data.subrange(pos, pos + 8) == u64_bytes(v),
    ensures
        u64_at(data, pos) == v,
{
    let s = data.subrange(pos, pos + 8);
    let lo = (v % 0x1_0000_0000) as u32;
    let hi = (v / 0x1_0000_0000) as u32;
    assert(data.subrange(pos, pos + 4) =~= s.subrange(0, 4));
    assert(data.subrange(pos + 4, pos + 8) =~= s.subrange(4, 8));
    assert(s.subrange(0, 4) =~= u32_bytes(lo));
    assert(s.subrange(4, 8) =~= u32_bytes(hi));
    law_u32_reads_back(data, pos, lo);
    law_u32_reads_back(data, pos + 4, hi);
}

/// Reading back a vector gives what was written.
pub proof fn law_qvec_reads_back(data: Seq<u8>, pos: int, q: QVec)
    requires
        0 <= pos,
        pos + 32 <= data.len(),
        data.subrange(pos, pos + 32) == qvec_bytes(q),
    ensures
        is_qvec_at(data, pos, q),
{
    let f = |d: int| i16_bytes(q.0@[d]);
    lemma_flat(16, f, 2);
    assert forall|d: int| 0 <= d < 16 implies #[trigger] q.at(d) == i16_at(data, pos + 2 * d) by {
        assert(f(d) == i16_bytes(q.0@[d]));
        assert(is_piece(qvec_bytes(q), d, 2, f(d)));
        assert(data.subrange(pos + 2 * d, pos + 2 * d + 2) =~= qvec_bytes(q).subrange(
            d * 2,
            d * 2 + 2,
        ));
        law_i16_reads_back(data, pos + 2 * d, q.0@[d]);
    }
}

pub proof fn lemma_qvec_bytes_len(q: QVec)
    ensures
        qvec_bytes(q).len() == 32,
{
    lemma_flat(16, |d: int| i16_bytes(q.0@[d]), 2);
}

/// Two vectors with the same coordinates are the same.
pub proof fn lemma_qvec_ext(a: QVec, b: QVec)
    requires
        forall|d: int| 0 <= d < 16 ==> #[trigger] a.at(d) == b.at(d),
    ensures
        a == b,
{
    assert forall|d: int| 0 <= d < 16 implies a.0@[d] == b.0@[d] by {
        assert(a.at(d) == b.at(d));
    }
    assert(a.0 =~= b.0);
}

/// `pat` stands in `data` at `pos`.
pub open spec fn holds_at(data: Seq<u8>, pos: int, pat: Seq<u8>) -> bool {
    0 <= pos && pos + pat.len() <= data.len() && data.subrange(pos, pos + pat.len()) == pat
}

pub fn matches_at(data: &[u8], pos: usize, pat: &[u8]) -> (r: bool)
    ensures
        r == holds_at(data@, pos as int, pat@),
        r ==> pos + pat@.len() <= usize::MAX,
{
    let len: usize = data.len();
    if pos > len || pat.len() > len - pos {
        return false;
    }
    let mut i: usize = 0;
    while i < pat.len()
        invariant
            i <= pat@.len(),
            len == data@.len(),
            pos + pat@.len() <= len,
            forall|j: int| 0 <= j < i ==> data@[pos + j] == #[trigger] pat@[j],
        decreases pat@.len() - i,
    {
        if data[pos + i] != pat[i] {
            assert(data@.subrange(pos as int, pos + pat@.len())[i as int] != pat@[i as int]);
            return false;
        }
        i = i + 1;
    }
    assert(data@.subrange(pos as int, pos + pat@.len()) =~= pat@);
    true
}

pub fn write_bytes(w: &mut Vec<u8>, data: &[u8])
    ensures
        final(w)@ == old(w)@ + data@,
{
    let ghost before = w@;
    let mut i: usize = 0;
    assert(w@ =~= before + data@.take(0));
    while i < data.len()
        invariant
            i <= data@.len(),
            w@ == before + data@.take(i as int),
        decreases data@.len() - i,
    {
        w.push(data[i]);
        assert(w@ =~= before + data@.take(i + 1));
        i = i + 1;
    }
    assert(data@.take(i as int) =~= data@);
}

pub fn write_u32(w: &mut Vec<u8>, v: u32)
    ensures
        final(w)@ == old(w)@ + u32_bytes(v),
{
    let ghost before = w@;
    w.push((v % 256) as u8);
    w.push((v / 0x100 % 256) as u8);
    w.push((v / 0x1_0000 % 256) as u8);
    w.push((v / 0x100_0000) as u8);
    assert(w@ =~= before + u32_bytes(v));
}

pub fn write_i32(w: &mut Vec<u8>, v: i32)
    ensures
        final(w)@ == old(w)@ + i32_bytes(v),
{
    let u: i64 = if v < 0 { v as i64 + 0x1_0000_0000 } else { v as i64 };
    write_u32(w, u as u32);
}

pub fn write_u64(w: &mut Vec<u8>, v: u64)
    ensures
        final(w)@ == old(w)@ + u64_bytes(v),
{
    let ghost before = w@;
    write_u32(w, (v % 0x1_0000_0000) as u32);
    write_u32(w, (v / 0x1_0000_0000) as u32);
    assert(w@ =~= before + u64_bytes(v));
}

pub fn write_i16(w: &mut Vec<u8>, v: i16)
    ensures
        final(w)@ == old(w)@ + i16_bytes(v),
{
    let ghost before = w@;
    let u: i32 = if v < 0 { v as i32 + 0x1_0000 } else { v as i32 };
    w.push((u % 256) as u8);
    w.push((u / 256) as u8);
    assert(w@ =~= before + i16_bytes(v));
}

pub fn write_qvec_raw(w: &mut Vec<u8>, qvec: &[i16; STORE_DIM])
    ensures
        final(w)@ == old(w)@ + qvec_bytes(QVec(*qvec)),
{
    let ghost before = w@;
    let ghost f = |d: int| i16_bytes(QVec(*qvec).0@[d]);
    let mut d: usize = 0;
    assert(w@ =~= before + flat(0, f));
    while d < STORE_DIM
        invariant
            d <= 16,
            f == (|d: int| i16_bytes(QVec(*qvec).0@[d])),
            w@ == before + flat(d as nat, f),
        decreases 16 - d,
    {
        write_i16(w, qvec[d]);
        assert(w@ =~= before + flat((d + 1) as nat, f));
        d = d + 1;
    }
}

pub fn write_qvec(w: &mut Vec<u8>, qvec: &QVec)
    ensures
        final(w)@ == old(w)@ + qvec_bytes(*qvec),
{
    write_qvec_raw(w, &qvec.0);
}

pub fn read_u32(data: &[u8], pos: &mut usize) -> (r: u32)
    requires
        *old(pos) + 4 <= data@.len(),
    ensures
        r == u32_at(data@, *old(pos) as int),
        *final(pos) == *old(pos) + 4,
{
    let p: usize = *pos;
    let v: u32 = data[p] as u32 + data[p + 1] as u32 * 0x100 + data[p + 2] as u32 * 0x1_0000
        + data[p + 3] as u32 * 0x100_0000;
    *pos = p + 4;
    v
}

pub fn read_i32(data: &[u8], pos: &mut usize) -> (r: i32)
    requires
        *old(pos) + 4 <= data@.len(),
    ensures
        r == i32_at(data@, *old(pos) as int),
        *final(pos) == *old(pos) + 4,
{
    let u: u32 = read_u32(data, pos);
    if u >= 0x8000_0000 {
        (u as i64 - 0x1_0000_0000) as i32
    } else {
        u as i32
    }
}

pub fn read_u64(data: &[u8], pos: &mut usize) -> (r: u64)
    requires
        *old(pos) + 8 <= data@.len(),
    ensures
        r == u64_at(data@, *old(pos) as int),
        *final(pos) == *old(pos) + 8,
{
    let lo: u32 = read_u32(data, pos);
    let hi: u32 = read_u32(data, pos);
    lo as u64 + hi as u64 * 0x1_0000_0000
}

pub fn read_i16(data: &[u8], p: usize) -> (r: i16)
    requires
        p + 2 <= data@.len(),
    ensures
        r == i16_at(data@, p as int),
{
    let u: i32 = data[p] as i32 + data[p + 1] as i32 * 256;
    if u >= 0x8000 {
        (u - 0x1_0000) as i16
    } else {
        u as i16
    }
}

pub fn read_qvec(data: &[u8], pos: &mut usize) -> (r: QVec)
    requires
        *old(pos) + 32 <= data@.len(),
    ensures
        is_qvec_at(data@, *old(pos) as int, r),
        *final(pos) == *old(pos) + 32,
{
    let start: usize = *pos;
    let len: usize = data.len();
    let mut v: QVec = QVec::zero();
    let mut d: usize = 0;
    while d < STORE_DIM
        invariant
            d <= 16,
            len == data@.len(),
            start + 32 <= len,
            forall|e: int| 0 <= e < d ==> #[trigger] v.at(e) == i16_at(data@, start + 2 * e),
        decreases 16 - d,
    {
        let ghost before = v;
        v.0[d] = read_i16(data, start + 2 * d);
        assert forall|e: int| 0 <= e <= d implies #[trigger] v.at(e) == i16_at(
            data@,
            start + 2 * e,
        ) by {
            if e < d {
                assert(before.at(e) == i16_at(data@, start + 2 * e));
            }
        }
        d = d + 1;
    }
    *pos = start + 32;
    v
}

} // verus!
