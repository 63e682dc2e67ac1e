//! Distances between quantized vectors, in stages, and lower bounds for boxes.
use crate::index::QVec;
use vstd::prelude::*;

verus! {

/// `x` reduced to the range of an `i16`.
pub open spec fn wrap16(x: int) -> int {
    (x + 0x8000) % 0x1_0000 - 0x8000
}

/// `x` reduced to the range of an `i32`.
pub open spec fn wrap32(x: int) -> int {
    (x + 0x8000_0000) % 0x1_0000_0000 - 0x8000_0000
}

pub open spec fn square(x: int) -> int {
    x * x
}

/// The squared difference in dimension `d`, the difference being taken in 16 bits.
pub open spec fn lane(a: QVec, b: QVec, d: int) -> int {
    square(wrap16(a.at(d) - b.at(d)))
}

/// The squared differences over the hot dimensions.
pub open spec fn hot_sum(a: QVec, b: QVec) -> int {
    lane(a, b, 0) + lane(a, b, 1) + lane(a, b, 2) + lane(a, b, 8)
}

/// The squared differences over the mid dimensions.
pub open spec fn mid_sum(a: QVec, b: QVec) -> int {
    lane(a, b, 4) + lane(a, b, 6) + lane(a, b, 7) + lane(a, b, 13)
}

/// The squared differences over the cold dimensions and the padding.
pub open spec fn cold_sum(a: QVec, b: QVec) -> int {
    lane(a, b, 3) + lane(a, b, 5) + lane(a, b, 9) + lane(a, b, 10) + lane(a, b, 11) + lane(
        a,
        b,
        12,
    ) + lane(a, b, 14) + lane(a, b, 15)
}

/// The distance bound after the hot stage, in 32 bits.
pub open spec fn hot_bound(a: QVec, b: QVec) -> int {
    wrap32(hot_sum(a, b))
}

/// The distance bound after the hot and the mid stage, in 32 bits.
pub open spec fn mid_bound(a: QVec, b: QVec) -> int {
    wrap32(hot_sum(a, b) + mid_sum(a, b))
}

/// The squared Euclidean distance over the stored dimensions, in 32 bits.
pub open spec fn distance(a: QVec, b: QVec) -> int {
    wrap32(hot_sum(a, b) + mid_sum(a, b) + cold_sum(a, b))
}

proof fn lemma_square_bound(x: int, m: int)
    by (nonlinear_arith)
    requires
        -m <= x <= m,
    ensures
        0 <= x * x <= m * m,
{
}

fn wrap_to_i32(s: i64) -> (r: i32)
    requires
        0 <= s <= 0x4_0000_0000,
    ensures
        r == wrap32(s as int),
{
    let m: i64 = s % 0x1_0000_0000;
    if m >= 0x8000_0000 {
        (m - 0x1_0000_0000) as i32
    } else {
        m as i32
    }
}

fn exec_lane(a: &QVec, b: &QVec, d: usize) -> (r: i64)
    requires
        d < 16,
    ensures
        r == lane(*a, *b, d as int),
        0 <= r <= 0x4000_0000,
{
    let diff: i32 = a.0[d] as i32 - b.0[d] as i32;
    let x: i64 = if diff > 0x7fff {
        (diff - 0x1_0000) as i64
    } else if diff < -0x8000 {
        (diff + 0x1_0000) as i64
    } else {
        diff as i64
    };
    assert(x == wrap16(a.at(d as int) - b.at(d as int)));
    proof {
        lemma_square_bound(x as int, 0x8000);
    }
    x * x
}

fn exec_hot_sum(a: &QVec, b: &QVec) -> (r: i64)
    ensures
        r == hot_sum(*a, *b),
        0 <= r <= 0x1_0000_0000,
{
    exec_lane(a, b, 0) + exec_lane(a, b, 1) + exec_lane(a, b, 2) + exec_lane(a, b, 8)
}

fn exec_mid_sum(a: &QVec, b: &QVec) -> (r: i64)
    ensures
        r == mid_sum(*a, *b),
        0 <= r <= 0x1_0000_0000,
{
    exec_lane(a, b, 4) + exec_lane(a, b, 6) + exec_lane(a, b, 7) + exec_lane(a, b, 13)
}

fn exec_cold_sum(a: &QVec, b: &QVec) -> (r: i64)
    ensures
        r == cold_sum(*a, *b),
        0 <= r <= 0x2_0000_0000,
{
    exec_lane(a, b, 3) + exec_lane(a, b, 5) + exec_lane(a, b, 9) + exec_lane(a, b, 10)
        + exec_lane(a, b, 11) + exec_lane(a, b, 12) + exec_lane(a, b, 14) + exec_lane(a, b, 15)
}

/// The squared Euclidean distance over the stored dimensions.
pub fn dist_sq(a: &QVec, b: &QVec) -> (r: i32)
    ensures
        r == distance(*a, *b),
{
    let s: i64 = exec_hot_sum(a, b) + exec_mid_sum(a, b) + exec_cold_sum(a, b);
    wrap_to_i32(s)
}

/// How a candidate fared against the current worst neighbour.
#[derive(Clone, Copy)]
pub enum Staged {
    /// The hot dimensions alone put it out of reach.
    HotPruned,
    /// The hot and mid dimensions put it out of reach.
    MidPruned,
    /// All dimensions were compared.
    Full { dist: i32 },
}

/// Compares a candidate in stages and stops at the first bound that reaches `worst`.
pub fn staged_distance(q: &QVec, v: &QVec, worst: i32) -> (r: Staged)
    ensures
        match r {
            Staged::HotPruned => hot_bound(*q, *v) >= worst,
            Staged::MidPruned => hot_bound(*q, *v) < worst && mid_bound(*q, *v) >= worst,
            Staged::Full { dist } => {
                &&& hot_bound(*q, *v) < worst
                &&& mid_bound(*q, *v) < worst
                &&& dist == distance(*q, *v)
            },
        },
{
    let hot: i64 = exec_hot_sum(q, v);
    if wrap_to_i32(hot) >= worst {
        return Staged::HotPruned;
    }
    let mid: i64 = hot + exec_mid_sum(q, v);
    if wrap_to_i32(mid) >= worst {
        return Staged::MidPruned;
    }
    let full: i64 = mid + exec_cold_sum(q, v);
    Staged::Full { dist: wrap_to_i32(full) }
}

/// `x` limited to the range `0 ..= 0x7fff`.
pub open spec fn saturated(x: int) -> int {
    if x < 0 {
        0
    } else if x > 0x7fff {
        0x7fff
    } else {
        x
    }
}

/// How far `q` lies outside `lo ..= hi`. Where the bounds are reversed both sides can be
/// positive; their bits are then joined.
pub open spec fn gap(q: int, lo: int, hi: int) -> int {
    ((saturated(lo - q) as i16) | (saturated(q - hi) as i16)) as int
}

/// The squared gap in dimension `d`.
pub open spec fn gap_lane(q: QVec, lo: QVec, hi: QVec, d: int) -> int {
    square(gap(q.at(d), lo.at(d), hi.at(d)))
}

/// The squared gaps over the first `n` dimensions.
pub open spec fn gap_sum(q: QVec, lo: QVec, hi: QVec, n: nat) -> int
    decreases n,
{
    if n == 0 {
        0
    } else {
        gap_sum(q, lo, hi, (n - 1) as nat) + gap_lane(q, lo, hi, n - 1)
    }
}

/// The squared distance from `q` to the box `lo ..= hi`, in 32 bits.
pub open spec fn box_distance(q: QVec, lo: QVec, hi: QVec) -> int {
    wrap32(gap_sum(q, lo, hi, 16))
}

fn exec_saturated(x: i32) -> (r: i16)
    ensures
        r == saturated(x as int),
{
    if x < 0 {
        0
    } else if x > 0x7fff {
        0x7fff
    } else {
        x as i16
    }
}

/// A lower bound for the distance from `q` to anything in the box `bmin ..= bmax`.
pub fn lower_bound(q: &QVec, bmin: &QVec, bmax: &QVec) -> (r: i32)
    ensures
        r == box_distance(*q, *bmin, *bmax),
{
    let mut sum: i64 = 0;
    let mut d: usize = 0;
    while d < 16
        invariant
            d <= 16,
            sum == gap_sum(*q, *bmin, *bmax, d as nat),
            0 <= sum <= d * 0x4000_0000,
        decreases 16 - d,
    {
        let below: i16 = exec_saturated(bmin.0[d] as i32 - q.0[d] as i32);
        let above: i16 = exec_saturated(q.0[d] as i32 - bmax.0[d] as i32);
        let g: i64 = (below | above) as i64;
        assert(g == gap(q.at(d as int), bmin.at(d as int), bmax.at(d as int)));
        proof {
            lemma_square_bound(g as int, 0x8000);
        }
        sum = sum + g * g;
        d = d + 1;
    }
    wrap_to_i32(sum)
}

} // verus!
