//! What distances and bounds are in machine words, whatever the vectors.
use crate::distance;
use crate::distance::{dist_sq, lower_bound, staged_distance, Staged};
use crate::index::QVec;
use vstd::prelude::*;

verus! {

/// `y` is `x` in the machine word of which there are `m`, half of them below zero.
pub open spec fn is_in_word(y: int, x: int, m: int) -> bool {
    -m <= 2 * y < m && (y - x) % m == 0
}

/// The squares of `w`, taken together.
pub open spec fn squares(w: Seq<int>) -> int {
    w[0] * w[0] + w[1] * w[1] + w[2] * w[2] + w[3] * w[3] + w[4] * w[4] + w[5] * w[5] + w[6]
        * w[6] + w[7] * w[7] + w[8] * w[8] + w[9] * w[9] + w[10] * w[10] + w[11] * w[11] + w[12]
        * w[12] + w[13] * w[13] + w[14] * w[14] + w[15] * w[15]
}

proof fn lemma_word16(y: int, x: int)
    requires
        is_in_word(y, x, 65_536),
    ensures
        distance::wrap16(x) == y,
{
    let k = (y - x) / 65_536;
    assert(y - x == 65_536 * k);
}

proof fn lemma_word32(y: int, x: int)
    requires
        is_in_word(y, x, 4_294_967_296),
    ensures
        distance::wrap32(x) == y,
{
    let k = (y - x) / 4_294_967_296;
    assert(y - x == 4_294_967_296 * k);
}

proof fn lemma_is_word32(x: int)
    ensures
        is_in_word(distance::wrap32(x), x, 4_294_967_296),
{
}

proof fn lemma_second_word(first: int, second: int, hot: int, mid: int)
    requires
        is_in_word(first, hot, 4_294_967_296),
        is_in_word(second, first + mid, 4_294_967_296),
    ensures
        is_in_word(second, hot + mid, 4_294_967_296),
{
    let k = (first - hot) / 4_294_967_296;
    let l = (second - (first + mid)) / 4_294_967_296;
    assert(first - hot == 4_294_967_296 * k);
    assert(second - (first + mid) == 4_294_967_296 * l);
    assert(second - (hot + mid) == 4_294_967_296 * (k + l));
}

proof fn lemma_lane(a: QVec, b: QVec, w: Seq<int>, d: int)
    requires
        is_in_word(w[d], a.at(d) - b.at(d), 65_536),
    ensures
        distance::lane(a, b, d) == w[d] * w[d],
{
    lemma_word16(w[d], a.at(d) - b.at(d));
}

proof fn lemma_words(a: QVec, b: QVec, w: Seq<int>)
    requires
        forall|d: int|
            0 <= d < 16 ==> is_in_word(#[trigger] w[d], a.at(d) - b.at(d), 65_536),
    ensures
        distance::hot_sum(a, b) == w[0] * w[0] + w[1] * w[1] + w[2] * w[2] + w[8] * w[8],
        distance::mid_sum(a, b) == w[4] * w[4] + w[6] * w[6] + w[7] * w[7] + w[13] * w[13],
        distance::hot_sum(a, b) + distance::mid_sum(a, b) + distance::cold_sum(a, b) == squares(w),
{
    lemma_lane(a, b, w, 0);
    lemma_lane(a, b, w, 1);
    lemma_lane(a, b, w, 2);
    lemma_lane(a, b, w, 3);
    lemma_lane(a, b, w, 4);
    lemma_lane(a, b, w, 5);
    lemma_lane(a, b, w, 6);
    lemma_lane(a, b, w, 7);
    lemma_lane(a, b, w, 8);
    lemma_lane(a, b, w, 9);
    lemma_lane(a, b, w, 10);
    lemma_lane(a, b, w, 11);
    lemma_lane(a, b, w, 12);
    lemma_lane(a, b, w, 13);
    lemma_lane(a, b, w, 14);
    lemma_lane(a, b, w, 15);
}

/// Whatever the vectors, the differences are taken in words of 16 bits, their squares are added
/// up in words of 32 bits, and a candidate is given up as soon as the sum over four of its
/// coordinates, or four more, is not less than the worst distance.
pub proof fn law_distance_is_taken_in_machine_words(
    a: QVec,
    b: QVec,
    worst: i32,
    w: Seq<int>,
    first: int,
    second: int,
    r: i32,
    s: Staged,
)
    requires
        call_ensures(dist_sq, (&a, &b), r),
        call_ensures(staged_distance, (&a, &b, worst), s),
        w.len() == 16,
        forall|d: int|
            0 <= d < 16 ==> is_in_word(#[trigger] w[d], a.at(d) - b.at(d), 65_536),
        is_in_word(
            first,
            w[0] * w[0] + w[1] * w[1] + w[2] * w[2] + w[8] * w[8],
            4_294_967_296,
        ),
        is_in_word(
            second,
            first + (w[4] * w[4] + w[6] * w[6] + w[7] * w[7] + w[13] * w[13]),
            4_294_967_296,
        ),
    ensures
        is_in_word(r as int, squares(w), 4_294_967_296),
        s is HotPruned <==> first >= worst,
        s is MidPruned <==> first < worst <= second,
        s matches Staged::Full { dist } ==> dist == r,
{
    lemma_words(a, b, w);
    let hot = distance::hot_sum(a, b);
    let mid = distance::mid_sum(a, b);
    let cold = distance::cold_sum(a, b);
    lemma_word32(first, hot);
    lemma_second_word(first, second, hot, mid);
    lemma_word32(second, hot + mid);
    lemma_is_word32(hot + mid + cold);
}

proof fn lemma_capped_gap(q: int, lo: int, hi: int, w: int)
    requires
        lo <= hi,
        w == capped(outside_by(q, lo, hi)),
    ensures
        distance::square(distance::gap(q, lo, hi)) == w * w,
{
    let x = distance::saturated(lo - q) as i16;
    let y = distance::saturated(q - hi) as i16;
    assert(x | 0 == x) by (bit_vector);
    assert(0 | y == y) by (bit_vector);
    assert(0i16 | 0i16 == 0i16) by (bit_vector);
}

/// How far `q` lies outside of `lo ..= hi`.
pub open spec fn outside_by(q: int, lo: int, hi: int) -> int {
    if q < lo {
        lo - q
    } else if q > hi {
        q - hi
    } else {
        0
    }
}

/// The difference as far as 16 bits with a sign can hold it.
pub open spec fn capped(x: int) -> int {
    if x > 32_767 {
        32_767
    } else {
        x
    }
}

/// Whatever the box, its bound is the sum of the squared differences to it, each as far as 16
/// bits can hold it, in a word of 32 bits.
pub proof fn law_bound_is_taken_in_machine_words(
    q: QVec,
    lo: QVec,
    hi: QVec,
    w: Seq<int>,
    r: i32,
)
    requires
        call_ensures(lower_bound, (&q, &lo, &hi), r),
        w.len() == 16,
        forall|d: int| 0 <= d < 16 ==> #[trigger] lo.at(d) <= hi.at(d),
        forall|d: int|
            0 <= d < 16 ==> #[trigger] w[d] == capped(outside_by(q.at(d), lo.at(d), hi.at(d))),
    ensures
        is_in_word(r as int, squares(w), 4_294_967_296),
{
    assert forall|d: int| 0 <= d < 16 implies #[trigger] distance::gap_lane(q, lo, hi, d) == w[d]
        * w[d] by {
        assert(w[d] == capped(outside_by(q.at(d), lo.at(d), hi.at(d))));
        assert(lo.at(d) <= hi.at(d));
        lemma_capped_gap(q.at(d), lo.at(d), hi.at(d), w[d]);
    }
    reveal_with_fuel(distance::gap_sum, 17);
    lemma_is_word32(distance::gap_sum(q, lo, hi, 16));
}

} // verus!
