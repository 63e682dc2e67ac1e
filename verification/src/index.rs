//! The shared vocabulary of the index: quantized vectors, partitions and tree nodes.
use vstd::prelude::*;

verus! {

/// Dimensions that carry a feature.
pub const DIM: usize = 14;

/// Dimensions that are stored: the features and two positions of padding.
pub const STORE_DIM: usize = 16;

/// The fixed-point scale of a quantized coordinate.
pub const FIXED_SCALE: i32 = 10_000;

/// Number of partitions, one for each value of a partition key.
pub const PARTITIONS: usize = 256;

/// First bytes of a partition file: `RINHIDX5`.
pub const PARTITIONS_MAGIC: [u8; 8] = [
    'R' as u8, 'I' as u8, 'N' as u8, 'H' as u8, 'I' as u8, 'D' as u8, 'X' as u8, '5' as u8,
];

pub const INDEX_VERSION: u32 = 5;

/// First bytes of an index file: `RINHIF03`.
pub const INDEX_FILE_MAGIC: [u8; 8] = [
    'R' as u8, 'I' as u8, 'N' as u8, 'H' as u8, 'I' as u8, 'F' as u8, '0' as u8, '3' as u8,
];

pub const CACHELINE: usize = 64;

/// Bytes of the index file header before padding.
pub const RAW_INDEX_FILE_HEADER_LEN: usize = 104;

/// Bytes of the index file header, padded to a whole number of cache lines.
pub const INDEX_FILE_HEADER_LEN: usize = 128;

/// The dimensions that are compared first.
pub const HOT_DIMS: [usize; 4] = [0, 1, 2, 8];

/// The dimensions that are compared second.
pub const MID_DIMS: [usize; 4] = [4, 6, 7, 13];

/// The features that are compared last.
pub const COLD_REAL_DIMS: [usize; 6] = [3, 5, 9, 10, 11, 12];

/// The padding positions.
pub const PAD_DIMS: [usize; 2] = [14, 15];

/// The last stage as it is stored: the cold features, then the padding.
pub const COLD_SIMD_DIMS: [usize; 8] = [3, 5, 9, 10, 11, 12, 14, 15];

/// A quantized vector.
#[derive(Clone, Copy)]
pub struct QVec(pub [i16; STORE_DIM]);

impl QVec {
    /// The coordinate in dimension `d`.
    pub open spec fn at(self, d: int) -> int {
        self.0@[d] as int
    }

    /// The zero vector.
    pub fn zero() -> (r: QVec)
        ensures
            forall|d: int| 0 <= d < STORE_DIM ==> r.at(d) == 0,
    {
        QVec([0i16; STORE_DIM])
    }
}

impl std::ops::Deref for QVec {
    type Target = [i16; STORE_DIM];

    fn deref(&self) -> (r: &[i16; STORE_DIM])
        ensures
            *r == self.0,
    {
        &self.0
    }
}

impl std::ops::DerefMut for QVec {
    fn deref_mut(&mut self) -> (r: &mut [i16; STORE_DIM])
        ensures
            *r == old(self).0,
            final(self).0 == *final(r),
    {
        &mut self.0
    }
}

/// The range of values that feature `d` may take so that no distance overflows: the two
/// features about the previous transaction reach below zero, where they mark its absence.
pub open spec fn coordinate_in_domain(d: int, v: int) -> bool {
    (if d == 5 || d == 6 {
        -FIXED_SCALE
    } else {
        0
    }) <= v <= FIXED_SCALE
}

impl QVec {
    /// Every feature lies in its domain.
    pub open spec fn features_in_domain(self) -> bool {
        forall|d: int| 0 <= d < DIM ==> coordinate_in_domain(d, #[trigger] self.at(d))
    }

    /// Every feature lies in its domain and the padding is zero.
    pub open spec fn in_domain(self) -> bool {
        self.features_in_domain() && self.at(14) == 0 && self.at(15) == 0
    }
}

/// What is known of one partition: the box around its vectors, the run of records that
/// holds them, and the root of its tree (negative where it has none).
#[derive(Clone, Copy)]
pub struct PartitionMeta {
    pub bbox_min: QVec,
    pub bbox_max: QVec,
    pub start: u32,
    pub count: u32,
    pub root: i32,
    pub _pad: u32,
}

impl PartitionMeta {
    /// A partition without vectors.
    pub fn empty() -> (r: PartitionMeta)
        ensures
            forall|d: int| 0 <= d < STORE_DIM ==> r.bbox_min.at(d) == 0,
            forall|d: int| 0 <= d < STORE_DIM ==> r.bbox_max.at(d) == 0,
            r.start == 0,
            r.count == 0,
            r.root == -1,
            r._pad == 0,
    {
        PartitionMeta {
            bbox_min: QVec::zero(),
            bbox_max: QVec::zero(),
            start: 0,
            count: 0,
            root: -1,
            _pad: 0,
        }
    }
}

/// A node of a partition's tree. A leaf has a negative `left` and holds the records
/// `start .. start + count`; an inner node has two children.
#[derive(Clone, Copy)]
pub struct KdNode {
    pub bbox_min: QVec,
    pub bbox_max: QVec,
    pub left: i32,
    pub right: i32,
    pub start: u32,
    pub count: u32,
}

/// `a` is a power of two.
pub open spec fn is_power_of_two(a: int) -> bool {
    exists|k: nat| k < usize::BITS && a == #[trigger] vstd::arithmetic::power2::pow2(k)
}

/// Clears the bits of `v + align - 1` that are set in `align - 1`. Where `align` is a
/// power of two, that rounds `v` up to the next multiple of `align`.
pub fn align_up(v: usize, align: usize) -> (r: usize)
    requires
        align >= 1,
        v + align <= usize::MAX,
    ensures
        r == ((v + align - 1) as usize) & !((align - 1) as usize),
        is_power_of_two(align as int) ==> r % align == 0 && v <= r < v + align,
{
    proof {
        if is_power_of_two(align as int) {
            lemma_mask_rounds_down((v + align - 1) as usize, align);
        }
    }
    (v + align - 1) & !(align - 1)
}

proof fn lemma_mask_rounds_down(x: usize, align: usize)
    requires
        align >= 1,
        is_power_of_two(align as int),
    ensures
        (x & !((align - 1) as usize)) == x - x % align,
        (x & !((align - 1) as usize)) % align == 0,
{
    let k = choose|k: nat|
        k < usize::BITS && align == #[trigger] vstd::arithmetic::power2::pow2(k);
    let m = (align - 1) as usize;
    vstd::bits::lemma_usize_low_bits_mask_is_mod(x, k);
    assert(vstd::bits::low_bits_mask(k) == m);
    assert((x & m) == x % align);
    assert((x & !m) == x - (x & m)) by (bit_vector);
    let a = align as int;
    assert((x - x % align) % a == 0) by (nonlinear_arith)
        requires
            a == align,
            a >= 1,
    {
        vstd::arithmetic::div_mod::lemma_fundamental_div_mod(x as int, a);
        vstd::arithmetic::div_mod::lemma_mod_multiples_basic(x as int / a, a);
    }
}

/// Powers of two that the formats and the control messages align to.
pub proof fn lemma_small_powers_of_two()
    ensures
        is_power_of_two(4),
        is_power_of_two(8),
        is_power_of_two(64),
{
    vstd::arithmetic::power2::lemma2_to64();
    assert(vstd::arithmetic::power2::pow2(2) == 4);
    assert(vstd::arithmetic::power2::pow2(3) == 8);
    assert(vstd::arithmetic::power2::pow2(6) == 64);
}

/// The quarter of the unit interval that a coordinate falls into.
pub open spec fn quarter(v: int) -> int {
    if v < 2_500 {
        0
    } else if v < 5_000 {
        1
    } else if v < 7_500 {
        2
    } else {
        3
    }
}

pub fn bin4(v: i16) -> (r: u8)
    ensures
        r == quarter(v as int),
{
    if v < 2_500 {
        0
    } else if v < 5_000 {
        1
    } else if v < 7_500 {
        2
    } else {
        3
    }
}

/// The value of a bit at weight `w`.
pub open spec fn bit(set: bool, w: int) -> int {
    if set {
        w
    } else {
        0
    }
}

/// The key of the partition that `v` belongs to: one bit each for online, card present,
/// unknown merchant and the presence of a previous transaction, then two bits each for
/// the quarter of the merchant category risk and the quarter of the hour.
pub open spec fn key_of(v: QVec) -> int {
    bit(v.at(9) != 0, 1) + bit(v.at(10) != 0, 2) + bit(v.at(11) != 0, 4) + bit(
        v.at(5) != -10_000,
        8,
    ) + 16 * quarter(v.at(12)) + 64 * quarter(v.at(3))
}

pub fn partition_key(v: &QVec) -> (r: u8)
    ensures
        r == key_of(*v),
{
    let mut key: u8 = 0;
    if v.0[9] != 0 {
        key = key + 1;
    }
    if v.0[10] != 0 {
        key = key + 2;
    }
    if v.0[11] != 0 {
        key = key + 4;
    }
    if v.0[5] != -10_000 {
        key = key + 8;
    }
    key + bin4(v.0[12]) * 16 + bin4(v.0[3]) * 64
}

} // verus!
