use rinha_fraud::distance::{dist_sq, lower_bound, staged_distance, Staged};
use rinha_fraud::index::{
    align_up, bin4, partition_key, PartitionMeta, QVec, COLD_SIMD_DIMS, HOT_DIMS,
    INDEX_FILE_HEADER_LEN, INDEX_FILE_MAGIC, MID_DIMS, PARTITIONS_MAGIC, RAW_INDEX_FILE_HEADER_LEN,
};
use rinha_fraud::top5::Top5;

fn qvec(first: &[i16]) -> QVec {
    let mut q = QVec([0; 16]);
    for (i, v) in first.iter().enumerate() {
        q.0[i] = *v;
    }
    q
}

#[test]
fn magic_bytes_and_stages() {
    assert_eq!(&PARTITIONS_MAGIC, b"RINHIDX5");
    assert_eq!(&INDEX_FILE_MAGIC, b"RINHIF03");
    assert_eq!(INDEX_FILE_HEADER_LEN, align_up(RAW_INDEX_FILE_HEADER_LEN, 64));
    let mut dims: Vec<usize> = Vec::new();
    dims.extend_from_slice(&HOT_DIMS);
    dims.extend_from_slice(&MID_DIMS);
    dims.extend_from_slice(&COLD_SIMD_DIMS);
    dims.sort();
    assert_eq!(dims, (0..16).collect::<Vec<usize>>());
}

#[test]
fn align_up_rounds_to_the_next_multiple() {
    assert_eq!(align_up(0, 64), 0);
    assert_eq!(align_up(1, 64), 64);
    assert_eq!(align_up(64, 64), 64);
    assert_eq!(align_up(65, 64), 128);
    assert_eq!(align_up(17, 8), 24);
    // not a power of two: only the bits of `align - 1` are cleared
    assert_eq!(align_up(5, 6), 10 & !5);
}

#[test]
fn empty_partition_has_no_root() {
    let p = PartitionMeta::empty();
    assert_eq!((p.start, p.count, p.root, p._pad), (0, 0, -1, 0));
    assert_eq!(p.bbox_min.0, [0; 16]);
    assert_eq!(p.bbox_max.0, [0; 16]);
}

#[test]
fn bin4_splits_the_unit_interval() {
    assert_eq!(bin4(-10_000), 0);
    assert_eq!(bin4(2_499), 0);
    assert_eq!(bin4(2_500), 1);
    assert_eq!(bin4(4_999), 1);
    assert_eq!(bin4(5_000), 2);
    assert_eq!(bin4(7_499), 2);
    assert_eq!(bin4(7_500), 3);
    assert_eq!(bin4(10_000), 3);
}

#[test]
fn partition_key_reads_six_features() {
    let mut v = QVec::zero();
    // a previous transaction, nothing else
    assert_eq!(partition_key(&v), 8);
    v.0[5] = -10_000;
    assert_eq!(partition_key(&v), 0);
    v.0[9] = 10_000;
    assert_eq!(partition_key(&v), 1);
    v.0[10] = 10_000;
    assert_eq!(partition_key(&v), 3);
    v.0[11] = 1;
    assert_eq!(partition_key(&v), 7);
    v.0[12] = 8_500;
    assert_eq!(partition_key(&v), 7 + 48);
    v.0[3] = 5_000;
    assert_eq!(partition_key(&v), 7 + 48 + 128);
    v.0[5] = 0;
    v.0[3] = 10_000;
    assert_eq!(partition_key(&v), 255);
}

#[test]
fn distance_is_squared_and_euclidean() {
    let a = qvec(&[10, -3, 0, 4]);
    let b = qvec(&[7, 1, 0, 4]);
    assert_eq!(dist_sq(&a, &b), 9 + 16);
    assert_eq!(dist_sq(&a, &a), 0);
    let mut lo = QVec([0; 16]);
    let mut hi = QVec([10_000; 16]);
    lo.0[5] = -10_000;
    lo.0[6] = -10_000;
    hi.0[14] = 0;
    hi.0[15] = 0;
    // the greatest distance in the domain still fits
    assert_eq!(dist_sq(&lo, &hi), 12 * 100_000_000 + 2 * 400_000_000);
}

#[test]
fn distance_wraps_outside_of_the_domain() {
    // the difference wraps at 16 bits, the sum at 32
    let a = qvec(&[i16::MAX]);
    let b = qvec(&[i16::MIN]);
    assert_eq!(dist_sq(&a, &b), 1);
    let c = QVec([20_000; 16]);
    let sum: i64 = 16 * 400_000_000;
    assert_eq!(dist_sq(&c, &QVec::zero()), sum as i32);
}

#[test]
fn comparison_stops_at_the_first_sufficient_stage() {
    let q = QVec::zero();
    let mut v = QVec::zero();
    v.0[8] = 10;
    assert!(matches!(staged_distance(&q, &v, 100), Staged::HotPruned));
    assert!(matches!(staged_distance(&q, &v, 101), Staged::Full { dist: 100 }));
    v.0[13] = 10;
    assert!(matches!(staged_distance(&q, &v, 200), Staged::MidPruned));
    v.0[15] = 10;
    assert!(matches!(staged_distance(&q, &v, 201), Staged::Full { dist: 300 }));
}

#[test]
fn lower_bound_is_the_distance_to_the_box() {
    let lo = qvec(&[10, 0, -5]);
    let hi = qvec(&[20, 0, -1]);
    assert_eq!(lower_bound(&qvec(&[15, 0, -3]), &lo, &hi), 0);
    assert_eq!(lower_bound(&qvec(&[7, 0, 1]), &lo, &hi), 9 + 4);
    assert_eq!(lower_bound(&qvec(&[25, 2, -6]), &lo, &hi), 25 + 4 + 1);
    // a gap saturates
    let far = lower_bound(&qvec(&[i16::MIN]), &qvec(&[i16::MAX]), &qvec(&[i16::MAX]));
    assert_eq!(far, 0x7fff * 0x7fff);
}

#[test]
fn lower_bound_never_exceeds_the_distance() {
    let lo = qvec(&[100, 200, 300, 0, 50]);
    let hi = qvec(&[900, 250, 300, 10, 60]);
    let inside = qvec(&[400, 220, 300, 5, 55]);
    for x in [0i16, 150, 500, 10_000] {
        let q = qvec(&[x, 10_000 - x, x, x / 2, 3]);
        assert!(lower_bound(&q, &lo, &hi) <= dist_sq(&q, &inside));
    }
}

#[test]
fn top5_keeps_the_five_nearest_in_order() {
    let mut t = Top5::new();
    assert_eq!(t.worst(), i32::MAX);
    assert_eq!(t.fraud_count(), 0);
    for (d, f) in [(50, true), (10, false), (40, true), (20, true), (30, false)] {
        t.try_insert(d, f);
    }
    assert_eq!(t.dists, [10, 20, 30, 40, 50]);
    assert_eq!(t.fraud, [false, true, false, true, true]);
    assert_eq!(t.worst(), 50);
    assert_eq!(t.fraud_count(), 3);
    t.try_insert(50, false);
    assert_eq!(t.fraud_count(), 3);
    // an equal goes behind its equals
    t.try_insert(20, false);
    assert_eq!(t.dists, [10, 20, 20, 30, 40]);
    assert_eq!(t.fraud, [false, true, false, false, true]);
    assert_eq!(t.fraud_count(), 2);
}

#[test]
fn a_vector_is_its_coordinates() {
    let mut q = QVec::zero();
    q[3] = 5;
    assert_eq!(q[3], 5);
    assert_eq!(q.0[3], 5);
    assert_eq!(q.len(), 16);
    assert_eq!(q.iter().map(|v| *v as i32).sum::<i32>(), 5);
}
