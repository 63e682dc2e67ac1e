use rinha_fraud::builder::build_partitions;
use rinha_fraud::distance::dist_sq;
use rinha_fraud::http::score_response;
use rinha_fraud::index::{partition_key, KdNode, QVec};
use rinha_fraud::kd::{bbox_records, build_kd, choose_split_dim, widest_dim, BuildRecord};
use rinha_fraud::search::{push_if_promising, Index, SearchLimits, SearchStats};

/// A sequence of numbers without a pattern.
fn next(seed: &mut u64) -> u64 {
    *seed = seed.wrapping_mul(6364136223846793005).wrapping_add(1442695040888963407);
    *seed >> 33
}

fn random_vector(seed: &mut u64) -> QVec {
    let mut q = QVec::zero();
    for d in 0..14 {
        q.0[d] = (next(seed) % 10_001) as i16;
    }
    for d in 9..12 {
        q.0[d] = if next(seed) % 2 == 0 { 0 } else { 10_000 };
    }
    if next(seed) % 3 == 0 {
        q.0[5] = -10_000;
        q.0[6] = -10_000;
    }
    q
}

fn random_records(n: usize, seed: &mut u64) -> Vec<BuildRecord> {
    (0..n).map(|_| {
        let fraud = next(seed) % 3 == 0;
        BuildRecord::new(random_vector(seed), fraud)
    }).collect()
}

/// The frauds among the five nearest, if no two distances are equal at the border.
fn brute_force(records: &[BuildRecord], q: &QVec) -> Option<u32> {
    let mut all: Vec<(i32, u8)> = records.iter().map(|r| (dist_sq(q, &r.qvec), r.label)).collect();
    all.sort();
    if all.len() > 5 && all[4].0 == all[5].0 {
        return None;
    }
    Some(all.iter().take(5).map(|x| x.1 as u32).sum())
}

fn flat_index(records: &[BuildRecord]) -> Index {
    let vectors: Vec<u8> = records.iter().flat_map(|r| r.qvec.0.iter().flat_map(|v| v.to_le_bytes())).collect();
    let labels: Vec<u8> = records.iter().map(|r| r.label).collect();
    match Index::load(&vectors, &labels, None, SearchLimits::none()) {
        Ok(ix) => ix,
        Err(e) => panic!("{:?}", e),
    }
}

#[test]
fn search_of_a_built_index_is_exact() {
    let mut seed = 7;
    let records = random_records(3_000, &mut seed);
    let ix = build_partitions(&records).into_index();
    assert!(ix.is_searchable());
    let mut compared = 0;
    for _ in 0..200 {
        let q = random_vector(&mut seed);
        if let Some(want) = brute_force(&records, &q) {
            assert_eq!(ix.search_exact(&q), want);
            compared += 1;
        }
    }
    assert!(compared > 150);
}

#[test]
fn search_without_trees_scans_everything() {
    let mut seed = 3;
    let records = random_records(300, &mut seed);
    let ix = flat_index(&records);
    assert!(ix.is_searchable());
    let mut stats = SearchStats::default();
    for _ in 0..50 {
        let q = random_vector(&mut seed);
        let got = ix.search_exact_with_stats(&q, &mut stats);
        if let Some(want) = brute_force(&records, &q) {
            assert_eq!(got, want);
        }
        assert_eq!(stats.vectors_scanned, 300);
        assert_eq!(stats.nodes_visited, 0);
        assert_eq!(stats.partition_key, partition_key(&q));
    }
}

#[test]
fn up_to_five_vectors_all_vote() {
    let mut a = BuildRecord::new(QVec::zero(), true);
    a.qvec.0[0] = 9_999;
    let b = BuildRecord::new(QVec::zero(), true);
    let ix = build_partitions(&[a, b]).into_index();
    assert_eq!(ix.search_exact(&QVec::zero()), 2);
    let none = build_partitions(&[]).into_index();
    assert!(none.is_searchable());
    assert_eq!(none.search_exact(&QVec::zero()), 0);
    assert_eq!(flat_index(&[]).search_exact(&QVec::zero()), 0);
    let mut seed = 41;
    for n in 1..6 {
        let records = random_records(n, &mut seed);
        let frauds: u32 = records.iter().map(|r| r.label as u32).sum();
        let q = random_vector(&mut seed);
        assert_eq!(build_partitions(&records).into_index().search_exact(&q), frauds);
        assert_eq!(flat_index(&records).search_exact(&q), frauds);
    }
}

#[test]
fn the_order_of_the_vectors_does_not_matter() {
    let mut seed = 61;
    let records = random_records(1_500, &mut seed);
    let mut turned = records.clone();
    turned.reverse();
    turned.rotate_left(333);
    let a = build_partitions(&records).into_index();
    let b = build_partitions(&turned).into_index();
    let c = flat_index(&turned);
    for _ in 0..100 {
        let q = random_vector(&mut seed);
        if brute_force(&records, &q).is_some() {
            let votes = a.search_exact(&q);
            assert_eq!(b.search_exact(&q), votes);
            assert_eq!(c.search_exact(&q), votes);
        }
    }
}

#[test]
fn a_limited_search_is_exact_in_its_partition() {
    let mut seed = 71;
    let records = random_records(2_500, &mut seed);
    let mut ix = build_partitions(&records).into_index();
    ix.limits = SearchLimits { primary_only: true, max_extra_partitions: None };
    let mut compared = 0;
    for _ in 0..100 {
        let q = random_vector(&mut seed);
        let own: Vec<BuildRecord> =
            records.iter().filter(|r| r.key == partition_key(&q)).copied().collect();
        if let Some(want) = brute_force(&own, &q) {
            assert_eq!(ix.search_exact(&q), want);
            compared += 1;
        }
    }
    assert!(compared > 50);
}

#[test]
fn an_empty_primary_partition_is_not_considered() {
    // all records have a card that is present, the query has none
    let mut seed = 81;
    let mut records: Vec<BuildRecord> = Vec::new();
    for _ in 0..200 {
        let mut q = random_vector(&mut seed);
        q.0[10] = 10_000;
        records.push(BuildRecord::new(q, false));
    }
    let ix = build_partitions(&records).into_index();
    let mut q = random_vector(&mut seed);
    q.0[10] = 0;
    let filled = ix.partitions.iter().filter(|p| p.count != 0).count() as u64;
    assert_eq!(ix.partitions[partition_key(&q) as usize].count, 0);
    let mut s = SearchStats::default();
    ix.search_exact_with_stats(&q, &mut s);
    assert_eq!(s.partition_key, partition_key(&q));
    assert_eq!(s.partitions_considered as u64, filled);
    assert_eq!(s.empty_partitions as u64, 256 - filled);
    assert_eq!((s.partitions_searched + s.partitions_pruned) as u64, filled);
}

#[test]
fn counters_fit_together() {
    let mut seed = 11;
    let records = random_records(2_000, &mut seed);
    let ix = build_partitions(&records).into_index();
    let filled = ix.partitions.iter().filter(|p| p.count != 0).count();
    let mut s = SearchStats::default();
    for _ in 0..50 {
        let q = random_vector(&mut seed);
        let plain = ix.search_exact(&q);
        assert_eq!(ix.search_exact_with_stats(&q, &mut s), plain);
        assert_eq!(s.partition_key, partition_key(&q));
        assert_eq!(s.partitions_considered + s.empty_partitions, 256);
        assert_eq!(s.partitions_considered as usize, filled);
        assert_eq!(s.partitions_searched + s.partitions_pruned, s.partitions_considered);
        assert!(s.vectors_scanned as usize <= ix.count);
        assert!(s.nodes_visited as usize <= ix.nodes.len());
        assert!(s.nodes_pruned + s.leaves_scanned <= s.nodes_visited);
        assert!(s.stage8_pruned + s.full_scanned <= s.vectors_scanned);
        assert!(s.full_scanned >= 5);
    }
}

#[test]
fn limits_restrict_the_partitions() {
    let mut seed = 23;
    let records = random_records(2_000, &mut seed);
    let mut ix = build_partitions(&records).into_index();
    let mut s = SearchStats::default();
    for _ in 0..30 {
        let q = random_vector(&mut seed);
        ix.limits = SearchLimits { primary_only: true, max_extra_partitions: None };
        ix.search_exact_with_stats(&q, &mut s);
        assert!(s.partitions_searched <= 1);
        assert_eq!(s.partitions_considered + s.empty_partitions, 1);
        ix.limits = SearchLimits { primary_only: false, max_extra_partitions: Some(2) };
        ix.search_exact_with_stats(&q, &mut s);
        assert!(s.partitions_searched <= 3);
        assert_eq!(s.partitions_considered + s.empty_partitions, 256);
    }
}

#[test]
fn the_answer_reports_the_votes() {
    let records: Vec<BuildRecord> = (0..5).map(|i| BuildRecord::new(QVec::zero(), i < 3)).collect();
    let ix = build_partitions(&records).into_index();
    assert_eq!(ix.answer(&QVec::zero()), score_response(3));
}

#[test]
fn an_index_that_leads_nowhere_is_not_searchable() {
    let mut seed = 5;
    let records = random_records(500, &mut seed);
    let good = build_partitions(&records);
    let key = records[0].key as usize;

    let mut ix = build_partitions(&records).into_index();
    ix.labels.pop();
    assert!(!ix.is_searchable());

    let mut ix = build_partitions(&records).into_index();
    ix.partitions[key].root = good.nodes.len() as i32;
    assert!(!ix.is_searchable());

    // a node that is its own child
    let mut ix = build_partitions(&records).into_index();
    let root = ix.partitions[key].root as usize;
    ix.nodes[root].left = root as i32;
    ix.nodes[root].right = root as i32;
    assert!(!ix.is_searchable());

    // a leaf beyond the records
    let mut ix = build_partitions(&records).into_index();
    ix.nodes[root].left = -1;
    ix.nodes[root].start = 490;
    ix.nodes[root].count = 11;
    assert!(!ix.is_searchable());
    ix.nodes[root].count = 10;
    assert!(ix.is_searchable());

    let mut ix = build_partitions(&records).into_index();
    ix.partitions.pop();
    assert!(!ix.is_searchable());
}

#[test]
fn shared_children_are_followed_level_by_level() {
    let leaf = KdNode {
        bbox_min: QVec::zero(),
        bbox_max: QVec::zero(),
        left: -1,
        right: -1,
        start: 0,
        count: 1,
    };
    let mut ix = build_partitions(&[BuildRecord::new(QVec::zero(), true)]).into_index();
    for (levels, fits) in [(100usize, true), (128, true), (129, false), (1_000, false)] {
        // both children of each node are the next one
        ix.nodes = (1..levels as i32).map(|i| KdNode { left: i, right: i, ..leaf }).collect();
        ix.nodes.push(leaf);
        assert_eq!(ix.is_searchable(), fits, "{}", levels);
    }
}

#[test]
fn the_stack_takes_what_is_promising_while_it_has_room() {
    let mut stack = [0u32; 128];
    let mut sp = 0usize;
    push_if_promising(&mut stack, &mut sp, 7, 10, 10);
    assert_eq!(sp, 0);
    push_if_promising(&mut stack, &mut sp, 7, 9, 10);
    assert_eq!((sp, stack[0]), (1, 7));
    sp = 128;
    push_if_promising(&mut stack, &mut sp, 8, 9, 10);
    assert_eq!(sp, 128);
}

#[test]
fn boxes_are_tight() {
    let (lo, hi) = bbox_records(&[]);
    assert_eq!((lo.0, hi.0), ([0; 16], [0; 16]));
    let mut a = QVec::zero();
    a.0[0] = 5;
    a.0[6] = -10_000;
    let mut b = QVec::zero();
    b.0[0] = 3;
    b.0[1] = 8;
    let (lo, hi) = bbox_records(&[BuildRecord::new(a, false), BuildRecord::new(b, true)]);
    assert_eq!((lo.0[0], hi.0[0]), (3, 5));
    assert_eq!((lo.0[1], hi.0[1]), (0, 8));
    assert_eq!((lo.0[6], hi.0[6]), (-10_000, 0));
    // the first of the widest dimensions
    assert_eq!(widest_dim(&lo, &hi), 6);
    assert_eq!(widest_dim(&QVec::zero(), &QVec::zero()), 0);
}

#[test]
fn a_split_takes_the_dimension_that_varies_most() {
    let mut records: Vec<BuildRecord> = Vec::new();
    for i in 0..10i16 {
        let mut q = QVec::zero();
        // dimension 4 is wide because of one record, dimension 7 varies throughout
        q.0[4] = if i == 0 { 2_000 } else { 0 };
        q.0[7] = if i % 2 == 0 { 0 } else { 1_900 };
        records.push(BuildRecord::new(q, false));
    }
    let (lo, hi) = bbox_records(&records);
    assert_eq!(widest_dim(&lo, &hi), 4);
    assert_eq!(choose_split_dim(&records, &lo, &hi), 7);
    // one record, or records that are all the same: the widest dimension of the box
    assert_eq!(choose_split_dim(&records[..1], &lo, &hi), 4);
    let same = vec![records[1]; 4];
    assert_eq!(choose_split_dim(&same, &lo, &hi), 4);
}

#[test]
fn a_tree_divides_at_the_median() {
    let mut records: Vec<BuildRecord> = Vec::new();
    for i in 0..130i16 {
        let mut q = QVec::zero();
        // in an order that is not sorted
        q.0[2] = (i * 37) % 130;
        records.push(BuildRecord::new(q, false));
    }
    let mut nodes = Vec::new();
    let (root, lo, hi) = build_kd(&mut records, 1_000, &mut nodes);
    assert_eq!(root, 0);
    assert_eq!((lo.0[2], hi.0[2]), (0, 129));
    // 130 records: two halves of 65, each of which has two leaves
    assert_eq!(nodes.len(), 7);
    assert_eq!((nodes[0].left, nodes[0].right), (1, 4));
    assert_eq!((nodes[1].bbox_max.0[2], nodes[4].bbox_min.0[2]), (64, 65));
    assert_eq!((nodes[2].left, nodes[2].start, nodes[2].count), (-1, 1_000, 32));
    assert_eq!((nodes[3].start, nodes[3].count), (1_032, 33));
    assert_eq!((nodes[6].start, nodes[6].count), (1_097, 33));
    let mut firsts: Vec<i16> = records.iter().take(65).map(|r| r.qvec.0[2]).collect();
    firsts.sort();
    assert_eq!(firsts, (0..65).collect::<Vec<i16>>());
}

#[test]
fn records_are_grouped_by_key() {
    let mut seed = 99;
    let records = random_records(700, &mut seed);
    let built = build_partitions(&records);
    assert_eq!(built.records.len(), 700);
    assert!(built.records.windows(2).all(|w| w[0].key <= w[1].key));
    let mut want: Vec<([i16; 16], u8)> = records.iter().map(|r| (r.qvec.0, r.label)).collect();
    let mut got: Vec<([i16; 16], u8)> = built.records.iter().map(|r| (r.qvec.0, r.label)).collect();
    want.sort();
    got.sort();
    assert_eq!(want, got);
    for k in 0..256usize {
        let p = &built.partitions[k];
        let n = records.iter().filter(|r| r.key as usize == k).count();
        assert_eq!(p.count as usize, n);
        for r in &built.records[p.start as usize..(p.start + p.count) as usize] {
            assert_eq!(r.key as usize, k);
            assert_eq!(partition_key(&r.qvec), r.key);
        }
        assert_eq!(p.root >= 0, n > 0);
    }
    assert_eq!(built.partition_node_counts.iter().sum::<u32>() as usize, built.nodes.len());
}
