use rinha_fraud::builder::{build_partitions, Built};
use rinha_fraud::bytes::{
    matches_at, read_i32, read_qvec, read_u32, read_u64, write_i16, write_i32, write_qvec,
    write_u32, write_u64,
};
use rinha_fraud::index::QVec;
use rinha_fraud::kd::BuildRecord;
use rinha_fraud::layout::{
    index_file_len, node_bytes_len, partition_bytes_len, write_index_file, write_labels_section,
    write_nodes, write_padding_to, write_partitions, write_stage_section, write_vectors_section,
};
use rinha_fraud::load::{bbox_of, parse_partition_files, IndexError};
use rinha_fraud::search::{Index, SearchLimits};

fn sample(n: usize) -> Built {
    let mut records: Vec<BuildRecord> = Vec::new();
    for i in 0..n {
        let mut q = QVec::zero();
        for d in 0..14 {
            q.0[d] = ((i * 7919 + d * 104_729) % 10_001) as i16;
        }
        if i % 4 == 0 {
            q.0[5] = -10_000;
            q.0[6] = -10_000;
        }
        records.push(BuildRecord::new(q, i % 3 == 0));
    }
    build_partitions(&records)
}

fn file_of(b: &Built) -> Vec<u8> {
    let mut w = Vec::new();
    write_index_file(&mut w, &b.records, &b.partitions, &b.partition_node_counts, &b.nodes);
    w
}

fn split_files(b: &Built) -> (Vec<u8>, Vec<u8>, Vec<u8>, Vec<u8>) {
    let (mut v, mut l, mut p, mut n) = (Vec::new(), Vec::new(), Vec::new(), Vec::new());
    write_vectors_section(&mut v, &b.records);
    write_labels_section(&mut l, &b.records);
    write_partitions(
        &mut p,
        b.records.len() as u64,
        b.nodes.len() as u64,
        &b.partitions,
        &b.partition_node_counts,
    );
    write_nodes(&mut n, &b.nodes);
    (v, l, p, n)
}

fn error_of(r: Result<Index, IndexError>) -> IndexError {
    match r {
        Ok(_) => panic!("an error was expected"),
        Err(e) => e,
    }
}

fn word(data: &[u8], i: usize) -> u64 {
    let mut pos = 24 + 8 * i;
    read_u64(data, &mut pos)
}

#[test]
fn numbers_are_little_endian() {
    let mut w = Vec::new();
    write_u32(&mut w, 0x0102_0304);
    write_i32(&mut w, -2);
    write_u64(&mut w, 0x1122_3344_5566_7788);
    write_i16(&mut w, -10_000);
    assert_eq!(
        w,
        vec![
            4, 3, 2, 1, 0xfe, 0xff, 0xff, 0xff, 0x88, 0x77, 0x66, 0x55, 0x44, 0x33, 0x22, 0x11,
            0xf0, 0xd8
        ]
    );
    let mut pos = 0;
    assert_eq!(read_u32(&w, &mut pos), 0x0102_0304);
    assert_eq!(read_i32(&w, &mut pos), -2);
    assert_eq!(read_u64(&w, &mut pos), 0x1122_3344_5566_7788);
    assert_eq!(pos, 16);
}

#[test]
fn vectors_are_read_back() {
    let mut q = QVec::zero();
    for d in 0..16 {
        q.0[d] = d as i16 * 1_000 - 5_000;
    }
    let mut w = vec![9];
    write_qvec(&mut w, &q);
    assert_eq!(w.len(), 33);
    let mut pos = 1;
    assert_eq!(read_qvec(&w, &mut pos).0, q.0);
    assert_eq!(pos, 33);
}

#[test]
fn a_pattern_is_found_only_where_it_stands() {
    assert!(matches_at(b"abcd", 1, b"bc"));
    assert!(!matches_at(b"abcd", 2, b"bc"));
    assert!(!matches_at(b"abcd", 3, b"de"));
    assert!(!matches_at(b"abcd", 9, b"a"));
    assert!(matches_at(b"abcd", 4, b""));
}

#[test]
fn padding_is_zero() {
    let mut w = vec![1, 2];
    let mut written = 2;
    write_padding_to(&mut w, &mut written, 70);
    assert_eq!((w.len(), written), (70, 70));
    assert!(w[2..].iter().all(|b| *b == 0));
    write_padding_to(&mut w, &mut written, 10);
    assert_eq!((w.len(), written), (70, 70));
}

#[test]
fn stages_hold_their_dimensions() {
    let b = sample(3);
    let mut w = Vec::new();
    write_stage_section(&mut w, &b.records, &[8, 0]);
    assert_eq!(w.len(), 12);
    assert_eq!(&w[..2], &b.records[0].qvec.0[8].to_le_bytes());
    assert_eq!(&w[10..], &b.records[2].qvec.0[0].to_le_bytes());
}

#[test]
fn sections_start_on_cache_lines() {
    let b = sample(200);
    let data = file_of(&b);
    assert_eq!(partition_bytes_len(), 28 + 256 * 80);
    assert_eq!(node_bytes_len(), 80);
    assert_eq!(&data[..8], b"RINHIF03");
    assert_eq!(word(&data, 0), 200);
    assert_eq!(word(&data, 1), b.nodes.len() as u64);
    assert_eq!(word(&data, 2), 128);
    assert_eq!(word(&data, 3), 20_672);
    for i in [3, 4, 5, 6, 8] {
        assert_eq!(word(&data, i) % 64, 0);
    }
    assert_eq!(word(&data, 7), 0);
    assert_eq!(word(&data, 9), data.len() as u64);
    assert_eq!(index_file_len(b.nodes.len(), 200), Some(data.len()));
    assert_eq!(index_file_len(0, usize::MAX / 8), None);
    assert_eq!(&data[128..136], b"RINHIDX5");
}

#[test]
fn an_index_file_is_read_back() {
    for n in [0usize, 1, 65, 400] {
        let b = sample(n);
        let ix = match Index::load_file(&file_of(&b), SearchLimits::none()) {
            Ok(ix) => ix,
            Err(e) => panic!("{:?}", e),
        };
        assert!(ix.is_searchable());
        assert_eq!(ix.count, n);
        assert_eq!(ix.nodes.len(), b.nodes.len());
        for (i, r) in b.records.iter().enumerate() {
            assert_eq!(ix.vectors[i].0, r.qvec.0);
            assert_eq!(ix.labels[i], r.label);
        }
        for (a, c) in ix.partitions.iter().zip(b.partitions.iter()) {
            assert_eq!((a.start, a.count, a.root), (c.start, c.count, c.root));
            assert_eq!((a.bbox_min.0, a.bbox_max.0), (c.bbox_min.0, c.bbox_max.0));
        }
        for (a, c) in ix.nodes.iter().zip(b.nodes.iter()) {
            assert_eq!((a.left, a.right, a.start, a.count), (c.left, c.right, c.start, c.count));
            assert_eq!((a.bbox_min.0, a.bbox_max.0), (c.bbox_min.0, c.bbox_max.0));
        }
    }
}

#[test]
fn a_split_index_is_read_back() {
    let b = sample(300);
    let (v, l, p, n) = split_files(&b);
    let split = match Index::load(&v, &l, Some((&p, &n)), SearchLimits::none()) {
        Ok(ix) => ix,
        Err(e) => panic!("{:?}", e),
    };
    let whole = match Index::load_file(&file_of(&b), SearchLimits::none()) {
        Ok(ix) => ix,
        Err(e) => panic!("{:?}", e),
    };
    assert_eq!(split.count, whole.count);
    assert_eq!(split.labels, whole.labels);
    assert!(split.vectors.iter().zip(whole.vectors.iter()).all(|(a, c)| a.0 == c.0));
    let q = b.records[17].qvec;
    assert_eq!(split.search_exact(&q), whole.search_exact(&q));
}

#[test]
fn a_split_index_without_trees_is_one_partition() {
    let b = sample(40);
    let (v, l, _, _) = split_files(&b);
    let ix = match Index::load(&v, &l, None, SearchLimits::none()) {
        Ok(ix) => ix,
        Err(e) => panic!("{:?}", e),
    };
    assert_eq!(ix.nodes.len(), 0);
    let p = ix.partitions[0];
    assert_eq!((p.start, p.count, p.root), (0, 40, -1));
    let (lo, hi) = bbox_of(&ix.vectors);
    assert_eq!((p.bbox_min.0, p.bbox_max.0), (lo.0, hi.0));
    for d in 0..16 {
        assert_eq!(lo.0[d], ix.vectors.iter().map(|v| v.0[d]).min().unwrap());
        assert_eq!(hi.0[d], ix.vectors.iter().map(|v| v.0[d]).max().unwrap());
    }
    assert!(ix.partitions[1..].iter().all(|p| p.count == 0 && p.root == -1));
    let (lo, hi) = bbox_of(&[]);
    assert_eq!((lo.0, hi.0), ([0; 16], [0; 16]));
}

#[test]
fn limits_are_kept() {
    let b = sample(10);
    let limits = SearchLimits { primary_only: true, max_extra_partitions: Some(16) };
    let ix = match Index::load_file(&file_of(&b), limits) {
        Ok(ix) => ix,
        Err(e) => panic!("{:?}", e),
    };
    assert!(ix.limits.primary_only);
    assert_eq!(ix.limits.max_extra_partitions, Some(16));
}

#[test]
fn broken_partition_files_are_rejected() {
    let b = sample(100);
    let (v, l, p, n) = split_files(&b);
    let err = |p: &[u8], n: &[u8], count: usize| match parse_partition_files(p, n, count) {
        Ok(_) => panic!("an error was expected"),
        Err(e) => e,
    };
    assert!(parse_partition_files(&p, &n, 100).is_ok());
    assert_eq!(err(&p[..23], &n, 100), IndexError::PartitionsTooSmall);
    assert_eq!(err(&p, &n, 99), IndexError::CountMismatch);
    assert_eq!(err(&p[..24], &n, 100), IndexError::PartitionsTruncated);
    assert_eq!(err(&p[..p.len() - 1], &n, 100), IndexError::PartitionsTruncated);
    assert_eq!(err(&p, &n[..n.len() - 1], 100), IndexError::NodesSizeMismatch);
    let mut bad = p.clone();
    bad[7] = b'4';
    assert_eq!(err(&bad, &n, 100), IndexError::BadPartitionsMagic);
    let mut bad = p.clone();
    bad[8] = 6;
    assert_eq!(err(&bad, &n, 100), IndexError::UnsupportedVersion);
    let mut bad = p.clone();
    bad[28 + 4] = bad[28 + 4].wrapping_add(1);
    assert_eq!(err(&bad, &n, 100), IndexError::PartitionCountMismatch);
    assert_eq!(
        error_of(Index::load(&v[1..], &l, Some((&p, &n)), SearchLimits::none())),
        IndexError::VectorsSizeMismatch
    );
    assert_eq!(
        error_of(Index::load(&v, &l, Some((&p[..10], &n)), SearchLimits::none())),
        IndexError::PartitionsTooSmall
    );
}

#[test]
fn broken_index_files_are_rejected() {
    let b = sample(100);
    let data = file_of(&b);
    let err = |data: &[u8]| error_of(Index::load_file(data, SearchLimits::none()));
    let with = |at: usize, byte: u8| {
        let mut d = data.clone();
        d[at] = byte;
        d
    };
    assert_eq!(err(&data[..103]), IndexError::FileTooSmall);
    assert_eq!(err(&with(0, b'X')), IndexError::BadFileMagic);
    assert_eq!(err(&with(8, 4)), IndexError::UnsupportedVersion);
    assert_eq!(err(&with(12, 13)), IndexError::DimensionMismatch);
    assert_eq!(err(&with(16, 14)), IndexError::DimensionMismatch);
    assert_eq!(err(&with(20, 0)), IndexError::ScaleMismatch);
    assert_eq!(err(&data[..data.len() - 1]), IndexError::FileSizeMismatch);
    // labels that would start in the last bytes
    assert_eq!(err(&with(24 + 8 * 8 + 7, 1)), IndexError::SectionOutOfBounds);
    assert_eq!(err(&with(128, b'X')), IndexError::BadPartitionsMagic);
    // fewer nodes than the partitions count
    assert_eq!(err(&with(24 + 8, (b.nodes.len() - 1) as u8)), IndexError::NodesSizeMismatch);
}
