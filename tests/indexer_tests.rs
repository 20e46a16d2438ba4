use ark::indexer::{build_ranges, ArchiveIndexer, FileRange};

const MB: u64 = 1024 * 1024;

fn check_partition(ranges: &[FileRange], n: usize) {
    let mut seen = Vec::new();
    for r in ranges {
        assert!(r.range.0 < r.range.1);
        seen.extend(r.range.0..r.range.1);
    }
    assert_eq!(seen, (0..n).collect::<Vec<usize>>());
}

#[test]
fn buffer_size_tiers() {
    assert_eq!(ArchiveIndexer::get_ideal_buffer_size(0), 256 * 1024);
    assert_eq!(ArchiveIndexer::get_ideal_buffer_size(100 * MB - 1), 256 * 1024);
    assert_eq!(ArchiveIndexer::get_ideal_buffer_size(100 * MB), 1024 * 1024);
    assert_eq!(ArchiveIndexer::get_ideal_buffer_size(524_288_004), 1024 * 1024);
    assert_eq!(ArchiveIndexer::get_ideal_buffer_size(524_288_005), 8 * 1024 * 1024);
    assert_eq!(ArchiveIndexer::get_ideal_buffer_size(u64::MAX), 8 * 1024 * 1024);
}

#[test]
fn ranges_follow_traversal_order() {
    let sizes = vec![10, 20, 200 * MB, 300 * MB, 10, 600 * MB];
    let ranges = build_ranges(&sizes);
    assert_eq!(
        ranges,
        vec![
            FileRange { range: (0, 2), buffer_size: 256 * 1024 },
            FileRange { range: (2, 4), buffer_size: 1024 * 1024 },
            FileRange { range: (4, 5), buffer_size: 256 * 1024 },
            FileRange { range: (5, 6), buffer_size: 8 * 1024 * 1024 },
        ]
    );
    check_partition(&ranges, sizes.len());
}

#[test]
fn single_file_gets_one_range() {
    let ranges = build_ranges(&vec![5]);
    assert_eq!(ranges, vec![FileRange { range: (0, 1), buffer_size: 256 * 1024 }]);
}

#[test]
fn no_files_no_ranges() {
    assert!(build_ranges(&vec![]).is_empty());
}

#[test]
fn ranges_partition_many_distributions() {
    for seed in 0..50u64 {
        let sizes: Vec<u64> = (0..(seed % 13))
            .map(|i| ((seed * 7919 + i * 104729) % 5) * 150 * MB)
            .collect();
        check_partition(&build_ranges(&sizes), sizes.len());
    }
}

#[test]
fn index_counts_files_and_bytes() {
    let mut index = ArchiveIndexer::new(b"root".to_vec());
    assert_eq!(index.file_count, 0);
    index.index_files(vec![b"a.txt".to_vec(), b"d/b.bin".to_vec()], vec![10, 32]);
    assert_eq!(index.file_count, 2);
    assert_eq!(index.bytes_count, 42);
    assert_eq!(index.contents, vec![b"a.txt".to_vec(), b"d/b.bin".to_vec()]);
    assert_eq!(index.ranges, vec![FileRange { range: (0, 2), buffer_size: 256 * 1024 }]);
}
