//! Inventory of the files to archive and their grouping into buffer-size ranges.
//!
//! The caller walks the directory tree and hands over each regular file's
//! archive-relative name and length, in traversal order. Traversal order is
//! kept: the ranges are spans of consecutive files that share an ideal I/O
//! buffer size.
use vstd::prelude::*;

verus! {

/// A span `[range.0, range.1)` of the file list whose files share one ideal
/// buffer size.
#[derive(Clone, Copy, PartialEq, Eq, Debug)]
pub struct FileRange {
    pub range: (usize, usize),
    pub buffer_size: usize,
}

/// Files below this length use the small buffer.
pub const SMALL_FILE_LIMIT: u64 = 104857600;

/// Files below this length (and not small) use the medium buffer.
pub const MEDIUM_FILE_LIMIT: u64 = 524288005;

/// The ideal buffer size for a file of `bytes` bytes: 256 KiB below 100 MiB,
/// 1 MiB below about 500 MiB, 8 MiB above.
pub open spec fn ideal_buffer_size(bytes: u64) -> usize {
    if bytes < SMALL_FILE_LIMIT {
        262144
    } else if bytes < MEDIUM_FILE_LIMIT {
        1048576
    } else {
        8388608
    }
}

/// `rs` splits the indices `[0, n)` into consecutive non-empty spans, in
/// order, each holding files of one ideal buffer size, and each span as long
/// as it can be: two neighbours differ in buffer size.
pub open spec fn ranges_partition(rs: Seq<FileRange>, sizes: Seq<u64>, n: nat) -> bool {
    &&& n <= sizes.len()
    &&& n == 0 <==> rs.len() == 0
    &&& rs.len() > 0 ==> rs[0].range.0 == 0 && rs.last().range.1 == n
    &&& forall|i: int| 0 <= i < rs.len() ==> rs[i].range.0 < rs[i].range.1
    &&& forall|i: int| 0 <= i < rs.len() - 1 ==> rs[i].range.1 == rs[i + 1].range.0
    &&& forall|i: int, j: int|
        0 <= i < rs.len() && rs[i].range.0 <= j < rs[i].range.1 ==> rs[i].buffer_size
            == ideal_buffer_size(sizes[j])
    &&& forall|i: int| 0 <= i < rs.len() - 1 ==> (#[trigger] rs[i]).buffer_size != rs[i + 1].buffer_size
}

/// Range `r` holds file index `j`.
pub open spec fn range_holds(r: FileRange, j: int) -> bool {
    r.range.0 <= j < r.range.1
}

/// Some range of `rs` holds file index `j`.
pub open spec fn covered(rs: Seq<FileRange>, j: int) -> bool {
    exists|i: int| 0 <= i < rs.len() && #[trigger] range_holds(rs[i], j)
}

/// Sum of the lengths in `sizes`.
pub open spec fn total_size(sizes: Seq<u64>) -> nat
    decreases sizes.len(),
{
    if sizes.len() == 0 {
        0
    } else {
        total_size(sizes.drop_last()) + sizes.last() as nat
    }
}

/// In a partition the spans come in order: an earlier span ends no later than
/// a later one starts.
pub proof fn lemma_ranges_ordered(rs: Seq<FileRange>, sizes: Seq<u64>, n: nat, a: int, b: int)
    requires
        ranges_partition(rs, sizes, n),
        0 <= a < b < rs.len(),
    ensures
        rs[a].range.1 <= rs[b].range.0,
    decreases b - a,
{
    if b > a + 1 {
        lemma_ranges_ordered(rs, sizes, n, a, b - 1);
    }
}

/// Every index of `[0, n)` lies in exactly one range of a partition, and no
/// range holds an index outside it.
pub proof fn lemma_ranges_cover(rs: Seq<FileRange>, sizes: Seq<u64>, n: nat)
    requires
        ranges_partition(rs, sizes, n),
    ensures
        forall|j: int| 0 <= j < n ==> #[trigger] covered(rs, j),
        forall|i1: int, i2: int, j: int|
            0 <= i1 < rs.len() && 0 <= i2 < rs.len() && #[trigger] range_holds(rs[i1], j)
                && #[trigger] range_holds(rs[i2], j) ==> i1 == i2,
        forall|i: int, j: int| 0 <= i < rs.len() && #[trigger] range_holds(rs[i], j) ==> 0 <= j < n,
{
    assert forall|i1: int, i2: int, j: int|
        0 <= i1 < rs.len() && 0 <= i2 < rs.len() && #[trigger] range_holds(rs[i1], j)
            && #[trigger] range_holds(rs[i2], j) implies i1 == i2 by {
        if i1 < i2 {
            lemma_ranges_ordered(rs, sizes, n, i1, i2);
        } else if i2 < i1 {
            lemma_ranges_ordered(rs, sizes, n, i2, i1);
        }
    }
    assert forall|i: int, j: int| 0 <= i < rs.len() && #[trigger] range_holds(rs[i], j) implies 0
        <= j < n by {
        if i > 0 {
            lemma_ranges_ordered(rs, sizes, n, 0, i);
        }
        if i < rs.len() - 1 {
            lemma_ranges_ordered(rs, sizes, n, i, rs.len() - 1);
        }
    }
    assert forall|j: int| 0 <= j < n implies #[trigger] covered(rs, j) by {
        lemma_cover_upto(rs, sizes, n, j, rs.len() - 1);
    }
}

/// An index below the end of range `k` lies in one of the ranges up to `k`.
proof fn lemma_cover_upto(rs: Seq<FileRange>, sizes: Seq<u64>, n: nat, j: int, k: int)
    requires
        ranges_partition(rs, sizes, n),
        0 <= k < rs.len(),
        0 <= j < rs[k].range.1,
    ensures
        exists|i: int| 0 <= i <= k && #[trigger] range_holds(rs[i], j),
    decreases k,
{
    if j >= rs[k].range.0 {
        assert(range_holds(rs[k], j));
    } else {
        lemma_cover_upto(rs, sizes, n, j, k - 1);
        let i = choose|i: int| 0 <= i <= k - 1 && #[trigger] range_holds(rs[i], j);
        assert(0 <= i <= k && range_holds(rs[i], j));
    }
}

/// Totals of a prefix never exceed the total of the whole.
pub proof fn lemma_total_prefix(sizes: Seq<u64>, i: int)
    requires
        0 <= i <= sizes.len(),
    ensures
        total_size(sizes.subrange(0, i)) <= total_size(sizes),
    decreases sizes.len() - i,
{
    if i < sizes.len() {
        lemma_total_prefix(sizes, i + 1);
        assert(sizes.subrange(0, i + 1).drop_last() =~= sizes.subrange(0, i));
    } else {
        assert(sizes.subrange(0, i) =~= sizes);
    }
}

/// Splits the file list, by the lengths in `sizes`, into maximal spans of one
/// ideal buffer size.
pub fn build_ranges(sizes: &Vec<u64>) -> (r: Vec<FileRange>)
    ensures
        ranges_partition(r@, sizes@, sizes@.len()),
{
    let mut ranges: Vec<FileRange> = Vec::new();
    let n = sizes.len();
    if n == 0 {
        return ranges;
    }
    let mut start: usize = 0;
    let mut current = ArchiveIndexer::get_ideal_buffer_size(sizes[0]);
    let mut i: usize = 1;
    while i < n
        invariant
            n == sizes@.len(),
            1 <= i <= n,
            start < i,
            ranges_partition(
                ranges@.push(FileRange { range: (start, i), buffer_size: current }),
                sizes@,
                i as nat,
            ),
        decreases n - i,
    {
        let b = ArchiveIndexer::get_ideal_buffer_size(sizes[i]);
        let ghost old_ranges = ranges@;
        let ghost same = b == current;
        if b != current {
            ranges.push(FileRange { range: (start, i), buffer_size: current });
            start = i;
            current = b;
        }
        proof {
            let rs = ranges@.push(FileRange { range: (start, (i + 1) as usize), buffer_size: current });
            let prev = old_ranges.push(FileRange { range: (start, i), buffer_size: current });
            if same {
                assert forall|k: int| 0 <= k < rs.len() - 1 implies rs[k] == prev[k] by {
                    assert(rs[k] == old_ranges[k]);
                    assert(prev[k] == old_ranges[k]);
                }
            } else {
                assert(forall|k: int| 0 <= k < rs.len() - 1 ==> rs[k] == ranges@[k]);
            }
            assert(ranges_partition(rs, sizes@, (i + 1) as nat));
        }
        i = i + 1;
    }
    ranges.push(FileRange { range: (start, n), buffer_size: current });
    ranges
}

/// The files found under a root, their total length and their ranges.
pub struct ArchiveIndexer {
    pub root: Vec<u8>,
    pub contents: Vec<Vec<u8>>,
    pub sizes: Vec<u64>,
    pub file_count: usize,
    pub bytes_count: u64,
    pub ranges: Vec<FileRange>,
}

impl ArchiveIndexer {
    /// The ideal buffer size for a file of `bytes` bytes.
    pub fn get_ideal_buffer_size(bytes: u64) -> (r: usize)
        ensures
            r == ideal_buffer_size(bytes),
    {
        if bytes < SMALL_FILE_LIMIT {
            1024 * 256
        } else if bytes < MEDIUM_FILE_LIMIT {
            1024 * 1024
        } else {
            1024 * 1024 * 8
        }
    }

    pub fn new(root: Vec<u8>) -> (r: ArchiveIndexer)
        ensures
            r.root@ == root@,
            r.contents@.len() == 0,
            r.sizes@.len() == 0,
            r.file_count == 0,
            r.bytes_count == 0,
            r.ranges@.len() == 0,
    {
        ArchiveIndexer {
            root,
            contents: Vec::new(),
            sizes: Vec::new(),
            file_count: 0,
            bytes_count: 0,
            ranges: Vec::new(),
        }
    }

    /// Records the regular files found under the root, as archive-relative
    /// names with their lengths in traversal order, and computes the count,
    /// the total length and the ranges.
    pub fn index_files(&mut self, names: Vec<Vec<u8>>, sizes: Vec<u64>)
        requires
            names@.len() == sizes@.len(),
            total_size(sizes@) <= u64::MAX,
        ensures
            final(self).root@ == old(self).root@,
            final(self).contents@ == names@,
            final(self).sizes@ == sizes@,
            final(self).file_count == names@.len(),
            final(self).bytes_count == total_size(sizes@),
            ranges_partition(final(self).ranges@, sizes@, sizes@.len()),
    {
        let mut total: u64 = 0;
        let mut i: usize = 0;
        while i < sizes.len()
            invariant
                i <= sizes@.len(),
                total == total_size(sizes@.subrange(0, i as int)),
                total_size(sizes@) <= u64::MAX,
            decreases sizes@.len() - i,
        {
            proof {
                lemma_total_prefix(sizes@, i + 1);
                assert(sizes@.subrange(0, i + 1).drop_last() =~= sizes@.subrange(0, i as int));
            }
            total = total + sizes[i];
            i = i + 1;
        }
        assert(sizes@.subrange(0, i as int) =~= sizes@);
        self.ranges = build_ranges(&sizes);
        self.bytes_count = total;
        self.file_count = names.len();
        self.contents = names;
        self.sizes = sizes;
    }
}

} // verus!
