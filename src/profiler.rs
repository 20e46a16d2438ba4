//! Chooses a compression method for one file from its run-length statistic.
//!
//! The statistic is taken by a full scan of the bytes: the average run length
//! is the file length divided by the number of maximal runs (at least one).
//! Files of a gibibyte or more are never scanned and are stored as they are.
use vstd::prelude::*;
use crate::codec::{RLE_BIT, RLE2_BIT};

verus! {

/// Files at least this long are stored without profiling.
pub const PROFILE_LIMIT: u64 = 1073741824;

/// Number of maximal runs of equal consecutive bytes in `s`.
pub open spec fn run_count(s: Seq<u8>) -> nat
    decreases s.len(),
{
    if s.len() == 0 {
        0
    } else if s.len() == 1 {
        1
    } else {
        run_count(s.drop_last()) + if s.last() != s[s.len() - 2] {
            1nat
        } else {
            0nat
        }
    }
}

/// The method for `len` bytes made of `runs` runs. The average run length is
/// `len / max(runs, 1)`: up to 2 nothing is gained, up to 255 single-byte
/// records pay off, above that two-byte records do.
pub open spec fn method_for(len: nat, runs: nat) -> u8 {
    let r = if runs == 0 { 1 } else { runs };
    if len <= 2 * r {
        0
    } else if len <= 255 * r {
        RLE_BIT
    } else {
        RLE2_BIT
    }
}

/// The method that profiling `s` chooses.
pub open spec fn profile_method(s: Seq<u8>) -> u8 {
    if s.len() >= PROFILE_LIMIT {
        0
    } else {
        method_for(s.len(), run_count(s))
    }
}

/// Orders methods by how strongly they compress: stored, then single-byte,
/// then two-byte run-length coding.
pub open spec fn method_rank(m: u8) -> nat {
    if m == RLE2_BIT {
        2
    } else if m == RLE_BIT {
        1
    } else {
        0
    }
}

/// For a fixed number of runs, a longer input (a larger average run length)
/// never gets a weaker method, and the method changes exactly when the
/// average run length passes 2 and then 255.
pub proof fn lemma_method_monotonic(len1: nat, len2: nat, runs: nat)
    requires
        runs >= 1,
        len1 <= len2,
    ensures
        method_rank(method_for(len1, runs)) <= method_rank(method_for(len2, runs)),
        method_for(2 * runs, runs) == 0,
        method_for(2 * runs + 1, runs) == RLE_BIT,
        method_for(255 * runs, runs) == RLE_BIT,
        method_for(255 * runs + 1, runs) == RLE2_BIT,
{
}

/// Comparing average run lengths `len1 / runs1` and `len2 / runs2` (runs at
/// least one): a larger average never gets a weaker method.
pub proof fn lemma_method_monotonic_in_average(len1: nat, runs1: nat, len2: nat, runs2: nat)
    requires
        runs1 >= 1,
        runs2 >= 1,
        len1 * runs2 <= len2 * runs1,
    ensures
        method_rank(method_for(len1, runs1)) <= method_rank(method_for(len2, runs2)),
{
    if len2 <= 2 * runs2 {
        assert(len1 <= 2 * runs1) by (nonlinear_arith)
            requires
                len1 * runs2 <= len2 * runs1,
                len2 <= 2 * runs2,
                runs1 >= 1,
                runs2 >= 1,
        ;
    } else if len2 <= 255 * runs2 {
        assert(len1 <= 255 * runs1) by (nonlinear_arith)
            requires
                len1 * runs2 <= len2 * runs1,
                len2 <= 255 * runs2,
                runs1 >= 1,
                runs2 >= 1,
        ;
    }
}

/// The profiling state of one file.
pub struct Profiler {
    pub data: Vec<u8>,
    /// Number of maximal runs found by the last scan.
    pub runs: usize,
    /// Single-byte run-length coding is recommended.
    pub rle: bool,
    /// Two-byte run-length coding is recommended.
    pub two_byte_rle: bool,
}

/// Whether a file of `size` bytes is too large to be worth profiling.
pub fn exceeds_profile_limit(size: u64) -> (r: bool)
    ensures
        r == (size >= PROFILE_LIMIT),
{
    size >= PROFILE_LIMIT
}

/// Counts the maximal runs of equal consecutive bytes.
pub fn count_runs(data: &Vec<u8>) -> (r: usize)
    ensures
        r == run_count(data@),
{
    let mut runs: usize = 0;
    let mut i: usize = 0;
    while i < data.len()
        invariant
            i <= data.len(),
            runs <= i,
            runs == run_count(data@.subrange(0, i as int)),
        decreases data.len() - i,
    {
        proof {
            let p = data@.subrange(0, i + 1);
            assert(p.drop_last() =~= data@.subrange(0, i as int));
        }
        if i == 0 || data[i] != data[i - 1] {
            runs = runs + 1;
        }
        i = i + 1;
    }
    assert(data@.subrange(0, i as int) =~= data@);
    runs
}

impl Profiler {
    pub fn new(data: Vec<u8>) -> (r: Self)
        ensures
            r.data@ == data@,
            r.runs == 0,
            !r.rle,
            !r.two_byte_rle,
    {
        Self { data, runs: 0, rle: false, two_byte_rle: false }
    }

    /// The average run length, as the numerator and denominator of a fraction.
    pub fn avg_run_len(&self) -> (r: (usize, usize))
        ensures
            r.0 == self.data@.len(),
            r.1 == if self.runs == 0 { 1 } else { self.runs },
    {
        (self.data.len(), if self.runs == 0 { 1 } else { self.runs })
    }

    /// Scans the data and records which run-length coding, if any, pays off.
    fn validate_rle(&mut self)
        ensures
            final(self).data@ == old(self).data@,
            final(self).runs == run_count(old(self).data@),
            final(self).two_byte_rle == (method_for(old(self).data@.len(), run_count(
                old(self).data@,
            )) == RLE2_BIT),
            final(self).rle == (method_for(old(self).data@.len(), run_count(old(self).data@))
                == RLE_BIT),
    {
        let runs = count_runs(&self.data);
        self.runs = runs;
        let r: u128 = if runs == 0 { 1 } else { runs as u128 };
        let len = self.data.len() as u128;
        if len <= 2 * r {
            self.rle = false;
            self.two_byte_rle = false;
        } else if len <= 255 * r {
            self.rle = true;
            self.two_byte_rle = false;
        } else {
            self.rle = false;
            self.two_byte_rle = true;
        }
    }

    /// Chooses the method descriptor for the data.
    #[must_use]
    pub fn profile(&mut self) -> (r: u8)
        ensures
            r == profile_method(old(self).data@),
            final(self).data@ == old(self).data@,
            old(self).data@.len() < PROFILE_LIMIT ==> {
                &&& final(self).runs == run_count(old(self).data@)
                &&& final(self).rle == (r == RLE_BIT)
                &&& final(self).two_byte_rle == (r == RLE2_BIT)
            },
            old(self).data@.len() >= PROFILE_LIMIT ==> final(self).runs == old(self).runs
                && final(self).rle == old(self).rle && final(self).two_byte_rle == old(
                self,
            ).two_byte_rle,
    {
        if exceeds_profile_limit(self.data.len() as u64) {
            return 0;
        }
        self.validate_rle();
        self.to_method()
    }

    /// The method descriptor for the recorded recommendation; two-byte coding
    /// wins over single-byte coding.
    pub fn to_method(&self) -> (r: u8)
        ensures
            r == if self.two_byte_rle {
                RLE2_BIT
            } else if self.rle {
                RLE_BIT
            } else {
                0
            },
    {
        if self.two_byte_rle {
            RLE2_BIT
        } else if self.rle {
            RLE_BIT
        } else {
            0
        }
    }
}

} // verus!
