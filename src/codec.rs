//! Run-length codec selected by a method descriptor.
//!
//! A method descriptor is a bit mask: bit 7 asks for single-byte run-length
//! coding, bit 6 for two-byte run-length coding (and wins over bit 7), the
//! other bits are reserved and ignored. A descriptor with neither bit stores
//! the bytes unchanged.
use vstd::prelude::*;
use crate::error::ArchivalError;

verus! {

/// Bit of the method descriptor that asks for single-byte run-length coding.
pub const RLE_BIT: u8 = 0x80;

/// Bit of the method descriptor that asks for two-byte run-length coding.
pub const RLE2_BIT: u8 = 0x40;

/// Whether `method` asks for single-byte run-length coding in effect.
pub open spec fn uses_rle1(method: u8) -> bool {
    method & RLE_BIT != 0 && method & RLE2_BIT == 0
}

/// Whether `method` asks for two-byte run-length coding.
pub open spec fn uses_rle2(method: u8) -> bool {
    method & RLE2_BIT != 0
}

/// The longest run one record can hold.
pub open spec fn max_run(wide: bool) -> nat {
    if wide { 65535 } else { 255 }
}

/// Bytes per record: count then value, the count on two bytes when `wide`.
pub open spec fn record_len(wide: bool) -> nat {
    if wide { 3 } else { 2 }
}

/// The record for `n` copies of `v`; a wide count is big-endian.
pub open spec fn record(n: nat, v: u8, wide: bool) -> Seq<u8> {
    if wide {
        seq![(n / 256) as u8, (n % 256) as u8, v]
    } else {
        seq![n as u8, v]
    }
}

/// How many leading bytes of `s` equal `v`, counting at most `cap`.
pub open spec fn lead(s: Seq<u8>, v: u8, cap: nat) -> nat
    decreases s.len(),
{
    if s.len() == 0 || cap == 0 || s[0] != v {
        0
    } else {
        1 + lead(s.skip(1), v, (cap - 1) as nat)
    }
}

/// `n` copies of `v`.
pub open spec fn repeat(v: u8, n: nat) -> Seq<u8> {
    Seq::new(n, |_i: int| v)
}

/// Run-length encoding of `s`: each maximal run becomes records of at most
/// `max_run(wide)` bytes each, left to right.
pub open spec fn rle_encode(s: Seq<u8>, wide: bool) -> Seq<u8>
    decreases s.len(),
    via rle_encode_decreases
{
    if s.len() == 0 {
        seq![]
    } else {
        let n = lead(s, s[0], max_run(wide));
        record(n, s[0], wide) + rle_encode(s.skip(n as int), wide)
    }
}

#[via_fn]
proof fn rle_encode_decreases(s: Seq<u8>, wide: bool) {
    if s.len() > 0 {
        lemma_lead_facts(s, s[0], max_run(wide));
    }
}

/// The run count that record `r` starts with.
pub open spec fn record_count(r: Seq<u8>, wide: bool) -> nat {
    if wide {
        r[0] as nat * 256 + r[1] as nat
    } else {
        r[0] as nat
    }
}

/// Decoding of a run-length stream; `None` when the stream ends inside a record.
pub open spec fn rle_decode(r: Seq<u8>, wide: bool) -> Option<Seq<u8>>
    decreases r.len(),
{
    let k = record_len(wide);
    if r.len() == 0 {
        Some(seq![])
    } else if r.len() < k {
        None
    } else {
        prefixed(
            repeat(r[k - 1], record_count(r, wide)),
            rle_decode(r.skip(k as int), wide),
        )
    }
}

/// `p` put in front of a decoded stream, if there is one.
pub open spec fn prefixed(p: Seq<u8>, r: Option<Seq<u8>>) -> Option<Seq<u8>> {
    match r {
        Some(t) => Some(p + t),
        None => None,
    }
}

/// What compressing `s` with `method` gives.
pub open spec fn compressed(s: Seq<u8>, method: u8) -> Seq<u8> {
    if uses_rle2(method) {
        rle_encode(s, true)
    } else if uses_rle1(method) {
        rle_encode(s, false)
    } else {
        s
    }
}

/// What decompressing `r` with `method` gives; `None` for a malformed stream.
pub open spec fn decompressed(r: Seq<u8>, method: u8) -> Option<Seq<u8>> {
    if uses_rle2(method) {
        rle_decode(r, true)
    } else if uses_rle1(method) {
        rle_decode(r, false)
    } else {
        Some(r)
    }
}

/// The leading run that `lead` measures: it is no longer than `s` or `cap`,
/// every byte in it is `v`, it is not empty when `s` starts with `v`, and it
/// stops at the end of `s`, at a different byte, or at `cap`.
pub proof fn lemma_lead_facts(s: Seq<u8>, v: u8, cap: nat)
    ensures
        lead(s, v, cap) <= s.len(),
        lead(s, v, cap) <= cap,
        forall|j: int| 0 <= j < lead(s, v, cap) ==> s[j] == v,
        s.len() > 0 && s[0] == v && cap > 0 ==> lead(s, v, cap) >= 1,
        lead(s, v, cap) == s.len() || lead(s, v, cap) == cap || s[lead(s, v, cap) as int] != v,
    decreases s.len(),
{
    if s.len() == 0 || cap == 0 || s[0] != v {
    } else {
        let t = s.skip(1);
        lemma_lead_facts(t, v, (cap - 1) as nat);
        assert forall|j: int| 0 <= j < lead(s, v, cap) implies s[j] == v by {
            if j > 0 {
                assert(s[j] == t[j - 1]);
            }
        }
    }
}

/// A run of `k` copies of `v` at the start of `s` that stops at the end of
/// `s`, at a different byte, or at `cap` is what `lead` measures.
pub proof fn lemma_lead_exact(s: Seq<u8>, v: u8, cap: nat, k: nat)
    requires
        k <= cap,
        k <= s.len(),
        forall|j: int| 0 <= j < k ==> s[j] == v,
        k == s.len() || k == cap || s[k as int] != v,
    ensures
        lead(s, v, cap) == k,
    decreases k,
{
    if k > 0 {
        let t = s.skip(1);
        assert(s[0] == v);
        assert forall|j: int| 0 <= j < k - 1 implies t[j] == v by {
            assert(t[j] == s[j + 1]);
        }
        if k < s.len() && k < cap {
            assert(t[k - 1] == s[k as int]);
        }
        lemma_lead_exact(t, v, (cap - 1) as nat, (k - 1) as nat);
    }
}

/// Decoding the encoding of any byte sequence gives it back, for both record
/// widths.
pub proof fn lemma_rle_round_trip(s: Seq<u8>, wide: bool)
    ensures
        rle_decode(rle_encode(s, wide), wide) == Some(s),
    decreases s.len(),
{
    if s.len() > 0 {
        let v = s[0];
        let n = lead(s, v, max_run(wide));
        lemma_lead_facts(s, v, max_run(wide));
        let rest = s.skip(n as int);
        lemma_rle_round_trip(rest, wide);
        let rec = record(n, v, wide);
        let e = rle_encode(s, wide);
        assert(e == rec + rle_encode(rest, wide));
        let k = record_len(wide);
        assert(e.skip(k as int) =~= rle_encode(rest, wide));
        assert(e[k - 1] == v);
        if wide {
            assert(record_count(e, wide) == n) by {
                assert(e[0] == (n / 256) as u8);
                assert(e[1] == (n % 256) as u8);
            }
        } else {
            assert(record_count(e, wide) == n);
        }
        assert(repeat(v, n) + rest =~= s);
    }
}

/// Decompressing what compressing gave returns the original bytes, whatever
/// the method descriptor.
pub proof fn lemma_round_trip(s: Seq<u8>, method: u8)
    ensures
        decompressed(compressed(s, method), method) == Some(s),
{
    if uses_rle2(method) {
        lemma_rle_round_trip(s, true);
    } else if uses_rle1(method) {
        lemma_rle_round_trip(s, false);
    }
}

/// An encoding is at most one record per input byte.
pub proof fn lemma_rle_encode_len(s: Seq<u8>, wide: bool)
    ensures
        rle_encode(s, wide).len() <= record_len(wide) * s.len(),
    decreases s.len(),
{
    if s.len() > 0 {
        let n = lead(s, s[0], max_run(wide));
        lemma_lead_facts(s, s[0], max_run(wide));
        lemma_rle_encode_len(s.skip(n as int), wide);
        assert(record_len(wide) * (s.len() - n) + record_len(wide) <= record_len(wide) * s.len())
            by (nonlinear_arith)
            requires
                n >= 1,
                n <= s.len(),
        ;
    }
}

/// Compressing at most triples the length.
pub proof fn lemma_compressed_len(s: Seq<u8>, method: u8)
    ensures
        compressed(s, method).len() <= 3 * s.len(),
{
    lemma_rle_encode_len(s, true);
    lemma_rle_encode_len(s, false);
}

/// Records needed for one run of `m` bytes when a record holds at most `cap`:
/// the ceiling of `m / cap` for a non-empty run.
pub open spec fn chunks(m: nat, cap: nat) -> nat
    decreases m,
{
    if cap == 0 || m <= cap {
        1
    } else {
        1 + chunks((m - cap) as nat, cap)
    }
}

/// Records needed to encode `s`: for each maximal run, `chunks` of its length.
pub open spec fn records_needed(s: Seq<u8>, cap: nat) -> nat
    decreases s.len(),
    via records_needed_decreases
{
    if s.len() == 0 {
        0
    } else {
        let m = lead(s, s[0], s.len());
        chunks(m, cap) + records_needed(s.skip(m as int), cap)
    }
}

#[via_fn]
proof fn records_needed_decreases(s: Seq<u8>, cap: nat) {
    if s.len() > 0 {
        lemma_lead_facts(s, s[0], s.len());
    }
}

/// Encoding a sequence whose first maximal run is `m` bytes long spends
/// `chunks(m)` records on that run, then encodes the rest.
proof fn lemma_run_records(s: Seq<u8>, wide: bool)
    requires
        s.len() > 0,
    ensures
        rle_encode(s, wide).len() == record_len(wide) * chunks(lead(s, s[0], s.len()), max_run(wide))
            + rle_encode(s.skip(lead(s, s[0], s.len()) as int), wide).len(),
    decreases s.len(),
{
    let v = s[0];
    let cap = max_run(wide);
    let m = lead(s, v, s.len());
    lemma_lead_facts(s, v, s.len());
    let k = if m <= cap {
        m
    } else {
        cap
    };
    lemma_lead_exact(s, v, cap, k);
    let n = lead(s, v, cap);
    assert(rle_encode(s, wide) == record(n, v, wide) + rle_encode(s.skip(n as int), wide));
    if m > cap {
        let t = s.skip(cap as int);
        let m2 = (m - cap) as nat;
        assert forall|j: int| 0 <= j < m2 implies t[j] == v by {
            assert(t[j] == s[cap + j]);
        }
        if m2 < t.len() {
            assert(t[m2 as int] == s[m as int]);
        }
        lemma_lead_exact(t, v, t.len(), m2);
        assert(t[0] == v);
        lemma_run_records(t, wide);
        assert(t.skip(m2 as int) =~= s.skip(m as int));
        assert(record_len(wide) * chunks(m, cap) == record_len(wide) + record_len(wide) * chunks(
            m2,
            cap,
        )) by (nonlinear_arith)
            requires
                chunks(m, cap) == 1 + chunks(m2, cap),
        ;
    }
}

/// Run-length accounting: the encoding spends one record (two bytes, or three
/// when `wide`) per started block of `max_run(wide)` bytes of every maximal
/// run, so its length is the record length times the sum over the maximal
/// runs of the ceiling of run length over `max_run(wide)`.
pub proof fn lemma_rle_accounting(s: Seq<u8>, wide: bool)
    ensures
        rle_encode(s, wide).len() == record_len(wide) * records_needed(s, max_run(wide)),
    decreases s.len(),
{
    if s.len() > 0 {
        let m = lead(s, s[0], s.len());
        lemma_lead_facts(s, s[0], s.len());
        lemma_run_records(s, wide);
        lemma_rle_accounting(s.skip(m as int), wide);
        let a = chunks(m, max_run(wide));
        let b = records_needed(s.skip(m as int), max_run(wide));
        assert(record_len(wide) * a + record_len(wide) * b == record_len(wide) * (a + b))
            by (nonlinear_arith);
    }
}

/// Run-length encodes `data`, records of width `wide`.
fn encode_runs(data: &Vec<u8>, wide: bool) -> (r: Vec<u8>)
    ensures
        r@ == rle_encode(data@, wide),
{
    let cap: usize = if wide { 65535 } else { 255 };
    let mut out: Vec<u8> = Vec::new();
    let mut pos: usize = 0;
    assert(data@.skip(0) =~= data@);
    assert(out@ + rle_encode(data@, wide) =~= rle_encode(data@, wide));
    while pos < data.len()
        invariant
            pos <= data.len(),
            cap == max_run(wide),
            rle_encode(data@, wide) == out@ + rle_encode(data@.skip(pos as int), wide),
        decreases data.len() - pos,
    {
        let current = data[pos];
        let mut end: usize = pos;
        while end < data.len() && data[end] == current && end - pos < cap
            invariant
                pos <= end <= data.len(),
                end - pos <= cap,
                forall|j: int| pos <= j < end ==> data@[j] == current,
            decreases data.len() - end,
        {
            end = end + 1;
        }
        let n: usize = end - pos;
        let ghost rest = data@.skip(pos as int);
        proof {
            assert(n >= 1);
            assert forall|j: int| 0 <= j < n implies rest[j] == current by {
                assert(rest[j] == data@[pos + j]);
            }
            if n < rest.len() && n < cap {
                assert(rest[n as int] == data@[end as int]);
            }
            lemma_lead_exact(rest, current, max_run(wide), n as nat);
            assert(rest[0] == current);
            assert(rest.skip(n as int) =~= data@.skip(end as int));
        }
        let ghost before = out@;
        if wide {
            out.push((n / 256) as u8);
            out.push((n % 256) as u8);
        } else {
            out.push(n as u8);
        }
        out.push(current);
        proof {
            let rec = record(n as nat, current, wide);
            assert(rle_encode(rest, wide) == rec + rle_encode(data@.skip(end as int), wide));
            assert(out@ =~= before + rec);
            assert(before + (rec + rle_encode(data@.skip(end as int), wide)) =~= out@ + rle_encode(
                data@.skip(end as int),
                wide,
            ));
        }
        pos = end;
    }
    assert(data@.skip(pos as int) =~= Seq::<u8>::empty());
    assert(out@ + Seq::<u8>::empty() =~= out@);
    out
}

/// Decodes a run-length stream of `wide` records; `None` when it ends inside
/// a record.
fn decode_runs(data: &Vec<u8>, wide: bool) -> (r: Option<Vec<u8>>)
    ensures
        r is Some <==> rle_decode(data@, wide) is Some,
        r is Some ==> r->0@ == rle_decode(data@, wide)->0,
{
    let k: usize = if wide { 3 } else { 2 };
    let mut out: Vec<u8> = Vec::new();
    let mut pos: usize = 0;
    assert(data@.skip(0) =~= data@);
    assert(prefixed(out@, rle_decode(data@, wide)) =~= rle_decode(data@, wide)) by {
        if let Some(t) = rle_decode(data@, wide) {
            assert(out@ + t =~= t);
        }
    }
    while pos < data.len()
        invariant
            pos <= data.len(),
            k == record_len(wide),
            rle_decode(data@, wide) == prefixed(out@, rle_decode(data@.skip(pos as int), wide)),
        decreases data.len() - pos,
    {
        let ghost rest = data@.skip(pos as int);
        if data.len() - pos < k {
            return None;
        }
        let count: usize = if wide {
            (data[pos] as usize) * 256 + (data[pos + 1] as usize)
        } else {
            data[pos] as usize
        };
        let symbol = data[pos + k - 1];
        proof {
            assert(count == record_count(rest, wide));
            assert(symbol == rest[k - 1]);
            assert(rest.skip(k as int) =~= data@.skip(pos + k));
        }
        let ghost before = out@;
        let mut i: usize = 0;
        while i < count
            invariant
                i <= count,
                out@ =~= before + repeat(symbol, i as nat),
            decreases count - i,
        {
            out.push(symbol);
            i = i + 1;
        }
        proof {
            let rep = repeat(symbol, count as nat);
            let tail = rle_decode(data@.skip(pos + k), wide);
            assert(rle_decode(rest, wide) == prefixed(rep, tail));
            if let Some(t) = tail {
                assert(before + (rep + t) =~= out@ + t);
            }
        }
        pos = pos + k;
    }
    assert(data@.skip(pos as int) =~= Seq::<u8>::empty());
    assert(out@ + Seq::<u8>::empty() =~= out@);
    Some(out)
}

/// The bytes of one file and the method descriptor to transform them with.
pub struct Compressor {
    pub data: Vec<u8>,
    pub method: u8,
}

impl Compressor {
    pub fn new(data: Vec<u8>, method: u8) -> (r: Self)
        ensures
            r.data@ == data@,
            r.method == method,
    {
        Self { data, method }
    }

    /// Replaces the data by its single-byte run-length encoding.
    pub fn rle(&mut self)
        ensures
            final(self).data@ == rle_encode(old(self).data@, false),
            final(self).method == old(self).method,
    {
        self.data = encode_runs(&self.data, false);
    }

    /// Replaces the data by its two-byte run-length encoding.
    pub fn rle_two_byte(&mut self)
        ensures
            final(self).data@ == rle_encode(old(self).data@, true),
            final(self).method == old(self).method,
    {
        self.data = encode_runs(&self.data, true);
    }

    /// Replaces single-byte run-length encoded data by what it decodes to.
    /// A stream that ends inside a record is refused and the data is kept.
    pub fn decompress_rle(&mut self) -> (r: Result<(), ArchivalError>)
        ensures
            final(self).method == old(self).method,
            r is Ok <==> rle_decode(old(self).data@, false) is Some,
            r is Ok ==> final(self).data@ == rle_decode(old(self).data@, false)->0,
            r is Err ==> r->Err_0 == ArchivalError::MalformedPayload && final(self).data@ == old(
                self,
            ).data@,
    {
        match decode_runs(&self.data, false) {
            Some(d) => {
                self.data = d;
                Ok(())
            },
            None => Err(ArchivalError::MalformedPayload),
        }
    }

    /// Replaces two-byte run-length encoded data by what it decodes to.
    /// A stream that ends inside a record is refused and the data is kept.
    pub fn decompress_rle_two_byte(&mut self) -> (r: Result<(), ArchivalError>)
        ensures
            final(self).method == old(self).method,
            r is Ok <==> rle_decode(old(self).data@, true) is Some,
            r is Ok ==> final(self).data@ == rle_decode(old(self).data@, true)->0,
            r is Err ==> r->Err_0 == ArchivalError::MalformedPayload && final(self).data@ == old(
                self,
            ).data@,
    {
        match decode_runs(&self.data, true) {
            Some(d) => {
                self.data = d;
                Ok(())
            },
            None => Err(ArchivalError::MalformedPayload),
        }
    }

    /// Transforms the data as the method descriptor asks and returns a copy
    /// of the result.
    pub fn compress(&mut self) -> (r: Vec<u8>)
        ensures
            r@ == compressed(old(self).data@, old(self).method),
            final(self).data@ == r@,
            final(self).method == old(self).method,
    {
        let rle = self.method & RLE_BIT != 0;
        let rle2 = self.method & RLE2_BIT != 0;
        if rle && !rle2 {
            self.rle();
        }
        if rle2 {
            self.rle_two_byte();
        }
        self.data.clone()
    }

    /// Undoes `compress` for the method descriptor, returning the original
    /// bytes, or `MalformedPayload` when the data is not a well-formed stream.
    pub fn decompress(&mut self) -> (r: Result<Vec<u8>, ArchivalError>)
        ensures
            final(self).method == old(self).method,
            r is Ok <==> decompressed(old(self).data@, old(self).method) is Some,
            r is Ok ==> r->Ok_0@ == decompressed(old(self).data@, old(self).method)->0
                && final(self).data@ == r->Ok_0@,
            r is Err ==> r->Err_0 == ArchivalError::MalformedPayload,
    {
        let rle = self.method & RLE_BIT != 0;
        let rle2 = self.method & RLE2_BIT != 0;
        if rle && !rle2 {
            self.decompress_rle()?;
        }
        if rle2 {
            self.decompress_rle_two_byte()?;
        }
        Ok(self.data.clone())
    }
}

} // verus!
