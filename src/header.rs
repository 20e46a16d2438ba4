//! Archive and file headers: fixed numbers of `key:value` text lines.
//!
//! An archive header has three lines (`total:`, `version:`, `encrypted:`), a
//! file header four (`name:`, `method:`, `compressed:`, `decompressed:`).
//! Every line ends with a newline; a carriage return before it is dropped when
//! reading.
use vstd::prelude::*;
use crate::decimal::{decimal, is_digit, lemma_decimal, parse_decimal, push_decimal, read_decimal};

verus! {

/// Newline byte.
pub const NL: u8 = 10;

/// Carriage return byte.
pub const CR: u8 = 13;

/// Separator between a key and its value.
pub const COLON: u8 = 58;

/// Lines in an archive header.
pub const ARCHIVE_HEADER_SIZE: usize = 3;

/// Lines in a file header.
pub const FILE_HEADER_SIZE: usize = 4;

/// The header at the start of an archive: number of files, format version,
/// and whether the payloads are encrypted.
#[derive(Clone, Copy, PartialEq, Eq, Debug)]
pub struct ArchiveHeader(pub u64, pub u64, pub bool);

/// The header before each payload: archive-relative name, method descriptor,
/// payload length, and length once decompressed.
#[derive(PartialEq, Eq, Debug)]
pub struct FileHeader(pub Vec<u8>, pub u8, pub u64, pub u64);

/// What a file header holds, with its name as a sequence.
pub struct FileHeaderModel {
    pub name: Seq<u8>,
    pub method: u8,
    pub compressed: u64,
    pub decompressed: u64,
}

impl View for FileHeader {
    type V = FileHeaderModel;

    open spec fn view(&self) -> FileHeaderModel {
        FileHeaderModel { name: self.0@, method: self.1, compressed: self.2, decompressed: self.3 }
    }
}

pub open spec fn key_total() -> Seq<u8> {
    seq![116u8, 111, 116, 97, 108]
}

pub open spec fn key_version() -> Seq<u8> {
    seq![118u8, 101, 114, 115, 105, 111, 110]
}

pub open spec fn key_encrypted() -> Seq<u8> {
    seq![101u8, 110, 99, 114, 121, 112, 116, 101, 100]
}

pub open spec fn key_name() -> Seq<u8> {
    seq![110u8, 97, 109, 101]
}

pub open spec fn key_method() -> Seq<u8> {
    seq![109u8, 101, 116, 104, 111, 100]
}

pub open spec fn key_compressed() -> Seq<u8> {
    seq![99u8, 111, 109, 112, 114, 101, 115, 115, 101, 100]
}

pub open spec fn key_decompressed() -> Seq<u8> {
    seq![100u8, 101, 99, 111, 109, 112, 114, 101, 115, 115, 101, 100]
}

pub open spec fn text_true() -> Seq<u8> {
    seq![116u8, 114, 117, 101]
}

pub open spec fn text_false() -> Seq<u8> {
    seq![102u8, 97, 108, 115, 101]
}

/// The spelling of a boolean value.
pub open spec fn bool_text(b: bool) -> Seq<u8> {
    if b {
        text_true()
    } else {
        text_false()
    }
}

/// One header line: key, colon, value, newline.
pub open spec fn field(key: Seq<u8>, value: Seq<u8>) -> Seq<u8> {
    key + seq![COLON] + value + seq![NL]
}

/// The bytes of an archive header.
pub open spec fn archive_header_bytes(h: ArchiveHeader) -> Seq<u8> {
    field(key_total(), decimal(h.0 as nat)) + field(key_version(), decimal(h.1 as nat)) + field(
        key_encrypted(),
        bool_text(h.2),
    )
}

/// The bytes of a file header.
pub open spec fn file_header_bytes(h: FileHeaderModel) -> Seq<u8> {
    field(key_name(), h.name) + field(key_method(), decimal(h.method as nat)) + field(
        key_compressed(),
        decimal(h.compressed as nat),
    ) + field(key_decompressed(), decimal(h.decompressed as nat))
}

/// Index of the first newline of `t`, or its length when it has none.
pub open spec fn newline_index(t: Seq<u8>) -> nat
    decreases t.len(),
{
    if t.len() == 0 || t[0] == NL {
        0
    } else {
        1 + newline_index(t.skip(1))
    }
}

/// `line` without one trailing carriage return.
pub open spec fn trim_cr(line: Seq<u8>) -> Seq<u8> {
    if line.len() > 0 && line.last() == CR {
        line.drop_last()
    } else {
        line
    }
}

/// The first `k` newline-terminated lines of `t`, carriage returns trimmed,
/// and what follows them; `None` when `t` ends first.
pub open spec fn read_lines(t: Seq<u8>, k: nat) -> Option<(Seq<Seq<u8>>, Seq<u8>)>
    decreases k,
{
    if k == 0 {
        Some((seq![], t))
    } else {
        let e = newline_index(t);
        if e >= t.len() {
            None
        } else {
            match read_lines(t.skip(e + 1int), (k - 1) as nat) {
                Some((ls, rest)) => Some((seq![trim_cr(t.take(e as int))] + ls, rest)),
                None => None,
            }
        }
    }
}

/// The value of a `key:value` line with the given key.
pub open spec fn field_value(line: Seq<u8>, key: Seq<u8>) -> Option<Seq<u8>> {
    if line.len() > key.len() && line.take(key.len() as int) == key && line[key.len() as int]
        == COLON {
        Some(line.skip(key.len() + 1int))
    } else {
        None
    }
}

/// The number in a `key:value` line.
pub open spec fn number_field(line: Seq<u8>, key: Seq<u8>) -> Option<u64> {
    match field_value(line, key) {
        Some(v) => parse_decimal(v),
        None => None,
    }
}

/// The boolean in a `key:value` line.
pub open spec fn bool_field(line: Seq<u8>, key: Seq<u8>) -> Option<bool> {
    match field_value(line, key) {
        Some(v) => if v == text_true() {
            Some(true)
        } else if v == text_false() {
            Some(false)
        } else {
            None
        },
        None => None,
    }
}

/// The archive header that three lines spell, if they spell one.
pub open spec fn archive_header_of(ls: Seq<Seq<u8>>) -> Option<ArchiveHeader> {
    match (number_field(ls[0], key_total()), number_field(ls[1], key_version()), bool_field(
        ls[2],
        key_encrypted(),
    )) {
        (Some(t), Some(v), Some(e)) => Some(ArchiveHeader(t, v, e)),
        _ => None,
    }
}

/// The file header that four lines spell, if they spell one.
pub open spec fn file_header_of(ls: Seq<Seq<u8>>) -> Option<FileHeaderModel> {
    match (
        field_value(ls[0], key_name()),
        number_field(ls[1], key_method()),
        number_field(ls[2], key_compressed()),
        number_field(ls[3], key_decompressed()),
    ) {
        (Some(n), Some(m), Some(c), Some(d)) => if m <= 255 {
            Some(FileHeaderModel { name: n, method: m as u8, compressed: c, decompressed: d })
        } else {
            None
        },
        _ => None,
    }
}

/// What putting lines `ls` in front of a read of further lines gives.
pub open spec fn with_lines(ls: Seq<Seq<u8>>, r: Option<(Seq<Seq<u8>>, Seq<u8>)>) -> Option<
    (Seq<Seq<u8>>, Seq<u8>),
> {
    match r {
        Some((more, rest)) => Some((ls + more, rest)),
        None => None,
    }
}

/// The views of a list of byte vectors.
pub open spec fn views(v: Seq<Vec<u8>>) -> Seq<Seq<u8>> {
    v.map_values(|l: Vec<u8>| l@)
}

/// Appends all of `v`.
pub fn push_all(out: &mut Vec<u8>, v: &Vec<u8>)
    ensures
        final(out)@ == old(out)@ + v@,
{
    let mut i: usize = 0;
    while i < v.len()
        invariant
            i <= v@.len(),
            out@ == old(out)@ + v@.take(i as int),
        decreases v@.len() - i,
    {
        proof {
            assert(v@.take(i + 1) =~= v@.take(i as int).push(v@[i as int]));
        }
        out.push(v[i]);
        i = i + 1;
    }
    assert(v@.take(i as int) =~= v@);
}

fn total_key() -> (r: Vec<u8>)
    ensures
        r@ == key_total(),
{
    let r = vec![116u8, 111, 116, 97, 108];
    assert(r@ =~= key_total());
    r
}

fn version_key() -> (r: Vec<u8>)
    ensures
        r@ == key_version(),
{
    let r = vec![118u8, 101, 114, 115, 105, 111, 110];
    assert(r@ =~= key_version());
    r
}

fn encrypted_key() -> (r: Vec<u8>)
    ensures
        r@ == key_encrypted(),
{
    let r = vec![101u8, 110, 99, 114, 121, 112, 116, 101, 100];
    assert(r@ =~= key_encrypted());
    r
}

fn name_key() -> (r: Vec<u8>)
    ensures
        r@ == key_name(),
{
    let r = vec![110u8, 97, 109, 101];
    assert(r@ =~= key_name());
    r
}

fn method_key() -> (r: Vec<u8>)
    ensures
        r@ == key_method(),
{
    let r = vec![109u8, 101, 116, 104, 111, 100];
    assert(r@ =~= key_method());
    r
}

fn compressed_key() -> (r: Vec<u8>)
    ensures
        r@ == key_compressed(),
{
    let r = vec![99u8, 111, 109, 112, 114, 101, 115, 115, 101, 100];
    assert(r@ =~= key_compressed());
    r
}

fn decompressed_key() -> (r: Vec<u8>)
    ensures
        r@ == key_decompressed(),
{
    let r = vec![100u8, 101, 99, 111, 109, 112, 114, 101, 115, 115, 101, 100];
    assert(r@ =~= key_decompressed());
    r
}

fn true_text() -> (r: Vec<u8>)
    ensures
        r@ == text_true(),
{
    let r = vec![116u8, 114, 117, 101];
    assert(r@ =~= text_true());
    r
}

fn false_text() -> (r: Vec<u8>)
    ensures
        r@ == text_false(),
{
    let r = vec![102u8, 97, 108, 115, 101];
    assert(r@ =~= text_false());
    r
}

/// Appends the line `key:value`.
fn push_field(out: &mut Vec<u8>, key: &Vec<u8>, value: &Vec<u8>)
    ensures
        final(out)@ == old(out)@ + field(key@, value@),
{
    push_all(out, key);
    out.push(COLON);
    push_all(out, value);
    out.push(NL);
    assert(final(out)@ =~= old(out)@ + field(key@, value@));
}

/// Appends the line `key:n` with `n` in decimal.
fn push_number_field(out: &mut Vec<u8>, key: &Vec<u8>, n: u64)
    ensures
        final(out)@ == old(out)@ + field(key@, decimal(n as nat)),
{
    let mut digits: Vec<u8> = Vec::new();
    push_decimal(&mut digits, n);
    assert(digits@ =~= decimal(n as nat));
    push_field(out, key, &digits);
}

impl ArchiveHeader {
    /// The header's bytes as written at the start of an archive.
    pub fn to_bytes(&self) -> (r: Vec<u8>)
        ensures
            r@ == archive_header_bytes(*self),
    {
        let mut out: Vec<u8> = Vec::new();
        push_number_field(&mut out, &total_key(), self.0);
        push_number_field(&mut out, &version_key(), self.1);
        let text = if self.2 {
            true_text()
        } else {
            false_text()
        };
        push_field(&mut out, &encrypted_key(), &text);
        assert(out@ =~= archive_header_bytes(*self));
        out
    }
}

impl FileHeader {
    /// The header's bytes as written before its payload.
    pub fn to_bytes(&self) -> (r: Vec<u8>)
        ensures
            r@ == file_header_bytes(self@),
    {
        let mut out: Vec<u8> = Vec::new();
        push_field(&mut out, &name_key(), &self.0);
        push_number_field(&mut out, &method_key(), self.1 as u64);
        push_number_field(&mut out, &compressed_key(), self.2);
        push_number_field(&mut out, &decompressed_key(), self.3);
        assert(out@ =~= file_header_bytes(self@));
        out
    }
}

/// A first newline at index `k` (or none, `k` being the length) is what
/// `newline_index` finds.
pub proof fn lemma_newline_index(t: Seq<u8>, k: nat)
    requires
        k <= t.len(),
        forall|j: int| 0 <= j < k ==> t[j] != NL,
        k == t.len() || t[k as int] == NL,
    ensures
        newline_index(t) == k,
    decreases k,
{
    if k > 0 {
        let u = t.skip(1);
        assert forall|j: int| 0 <= j < k - 1 implies u[j] != NL by {
            assert(u[j] == t[j + 1]);
        }
        if k < t.len() {
            assert(u[k - 1] == t[k as int]);
        }
        lemma_newline_index(u, (k - 1) as nat);
    }
}

/// Reads the line that starts at `pos`: its bytes without the newline and a
/// trailing carriage return, and the position after the newline. `None` when
/// no newline follows `pos`.
pub fn read_line(s: &Vec<u8>, pos: usize) -> (r: Option<(Vec<u8>, usize)>)
    requires
        pos <= s@.len(),
    ensures
        ({
            let t = s@.skip(pos as int);
            let e = newline_index(t);
            &&& r is None <==> e >= t.len()
            &&& r is Some ==> (r->0).0@ == trim_cr(t.take(e as int)) && (r->0).1 == pos + e + 1
        }),
{
    let ghost t = s@.skip(pos as int);
    let mut end: usize = pos;
    while end < s.len() && s[end] != NL
        invariant
            pos <= end <= s@.len(),
            forall|j: int| pos <= j < end ==> s@[j] != NL,
        decreases s@.len() - end,
    {
        end = end + 1;
    }
    proof {
        assert forall|j: int| 0 <= j < end - pos implies t[j] != NL by {
            assert(t[j] == s@[pos + j]);
        }
        if end < s@.len() {
            assert(t[end - pos] == s@[end as int]);
        }
        lemma_newline_index(t, (end - pos) as nat);
    }
    if end == s.len() {
        return None;
    }
    let mut stop = end;
    if stop > pos && s[stop - 1] == CR {
        stop = stop - 1;
    }
    let mut line: Vec<u8> = Vec::new();
    let mut i: usize = pos;
    while i < stop
        invariant
            pos <= i <= stop <= end < s@.len(),
            line@ == s@.subrange(pos as int, i as int),
        decreases stop - i,
    {
        proof {
            assert(s@.subrange(pos as int, i + 1) =~= s@.subrange(pos as int, i as int).push(
                s@[i as int],
            ));
        }
        line.push(s[i]);
        i = i + 1;
    }
    proof {
        let full = t.take((end - pos) as int);
        assert(full =~= s@.subrange(pos as int, end as int));
        if end > pos && s@[end - 1] == CR {
            assert(full.last() == CR);
            assert(full.drop_last() =~= line@);
        } else {
            assert(full =~= line@);
        }
    }
    Some((line, end + 1))
}

/// Reads `k` lines starting at `pos`, and the position after them.
pub fn read_header_lines(s: &Vec<u8>, pos: usize, k: usize) -> (r: Option<(Vec<Vec<u8>>, usize)>)
    requires
        pos <= s@.len(),
    ensures
        r is None <==> read_lines(s@.skip(pos as int), k as nat) is None,
        r is Some ==> {
            let (ls, rest) = read_lines(s@.skip(pos as int), k as nat)->0;
            &&& (r->0).0@.len() == k
            &&& pos <= (r->0).1
            &&& views((r->0).0@) == ls
            &&& (r->0).1 <= s@.len()
            &&& s@.skip((r->0).1 as int) == rest
        },
{
    let mut lines: Vec<Vec<u8>> = Vec::new();
    let mut at: usize = pos;
    let mut i: usize = 0;
    assert(views(lines@) =~= Seq::<Seq<u8>>::empty());
    proof {
        match read_lines(s@.skip(pos as int), k as nat) {
            Some((ls, rest)) => {
                assert(Seq::<Seq<u8>>::empty() + ls =~= ls);
            },
            None => {},
        }
    }
    while i < k
        invariant
            i <= k,
            lines@.len() == i,
            pos <= at <= s@.len(),
            read_lines(s@.skip(pos as int), k as nat) == with_lines(
                views(lines@),
                read_lines(s@.skip(at as int), (k - i) as nat),
            ),
        decreases k - i,
    {
        let ghost t = s@.skip(at as int);
        match read_line(s, at) {
            None => {
                return None;
            },
            Some((line, next)) => {
                proof {
                    let e = newline_index(t);
                    assert(t.skip(e + 1int) =~= s@.skip(next as int));
                    let ls0 = views(lines@);
                    let tail = read_lines(s@.skip(next as int), (k - i - 1) as nat);
                    assert(views(lines@.push(line)) =~= ls0.push(line@));
                    match tail {
                        Some((more, rest)) => {
                            assert(ls0 + (seq![line@] + more) =~= ls0.push(line@) + more);
                        },
                        None => {},
                    }
                }
                lines.push(line);
                at = next;
            },
        }
        i = i + 1;
    }
    proof {
        assert(views(lines@) + Seq::<Seq<u8>>::empty() =~= views(lines@));
    }
    Some((lines, at))
}

/// Whether `a` and `b` hold the same bytes.
pub fn same_bytes(a: &Vec<u8>, b: &Vec<u8>) -> (r: bool)
    ensures
        r == (a@ == b@),
{
    if a.len() != b.len() {
        return false;
    }
    let mut i: usize = 0;
    while i < a.len()
        invariant
            i <= a@.len() == b@.len(),
            forall|j: int| 0 <= j < i ==> a@[j] == b@[j],
        decreases a@.len() - i,
    {
        if a[i] != b[i] {
            return false;
        }
        i = i + 1;
    }
    assert(a@ =~= b@);
    true
}

/// The value of `line` when it reads `key:value`.
pub fn get_field(line: &Vec<u8>, key: &Vec<u8>) -> (r: Option<Vec<u8>>)
    ensures
        r is Some <==> field_value(line@, key@) is Some,
        r is Some ==> r->0@ == field_value(line@, key@)->0,
{
    let k = key.len();
    if line.len() <= k {
        return None;
    }
    let mut i: usize = 0;
    while i < k
        invariant
            k == key@.len() < line@.len(),
            i <= k,
            forall|j: int| 0 <= j < i ==> line@[j] == key@[j],
        decreases k - i,
    {
        if line[i] != key[i] {
            proof {
                assert(line@.take(k as int)[i as int] != key@[i as int]);
            }
            return None;
        }
        i = i + 1;
    }
    assert(line@.take(k as int) =~= key@);
    if line[k] != COLON {
        return None;
    }
    let mut value: Vec<u8> = Vec::new();
    let mut j: usize = k + 1;
    while j < line.len()
        invariant
            k < j <= line@.len(),
            value@ == line@.subrange(k + 1, j as int),
        decreases line@.len() - j,
    {
        proof {
            assert(line@.subrange(k + 1, j + 1) =~= line@.subrange(k + 1, j as int).push(
                line@[j as int],
            ));
        }
        value.push(line[j]);
        j = j + 1;
    }
    assert(value@ =~= line@.skip(k + 1));
    Some(value)
}

/// The number in `line` when it reads `key:` and a decimal number.
fn get_number_field(line: &Vec<u8>, key: &Vec<u8>) -> (r: Option<u64>)
    ensures
        r == number_field(line@, key@),
{
    match get_field(line, key) {
        Some(v) => read_decimal(&v),
        None => None,
    }
}

/// The boolean in `line` when it reads `key:true` or `key:false`.
fn get_bool_field(line: &Vec<u8>, key: &Vec<u8>) -> (r: Option<bool>)
    ensures
        r == bool_field(line@, key@),
{
    match get_field(line, key) {
        Some(v) => {
            if same_bytes(&v, &true_text()) {
                Some(true)
            } else if same_bytes(&v, &false_text()) {
                Some(false)
            } else {
                None
            }
        },
        None => None,
    }
}

/// The archive header that three lines spell.
pub fn parse_archive_header(lines: &Vec<Vec<u8>>) -> (r: Option<ArchiveHeader>)
    requires
        lines@.len() == ARCHIVE_HEADER_SIZE,
    ensures
        r == archive_header_of(views(lines@)),
{
    let ls = Ghost(views(lines@));
    assert(ls@[0] == lines@[0]@ && ls@[1] == lines@[1]@ && ls@[2] == lines@[2]@);
    let total = get_number_field(&lines[0], &total_key());
    let version = get_number_field(&lines[1], &version_key());
    let encrypted = get_bool_field(&lines[2], &encrypted_key());
    match (total, version, encrypted) {
        (Some(t), Some(v), Some(e)) => Some(ArchiveHeader(t, v, e)),
        _ => None,
    }
}

/// The file header that four lines spell.
pub fn parse_file_header(lines: &Vec<Vec<u8>>) -> (r: Option<FileHeader>)
    requires
        lines@.len() == FILE_HEADER_SIZE,
    ensures
        r is Some <==> file_header_of(views(lines@)) is Some,
        r is Some ==> r->0@ == file_header_of(views(lines@))->0,
{
    let ls = Ghost(views(lines@));
    assert(ls@[0] == lines@[0]@ && ls@[1] == lines@[1]@ && ls@[2] == lines@[2]@ && ls@[3]
        == lines@[3]@);
    let name = get_field(&lines[0], &name_key());
    let method = get_number_field(&lines[1], &method_key());
    let compressed = get_number_field(&lines[2], &compressed_key());
    let decompressed = get_number_field(&lines[3], &decompressed_key());
    match (name, method, compressed, decompressed) {
        (Some(n), Some(m), Some(c), Some(d)) => {
            if m <= 255 {
                Some(FileHeader(n, m as u8, c, d))
            } else {
                None
            }
        },
        _ => None,
    }
}

/// `s` holds no newline.
pub open spec fn no_newline(s: Seq<u8>) -> bool {
    forall|j: int| 0 <= j < s.len() ==> #[trigger] s[j] != NL
}

/// The line `key:value` as read back, carriage return trimmed.
pub open spec fn field_line(key: Seq<u8>, value: Seq<u8>) -> Seq<u8> {
    key + seq![COLON] + value
}

/// Reading lines from a `key:value` line followed by `rest` yields that line
/// first, then the lines of `rest`, when neither key nor value holds a newline
/// and the value does not end with a carriage return.
pub proof fn lemma_read_field(key: Seq<u8>, value: Seq<u8>, rest: Seq<u8>, k: nat)
    requires
        no_newline(key),
        no_newline(value),
        value.len() > 0 ==> value.last() != CR,
    ensures
        read_lines(field(key, value) + rest, k + 1) == with_lines(
            seq![field_line(key, value)],
            read_lines(rest, k),
        ),
{
    let line = field_line(key, value);
    let t = field(key, value) + rest;
    assert(t =~= line + (seq![NL] + rest));
    assert forall|j: int| 0 <= j < line.len() implies t[j] != NL by {
        if j < key.len() {
            assert(t[j] == key[j]);
        } else if j == key.len() {
            assert(t[j] == COLON);
        } else {
            assert(t[j] == value[j - key.len() - 1]);
        }
    }
    assert(t[line.len() as int] == NL);
    lemma_newline_index(t, line.len());
    assert(t.take(line.len() as int) =~= line);
    assert(trim_cr(line) == line) by {
        if value.len() > 0 {
            assert(line.last() == value.last());
        } else {
            assert(line.last() == COLON);
        }
    }
    assert(t.skip(line.len() + 1int) =~= rest);
    match read_lines(rest, k) {
        Some((ls, r)) => {
            assert(seq![line] + ls =~= seq![line] + ls);
        },
        None => {},
    }
}

/// The value read back from a `key:value` line is the value written.
pub proof fn lemma_field_value(key: Seq<u8>, value: Seq<u8>)
    ensures
        field_value(field_line(key, value), key) == Some(value),
{
    let line = field_line(key, value);
    assert(line.take(key.len() as int) =~= key);
    assert(line[key.len() as int] == COLON);
    assert(line.skip(key.len() + 1int) =~= value);
}

/// A decimal spelling holds no newline and ends with a digit.
pub proof fn lemma_decimal_line(n: nat)
    ensures
        no_newline(decimal(n)),
        decimal(n).len() > 0,
        decimal(n).last() != CR,
{
    lemma_decimal(n);
    assert(is_digit(decimal(n)[decimal(n).len() - 1]));
}

/// The keys and boolean spellings hold no newline and end with a letter.
pub proof fn lemma_texts()
    ensures
        no_newline(key_total()),
        no_newline(key_version()),
        no_newline(key_encrypted()),
        no_newline(key_name()),
        no_newline(key_method()),
        no_newline(key_compressed()),
        no_newline(key_decompressed()),
        no_newline(text_true()),
        no_newline(text_false()),
        text_true().last() != CR,
        text_false().last() != CR,
        text_false() != text_true(),
{
    assert(text_false().len() != text_true().len());
}

/// Number of newlines in `t`.
pub open spec fn newline_count(t: Seq<u8>) -> nat
    decreases t.len(),
{
    if t.len() == 0 {
        0
    } else {
        (if t[0] == NL {
            1nat
        } else {
            0nat
        }) + newline_count(t.skip(1))
    }
}

/// A newline at index `j` is counted, besides those after it.
proof fn lemma_newline_count_skip(t: Seq<u8>, j: int)
    requires
        0 <= j < t.len(),
        t[j] == NL,
    ensures
        newline_count(t) >= 1 + newline_count(t.skip(j + 1)),
    decreases j,
{
    if j > 0 {
        let u = t.skip(1);
        assert(u[j - 1] == t[j]);
        lemma_newline_count_skip(u, j - 1);
        assert(u.skip(j) =~= t.skip(j + 1));
    }
}

/// Reading `k` lines needs at least `k` newlines.
pub proof fn lemma_read_lines_needs_newlines(t: Seq<u8>, k: nat)
    requires
        read_lines(t, k) is Some,
    ensures
        newline_count(t) >= k,
    decreases k,
{
    if k > 0 {
        let e = newline_index(t);
        lemma_newline_index_facts(t);
        lemma_read_lines_needs_newlines(t.skip(e + 1int), (k - 1) as nat);
        lemma_newline_count_skip(t, e as int);
    }
}

/// What `newline_index` finds is within `t`, and a newline unless it is the end.
pub proof fn lemma_newline_index_facts(t: Seq<u8>)
    ensures
        newline_index(t) <= t.len(),
        newline_index(t) < t.len() ==> t[newline_index(t) as int] == NL,
    decreases t.len(),
{
    if t.len() > 0 && t[0] != NL {
        lemma_newline_index_facts(t.skip(1));
    }
}

} // verus!
