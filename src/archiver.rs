//! The archive container and the archiver session that writes and reads it.
//!
//! An archive is its header followed, for each file, by the file's header, its
//! payload, and a newline before the next file's header; no newline follows the
//! last payload. The session does the deciding and the byte-level work; the
//! caller moves bytes between the session and the file system.
use vstd::prelude::*;
use crate::codec::{compressed, decompressed, lemma_compressed_len, lemma_round_trip, Compressor};
use crate::decimal::{decimal, lemma_parse_decimal};
use crate::command::{Command, Mode};
use crate::error::ArchivalError;
use crate::header::{
    archive_header_bytes, archive_header_of, field, field_line, file_header_bytes, file_header_of,
    key_compressed, key_decompressed, key_encrypted, key_method, key_name, key_total, key_version,
    lemma_decimal_line, lemma_field_value, lemma_read_field, lemma_read_lines_needs_newlines,
    lemma_texts, newline_count, parse_archive_header, parse_file_header, push_all,
    read_header_lines, read_lines, text_false, ArchiveHeader, FileHeader, FileHeaderModel,
    ARCHIVE_HEADER_SIZE, CR, FILE_HEADER_SIZE, NL,
};
use crate::indexer::{range_holds, ArchiveIndexer, FileRange};
use crate::profiler::{profile_method, Profiler, PROFILE_LIMIT};

verus! {

/// Path separator in archive-relative names.
pub const SLASH: u8 = 47;

/// Backslash, a path separator on some systems.
pub const BACKSLASH: u8 = 92;

/// Colon, which introduces a drive or stream on some systems.
pub const COLON_BYTE: u8 = 58;

/// Full stop.
pub const DOT: u8 = 46;

/// Whether `b` separates path segments on some system.
pub open spec fn is_separator(b: u8) -> bool {
    b == SLASH || b == BACKSLASH
}

/// The format version this library writes.
pub const FORMAT_VERSION: u64 = 0;

/// A `..` segment of `name` starts at index `i`, segments being split by `/`
/// or `\`.
pub open spec fn parent_segment_at(name: Seq<u8>, i: int) -> bool {
    &&& 0 <= i
    &&& i + 2 <= name.len()
    &&& i == 0 || is_separator(name[i - 1])
    &&& name[i] == DOT
    &&& name[i + 1] == DOT
    &&& i + 2 == name.len() || is_separator(name[i + 2])
}

/// `name` can be joined under a destination directory and written as one
/// header line: it is not empty, does not start with `/` or `\`, holds no
/// `:` (so no drive prefix), has no `..` segment, holds no newline and does not
/// end with a carriage return.
pub open spec fn safe_name(name: Seq<u8>) -> bool {
    &&& name.len() > 0
    &&& !is_separator(name[0])
    &&& name.last() != CR
    &&& forall|i: int| 0 <= i < name.len() ==> #[trigger] name[i] != NL && name[i] != COLON_BYTE
    &&& forall|i: int| !#[trigger] parent_segment_at(name, i)
}

/// Reading an archive header at the start of `t`: the header and what follows.
pub open spec fn step_archive_header(t: Seq<u8>) -> Result<(ArchiveHeader, Seq<u8>), ArchivalError> {
    match read_lines(t, ARCHIVE_HEADER_SIZE as nat) {
        None => Err(ArchivalError::TruncatedHeader),
        Some((ls, rest)) => match archive_header_of(ls) {
            None => Err(ArchivalError::MalformedField),
            Some(h) => Ok((h, rest)),
        },
    }
}

/// Reading a file header at the start of `t`: the header and what follows.
pub open spec fn step_file_header(t: Seq<u8>) -> Result<(FileHeaderModel, Seq<u8>), ArchivalError> {
    match read_lines(t, FILE_HEADER_SIZE as nat) {
        None => Err(ArchivalError::TruncatedHeader),
        Some((ls, rest)) => match file_header_of(ls) {
            None => Err(ArchivalError::MalformedField),
            Some(h) => Ok((h, rest)),
        },
    }
}

/// Reading one file at the start of `t`, `last` telling whether it is the
/// archive's last: its name, its decompressed bytes, and what follows it
/// (after the newline that separates it from the next file).
pub open spec fn step_file(t: Seq<u8>, last: bool) -> Result<(Seq<u8>, Seq<u8>, Seq<u8>), ArchivalError> {
    match step_file_header(t) {
        Err(e) => Err(e),
        Ok((h, r)) => {
            let need = h.compressed + if last {
                0int
            } else {
                1int
            };
            if !safe_name(h.name) {
                Err(ArchivalError::UnsafePath)
            } else if r.len() < need {
                Err(ArchivalError::TruncatedPayload)
            } else {
                match decompressed(r.take(h.compressed as int), h.method) {
                    None => Err(ArchivalError::MalformedPayload),
                    Some(d) => if d.len() != h.decompressed {
                        Err(ArchivalError::MalformedPayload)
                    } else {
                        Ok((h.name, d, r.skip(need)))
                    },
                }
            }
        },
    }
}

/// Reading the last `k` files of an archive from `t`; the archive must end
/// right after them.
pub open spec fn step_files(t: Seq<u8>, k: nat) -> Result<Seq<(Seq<u8>, Seq<u8>)>, ArchivalError>
    decreases k,
{
    if k == 0 {
        if t.len() == 0 {
            Ok(seq![])
        } else {
            Err(ArchivalError::TrailingData)
        }
    } else {
        match step_file(t, k == 1) {
            Err(e) => Err(e),
            Ok((name, data, rest)) => match step_files(rest, (k - 1) as nat) {
                Err(e) => Err(e),
                Ok(es) => Ok(seq![(name, data)] + es),
            },
        }
    }
}

/// The files an archive holds, as names and contents in archive order.
pub open spec fn parse_archive(s: Seq<u8>) -> Result<Seq<(Seq<u8>, Seq<u8>)>, ArchivalError> {
    match step_archive_header(s) {
        Err(e) => Err(e),
        Ok((h, rest)) => step_files(rest, h.0 as nat),
    }
}

/// The bytes the archiver writes for one file: header, payload compressed
/// with the method the profiler picks, and a newline unless it is the last.
pub open spec fn entry_bytes(name: Seq<u8>, data: Seq<u8>, last: bool) -> Seq<u8> {
    let m = profile_method(data);
    let c = compressed(data, m);
    file_header_bytes(
        FileHeaderModel {
            name,
            method: m,
            compressed: c.len() as u64,
            decompressed: data.len() as u64,
        },
    ) + c + if last {
        Seq::<u8>::empty()
    } else {
        seq![NL]
    }
}

/// The bytes the archiver writes for a list of files, in order.
pub open spec fn entries_bytes(es: Seq<(Seq<u8>, Seq<u8>)>) -> Seq<u8>
    decreases es.len(),
{
    if es.len() == 0 {
        seq![]
    } else {
        entry_bytes(es[0].0, es[0].1, es.len() == 1) + entries_bytes(es.skip(1))
    }
}

/// The bytes written for the first `i` of the files `es`, each file being
/// the last when it is the last of `es`.
pub open spec fn entries_prefix(es: Seq<(Seq<u8>, Seq<u8>)>, i: int) -> Seq<u8>
    decreases i,
{
    if i <= 0 {
        seq![]
    } else {
        entries_prefix(es, i - 1) + entry_bytes(es[i - 1].0, es[i - 1].1, i == es.len())
    }
}

/// Writing the files one after the other, each with `entry_bytes`, gives
/// `entries_bytes`: the first `i` files followed by the rest.
pub proof fn lemma_entries_prefix(es: Seq<(Seq<u8>, Seq<u8>)>, i: int)
    requires
        0 <= i <= es.len(),
    ensures
        entries_bytes(es) == entries_prefix(es, i) + entries_bytes(es.skip(i)),
    decreases i,
{
    if i == 0 {
        assert(es.skip(0) =~= es);
        assert(Seq::<u8>::empty() + entries_bytes(es) =~= entries_bytes(es));
    } else {
        lemma_entries_prefix(es, i - 1);
        let t = es.skip(i - 1);
        assert(t[0] == es[i - 1]);
        assert(t.skip(1) =~= es.skip(i));
        assert(entries_bytes(t) == entry_bytes(t[0].0, t[0].1, t.len() == 1) + entries_bytes(
            t.skip(1),
        ));
        assert(entries_prefix(es, i - 1) + entries_bytes(t) =~= entries_prefix(es, i)
            + entries_bytes(es.skip(i)));
    }
}

/// Writing all the files one after the other gives `entries_bytes`.
pub proof fn lemma_entries_prefix_full(es: Seq<(Seq<u8>, Seq<u8>)>)
    ensures
        entries_prefix(es, es.len() as int) == entries_bytes(es),
{
    lemma_entries_prefix(es, es.len() as int);
    assert(es.skip(es.len() as int) =~= Seq::<(Seq<u8>, Seq<u8>)>::empty());
    assert(entries_prefix(es, es.len() as int) + Seq::<u8>::empty() =~= entries_prefix(
        es,
        es.len() as int,
    ));
}

/// The files `names` and `contents` pair up, in order.
pub open spec fn file_entries(names: Seq<Vec<u8>>, contents: Seq<Vec<u8>>) -> Seq<
    (Seq<u8>, Seq<u8>),
> {
    Seq::new(names.len(), |k: int| (names[k]@, contents[k]@))
}

/// The archive the archiver writes for a list of files.
pub open spec fn archive_of(es: Seq<(Seq<u8>, Seq<u8>)>) -> Seq<u8> {
    archive_header_bytes(ArchiveHeader(es.len() as u64, FORMAT_VERSION, false)) + entries_bytes(es)
}

/// The payload the archiver writes for `data` fits a 64-bit length.
proof fn lemma_payload_fits(data: Seq<u8>)
    requires
        data.len() <= u64::MAX,
    ensures
        compressed(data, profile_method(data)).len() <= u64::MAX,
{
    if data.len() < PROFILE_LIMIT {
        lemma_compressed_len(data, profile_method(data));
    } else {
        assert(0u8 & 0x40u8 == 0 && 0u8 & 0x80u8 == 0) by (bit_vector);
    }
}

/// A file header as written reads back as that header, leaving what follows.
proof fn lemma_file_header_reads_back(h: FileHeaderModel, after: Seq<u8>)
    requires
        safe_name(h.name),
    ensures
        step_file_header(file_header_bytes(h) + after) == Ok::<
            (FileHeaderModel, Seq<u8>),
            ArchivalError,
        >((h, after)),
{
    let name = h.name;
    let v1 = decimal(h.method as nat);
    let v2 = decimal(h.compressed as nat);
    let v3 = decimal(h.decompressed as nat);
    let f4 = field(key_decompressed(), v3) + after;
    let f3 = field(key_compressed(), v2) + f4;
    let f2 = field(key_method(), v1) + f3;
    let f1 = field(key_name(), name) + f2;
    assert(file_header_bytes(h) + after =~= f1);
    lemma_texts();
    lemma_decimal_line(h.method as nat);
    lemma_decimal_line(h.compressed as nat);
    lemma_decimal_line(h.decompressed as nat);
    lemma_read_field(key_decompressed(), v3, after, 0);
    lemma_read_field(key_compressed(), v2, f4, 1);
    lemma_read_field(key_method(), v1, f3, 2);
    lemma_read_field(key_name(), name, f2, 3);
    let ls = seq![
        field_line(key_name(), name),
        field_line(key_method(), v1),
        field_line(key_compressed(), v2),
        field_line(key_decompressed(), v3),
    ];
    assert(read_lines(after, 0) == Some((Seq::<Seq<u8>>::empty(), after)));
    assert(read_lines(f1, 4) == Some((ls, after))) by {
        assert(seq![field_line(key_decompressed(), v3)] + Seq::<Seq<u8>>::empty() =~= ls.skip(3));
        assert(seq![field_line(key_compressed(), v2)] + ls.skip(3) =~= ls.skip(2));
        assert(seq![field_line(key_method(), v1)] + ls.skip(2) =~= ls.skip(1));
        assert(seq![field_line(key_name(), name)] + ls.skip(1) =~= ls);
    }
    lemma_field_value(key_name(), name);
    lemma_field_value(key_method(), v1);
    lemma_field_value(key_compressed(), v2);
    lemma_field_value(key_decompressed(), v3);
    lemma_parse_decimal(h.method as u64);
    lemma_parse_decimal(h.compressed);
    lemma_parse_decimal(h.decompressed);
    assert(ls[0] == field_line(key_name(), name));
    assert(ls[1] == field_line(key_method(), v1));
    assert(ls[2] == field_line(key_compressed(), v2));
    assert(ls[3] == field_line(key_decompressed(), v3));
    assert(file_header_of(ls) == Some(h));
}

/// One file as the archiver writes it reads back as that file, leaving what
/// follows it.
proof fn lemma_entry_reads_back(name: Seq<u8>, data: Seq<u8>, last: bool, rest: Seq<u8>)
    requires
        safe_name(name),
        data.len() <= u64::MAX,
    ensures
        step_file(entry_bytes(name, data, last) + rest, last) == Ok::<
            (Seq<u8>, Seq<u8>, Seq<u8>),
            ArchivalError,
        >((name, data, rest)),
{
    let m = profile_method(data);
    let c = compressed(data, m);
    lemma_payload_fits(data);
    let h = FileHeaderModel {
        name,
        method: m,
        compressed: c.len() as u64,
        decompressed: data.len() as u64,
    };
    let tail = if last {
        Seq::<u8>::empty()
    } else {
        seq![NL]
    };
    let after = c + tail + rest;
    assert(entry_bytes(name, data, last) + rest =~= file_header_bytes(h) + after);
    lemma_file_header_reads_back(h, after);
    assert(after.take(c.len() as int) =~= c);
    lemma_round_trip(data, m);
    let need = c.len() + if last {
        0int
    } else {
        1int
    };
    assert(after.skip(need) =~= rest);
}

/// The files as the archiver writes them read back as those files, the
/// archive ending right after the last.
proof fn lemma_entries_read_back(es: Seq<(Seq<u8>, Seq<u8>)>)
    requires
        forall|i: int| 0 <= i < es.len() ==> safe_name(#[trigger] es[i].0) && es[i].1.len()
            <= u64::MAX,
    ensures
        step_files(entries_bytes(es), es.len()) == Ok::<Seq<(Seq<u8>, Seq<u8>)>, ArchivalError>(
            es,
        ),
    decreases es.len(),
{
    if es.len() > 0 {
        let rest = es.skip(1);
        assert forall|i: int| 0 <= i < rest.len() implies safe_name(#[trigger] rest[i].0)
            && rest[i].1.len() <= u64::MAX by {
            let x = es[i + 1];
            assert(safe_name(x.0) && x.1.len() <= u64::MAX);
            assert(rest[i] == x);
        }
        lemma_entries_read_back(rest);
        lemma_entry_reads_back(es[0].0, es[0].1, es.len() == 1, entries_bytes(rest));
        assert(entries_bytes(es) == entry_bytes(es[0].0, es[0].1, es.len() == 1) + entries_bytes(
            rest,
        ));
        assert(rest.len() == (es.len() - 1) as nat);
        assert(seq![(es[0].0, es[0].1)] + rest =~= es);
    } else {
        assert(es =~= Seq::<(Seq<u8>, Seq<u8>)>::empty());
    }
}

/// Archiving files and extracting the archive gives back every file, with
/// its name and bytes, in order, and exactly as many files as the archive
/// header declares. The names must be safe and each file's length and the
/// number of files must fit in 64 bits.
pub proof fn lemma_archive_round_trip(es: Seq<(Seq<u8>, Seq<u8>)>)
    requires
        es.len() <= u64::MAX,
        forall|i: int| 0 <= i < es.len() ==> safe_name(#[trigger] es[i].0) && es[i].1.len()
            <= u64::MAX,
    ensures
        parse_archive(archive_of(es)) == Ok::<Seq<(Seq<u8>, Seq<u8>)>, ArchivalError>(es),
{
    let e = entries_bytes(es);
    let h = ArchiveHeader(es.len() as u64, FORMAT_VERSION, false);
    let v1 = decimal(h.0 as nat);
    let v2 = decimal(h.1 as nat);
    let v3 = text_false();
    let f3 = field(key_encrypted(), v3) + e;
    let f2 = field(key_version(), v2) + f3;
    let f1 = field(key_total(), v1) + f2;
    assert(archive_of(es) =~= f1);
    lemma_texts();
    lemma_decimal_line(h.0 as nat);
    lemma_decimal_line(h.1 as nat);
    lemma_read_field(key_encrypted(), v3, e, 0);
    lemma_read_field(key_version(), v2, f3, 1);
    lemma_read_field(key_total(), v1, f2, 2);
    let ls = seq![
        field_line(key_total(), v1),
        field_line(key_version(), v2),
        field_line(key_encrypted(), v3),
    ];
    assert(read_lines(e, 0) == Some((Seq::<Seq<u8>>::empty(), e)));
    assert(read_lines(f1, 3) == Some((ls, e))) by {
        assert(seq![field_line(key_encrypted(), v3)] + Seq::<Seq<u8>>::empty() =~= ls.skip(2));
        assert(seq![field_line(key_version(), v2)] + ls.skip(2) =~= ls.skip(1));
        assert(seq![field_line(key_total(), v1)] + ls.skip(1) =~= ls);
    }
    lemma_field_value(key_total(), v1);
    lemma_field_value(key_version(), v2);
    lemma_field_value(key_encrypted(), v3);
    lemma_parse_decimal(h.0);
    lemma_parse_decimal(h.1);
    assert(archive_header_of(ls) == Some(h));
    lemma_entries_read_back(es);
}

/// An archive cut short inside its header, with fewer newlines than the
/// header has lines, is refused as a truncated header.
pub proof fn lemma_truncated_archive_header(s: Seq<u8>)
    requires
        newline_count(s) < ARCHIVE_HEADER_SIZE,
    ensures
        parse_archive(s) == Err::<Seq<(Seq<u8>, Seq<u8>)>, ArchivalError>(
            ArchivalError::TruncatedHeader,
        ),
{
    if read_lines(s, ARCHIVE_HEADER_SIZE as nat) is Some {
        lemma_read_lines_needs_newlines(s, ARCHIVE_HEADER_SIZE as nat);
    }
}

/// A file cut short inside its header, with fewer newlines left than a file
/// header has lines, is refused as a truncated header.
pub proof fn lemma_truncated_file_header(t: Seq<u8>, last: bool)
    requires
        newline_count(t) < FILE_HEADER_SIZE,
    ensures
        step_file(t, last) == Err::<(Seq<u8>, Seq<u8>, Seq<u8>), ArchivalError>(
            ArchivalError::TruncatedHeader,
        ),
{
    if read_lines(t, FILE_HEADER_SIZE as nat) is Some {
        lemma_read_lines_needs_newlines(t, FILE_HEADER_SIZE as nat);
    }
}

/// A file whose header names an absolute path (`/x`, `\x`), a drive (`C:x`,
/// `C:/x`) or a parent segment (`../x`, `..\x`, `a/..`) is refused as an
/// unsafe path, before any of its payload is looked at.
pub proof fn lemma_unsafe_names_refused(t: Seq<u8>, last: bool, h: FileHeaderModel, rest: Seq<u8>)
    requires
        step_file_header(t) == Ok::<(FileHeaderModel, Seq<u8>), ArchivalError>((h, rest)),
        h.name.len() > 0 && (is_separator(h.name[0]) || (exists|i: int|
            0 <= i < h.name.len() && #[trigger] h.name[i] == COLON_BYTE) || (exists|i: int|
            #[trigger] parent_segment_at(h.name, i))),
    ensures
        step_file(t, last) == Err::<(Seq<u8>, Seq<u8>, Seq<u8>), ArchivalError>(
            ArchivalError::UnsafePath,
        ),
{
}

/// A file taken out of an archive: its archive-relative name and its bytes.
#[derive(PartialEq, Eq, Debug)]
pub struct ExtractedFile {
    pub name: Vec<u8>,
    pub data: Vec<u8>,
}

impl View for ExtractedFile {
    type V = (Seq<u8>, Seq<u8>);

    open spec fn view(&self) -> (Seq<u8>, Seq<u8>) {
        (self.name@, self.data@)
    }
}

/// The views of a list of extracted files.
pub open spec fn extracted_views(v: Seq<ExtractedFile>) -> Seq<(Seq<u8>, Seq<u8>)> {
    v.map_values(|f: ExtractedFile| f@)
}

/// Whether `name` is a safe archive-relative name.
pub fn is_safe_name(name: &Vec<u8>) -> (r: bool)
    ensures
        r == safe_name(name@),
{
    let n = name.len();
    if n == 0 || name[0] == SLASH || name[0] == BACKSLASH || name[n - 1] == CR {
        return false;
    }
    let mut i: usize = 0;
    while i < n
        invariant
            n == name@.len() > 0,
            i <= n,
            forall|j: int| 0 <= j < i ==> #[trigger] name@[j] != NL && name@[j] != COLON_BYTE,
            forall|j: int| 0 <= j < i ==> !#[trigger] parent_segment_at(name@, j),
        decreases n - i,
    {
        if name[i] == NL || name[i] == COLON_BYTE {
            return false;
        }
        if (i == 0 || name[i - 1] == SLASH || name[i - 1] == BACKSLASH) && n - i >= 2 && name[i]
            == DOT && name[i + 1] == DOT && (i + 2 == n || name[i + 2] == SLASH || name[i + 2]
            == BACKSLASH) {
            assert(parent_segment_at(name@, i as int));
            return false;
        }
        i = i + 1;
    }
    assert forall|j: int| !#[trigger] parent_segment_at(name@, j) by {
        if 0 <= j < n {
        }
    }
    true
}

/// `x + y`, or the largest `u64` when the sum does not fit.
pub open spec fn sat_add(x: u64, y: nat) -> u64 {
    if x + y <= u64::MAX {
        (x + y) as u64
    } else {
        u64::MAX
    }
}

/// `x + y`, or the largest `u64` when the sum does not fit.
fn saturating(x: u64, y: u64) -> (r: u64)
    ensures
        r == sat_add(x, y as nat),
{
    if x > u64::MAX - y {
        u64::MAX
    } else {
        x + y
    }
}

/// One archiver session: what it does, on which paths, the files it works
/// through, and its progress.
pub struct Archiver {
    pub mode: Mode,
    pub input: Vec<u8>,
    pub output: Vec<u8>,
    /// Archive-relative names of the files to add, in traversal order.
    pub files: Vec<Vec<u8>>,
    pub file_count: usize,
    pub total_bytes: u64,
    pub bytes_processed: u64,
    pub files_processed: usize,
    pub files_compressed: usize,
    pub ranges: Vec<FileRange>,
    /// The output buffer size in use; it only grows.
    pub buffer_size: usize,
    /// The archive being extracted.
    pub archive: Vec<u8>,
    /// How far extraction has read into `archive`.
    pub read_pos: usize,
}

impl Archiver {
    /// The read position lies within the archive.
    pub open spec fn reading(&self) -> bool {
        self.read_pos <= self.archive@.len()
    }

    /// The next file to add is the session's last.
    pub open spec fn next_is_last(&self) -> bool {
        self.files_processed + 1 >= self.file_count
    }

    /// What of the archive is still to be read.
    pub open spec fn unread(&self) -> Seq<u8> {
        self.archive@.skip(self.read_pos as int)
    }

    /// Starts a session for `command` over the files that `index` found. A
    /// command without mode, input or output is refused, in that order.
    pub fn new(command: Command, index: ArchiveIndexer) -> (r: Result<Archiver, ArchivalError>)
        ensures
            command.mode is None ==> r == Err::<Archiver, ArchivalError>(ArchivalError::MissingMode),
            command.mode is Some && command.input is None ==> r == Err::<Archiver, ArchivalError>(
                ArchivalError::MissingInput,
            ),
            command.mode is Some && command.input is Some && command.output is None ==> r == Err::<
                Archiver,
                ArchivalError,
            >(ArchivalError::MissingOutput),
            r is Ok <==> command.mode is Some && command.input is Some && command.output is Some,
            r is Ok ==> {
                let a = r->Ok_0;
                &&& a.mode == command.mode->0
                &&& a.input@ == command.input->0@
                &&& a.output@ == command.output->0@
                &&& a.files@ == index.contents@
                &&& a.file_count == index.file_count
                &&& a.total_bytes == index.bytes_count
                &&& a.ranges@ == index.ranges@
                &&& a.bytes_processed == 0
                &&& a.files_processed == 0
                &&& a.files_compressed == 0
                &&& a.buffer_size == 0
                &&& a.archive@.len() == 0
                &&& a.read_pos == 0
            },
    {
        let mode = match command.mode {
            Some(m) => m,
            None => {
                return Err(ArchivalError::MissingMode);
            },
        };
        let input = match command.input {
            Some(i) => i,
            None => {
                return Err(ArchivalError::MissingInput);
            },
        };
        let output = match command.output {
            Some(o) => o,
            None => {
                return Err(ArchivalError::MissingOutput);
            },
        };
        Ok(Archiver {
            mode,
            input,
            output,
            files: index.contents,
            file_count: index.file_count,
            total_bytes: index.bytes_count,
            bytes_processed: 0,
            files_processed: 0,
            files_compressed: 0,
            ranges: index.ranges,
            buffer_size: 0,
            archive: Vec::new(),
            read_pos: 0,
        })
    }

    /// Hands the session the bytes of the archive to extract.
    pub fn load_archive(&mut self, bytes: Vec<u8>)
        ensures
            final(self).archive@ == bytes@,
            final(self).read_pos == 0,
            final(self).mode == old(self).mode,
            final(self).bytes_processed == old(self).bytes_processed,
            final(self).files_processed == old(self).files_processed,
    {
        self.archive = bytes;
        self.read_pos = 0;
    }

    /// The range that holds file index `pos`.
    pub fn get_file_range(&self, pos: usize) -> (r: Result<FileRange, ArchivalError>)
        ensures
            r is Ok <==> exists|i: int| 0 <= i < self.ranges@.len() && #[trigger] range_holds(
                self.ranges@[i],
                pos as int,
            ),
            r is Ok ==> exists|i: int|
                0 <= i < self.ranges@.len() && self.ranges@[i] == r->Ok_0 && #[trigger] range_holds(
                    self.ranges@[i],
                    pos as int,
                ) && forall|j: int| 0 <= j < i ==> !#[trigger] range_holds(self.ranges@[j], pos as int),
            r is Err ==> r->Err_0 == ArchivalError::MissingRange,
    {
        let mut i: usize = 0;
        while i < self.ranges.len()
            invariant
                i <= self.ranges@.len(),
                forall|j: int| 0 <= j < i ==> !#[trigger] range_holds(self.ranges@[j], pos as int),
            decreases self.ranges@.len() - i,
        {
            let fr = self.ranges[i];
            if pos >= fr.range.0 && pos < fr.range.1 {
                assert(range_holds(self.ranges@[i as int], pos as int));
                return Ok(fr);
            }
            i = i + 1;
        }
        Err(ArchivalError::MissingRange)
    }

    /// Before writing file `pos`, grows the output buffer to its range's size
    /// when that is larger. Returns whether the buffer grew, in which case the
    /// caller flushes and reopens its writer with `buffer_size`.
    pub fn update_buffer_size(&mut self, pos: usize) -> (r: Result<bool, ArchivalError>)
        ensures
            r is Ok <==> exists|i: int| 0 <= i < old(self).ranges@.len() && #[trigger] range_holds(
                old(self).ranges@[i],
                pos as int,
            ),
            r is Err ==> r->Err_0 == ArchivalError::MissingRange && *final(self) == *old(self),
            r is Ok ==> exists|i: int|
                0 <= i < old(self).ranges@.len() && #[trigger] range_holds(
                    old(self).ranges@[i],
                    pos as int,
                ) && final(self).buffer_size == if old(self).ranges@[i].buffer_size
                    > old(self).buffer_size {
                    old(self).ranges@[i].buffer_size
                } else {
                    old(self).buffer_size
                } && r->Ok_0 == (old(self).ranges@[i].buffer_size > old(self).buffer_size),
            final(self).buffer_size >= old(self).buffer_size,
            final(self).ranges == old(self).ranges,
            final(self).files == old(self).files,
            final(self).file_count == old(self).file_count,
            final(self).files_processed == old(self).files_processed,
            final(self).archive@ == old(self).archive@,
            final(self).read_pos == old(self).read_pos,
    {
        let fr = self.get_file_range(pos)?;
        if fr.buffer_size > self.buffer_size {
            self.buffer_size = fr.buffer_size;
            Ok(true)
        } else {
            Ok(false)
        }
    }

    /// The archive header for the files of this session.
    pub fn build_archive_header(&self) -> (r: ArchiveHeader)
        ensures
            r == ArchiveHeader(self.file_count as u64, FORMAT_VERSION, false),
    {
        ArchiveHeader(self.file_count as u64, FORMAT_VERSION, false)
    }

    /// The header for a file stored under `name` with `method`, its payload
    /// `compressed` bytes long and its content `decompressed` bytes long.
    pub fn build_file_header(name: &Vec<u8>, method: u8, compressed: u64, decompressed: u64) -> (r:
        FileHeader)
        ensures
            r@ == (FileHeaderModel { name: name@, method, compressed, decompressed }),
    {
        let mut n: Vec<u8> = Vec::new();
        push_all(&mut n, name);
        assert(n@ =~= name@);
        FileHeader(n, method, compressed, decompressed)
    }

    /// Profiles and compresses the next file, `data` stored under `name`, and
    /// returns the bytes to append to the archive: its header, its payload, and
    /// a newline unless it is the session's last file. A name that is not safe
    /// is refused before anything is produced.
    pub fn archive_file(&mut self, name: &Vec<u8>, data: Vec<u8>) -> (r: Result<
        Vec<u8>,
        ArchivalError,
    >)
        ensures
            r is Err <==> !safe_name(name@),
            r is Err ==> r->Err_0 == ArchivalError::UnsafePath && *final(self) == *old(self),
            r is Ok ==> r->Ok_0@ == entry_bytes(
                name@,
                data@,
                old(self).next_is_last(),
            ),
            r is Ok ==> final(self).files_processed == if old(self).files_processed < usize::MAX {
                old(self).files_processed + 1
            } else {
                old(self).files_processed as int
            },
            r is Ok ==> final(self).files_compressed == if profile_method(data@) != 0 && old(
                self,
            ).files_compressed < usize::MAX {
                old(self).files_compressed + 1
            } else {
                old(self).files_compressed as int
            },
            r is Ok ==> final(self).bytes_processed == sat_add(
                old(self).bytes_processed,
                compressed(data@, profile_method(data@)).len(),
            ),
            final(self).file_count == old(self).file_count,
            final(self).files == old(self).files,
            final(self).ranges == old(self).ranges,
            final(self).buffer_size == old(self).buffer_size,
            final(self).mode == old(self).mode,
    {
        if !is_safe_name(name) {
            return Err(ArchivalError::UnsafePath);
        }
        let size = data.len() as u64;
        let mut profiler = Profiler::new(data);
        let method = profiler.profile();
        let mut compressor = Compressor::new(profiler.data, method);
        let payload = compressor.compress();
        let header = Self::build_file_header(name, method, payload.len() as u64, size);
        let mut out = header.to_bytes();
        push_all(&mut out, &payload);
        let last = self.files_processed >= self.file_count || self.file_count - self.files_processed
            <= 1;
        if !last {
            out.push(NL);
        }
        if method != 0 && self.files_compressed < usize::MAX {
            self.files_compressed = self.files_compressed + 1;
        }
        if self.files_processed < usize::MAX {
            self.files_processed = self.files_processed + 1;
        }
        self.bytes_processed = saturating(self.bytes_processed, payload.len() as u64);
        proof {
            let tail = if last {
                Seq::<u8>::empty()
            } else {
                seq![NL]
            };
            assert(out@ =~= file_header_bytes(header@) + payload@ + tail);
        }
        Ok(out)
    }

    /// Starts the next file, `size` bytes stored under `name`, when it is too
    /// large to profile, so that the caller can copy its bytes straight into the
    /// archive. Returns the header to write before them and whether a newline
    /// must follow them (unless it is the session's last file); together these
    /// are exactly what `archive_file` would produce for such a file. A name
    /// that is not safe is refused.
    pub fn begin_stored_file(&mut self, name: &Vec<u8>, size: u64) -> (r: Result<
        (Vec<u8>, bool),
        ArchivalError,
    >)
        requires
            size >= PROFILE_LIMIT,
        ensures
            r is Err <==> !safe_name(name@),
            r is Err ==> r->Err_0 == ArchivalError::UnsafePath && *final(self) == *old(self),
            r is Ok ==> (r->Ok_0).1 == !(old(self).next_is_last()),
            r is Ok ==> forall|data: Seq<u8>|
                data.len() == size ==> #[trigger] entry_bytes(
                    name@,
                    data,
                    old(self).next_is_last(),
                ) == (r->Ok_0).0@ + data + if (r->Ok_0).1 {
                    seq![NL]
                } else {
                    Seq::<u8>::empty()
                },
            r is Ok ==> final(self).files_processed == if old(self).files_processed < usize::MAX {
                old(self).files_processed + 1
            } else {
                old(self).files_processed as int
            },
            r is Ok ==> final(self).bytes_processed == sat_add(old(self).bytes_processed, size as nat),
            final(self).files_compressed == old(self).files_compressed,
            final(self).file_count == old(self).file_count,
            final(self).files == old(self).files,
            final(self).ranges == old(self).ranges,
            final(self).buffer_size == old(self).buffer_size,
            final(self).mode == old(self).mode,
    {
        if !is_safe_name(name) {
            return Err(ArchivalError::UnsafePath);
        }
        let header = Self::build_file_header(name, 0, size, size);
        let bytes = header.to_bytes();
        let last = self.files_processed >= self.file_count || self.file_count - self.files_processed
            <= 1;
        if self.files_processed < usize::MAX {
            self.files_processed = self.files_processed + 1;
        }
        self.bytes_processed = saturating(self.bytes_processed, size);
        proof {
            assert(0u8 & 0x40u8 == 0 && 0u8 & 0x80u8 == 0) by (bit_vector);
            assert forall|data: Seq<u8>| data.len() == size implies #[trigger] entry_bytes(
                name@,
                data,
                last,
            ) == bytes@ + data + if !last {
                seq![NL]
            } else {
                Seq::<u8>::empty()
            } by {
                assert(profile_method(data) == 0);
                assert(compressed(data, 0) == data);
                let tail = if last {
                    Seq::<u8>::empty()
                } else {
                    seq![NL]
                };
                assert(entry_bytes(name@, data, last) =~= bytes@ + data + tail);
            }
        }
        Ok((bytes, !last))
    }

    /// Percent of the bytes processed so far, rounded down; none when there is
    /// nothing to process.
    pub fn get_progress_percentage(&self) -> (r: Option<u128>)
        ensures
            self.total_bytes == 0 ==> r is None,
            self.total_bytes > 0 ==> r == Some(
                (self.bytes_processed as int * 100 / self.total_bytes as int) as u128,
            ),
    {
        if self.total_bytes == 0 {
            return None;
        }
        Some((self.bytes_processed as u128) * 100 / (self.total_bytes as u128))
    }

    /// Throughput in bytes per second after `elapsed_millis` milliseconds;
    /// none before any time has passed.
    pub fn get_current_speed(&self, elapsed_millis: u64) -> (r: Option<u128>)
        ensures
            elapsed_millis == 0 ==> r is None,
            elapsed_millis > 0 ==> r == Some(
                (self.bytes_processed as int * 1000 / elapsed_millis as int) as u128,
            ),
    {
        if elapsed_millis == 0 {
            return None;
        }
        Some((self.bytes_processed as u128) * 1000 / (elapsed_millis as u128))
    }

    /// Seconds left at `speed` bytes per second, rounded down; none when the
    /// speed is zero or unmeasured.
    pub fn get_estimated_time_remaining(&self, speed: u128) -> (r: Option<u128>)
        ensures
            speed == 0 ==> r is None,
            speed > 0 && self.bytes_processed >= self.total_bytes ==> r == Some(0u128),
            speed > 0 && self.bytes_processed < self.total_bytes ==> r == Some(
                ((self.total_bytes - self.bytes_processed) / speed as int) as u128,
            ),
    {
        if speed == 0 {
            return None;
        }
        if self.bytes_processed >= self.total_bytes {
            return Some(0);
        }
        Some(((self.total_bytes - self.bytes_processed) as u128) / speed)
    }

    /// Builds the whole archive for the session's files, `contents` holding
    /// their bytes in order: the archive header, then every file as
    /// `archive_file` writes it. Fails with `UnsafePath`, producing nothing,
    /// when a name is not safe. What it builds extracts to exactly these files.
    pub fn build_archive(&mut self, contents: Vec<Vec<u8>>) -> (r: Result<Vec<u8>, ArchivalError>)
        requires
            old(self).files_processed == 0,
            old(self).file_count == old(self).files@.len(),
            contents@.len() == old(self).files@.len(),
        ensures
            ({
                let es = file_entries(old(self).files@, contents@);
                &&& r is Ok <==> forall|k: int| 0 <= k < es.len() ==> safe_name(#[trigger] es[k].0)
                &&& r is Err ==> r->Err_0 == ArchivalError::UnsafePath
                &&& r is Ok ==> r->Ok_0@ == archive_of(es)
                &&& r is Ok ==> parse_archive(r->Ok_0@) == Ok::<
                    Seq<(Seq<u8>, Seq<u8>)>,
                    ArchivalError,
                >(es)
            }),
            final(self).files@ == old(self).files@,
            final(self).file_count == old(self).file_count,
    {
        let ghost es = file_entries(self.files@, contents@);
        let n = self.files.len();
        let mut out = self.build_archive_header().to_bytes();
        let mut i: usize = 0;
        while i < n
            invariant
                n == self.files@.len() == contents@.len() == self.file_count,
                es == file_entries(self.files@, contents@),
                i <= n,
                self.files_processed == i,
                self.files@ == old(self).files@,
                self.file_count == old(self).file_count,
                forall|k: int| 0 <= k < i ==> safe_name(#[trigger] es[k].0) && es[k].1.len()
                    <= u64::MAX,
                out@ == archive_header_bytes(ArchiveHeader(n as u64, FORMAT_VERSION, false))
                    + entries_prefix(es, i as int),
            decreases n - i,
        {
            let name = self.files[i].clone();
            let data = contents[i].clone();
            let size = data.len();
            assert(size as int <= u64::MAX);
            assert(es[i as int] == (name@, data@));
            let ghost before = out@;
            match self.archive_file(&name, data) {
                Ok(bytes) => {
                    push_all(&mut out, &bytes);
                    assert(out@ =~= archive_header_bytes(
                        ArchiveHeader(n as u64, FORMAT_VERSION, false),
                    ) + entries_prefix(es, i + 1));
                },
                Err(e) => {
                    assert(!safe_name(es[i as int].0));
                    return Err(e);
                },
            }
            i = i + 1;
        }
        proof {
            lemma_entries_prefix_full(es);
            assert(es.len() == n);
            assert(n as int <= u64::MAX);
            lemma_archive_round_trip(es);
        }
        Ok(out)
    }

    /// Reads the archive header at the read position.
    pub fn read_archive_header(&mut self) -> (r: Result<ArchiveHeader, ArchivalError>)
        requires
            old(self).reading(),
        ensures
            final(self).reading(),
            final(self).archive@ == old(self).archive@,
            final(self).mode == old(self).mode,
            match step_archive_header(old(self).unread()) {
                Ok((h, rest)) => r == Ok::<ArchiveHeader, ArchivalError>(h) && final(self).unread()
                    == rest,
                Err(e) => r == Err::<ArchiveHeader, ArchivalError>(e),
            },
    {
        match read_header_lines(&self.archive, self.read_pos, ARCHIVE_HEADER_SIZE) {
            None => Err(ArchivalError::TruncatedHeader),
            Some((lines, next)) => match parse_archive_header(&lines) {
                None => Err(ArchivalError::MalformedField),
                Some(h) => {
                    self.bytes_processed = saturating(
                        self.bytes_processed,
                        (next - self.read_pos) as u64,
                    );
                    self.read_pos = next;
                    Ok(h)
                },
            },
        }
    }

    /// Reads a file header at the read position.
    pub fn read_file_header(&mut self) -> (r: Result<FileHeader, ArchivalError>)
        requires
            old(self).reading(),
        ensures
            final(self).reading(),
            final(self).archive@ == old(self).archive@,
            final(self).mode == old(self).mode,
            match step_file_header(old(self).unread()) {
                Ok((h, rest)) => r is Ok && r->Ok_0@ == h && final(self).unread() == rest,
                Err(e) => r == Err::<FileHeader, ArchivalError>(e),
            },
    {
        match read_header_lines(&self.archive, self.read_pos, FILE_HEADER_SIZE) {
            None => Err(ArchivalError::TruncatedHeader),
            Some((lines, next)) => match parse_file_header(&lines) {
                None => Err(ArchivalError::MalformedField),
                Some(h) => {
                    self.bytes_processed = saturating(
                        self.bytes_processed,
                        (next - self.read_pos) as u64,
                    );
                    self.read_pos = next;
                    Ok(h)
                },
            },
        }
    }

    /// Reads the next file: its header, its payload (and, unless it is the
    /// `last`, the newline after it), and decompresses the payload.
    pub fn extract_file(&mut self, last: bool) -> (r: Result<ExtractedFile, ArchivalError>)
        requires
            old(self).reading(),
        ensures
            final(self).reading(),
            final(self).archive@ == old(self).archive@,
            final(self).mode == old(self).mode,
            match step_file(old(self).unread(), last) {
                Ok((name, data, rest)) => r is Ok && r->Ok_0@ == (name, data)
                    && final(self).unread() == rest,
                Err(e) => r is Err && r->Err_0 == e,
            },
    {
        let header = self.read_file_header()?;
        let ghost r0 = self.unread();
        let FileHeader(name, method, size, expected) = header;
        if !is_safe_name(&name) {
            return Err(ArchivalError::UnsafePath);
        }
        let available = (self.archive.len() - self.read_pos) as u64;
        if available < size || (!last && available - size < 1) {
            return Err(ArchivalError::TruncatedPayload);
        }
        let start = self.read_pos;
        let end = start + size as usize;
        let mut payload: Vec<u8> = Vec::new();
        let mut i: usize = start;
        while i < end
            invariant
                start <= i <= end <= self.archive@.len(),
                payload@ == self.archive@.subrange(start as int, i as int),
            decreases end - i,
        {
            proof {
                assert(self.archive@.subrange(start as int, i + 1) =~= self.archive@.subrange(
                    start as int,
                    i as int,
                ).push(self.archive@[i as int]));
            }
            payload.push(self.archive[i]);
            i = i + 1;
        }
        assert(payload@ =~= r0.take(size as int));
        let mut decompressor = Compressor::new(payload, method);
        let data = match decompressor.decompress() {
            Ok(d) => d,
            Err(e) => {
                return Err(e);
            },
        };
        if data.len() as u64 != expected {
            return Err(ArchivalError::MalformedPayload);
        }
        let next = if last {
            end
        } else {
            end + 1
        };
        self.bytes_processed = saturating(self.bytes_processed, (next - start) as u64);
        if self.files_processed < usize::MAX {
            self.files_processed = self.files_processed + 1;
        }
        self.read_pos = next;
        assert(self.unread() =~= r0.skip(next - start));
        Ok(ExtractedFile { name, data })
    }

    /// Extracts the whole archive from its start: every file it declares, in
    /// order, refusing an archive that holds more or fewer.
    pub fn extract(&mut self) -> (r: Result<Vec<ExtractedFile>, ArchivalError>)
        ensures
            final(self).archive@ == old(self).archive@,
            final(self).mode == old(self).mode,
            match parse_archive(old(self).archive@) {
                Ok(es) => r is Ok && extracted_views(r->Ok_0@) == es,
                Err(e) => r is Err && r->Err_0 == e,
            },
    {
        self.read_pos = 0;
        assert(self.unread() =~= self.archive@);
        let header = self.read_archive_header()?;
        let total = header.0;
        let mut files: Vec<ExtractedFile> = Vec::new();
        let mut k: u64 = 0;
        proof {
            match step_files(self.unread(), total as nat) {
                Ok(es) => {
                    assert(Seq::<(Seq<u8>, Seq<u8>)>::empty() + es =~= es);
                },
                Err(_) => {},
            }
        }
        while k < total
            invariant
                k <= total,
                self.reading(),
                self.archive@ == old(self).archive@,
                self.mode == old(self).mode,
                parse_archive(self.archive@) == match step_files(
                    self.unread(),
                    (total - k) as nat,
                ) {
                    Ok(es) => Ok::<Seq<(Seq<u8>, Seq<u8>)>, ArchivalError>(
                        extracted_views(files@) + es,
                    ),
                    Err(e) => Err(e),
                },
            decreases total - k,
        {
            let ghost before = files@;
            let f = self.extract_file(total - k == 1)?;
            proof {
                assert(extracted_views(files@.push(f)) =~= extracted_views(before).push(f@));
                match step_files(self.unread(), (total - k - 1) as nat) {
                    Ok(es) => {
                        assert(extracted_views(before) + (seq![f@] + es) =~= extracted_views(
                            before,
                        ).push(f@) + es);
                    },
                    Err(_) => {},
                }
            }
            files.push(f);
            k = k + 1;
        }
        if self.read_pos < self.archive.len() {
            return Err(ArchivalError::TrailingData);
        }
        assert(self.unread() =~= Seq::<u8>::empty());
        assert(extracted_views(files@) + Seq::<(Seq<u8>, Seq<u8>)>::empty() =~= extracted_views(
            files@,
        ));
        Ok(files)
    }
}

} // verus!
