use ark::archiver::{is_safe_name, Archiver, ExtractedFile};
use ark::command::{Command, Mode};
use ark::error::{ArchivalError, ErrorKind};
use ark::header::ArchiveHeader;
use ark::indexer::ArchiveIndexer;

fn command(mode: Mode) -> Command {
    Command {
        mode: Some(mode),
        input: Some(b"in".to_vec()),
        output: Some(b"out".to_vec()),
        key: None,
    }
}

fn adder(files: &[(&[u8], &[u8])]) -> Archiver {
    let mut index = ArchiveIndexer::new(b"in".to_vec());
    index.index_files(
        files.iter().map(|f| f.0.to_vec()).collect(),
        files.iter().map(|f| f.1.len() as u64).collect(),
    );
    Archiver::new(command(Mode::Add), index).unwrap()
}

fn build(files: &[(&[u8], &[u8])]) -> Vec<u8> {
    let mut a = adder(files);
    let mut out = a.build_archive_header().to_bytes();
    for (name, data) in files {
        out.extend(a.archive_file(&name.to_vec(), data.to_vec()).unwrap());
    }
    out
}

fn extractor(bytes: Vec<u8>) -> Archiver {
    let mut a = Archiver::new(command(Mode::Extract), ArchiveIndexer::new(b"in".to_vec())).unwrap();
    a.load_archive(bytes);
    a
}

#[test]
fn test_read_archive() {
    let mut archiver = Archiver::new(
        Command {
            mode: Some(Mode::Extract),
            input: Some(b"src/tests/archive.ark".to_vec()),
            output: Some(b"src/tests/archive.ark".to_vec()),
            key: None,
        },
        ArchiveIndexer::new(b"src/tests/archive.ark".to_vec()),
    )
    .unwrap();
    archiver.load_archive(
        b"total:2\nversion:0\nencrypted:false\nname:file1.mov\nmethod:0\ncompressed:50\ndecompressed:60\n"
            .to_vec(),
    );

    if let Ok(head) = archiver.read_archive_header() {
        assert_eq!(2, head.0);
        assert_eq!(0, head.1);
        assert_eq!(false, head.2);
    } else {
        panic!("Archive header failed to be read!")
    }

    if let Ok(head) = archiver.read_file_header() {
        assert_eq!(b"file1.mov".to_vec(), head.0);
        assert_eq!(0u8, head.1);
        assert_eq!(50, head.2);
        assert_eq!(60, head.3);
    } else {
        panic!("File header failed to be read!")
    }
}

#[test]
fn two_file_scenario() {
    let distinct: Vec<u8> = (0u8..10).collect();
    let files: [(&[u8], &[u8]); 2] = [(b"a.txt", b"xxxxxxxxxx"), (b"b.bin", &distinct)];
    let archive = build(&files);
    let mut expected = b"total:2\nversion:0\nencrypted:false\n".to_vec();
    expected.extend(b"name:a.txt\nmethod:128\ncompressed:2\ndecompressed:10\n");
    expected.extend([10, b'x', b'\n']);
    expected.extend(b"name:b.bin\nmethod:0\ncompressed:10\ndecompressed:10\n");
    expected.extend(&distinct);
    assert_eq!(archive, expected);

    let mut a = extractor(archive);
    assert_eq!(a.read_archive_header(), Ok(ArchiveHeader(2, 0, false)));
    let out = extractor(a.archive.clone()).extract().unwrap();
    assert_eq!(
        out,
        vec![
            ExtractedFile { name: b"a.txt".to_vec(), data: b"xxxxxxxxxx".to_vec() },
            ExtractedFile { name: b"b.bin".to_vec(), data: distinct.clone() },
        ]
    );
}

#[test]
fn archive_then_extract_reproduces_files() {
    let big_run = vec![0u8; 70000];
    let mixed: Vec<u8> = (0..5000u32).map(|i| (i / 7) as u8).collect();
    let files: [(&[u8], &[u8]); 5] = [
        (b"empty", b""),
        (b"dir/sub/run.bin", &big_run),
        (b"dir/mixed", &mixed),
        (b"..hidden/x", b"abc"),
        (b"last", b"\n\n\n"),
    ];
    let out = extractor(build(&files)).extract().unwrap();
    assert_eq!(out.len(), files.len());
    for (got, (name, data)) in out.iter().zip(files.iter()) {
        assert_eq!(got.name, name.to_vec());
        assert_eq!(got.data, data.to_vec());
    }
}

#[test]
fn empty_archive() {
    let out = extractor(build(&[])).extract().unwrap();
    assert!(out.is_empty());
}

#[test]
fn truncated_archive_header_is_a_format_error() {
    let full = build(&[(b"a", b"aaaa")]);
    for cut in 0..20 {
        let r = extractor(full[..cut].to_vec()).extract();
        assert_eq!(r, Err(ArchivalError::TruncatedHeader));
        assert_eq!(r.unwrap_err().kind(), ErrorKind::Format);
    }
}

#[test]
fn truncated_file_header_is_a_format_error() {
    let full = build(&[(b"a", b"aaaa")]);
    let header_len = ArchiveHeader(1, 0, false).to_bytes().len();
    let r = extractor(full[..header_len + 12].to_vec()).extract();
    assert_eq!(r, Err(ArchivalError::TruncatedHeader));
}

#[test]
fn truncated_payload_is_refused() {
    let full = build(&[(b"a", b"abcdef")]);
    let r = extractor(full[..full.len() - 1].to_vec()).extract();
    assert_eq!(r, Err(ArchivalError::TruncatedPayload));
}

#[test]
fn count_mismatch_is_refused() {
    let mut more = build(&[(b"a", b"abc")]);
    more.extend(b"\nname:b\nmethod:0\ncompressed:1\ndecompressed:1\nz");
    assert_eq!(extractor(more).extract(), Err(ArchivalError::TrailingData));
    let fewer = b"total:2\nversion:0\nencrypted:false\nname:a\nmethod:0\ncompressed:1\ndecompressed:1\nz\n".to_vec();
    assert_eq!(extractor(fewer).extract(), Err(ArchivalError::TruncatedHeader));
}

#[test]
fn malformed_header_field_is_refused() {
    let bad = b"total:one\nversion:0\nencrypted:false\n".to_vec();
    assert_eq!(extractor(bad).extract(), Err(ArchivalError::MalformedField));
}

#[test]
fn unsafe_names_are_refused() {
    let mut a = adder(&[(b"bad\r", b"x")]);
    assert_eq!(a.archive_file(&b"bad\r".to_vec(), b"x".to_vec()), Err(ArchivalError::UnsafePath));
    assert!(!is_safe_name(&b"line\nbreak".to_vec()));
    for name in [
        &b"/etc/passwd"[..],
        b"../up",
        b"a/../../b",
        b"a/..",
        b"",
        b"C:/x",
        b"C:x",
        b"\\x",
        b"..\\x",
        b"a\\..\\..\\b",
        b"a\\..",
    ] {
        assert!(!is_safe_name(&name.to_vec()));
        let mut a = adder(&[(name, b"x")]);
        assert_eq!(a.archive_file(&name.to_vec(), b"x".to_vec()), Err(ArchivalError::UnsafePath));
        let mut archive = b"total:1\nversion:0\nencrypted:false\nname:".to_vec();
        archive.extend(name);
        archive.extend(b"\nmethod:0\ncompressed:1\ndecompressed:1\nx");
        assert_eq!(extractor(archive).extract(), Err(ArchivalError::UnsafePath));
    }
    assert!(is_safe_name(&b"a/..b/c..".to_vec()));
}

#[test]
fn malformed_payload_is_refused() {
    let archive = b"total:1\nversion:0\nencrypted:false\nname:a\nmethod:128\ncompressed:3\ndecompressed:3\n\x03ab".to_vec();
    assert_eq!(extractor(archive).extract(), Err(ArchivalError::MalformedPayload));
    let archive = b"total:1\nversion:0\nencrypted:false\nname:a\nmethod:128\ncompressed:2\ndecompressed:4\n\x03a".to_vec();
    assert_eq!(extractor(archive).extract(), Err(ArchivalError::MalformedPayload));
}

#[test]
fn missing_command_parts_are_configuration_errors() {
    let index = || ArchiveIndexer::new(b"in".to_vec());
    let mut c = command(Mode::Add);
    c.mode = None;
    assert_eq!(Archiver::new(c, index()).err(), Some(ArchivalError::MissingMode));
    assert_eq!(ArchivalError::MissingMode.kind(), ErrorKind::Configuration);
    assert_eq!(ArchivalError::UnsafePath.kind(), ErrorKind::PathSafety);
    assert_eq!(ArchivalError::Io("disk".to_owned()).kind(), ErrorKind::Io);
    let mut c = command(Mode::Add);
    c.input = None;
    assert_eq!(Archiver::new(c, index()).err(), Some(ArchivalError::MissingInput));
    let mut c = command(Mode::Add);
    c.output = None;
    assert_eq!(Archiver::new(c, index()).err(), Some(ArchivalError::MissingOutput));
}

#[test]
fn buffer_only_grows() {
    let mut index = ArchiveIndexer::new(b"in".to_vec());
    index.index_files(
        vec![b"a".to_vec(), b"b".to_vec(), b"c".to_vec()],
        vec![1, 600 * 1024 * 1024, 1],
    );
    let mut a = Archiver::new(command(Mode::Add), index).unwrap();
    assert_eq!(a.update_buffer_size(0), Ok(true));
    assert_eq!(a.buffer_size, 256 * 1024);
    assert_eq!(a.update_buffer_size(1), Ok(true));
    assert_eq!(a.buffer_size, 8 * 1024 * 1024);
    assert_eq!(a.update_buffer_size(2), Ok(false));
    assert_eq!(a.buffer_size, 8 * 1024 * 1024);
    assert_eq!(a.update_buffer_size(3), Err(ArchivalError::MissingRange));
    assert_eq!(a.get_file_range(2).unwrap().range, (2, 3));
}

#[test]
fn progress_counters_advance() {
    let mut a = adder(&[(b"a", b"aaaa"), (b"b", b"bc")]);
    a.archive_file(&b"a".to_vec(), b"aaaa".to_vec()).unwrap();
    assert_eq!(a.files_processed, 1);
    assert_eq!(a.files_compressed, 1);
    assert_eq!(a.bytes_processed, 2);
    let last = a.archive_file(&b"b".to_vec(), b"bc".to_vec()).unwrap();
    assert_eq!(last.last(), Some(&b'c'));
    assert_eq!(a.files_processed, 2);
    assert_eq!(a.files_compressed, 1);
}

#[test]
fn large_files_are_streamed_as_stored() {
    let mut a = adder(&[(b"big", b""), (b"small", b"")]);
    let (header, newline) = a.begin_stored_file(&b"big".to_vec(), 1 << 30).unwrap();
    assert_eq!(header, b"name:big\nmethod:0\ncompressed:1073741824\ndecompressed:1073741824\n".to_vec());
    assert!(newline);
    assert_eq!(a.files_processed, 1);
    assert_eq!(a.bytes_processed, 1 << 30);
    let (_, newline) = a.begin_stored_file(&b"small".to_vec(), 1 << 30).unwrap();
    assert!(!newline);
    assert_eq!(
        a.begin_stored_file(&b"../x".to_vec(), 1 << 30),
        Err(ArchivalError::UnsafePath)
    );
}

#[test]
fn progress_figures() {
    let mut a = adder(&[(b"a", b"aaaa"), (b"b", b"bcdefgh")]);
    a.total_bytes = 8;
    a.bytes_processed = 2;
    assert_eq!(a.get_progress_percentage(), Some(25));
    assert_eq!(a.get_current_speed(0), None);
    assert_eq!(a.get_current_speed(500), Some(4));
    assert_eq!(a.get_estimated_time_remaining(0), None);
    assert_eq!(a.get_estimated_time_remaining(4), Some(1));
    a.bytes_processed = 9;
    assert_eq!(a.get_estimated_time_remaining(4), Some(0));
    a.total_bytes = 0;
    assert_eq!(a.get_progress_percentage(), None);
}

#[test]
fn build_archive_gives_the_whole_archive() {
    let distinct: Vec<u8> = (0u8..10).collect();
    let files: [(&[u8], &[u8]); 2] = [(b"a.txt", b"xxxxxxxxxx"), (b"b.bin", &distinct)];
    let expected = build(&files);
    let mut a = adder(&files);
    let whole = a.build_archive(files.iter().map(|f| f.1.to_vec()).collect()).unwrap();
    assert_eq!(whole, expected);
    let out = extractor(whole).extract().unwrap();
    assert_eq!(out.len(), 2);
    assert_eq!(out[1].data, distinct);

    let mut bad = adder(&[(b"ok", b"1"), (b"C:/evil", b"2")]);
    assert_eq!(bad.build_archive(vec![b"1".to_vec(), b"2".to_vec()]), Err(ArchivalError::UnsafePath));
}
