use ark::decimal::{push_decimal, read_decimal};
use ark::header::{parse_archive_header, parse_file_header, read_header_lines, read_line, ArchiveHeader, FileHeader};

#[test]
fn archive_header_bytes() {
    assert_eq!(ArchiveHeader(2, 0, false).to_bytes(), b"total:2\nversion:0\nencrypted:false\n".to_vec());
    assert_eq!(ArchiveHeader(10, 3, true).to_bytes(), b"total:10\nversion:3\nencrypted:true\n".to_vec());
}

#[test]
fn file_header_bytes() {
    let h = FileHeader(b"d/a.txt".to_vec(), 128, 2, 10);
    assert_eq!(h.to_bytes(), b"name:d/a.txt\nmethod:128\ncompressed:2\ndecompressed:10\n".to_vec());
}

#[test]
fn headers_read_back() {
    let bytes = FileHeader(b"x:y".to_vec(), 64, 18446744073709551615, 0).to_bytes();
    let (lines, next) = read_header_lines(&bytes, 0, 4).unwrap();
    assert_eq!(next, bytes.len());
    assert_eq!(parse_file_header(&lines), Some(FileHeader(b"x:y".to_vec(), 64, u64::MAX, 0)));
    let bytes = ArchiveHeader(7, 1, false).to_bytes();
    let (lines, _) = read_header_lines(&bytes, 0, 3).unwrap();
    assert_eq!(parse_archive_header(&lines), Some(ArchiveHeader(7, 1, false)));
}

#[test]
fn carriage_returns_are_trimmed() {
    let bytes = b"total:1\r\nversion:0\r\nencrypted:false\r\n".to_vec();
    let (lines, _) = read_header_lines(&bytes, 0, 3).unwrap();
    assert_eq!(parse_archive_header(&lines), Some(ArchiveHeader(1, 0, false)));
}

#[test]
fn lines_need_a_newline() {
    assert_eq!(read_line(&b"ab\ncd".to_vec(), 0), Some((b"ab".to_vec(), 3)));
    assert_eq!(read_line(&b"ab\ncd".to_vec(), 3), None);
    assert_eq!(read_header_lines(&b"total:1\nversion:0\n".to_vec(), 0, 3), None);
}

#[test]
fn bad_fields_are_refused() {
    let parse = |s: &[u8]| {
        let (lines, _) = read_header_lines(&s.to_vec(), 0, 3).unwrap();
        parse_archive_header(&lines)
    };
    assert_eq!(parse(b"total:x\nversion:0\nencrypted:false\n"), None);
    assert_eq!(parse(b"total:1\nversion:0\nencrypted:maybe\n"), None);
    assert_eq!(parse(b"count:1\nversion:0\nencrypted:false\n"), None);
    assert_eq!(parse(b"total:\nversion:0\nencrypted:false\n"), None);
    assert_eq!(parse(b"total:18446744073709551616\nversion:0\nencrypted:false\n"), None);
    let (lines, _) = read_header_lines(&b"name:a\nmethod:256\ncompressed:1\ndecompressed:1\n".to_vec(), 0, 4).unwrap();
    assert_eq!(parse_file_header(&lines), None);
}

#[test]
fn decimals() {
    let mut out = b"n=".to_vec();
    push_decimal(&mut out, 1234567890);
    assert_eq!(out, b"n=1234567890".to_vec());
    assert_eq!(read_decimal(&b"0042".to_vec()), Some(42));
    assert_eq!(read_decimal(&b"18446744073709551615".to_vec()), Some(u64::MAX));
    assert_eq!(read_decimal(&b"18446744073709551616".to_vec()), None);
    assert_eq!(read_decimal(&b"".to_vec()), None);
    assert_eq!(read_decimal(&b"1a".to_vec()), None);
}
