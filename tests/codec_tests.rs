use ark::codec::Compressor;
use ark::error::ArchivalError;

const STORED: u8 = 0;
const RLE1: u8 = 0x80;
const RLE2: u8 = 0x40;

fn round_trip(data: &[u8], method: u8) -> Vec<u8> {
    let packed = Compressor::new(data.to_vec(), method).compress();
    Compressor::new(packed, method).decompress().unwrap()
}

fn samples() -> Vec<Vec<u8>> {
    vec![
        vec![],
        vec![7],
        vec![b'q'; 1000],
        (0u8..=255).collect(),
        vec![1u8; 300],
        vec![9u8; 70000],
        [vec![1u8; 256], vec![2u8; 3], vec![1u8; 65536], vec![3u8]].concat(),
    ]
}

#[test]
fn round_trip_stored() {
    for s in samples() {
        assert_eq!(round_trip(&s, STORED), s);
    }
}

#[test]
fn round_trip_rle1() {
    for s in samples() {
        assert_eq!(round_trip(&s, RLE1), s);
    }
}

#[test]
fn round_trip_rle2() {
    for s in samples() {
        assert_eq!(round_trip(&s, RLE2), s);
    }
}

#[test]
fn round_trip_with_reserved_bits() {
    for s in samples() {
        assert_eq!(round_trip(&s, 0x3f), s);
        assert_eq!(round_trip(&s, RLE1 | 0x01), s);
        assert_eq!(round_trip(&s, RLE1 | RLE2), s);
    }
}

#[test]
fn run_of_300_splits_into_two_records() {
    let out = Compressor::new(vec![b'v'; 300], RLE1).compress();
    assert_eq!(out, vec![255, b'v', 45, b'v']);
}

#[test]
fn rle1_output_is_two_bytes_per_record() {
    // runs of 3, 1 and 600 bytes: 1 + 1 + 3 records
    let data = [vec![4u8; 3], vec![5u8], vec![6u8; 600]].concat();
    let out = Compressor::new(data, RLE1).compress();
    assert_eq!(out, vec![3, 4, 1, 5, 255, 6, 255, 6, 90, 6]);
    assert_eq!(out.len(), 2 * 5);
}

#[test]
fn rle2_counts_are_big_endian_and_split_at_65535() {
    let out = Compressor::new(vec![b'z'; 70000], RLE2).compress();
    assert_eq!(out, vec![255, 255, b'z', 0x11, 0x71, b'z']);
}

#[test]
fn rle2_supersedes_rle1() {
    let out = Compressor::new(vec![1, 1, 1], RLE1 | RLE2).compress();
    assert_eq!(out, vec![0, 3, 1]);
}

#[test]
fn stored_and_reserved_bits_are_identity() {
    let data = vec![1, 1, 2, 3, 3, 3];
    assert_eq!(Compressor::new(data.clone(), STORED).compress(), data);
    assert_eq!(Compressor::new(data.clone(), 0x01).compress(), data);
    assert_eq!(Compressor::new(data.clone(), 0x3e).decompress(), Ok(data));
}

#[test]
fn empty_input_gives_empty_output() {
    for m in [STORED, RLE1, RLE2] {
        assert_eq!(Compressor::new(vec![], m).compress(), Vec::<u8>::new());
        assert_eq!(Compressor::new(vec![], m).decompress(), Ok(vec![]));
    }
}

#[test]
fn dangling_byte_is_a_decode_error() {
    assert_eq!(
        Compressor::new(vec![2, b'a', 3], RLE1).decompress(),
        Err(ArchivalError::MalformedPayload)
    );
    assert_eq!(
        Compressor::new(vec![0, 2, b'a', 0], RLE2).decompress(),
        Err(ArchivalError::MalformedPayload)
    );
}

#[test]
fn decoding_expands_records() {
    let mut c = Compressor::new(vec![3, b'a', 1, b'b'], RLE1);
    assert_eq!(c.decompress(), Ok(b"aaab".to_vec()));
    assert_eq!(c.data, b"aaab".to_vec());
    let mut c = Compressor::new(vec![1, 0, b'c'], RLE2);
    c.decompress_rle_two_byte().unwrap();
    assert_eq!(c.data, vec![b'c'; 256]);
}

#[test]
fn rle_methods_replace_the_data() {
    let mut c = Compressor::new(vec![8, 8, 9], 0);
    c.rle();
    assert_eq!(c.data, vec![2, 8, 1, 9]);
    c.decompress_rle().unwrap();
    assert_eq!(c.data, vec![8, 8, 9]);
    c.rle_two_byte();
    assert_eq!(c.data, vec![0, 2, 8, 0, 1, 9]);
}
