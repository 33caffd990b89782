use packed_features::error::Error;
use packed_features::wire::{
    get_blob, get_byte, get_flag, get_varint, get_word, put_blob, put_flag, put_varint, put_word,
};

fn varint(v: u64) -> Vec<u8> {
    let mut out: Vec<u8> = Vec::new();
    put_varint(&mut out, v);
    out
}

#[test]
fn varint_exact_bytes() {
    assert_eq!(varint(0), vec![0x00]);
    assert_eq!(varint(1), vec![0x01]);
    assert_eq!(varint(127), vec![0x7f]);
    assert_eq!(varint(128), vec![0x80, 0x01]);
    assert_eq!(varint(300), vec![0xac, 0x02]);
    assert_eq!(varint(16384), vec![0x80, 0x80, 0x01]);
    assert_eq!(
        varint(u64::MAX),
        vec![0xff, 0xff, 0xff, 0xff, 0xff, 0xff, 0xff, 0xff, 0xff, 0x01]
    );
}

#[test]
fn varint_appends() {
    let mut out: Vec<u8> = vec![9, 9];
    put_varint(&mut out, 300);
    assert_eq!(out, vec![9, 9, 0xac, 0x02]);
}

#[test]
fn varint_round_trip() {
    for v in [0u64, 1, 127, 128, 255, 256, 300, 65535, 1 << 32, (1 << 63) - 1, 1 << 63, u64::MAX] {
        let bytes = varint(v);
        assert_eq!(get_varint(&bytes, 0, bytes.len()), Ok((v, bytes.len())));
    }
}

#[test]
fn varint_reads_at_position_and_stops() {
    let bytes: Vec<u8> = vec![7, 0xac, 0x02, 5];
    assert_eq!(get_varint(&bytes, 1, bytes.len()), Ok((300, 3)));
    assert_eq!(get_varint(&bytes, 3, bytes.len()), Ok((5, 4)));
}

#[test]
fn varint_cut_short_is_truncated() {
    let bytes: Vec<u8> = vec![0x80, 0x80];
    assert_eq!(get_varint(&bytes, 0, bytes.len()), Err(Error::TruncatedStream));
    assert_eq!(get_varint(&bytes, 2, bytes.len()), Err(Error::TruncatedStream));
    assert_eq!(get_varint(&[0xac, 0x02], 0, 1), Err(Error::TruncatedStream));
}

#[test]
fn varint_too_long_or_too_large_is_malformed() {
    let eleven: Vec<u8> = vec![0x80, 0x80, 0x80, 0x80, 0x80, 0x80, 0x80, 0x80, 0x80, 0x80, 0x00];
    assert_eq!(get_varint(&eleven, 0, eleven.len()), Err(Error::FormatError));
    let too_large: Vec<u8> = vec![0xff, 0xff, 0xff, 0xff, 0xff, 0xff, 0xff, 0xff, 0xff, 0x02];
    assert_eq!(get_varint(&too_large, 0, too_large.len()), Err(Error::FormatError));
}

#[test]
fn varint_with_padding_is_read() {
    let padded: Vec<u8> = vec![0x81, 0x00];
    assert_eq!(get_varint(&padded, 0, 2), Ok((1, 2)));
}

#[test]
fn word_is_little_endian() {
    let mut out: Vec<u8> = Vec::new();
    put_word(&mut out, 0x0102030405060708);
    assert_eq!(out, vec![8, 7, 6, 5, 4, 3, 2, 1]);
    assert_eq!(get_word(&out, 0, 8), Ok((0x0102030405060708, 8)));
    assert_eq!(get_word(&out, 0, 7), Err(Error::TruncatedStream));
    assert_eq!(get_word(&out, 1, 8), Err(Error::TruncatedStream));
    assert_eq!(get_word(&[], 0, 0), Err(Error::TruncatedStream));
}

#[test]
fn word_of_a_float() {
    let mut out: Vec<u8> = Vec::new();
    put_word(&mut out, 1.0f64.to_bits());
    assert_eq!(out, vec![0, 0, 0, 0, 0, 0, 0xf0, 0x3f]);
    let (bits, _) = get_word(&out, 0, 8).unwrap();
    assert_eq!(f64::from_bits(bits), 1.0);
}

#[test]
fn blob_has_its_length_in_front() {
    let mut out: Vec<u8> = Vec::new();
    put_blob(&mut out, &b"abc".to_vec());
    assert_eq!(out, vec![3, b'a', b'b', b'c']);
    assert_eq!(get_blob(&out, 0, out.len()), Ok((b"abc".to_vec(), 4)));
    let mut empty: Vec<u8> = Vec::new();
    put_blob(&mut empty, &Vec::new());
    assert_eq!(empty, vec![0]);
    assert_eq!(get_blob(&empty, 0, 1), Ok((Vec::new(), 1)));
}

#[test]
fn blob_longer_than_the_bytes_is_truncated() {
    let bytes: Vec<u8> = vec![5, b'a', b'b'];
    assert_eq!(get_blob(&bytes, 0, bytes.len()), Err(Error::TruncatedStream));
    let huge: Vec<u8> = vec![0xff, 0xff, 0xff, 0xff, 0xff, 0xff, 0xff, 0xff, 0xff, 0x01, 1];
    assert_eq!(get_blob(&huge, 0, huge.len()), Err(Error::TruncatedStream));
    assert_eq!(get_blob(&[3, 1, 2, 3], 0, 3), Err(Error::TruncatedStream));
}

#[test]
fn long_blob_round_trip() {
    let data: Vec<u8> = (0..1000u32).map(|i| (i % 251) as u8).collect();
    let mut out: Vec<u8> = Vec::new();
    put_blob(&mut out, &data);
    assert_eq!(&out[..2], &[0xe8u8, 0x07][..]);
    assert_eq!(get_blob(&out, 0, out.len()), Ok((data, 1002)));
}

#[test]
fn flag_is_zero_or_one() {
    let mut out: Vec<u8> = Vec::new();
    put_flag(&mut out, true);
    put_flag(&mut out, false);
    assert_eq!(out, vec![1, 0]);
    assert_eq!(get_flag(&out, 0, 2), Ok((true, 1)));
    assert_eq!(get_flag(&out, 1, 2), Ok((false, 2)));
    assert_eq!(get_flag(&out, 2, 2), Err(Error::TruncatedStream));
    assert_eq!(get_flag(&[2], 0, 1), Err(Error::FormatError));
}

#[test]
fn byte_at_a_position() {
    assert_eq!(get_byte(&[4, 5], 1, 2), Ok((5, 2)));
    assert_eq!(get_byte(&[4, 5], 1, 1), Err(Error::TruncatedStream));
}

#[test]
fn error_names() {
    assert_eq!(Error::FormatError.name(), "FormatError");
    assert_eq!(Error::TruncatedStream.name(), "TruncatedStream");
    assert_eq!(Error::SchemaViolation.name(), "SchemaViolation");
    assert_eq!(Error::IndexUnavailable.name(), "IndexUnavailable");
    assert_eq!(Error::InvalidState.name(), "InvalidState");
}
