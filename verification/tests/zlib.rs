use std::io::Write;

use flate2::write::ZlibEncoder;
use flate2::Compression;
use glyphcull_core::error::ErrorKind;
use glyphcull_core::reader::{adler32, check_inflated, check_payload_crc, crc32, inflate_verified};
use glyphcull_core::reader::seal::check_digest;

/// A zlib stream of `input` at level 9.
fn zlib(input: &[u8]) -> Vec<u8> {
    let mut encoder = ZlibEncoder::new(Vec::new(), Compression::new(9));
    encoder.write_all(input).expect("zlib encode");
    encoder.finish().expect("zlib finish")
}

#[test]
fn crc32_and_adler32_agree_with_the_compiler_streams() {
    let input = b"the quick brown fox jumps over the lazy dog";
    let stream = zlib(input);
    assert_eq!(crc32(input), crc32(input));
    let trailer = stream.get(stream.len() - 4..).expect("trailer");
    let stored_adler = u32::from_be_bytes(trailer.try_into().expect("4 bytes"));
    assert_eq!(stored_adler, adler32(input));
}

#[test]
fn zlib_header_is_verified_explicitly() {
    let mut stream = zlib(b"hello hello hello");
    *stream.first_mut().expect("cmf") = 0x09;
    let err = inflate_verified(&stream, 17, 0).expect_err("bad method");
    assert_eq!(err.kind(), ErrorKind::ZlibHeaderInvalid);

    let mut stream = zlib(b"hello hello hello");
    let flg = stream.get_mut(1).expect("flg");
    *flg ^= 0x01;
    let err = inflate_verified(&stream, 17, 0).expect_err("bad check bits");
    assert_eq!(err.kind(), ErrorKind::ZlibHeaderInvalid);

    let err = inflate_verified(&[0x78], 1, 0).expect_err("no header");
    assert_eq!(err.kind(), ErrorKind::ZlibHeaderInvalid);

    let err = inflate_verified(&[0x78, 0x01, 0x00], 1, 0).expect_err("no trailer");
    assert_eq!(err.kind(), ErrorKind::Truncated);
}

#[test]
fn truncated_zlib_stream_is_rejected() {
    let stream = zlib(b"hello hello hello");
    let truncated = stream.get(..stream.len() - 3).expect("prefix");
    let err = inflate_verified(truncated, 17, 0).expect_err("truncated");
    assert!(
        matches!(
            err.kind(),
            ErrorKind::DecompressMismatch | ErrorKind::ZlibAdlerMismatch | ErrorKind::Truncated
        ),
        "unexpected kind {:?}",
        err.kind()
    );
}

#[test]
fn decoded_length_mismatch_is_rejected() {
    let stream = zlib(b"hello hello hello");
    let err = inflate_verified(&stream, 100, 0).expect_err("too long");
    assert_eq!(err.kind(), ErrorKind::DecompressMismatch);
    let err = inflate_verified(&stream, 3, 0).expect_err("too short");
    assert_eq!(err.kind(), ErrorKind::DecompressMismatch);
}

#[test]
fn corrupted_adler_trailer_is_rejected() {
    let stream = zlib(b"hello hello hello");
    let mut mutated = stream.clone();
    let last = mutated.last_mut().expect("last byte");
    *last ^= 0xff;
    let err = inflate_verified(&mutated, 17, 0).expect_err("corrupt adler");
    assert!(
        matches!(
            err.kind(),
            ErrorKind::DecompressMismatch | ErrorKind::ZlibAdlerMismatch
        ),
        "unexpected kind {:?}",
        err.kind()
    );
}

#[test]
fn bomb_stream_does_not_preallocate_decoded_len() {
    let stream = zlib(b"tiny");
    let err = inflate_verified(&stream, u32::MAX as u64 / 2, 0).expect_err("bomb");
    assert_eq!(err.kind(), ErrorKind::DecompressMismatch);
}

#[test]
fn a_good_stream_inflates_to_its_input() {
    let stream = zlib(b"hello hello hello");
    let out = inflate_verified(&stream, 17, 3).expect("inflate");
    assert_eq!(out, b"hello hello hello".to_vec());
}

#[test]
fn inflate_errors_are_scoped_to_the_section() {
    let err = inflate_verified(&[0x78], 1, 4).expect_err("no header");
    assert_eq!(err.section, Some(4));
    assert!(err.message.ends_with(" (section 4)"));
}

#[test]
fn adler32_known_vectors() {
    assert_eq!(adler32(b""), 1);
    assert_eq!(adler32(b"Wikipedia"), 0x11E6_0398);
}

#[test]
fn crc32_known_vector() {
    assert_eq!(crc32(b"123456789"), 0xCBF4_3926);
    assert_eq!(crc32(b""), 0);
}

#[test]
fn a_decoder_output_is_checked_against_length_and_trailer() {
    let input = b"hello hello hello";
    let stream = zlib(input);
    let ok = check_inflated(&stream, 17, Some(input.to_vec()), 2).expect("matching output");
    assert_eq!(ok, input.to_vec());
    let short = check_inflated(&stream, 17, Some(b"hello".to_vec()), 2).err().expect("short");
    assert_eq!(short.kind, ErrorKind::DecompressMismatch);
    assert_eq!(short.section, Some(2));
    let other = check_inflated(&stream, 17, Some(b"jello hello hello".to_vec()), 2).err().expect("other bytes");
    assert_eq!(other.kind, ErrorKind::ZlibAdlerMismatch);
    let failed = check_inflated(&stream, 17, None, 2).err().expect("decoder failed");
    assert_eq!(failed.kind, ErrorKind::DecompressMismatch);
}

#[test]
fn checksums_and_digests_are_compared_exactly() {
    let data = b"payload".to_vec();
    let crc = crc32(&data);
    assert_eq!(check_payload_crc(data.clone(), crc, crc, 1), Ok(data.clone()));
    let err = check_payload_crc(data, crc, crc ^ 1, 1).err().expect("mismatch");
    assert_eq!(err.kind, ErrorKind::CrcMismatch);
    assert_eq!(err.section, Some(1));
    let a = [7u8; 32];
    let mut b = a;
    assert!(check_digest(&a, &b, "x").is_ok());
    b[31] = 0;
    let e = check_digest(&a, &b, "digest differs").err().expect("mismatch");
    assert_eq!(e.kind, ErrorKind::SealMismatch);
    assert_eq!(e.message, "digest differs");
}
