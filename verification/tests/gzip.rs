use my_gzip::decompress::decompress;
use my_gzip::decompress::decompress_block;
use my_gzip::decompress::huffman::read_number_le;
use my_gzip::error::Error;
use my_gzip::reader::Reader;
use my_gzip::writer::Writer;
use std::io::Write;

/// Wraps a raw DEFLATE stream in a minimal gzip member. The CRC32 field
/// is left zero: the decoder does not verify it.
fn gz(deflate: &[u8], isize_field: u32) -> Vec<u8> {
    let mut v = vec![0x1f, 0x8b, 0x08, 0x00, 0x00, 0x00, 0x00, 0x00, 0x00, 0x03];
    v.extend_from_slice(deflate);
    v.extend_from_slice(&[0x00, 0x00, 0x00, 0x00]);
    v.extend_from_slice(&isize_field.to_le_bytes());
    v
}

#[test]
fn empty_stored_block_decodes_to_empty() {
    // A final stored block with LEN = 0 decodes to empty output.
    let input = gz(&[0x01, 0x00, 0x00, 0xff, 0xff], 0);
    let (data, _hdr) = decompress(input).unwrap();
    assert_eq!(data, b"");
}

#[test]
fn empty_fixed_block_decodes_to_empty() {
    // The two-byte `03 00` DEFLATE stream: a final fixed block holding
    // only the end-of-block code.
    let input = gz(&[0x03, 0x00], 0);
    let (data, _hdr) = decompress(input).unwrap();
    assert_eq!(data, b"");
}

#[test]
fn single_literal() {
    let input = gz(&[0x4b, 0x04, 0x00], 1);
    let (data, _hdr) = decompress(input).unwrap();
    assert_eq!(data, b"a");
}

#[test]
fn short_run_uses_overlapping_backreference() {
    // One literal `a` followed by a length 9, distance 1 pair: the copy
    // overlaps its own output and repeats the byte.
    let input = gz(&[0x4b, 0x84, 0x03, 0x00], 10);
    let (data, _hdr) = decompress(input).unwrap();
    assert_eq!(data, b"aaaaaaaaaa");
}

#[test]
fn cross_block_backreference() {
    // First block (not final) emits `abc`; the second block's
    // back-reference reaches into the first block's output.
    let input = gz(&[0x4a, 0x4c, 0x4a, 0x06, 0x0c, 0x88, 0x00], 6);
    let (data, _hdr) = decompress(input).unwrap();
    assert_eq!(data, b"abcabc");
}

#[test]
fn header_optional_fields_are_decoded() {
    // FHCRC, FNAME and FCOMMENT set; the name holds latin-1 byte 0xE9,
    // which must decode to U+00E9.
    let mut input = vec![0x1f, 0x8b, 0x08, 0x1a, 0x00, 0x00, 0x00, 0x00, 0x00, 0x03];
    input.extend_from_slice(&[0xe9, 0x00]);
    input.extend_from_slice(b"com\x00");
    input.extend_from_slice(&[0x00, 0x00]);
    input.extend_from_slice(&[0x03, 0x00]);
    input.extend_from_slice(&[0x00, 0x00, 0x00, 0x00, 0x00, 0x00, 0x00, 0x00]);
    let (data, hdr) = decompress(input).unwrap();
    assert_eq!(data, b"");
    assert_eq!(hdr.flags, 0x1a);
    assert_eq!(hdr.name.as_deref(), Some("\u{e9}"));
    assert_eq!(hdr.comment.as_deref(), Some("com"));
    assert_eq!(hdr.header_crc, Some(0));
}

#[test]
fn isize_mismatch_is_reported() {
    let input = gz(&[0x4b, 0x04, 0x00], 2);
    assert_eq!(decompress(input).unwrap_err(), Error::SizeMismatch);
}

#[test]
fn reserved_block_type_is_reported() {
    // Block type bits `11`.
    let input = gz(&[0x07], 0);
    assert_eq!(decompress(input).unwrap_err(), Error::ReservedBlockType);
}

#[test]
fn bad_magic_is_reported() {
    assert_eq!(decompress(vec![0x1f, 0x00]).unwrap_err(), Error::BadMagic);
    assert_eq!(decompress(vec![]).unwrap_err(), Error::BadMagic);
    assert_eq!(decompress(vec![0x1f]).unwrap_err(), Error::BadMagic);
}

#[test]
fn unsupported_method_is_reported() {
    let input = vec![0x1f, 0x8b, 0x07, 0x00];
    assert_eq!(decompress(input).unwrap_err(), Error::UnsupportedMethod);
}

#[test]
fn truncated_stream_is_reported() {
    // The fixed block header is present but the end-of-block code is cut
    // short.
    let mut input = vec![0x1f, 0x8b, 0x08, 0x00, 0x00, 0x00, 0x00, 0x00, 0x00, 0x03];
    input.push(0x03);
    assert_eq!(decompress(input).unwrap_err(), Error::UnexpectedEof);
}

#[test]
fn malformed_stored_block_is_reported() {
    // NLEN is not the one's complement of LEN.
    let input = gz(&[0x01, 0x01, 0x00, 0x00, 0x00], 1);
    assert_eq!(decompress(input).unwrap_err(), Error::MalformedStoredBlock);
}

#[test]
fn invalid_distance_code_is_reported() {
    // A fixed block asking for distance code 30, which RFC 1951 reserves.
    let input = gz(&[0x03, 0x3e], 3);
    assert_eq!(decompress(input).unwrap_err(), Error::InvalidCode);
}

#[test]
fn backreference_into_empty_window_is_reported() {
    // A length/distance pair before any output exists.
    let input = gz(&[0x03, 0x02], 3);
    assert_eq!(decompress(input).unwrap_err(), Error::InvalidBackreference);
}

#[test]
fn oversubscribed_code_table_is_reported() {
    // A dynamic block whose code-length code assigns four codes of
    // length one.
    let input = gz(&[0x05, 0x00, 0x92, 0x04], 0);
    assert_eq!(decompress(input).unwrap_err(), Error::MalformedCodeTable);
}

#[test]
fn stored_block_with_payload() {
    let input = gz(&[0x01, 0x02, 0x00, 0xfd, 0xff, b'h', b'i'], 2);
    let (data, _hdr) = decompress(input).unwrap();
    assert_eq!(data, b"hi");
}

#[test]
fn block_dispatcher_reports_stored_block() {
    let mut reader = Reader::new(vec![0x01, 0x02, 0x00, 0xfd, 0xff, b'h', b'i']);
    let mut writer = Writer::new(32768);
    let (n, final_block) = decompress_block(&mut reader, &mut writer).unwrap();
    assert_eq!(n, 2);
    assert!(final_block);
}

#[test]
fn numbers_are_read_least_significant_bit_first() {
    let mut reader = Reader::new(vec![0b1011_0100, 0b0000_0001]);
    assert_eq!(read_number_le(&mut reader, 3).unwrap(), 0b100);
    assert_eq!(read_number_le(&mut reader, 5).unwrap(), 0b10110);
    assert_eq!(read_number_le(&mut reader, 8).unwrap(), 1);
    assert_eq!(read_number_le(&mut reader, 1).unwrap_err(), Error::UnexpectedEof);
}

#[test]
fn writer_emits_every_admitted_byte_in_order() {
    let mut w = Writer::new(4);
    w.push(1).unwrap();
    w.push(2).unwrap();
    w.push(3).unwrap();
    // distance 2, length 4: repeats the last two bytes, reading its own
    // output as it goes
    assert_eq!(w.copy_within(2, 4).unwrap(), 4);
    assert_eq!(w.copy_within(0, 1).unwrap_err(), Error::InvalidBackreference);
    let mut r = Reader::new(vec![9, 8]);
    w.copy_from(&mut r, 2).unwrap();
    w.flush().unwrap();
    assert_eq!(w.output_len(), 9);
    assert_eq!(w.into_output(), vec![1, 2, 3, 2, 3, 2, 3, 9, 8]);
}

fn roundtrip(data: &[u8], level: u32) {
    let mut enc = flate2::write::GzEncoder::new(Vec::new(), flate2::Compression::new(level));
    enc.write_all(data).unwrap();
    let compressed = enc.finish().unwrap();
    let (out, _hdr) = decompress(compressed).unwrap();
    assert_eq!(out.as_slice(), data);
}

#[test]
fn roundtrip_small_inputs() {
    for level in [0, 1, 6, 9] {
        roundtrip(b"", level);
        roundtrip(b"a", level);
        roundtrip(b"aaaaaaaaaa", level);
        roundtrip(b"the quick brown fox jumps over the lazy dog", level);
    }
}

#[test]
fn roundtrip_repetitive_text() {
    let mut data = Vec::new();
    while data.len() < 100_000 {
        data.extend_from_slice(b"round and round the rugged rock the ragged rascal ran. ");
    }
    for level in [0, 1, 6, 9] {
        roundtrip(&data, level);
    }
}

#[test]
fn roundtrip_incompressible_bytes() {
    // A fixed linear-congruential stream: poorly compressible, so back
    // references span the whole window.
    let mut state: u32 = 0x1234_5678;
    let mut data = Vec::new();
    for _ in 0..80_000 {
        state = state.wrapping_mul(1_664_525).wrapping_add(1_013_904_223);
        data.push((state >> 24) as u8);
    }
    for level in [0, 6] {
        roundtrip(&data, level);
    }
}
