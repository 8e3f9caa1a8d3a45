use std::io::Write;

use zune_inflate::adler::calc_adler_hash;
use zune_inflate::DeflateDecoder;
use zune_inflate::ZlibDecodeErrors;

fn zlib_encode(data: &[u8], level: u32) -> Vec<u8> {
    let mut encoder = flate2::write::ZlibEncoder::new(Vec::new(), flate2::Compression::new(level));
    encoder.write_all(data).unwrap();
    encoder.finish().unwrap()
}

fn deflate_encode(data: &[u8], level: u32) -> Vec<u8> {
    let mut encoder =
        flate2::write::DeflateEncoder::new(Vec::new(), flate2::Compression::new(level));
    encoder.write_all(data).unwrap();
    encoder.finish().unwrap()
}

fn decode_zlib(data: &[u8]) -> Result<Vec<u8>, ZlibDecodeErrors> {
    DeflateDecoder::new(data).decode_zlib()
}

fn decode_deflate(data: &[u8]) -> Result<Vec<u8>, ZlibDecodeErrors> {
    DeflateDecoder::new(data).decode_deflate()
}

/// A small deterministic generator of bytes.
fn noise(len: usize, seed: u64) -> Vec<u8> {
    let mut state = seed.wrapping_mul(6364136223846793005).wrapping_add(1442695040888963407);
    let mut out = Vec::with_capacity(len);
    for _ in 0..len {
        state = state.wrapping_mul(6364136223846793005).wrapping_add(1442695040888963407);
        out.push((state >> 56) as u8);
    }
    out
}

fn text(len: usize) -> Vec<u8> {
    let words: [&str; 8] =
        ["the ", "quick ", "brown ", "fox ", "jumps ", "over ", "lazy ", "dogs\n"];
    let mut out = Vec::with_capacity(len + 8);
    let mut i = 0usize;
    while out.len() < len {
        out.extend_from_slice(words[(i * 7 + i / 3) % 8].as_bytes());
        i += 1;
    }
    out.truncate(len);
    out
}

/// Rows that look like filtered image scanlines: a filter byte and slowly
/// changing samples.
fn scanlines(rows: usize, width: usize) -> Vec<u8> {
    let mut out = Vec::with_capacity(rows * (width + 1));
    for y in 0..rows {
        out.push((y % 5) as u8);
        for x in 0..width {
            out.push(((x / 3 + y * 2) % 251) as u8);
        }
    }
    out
}

fn round_trip(data: &[u8]) {
    for level in [0u32, 1, 6, 9] {
        let wrapped = zlib_encode(data, level);
        assert_eq!(decode_zlib(&wrapped).as_deref(), Ok(data), "zlib level {}", level);
        let raw = deflate_encode(data, level);
        assert_eq!(decode_deflate(&raw).as_deref(), Ok(data), "deflate level {}", level);
    }
}

#[test]
fn round_trip_empty() {
    round_trip(&[]);
}

#[test]
fn round_trip_small_inputs() {
    for len in 1..40usize {
        round_trip(&noise(len, len as u64));
        round_trip(&text(len));
        round_trip(&vec![0u8; len]);
    }
}

#[test]
fn round_trip_random() {
    round_trip(&noise(70_000, 1));
    round_trip(&noise(4096 + 17, 2));
}

#[test]
fn round_trip_text() {
    round_trip(&text(200_000));
}

#[test]
fn round_trip_zero_filled() {
    round_trip(&vec![0u8; 300_000]);
}

#[test]
fn round_trip_scanlines() {
    round_trip(&scanlines(200, 600));
}

#[test]
fn round_trip_one_mebibyte() {
    let mut data = text(600_000);
    data.extend_from_slice(&noise(200_000, 9));
    data.extend_from_slice(&vec![7u8; 248_576]);
    assert_eq!(data.len(), 1_048_576);
    let wrapped = zlib_encode(&data, 6);
    assert_eq!(decode_zlib(&wrapped), Ok(data));
}

#[test]
fn round_trip_skewed_alphabet() {
    // symbol frequencies that fall off fast make long codewords, which need subtables
    let mut data = Vec::new();
    let mut run = 40_000usize;
    let mut value = 0u8;
    while run > 0 {
        for _ in 0..run {
            data.push(value);
        }
        value = value.wrapping_add(1);
        run = run * 3 / 5;
    }
    let shuffled: Vec<u8> = {
        let mut order = noise(data.len(), 5);
        let mut mixed = data.clone();
        let n = mixed.len();
        for i in 0..n {
            let j = (order[i] as usize * 65_537 + i * 31) % n;
            mixed.swap(i, j);
            order[i] = 0;
        }
        mixed
    };
    round_trip(&shuffled);
}

#[test]
fn adler32_of_known_strings() {
    assert_eq!(calc_adler_hash(b"Wikipedia"), 0x11E6_0398);
    assert_eq!(calc_adler_hash(b""), 0x0000_0001);
    assert_eq!(calc_adler_hash(&[0x41]), 0x0042_0042);
}

#[test]
fn adler32_wraps_at_the_modulus() {
    // 65521 bytes of 0xFF: both sums pass the modulus many times
    let data = vec![0xFFu8; 65_521];
    let mut s1: u64 = 1;
    let mut s2: u64 = 0;
    for b in &data {
        s1 = (s1 + *b as u64) % 65_521;
        s2 = (s2 + s1) % 65_521;
    }
    assert_eq!(calc_adler_hash(&data) as u64, (s2 << 16) | s1);
}

#[test]
fn empty_stored_block_zlib_wrapped() {
    let input = [0x78, 0x01, 0x01, 0x00, 0x00, 0xFF, 0xFF, 0x00, 0x00, 0x00, 0x01];
    assert_eq!(decode_zlib(&input), Ok(Vec::new()));
}

#[test]
fn single_byte_stored() {
    let input = [0x78, 0x01, 0x01, 0x01, 0x00, 0xFE, 0xFF, 0x41, 0x00, 0x42, 0x00, 0x42];
    assert_eq!(decode_zlib(&input), Ok(vec![0x41]));
}

#[test]
fn static_huffman_hello() {
    let raw = [0xF3, 0x48, 0xCD, 0xC9, 0xC9, 0x07, 0x00];
    assert_eq!(decode_deflate(&raw), Ok(vec![0x48, 0x65, 0x6C, 0x6C, 0x6F]));
    let wrapped = [0x78, 0x9C, 0xF3, 0x48, 0xCD, 0xC9, 0xC9, 0x07, 0x00, 0x05, 0x8C, 0x01, 0xF5];
    assert_eq!(decode_zlib(&wrapped), Ok(b"Hello".to_vec()));
}

#[test]
fn run_at_offset_one() {
    // literal 'a', then a match of length 10 at offset 1, fixed codes
    let raw = [0x4B, 0x44, 0x00, 0x00];
    assert_eq!(decode_deflate(&raw), Ok(vec![0x61; 11]));
}

#[test]
fn match_that_reaches_into_itself() {
    // "abc" and a match of length 9 at offset 3
    let raw = [0x4B, 0x4C, 0x4A, 0x4E, 0x84, 0x21, 0x00];
    let out = decode_deflate(&raw).unwrap();
    assert_eq!(out, b"abcabcabcabc".to_vec());
    for i in 3..out.len() {
        assert_eq!(out[i], out[i - 3]);
    }
}

#[test]
fn truncated_middle() {
    // a zlib stream of exactly 200 bytes
    let mut found: Option<Vec<u8>> = None;
    for len in 150..400usize {
        let wrapped = zlib_encode(&noise(len, 77), 6);
        if wrapped.len() == 200 {
            found = Some(wrapped);
            break;
        }
    }
    let stream = found.expect("no input compresses to 200 bytes");
    assert!(decode_zlib(&stream).is_ok());
    assert_eq!(decode_zlib(&stream[..100]), Err(ZlibDecodeErrors::InsufficientData));
}

#[test]
fn bad_cmf() {
    let mut input = vec![0x08, 0x01];
    input.extend_from_slice(&[0x01, 0x00, 0x00, 0xFF, 0xFF, 0x00, 0x00, 0x00, 0x01]);
    assert_eq!(decode_zlib(&input), Err(ZlibDecodeErrors::HeaderError));
}

#[test]
fn header_errors() {
    let tail = [0x01, 0x00, 0x00, 0xFF, 0xFF, 0x00, 0x00, 0x00, 0x01];
    let with_header = |cmf: u8, flg: u8| {
        let mut v = vec![cmf, flg];
        v.extend_from_slice(&tail);
        v
    };
    // a method other than deflate, with a valid check
    assert_eq!(decode_zlib(&with_header(0x77, 0x0D)), Err(ZlibDecodeErrors::HeaderError));
    // the reserved method 15
    assert_eq!(decode_zlib(&with_header(0x7F, 0x1F)), Err(ZlibDecodeErrors::HeaderError));
    // a window field above 7
    assert_eq!(decode_zlib(&with_header(0x88, 0x1C)), Err(ZlibDecodeErrors::HeaderError));
    // a header check that is no multiple of 31
    assert_eq!(decode_zlib(&with_header(0x78, 0x02)), Err(ZlibDecodeErrors::HeaderError));
    // a preset dictionary
    assert_eq!(decode_zlib(&with_header(0x78, 0x20)), Err(ZlibDecodeErrors::HeaderError));
    // the same trailer behind a valid header decodes
    assert_eq!(decode_zlib(&with_header(0x78, 0x01)), Ok(Vec::new()));
    assert_eq!(decode_zlib(&with_header(0x78, 0x9C)), Ok(Vec::new()));
    assert_eq!(decode_zlib(&with_header(0x08, 0x1D)), Ok(Vec::new()));
}

#[test]
fn input_shorter_than_header_and_trailer() {
    for len in 0..6usize {
        let input = vec![0x78u8; len];
        assert_eq!(decode_zlib(&input), Err(ZlibDecodeErrors::InsufficientData));
    }
}

#[test]
fn checksum_mismatch() {
    let mut stream = zlib_encode(b"some bytes to protect", 6);
    let last = stream.len() - 1;
    stream[last] ^= 0x01;
    assert_eq!(decode_zlib(&stream), Err(ZlibDecodeErrors::ChecksumMismatch));
    let input = [0x78, 0x01, 0x01, 0x01, 0x00, 0xFE, 0xFF, 0x41, 0x00, 0x42, 0x00, 0x43];
    assert_eq!(decode_zlib(&input), Err(ZlibDecodeErrors::ChecksumMismatch));
}

#[test]
fn reserved_block_type() {
    // BFINAL = 1, BTYPE = 3
    assert_eq!(decode_deflate(&[0x07, 0x00]), Err(ZlibDecodeErrors::CorruptData));
}

#[test]
fn stored_length_and_complement_disagree() {
    assert_eq!(
        decode_deflate(&[0x01, 0x01, 0x00, 0xFF, 0xFF, 0x41]),
        Err(ZlibDecodeErrors::CorruptData)
    );
}

#[test]
fn stored_block_longer_than_the_input() {
    assert_eq!(
        decode_deflate(&[0x01, 0x02, 0x00, 0xFD, 0xFF, 0x41]),
        Err(ZlibDecodeErrors::InsufficientData)
    );
}

#[test]
fn several_stored_blocks() {
    // "AB" in a block that is not the last, then "C" in the last block
    let raw = [
        0x00, 0x02, 0x00, 0xFD, 0xFF, 0x41, 0x42, 0x01, 0x01, 0x00, 0xFE, 0xFF, 0x43,
    ];
    assert_eq!(decode_deflate(&raw), Ok(b"ABC".to_vec()));
}

#[test]
fn empty_input_is_insufficient() {
    assert_eq!(decode_deflate(&[]), Err(ZlibDecodeErrors::InsufficientData));
}

#[test]
fn match_before_the_start_of_the_output() {
    // fixed codes: a match of length 3 at offset 1 with nothing written yet
    // bits: 1, 1,0, then 0000001 (length 3), then 00000 (offset 1)
    let raw = [0x03, 0x02, 0x00, 0x00];
    assert_eq!(decode_deflate(&raw), Err(ZlibDecodeErrors::CorruptData));
}

#[test]
fn reserved_length_symbol() {
    // fixed codes: symbol 286 has the 8-bit codeword 11000110
    // bits: 1, 1,0, then 1,1,0,0,0,1,1,0
    let raw = [0x1B, 0x03, 0x00, 0x00, 0x00];
    assert_eq!(decode_deflate(&raw), Err(ZlibDecodeErrors::CorruptData));
}

#[test]
fn reserved_offset_symbol() {
    // fixed codes: literal 'a', length 3, then offset symbol 30 (11110)
    // bits: 1, 1,0 | 1,0,0,1,0,0,0,1 | 0,0,0,0,0,0,1 | 1,1,1,1,0 | ...
    let raw = [0x4B, 0x04, 0x3E, 0x00, 0x00, 0x00];
    assert_eq!(decode_deflate(&raw), Err(ZlibDecodeErrors::CorruptData));
}

#[test]
fn every_prefix_is_insufficient() {
    let inputs: [Vec<u8>; 4] = [text(3000), noise(700, 3), vec![0u8; 5000], scanlines(20, 40)];
    for data in &inputs {
        for level in [0u32, 1, 9] {
            let wrapped = zlib_encode(data, level);
            for cut in 0..wrapped.len() {
                assert_eq!(
                    decode_zlib(&wrapped[..cut]),
                    Err(ZlibDecodeErrors::InsufficientData),
                    "zlib prefix of {} bytes of {}",
                    cut,
                    wrapped.len()
                );
            }
            let raw = deflate_encode(data, level);
            for cut in 0..raw.len() {
                assert_eq!(
                    decode_deflate(&raw[..cut]),
                    Err(ZlibDecodeErrors::InsufficientData),
                    "deflate prefix of {} bytes of {}",
                    cut,
                    raw.len()
                );
            }
        }
    }
}

#[test]
fn bytes_that_are_no_stream_give_the_same_error_each_time() {
    for seed in 0..200u64 {
        let input = noise(1 + (seed as usize * 13) % 300, seed + 1000);
        let first = decode_zlib(&input);
        let second = decode_zlib(&input);
        assert!(first.is_err());
        assert_eq!(first, second);
        let mut decoder = DeflateDecoder::new(&input);
        let third = decoder.decode_zlib();
        let fourth = decoder.decode_zlib();
        assert_eq!(first, third);
        assert_eq!(first, fourth);
    }
}

#[test]
fn a_changed_byte_gives_an_error_or_the_same_output() {
    let data = text(2000);
    for level in [0u32, 6] {
        let wrapped = zlib_encode(&data, level);
        for at in 0..wrapped.len() {
            for flip in [0x01u8, 0x10, 0x80, 0xFF] {
                let mut changed = wrapped.clone();
                changed[at] ^= flip;
                match decode_zlib(&changed) {
                    Ok(out) => assert_eq!(out, data, "byte {} changed by {:#x}", at, flip),
                    Err(_) => {},
                }
                // without the checksum the output may differ, but it stays bounded
                match decode_deflate(&changed[2..changed.len() - 4]) {
                    Ok(out) => assert!(out.len() <= 258 * 8 * changed.len()),
                    Err(_) => {},
                }
            }
        }
    }
}

#[test]
fn decoder_can_be_used_again() {
    let wrapped = zlib_encode(&text(5000), 1);
    let mut decoder = DeflateDecoder::new(&wrapped);
    let first = decoder.decode_zlib();
    let second = decoder.decode_zlib();
    assert_eq!(first, Ok(text(5000)));
    assert_eq!(first, second);
    // the same bytes are no raw DEFLATE stream
    let raw = deflate_encode(&text(5000), 1);
    let mut decoder = DeflateDecoder::new(&raw);
    assert_eq!(decoder.decode_deflate(), Ok(text(5000)));
    assert_eq!(decoder.decode_deflate(), Ok(text(5000)));
}

#[test]
fn error_messages_name_the_error() {
    assert!(ZlibDecodeErrors::InsufficientData.message().contains("insufficient"));
    assert!(ZlibDecodeErrors::CorruptData.message().contains("corrupt"));
    assert!(ZlibDecodeErrors::HeaderError.message().contains("header"));
    assert!(ZlibDecodeErrors::ChecksumMismatch.message().contains("checksum"));
}

/// The stream that holds `bytes` in stored blocks of at most 65535 bytes.
fn stored_blocks(bytes: &[u8]) -> Vec<u8> {
    let mut out = Vec::new();
    let mut rest = bytes;
    loop {
        let last = rest.len() <= 65_535;
        let len = if last { rest.len() } else { 65_535 };
        out.push(if last { 1 } else { 0 });
        out.push((len % 256) as u8);
        out.push((len / 256) as u8);
        out.push((255 - len % 256) as u8);
        out.push((255 - len / 256) as u8);
        out.extend_from_slice(&rest[..len]);
        rest = &rest[len..];
        if last {
            return out;
        }
    }
}

#[test]
fn stored_blocks_round_trip() {
    let lengths = [
        0usize, 1, 2, 255, 256, 257, 4095, 4096, 4097, 65_534, 65_535, 65_536, 131_070, 131_071,
        200_000,
    ];
    for len in lengths {
        let bytes = noise(len, len as u64 + 3);
        let raw = stored_blocks(&bytes);
        assert_eq!(decode_deflate(&raw), Ok(bytes.clone()), "length {}", len);
        // every strict prefix is insufficient
        if len < 300 {
            for cut in 0..raw.len() {
                assert_eq!(decode_deflate(&raw[..cut]), Err(ZlibDecodeErrors::InsufficientData));
            }
        } else {
            assert_eq!(
                decode_deflate(&raw[..raw.len() - 1]),
                Err(ZlibDecodeErrors::InsufficientData)
            );
        }
        let mut wrapped = vec![0x78, 0x01];
        wrapped.extend_from_slice(&raw);
        wrapped.extend_from_slice(&calc_adler_hash(&bytes).to_be_bytes());
        assert_eq!(decode_zlib(&wrapped), Ok(bytes));
    }
}

#[test]
fn bytes_behind_the_last_block_are_left_alone() {
    // an empty stored block and one byte more: the stream decodes, and so does its prefix
    assert_eq!(decode_deflate(&[0x01, 0x00, 0x00, 0xFF, 0xFF, 0x00]), Ok(Vec::new()));
    assert_eq!(decode_deflate(&[0x01, 0x00, 0x00, 0xFF, 0xFF]), Ok(Vec::new()));
}

#[test]
fn output_is_bounded_by_the_input() {
    // a long run: the output is at most 258 bytes for every two bits of input
    let data = vec![0u8; 500_000];
    let raw = deflate_encode(&data, 9);
    let out = decode_deflate(&raw).unwrap();
    assert_eq!(out.len(), 500_000);
    assert!(out.len() <= 258 * 8 * raw.len());
}

#[test]
fn fixed_tables_are_built_once_and_kept() {
    let raw = [0xF3, 0x48, 0xCD, 0xC9, 0xC9, 0x07, 0x00];
    let mut decoder = DeflateDecoder::new(&raw);
    assert!(!decoder.static_codes_loaded);
    assert_eq!(decoder.decode_deflate(), Ok(b"Hello".to_vec()));
    assert!(decoder.static_codes_loaded);
    let tables = decoder.deflate_header_tables.litlen_decode_table.clone();
    assert_eq!(decoder.decode_deflate(), Ok(b"Hello".to_vec()));
    assert!(decoder.static_codes_loaded);
    assert_eq!(decoder.deflate_header_tables.litlen_decode_table, tables);
    // a dynamic block replaces them
    let dynamic = deflate_encode(&text(20_000), 9);
    let mut decoder = DeflateDecoder::new(&dynamic);
    assert_eq!(decoder.decode_deflate(), Ok(text(20_000)));
    assert!(!decoder.static_codes_loaded);
}

#[test]
fn tables_keep_their_size() {
    let inputs: [Vec<u8>; 5] =
        [text(100_000), noise(50_000, 4), vec![1u8; 70_000], scanlines(100, 300), noise(300, 8)];
    for data in &inputs {
        for level in [1u32, 6, 9] {
            let raw = deflate_encode(data, level);
            let mut decoder = DeflateDecoder::new(&raw);
            assert_eq!(decoder.decode_deflate().as_deref(), Ok(&data[..]));
            assert_eq!(decoder.deflate_header_tables.litlen_decode_table.len(), 2342);
            assert_eq!(decoder.deflate_header_tables.offset_decode_table.len(), 402);
        }
    }
}
