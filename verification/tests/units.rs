use zune_inflate::bitstream::BitStreamReader;
use zune_inflate::builder::{count_lengths, next_codeword, sort_symbols};
use zune_inflate::entries::{
    litlen_decode_result, litlen_decode_results, make_decode_table_entry, offset_decode_result,
    precode_decode_results,
};
use zune_inflate::grayscale::GrayscaleStep;
use zune_inflate::output::{copy_match, resize_and_push};
use zune_inflate::png::{FilterMethod, InterlaceMethod, PngColor};
use zune_inflate::{
    DeflateDecoder, GifDecoderErrors, PPMEncoder, PngInfo, RgbToGrayScale, ZlibDecodeErrors,
};

fn build(lens: &[u8], table_bits: usize, size: usize) -> (Result<(), ZlibDecodeErrors>, Vec<u32>) {
    let results = precode_decode_results();
    let mut table = vec![0u32; size];
    let r = DeflateDecoder::build_decode_table_inner(
        lens,
        &results,
        &mut table,
        table_bits,
        lens.len(),
        7,
    );
    (r, table)
}

/// The entry of precode symbol `sym` for a codeword of which `len` bits are consumed.
fn entry(sym: u32, len: u32) -> u32 {
    (sym << 16) | (len << 8) | len
}

#[test]
fn table_of_two_one_bit_codewords() {
    let (r, table) = build(&[1, 1], 3, 8);
    assert_eq!(r, Ok(()));
    for idx in 0..8usize {
        assert_eq!(table[idx], entry((idx & 1) as u32, 1), "index {}", idx);
    }
}

#[test]
fn table_orders_codewords_by_length_then_symbol() {
    // lengths 2, 1, 3, 3: codewords 10, 0, 110, 111
    let (r, table) = build(&[2, 1, 3, 3], 3, 8);
    assert_eq!(r, Ok(()));
    // the index holds the codeword with its first bit lowest
    let expected = [
        entry(1, 1), // 000
        entry(0, 2), // 001: bits 1, 0
        entry(1, 1), // 010
        entry(2, 3), // 011: bits 1, 1, 0
        entry(1, 1), // 100
        entry(0, 2), // 101
        entry(1, 1), // 110
        entry(3, 3), // 111
    ];
    assert_eq!(&table[..8], &expected[..]);
}

#[test]
fn table_with_a_subtable() {
    // lengths 1, 2, 3, 3 with a primary table of two bits
    let (r, table) = build(&[1, 2, 3, 3], 2, 4);
    assert_eq!(r, Ok(()));
    assert_eq!(table.len(), 6, "the table grew by the subtable");
    assert_eq!(table[0], entry(0, 1));
    assert_eq!(table[2], entry(0, 1));
    assert_eq!(table[1], entry(1, 2));
    // the pointer: subtable at 4, one index bit, two bits consumed
    assert_eq!(table[3], (4 << 16) | 0xC000 | (1 << 8) | 2);
    assert_eq!(table[4], entry(2, 1));
    assert_eq!(table[5], entry(3, 1));
}

#[test]
fn table_with_subtables_of_different_widths() {
    // lengths 2, 2, 2, 3, 4, 5, 5: 00 01 10 110 1110 11110 11111, primary table of 3 bits
    let (r, table) = build(&[2, 2, 2, 3, 4, 5, 5], 3, 8);
    assert_eq!(r, Ok(()));
    // prefix 111 leads to the only subtable, which has two index bits
    assert_eq!(table[7], (8 << 16) | 0xC000 | (2 << 8) | 3);
    assert_eq!(table.len(), 12);
    // behind 111: 0 is symbol 4 (one more bit), 10 and 11 are symbols 5 and 6
    assert_eq!(table[8], entry(4, 1));
    assert_eq!(table[10], entry(4, 1));
    assert_eq!(table[9], entry(5, 2));
    assert_eq!(table[11], entry(6, 2));
    assert_eq!(table[3], entry(3, 3));
}

#[test]
fn overfull_code_is_corrupt() {
    assert_eq!(build(&[1, 1, 1], 7, 128).0, Err(ZlibDecodeErrors::CorruptData));
    assert_eq!(build(&[1, 2, 2, 2], 7, 128).0, Err(ZlibDecodeErrors::CorruptData));
}

#[test]
fn incomplete_code_is_corrupt() {
    assert_eq!(build(&[1, 2], 7, 128).0, Err(ZlibDecodeErrors::CorruptData));
    assert_eq!(build(&[2], 7, 128).0, Err(ZlibDecodeErrors::CorruptData));
    assert_eq!(build(&[0, 3, 3, 0], 7, 128).0, Err(ZlibDecodeErrors::CorruptData));
}

#[test]
fn empty_code_fills_the_table_with_symbol_zero() {
    let (r, table) = build(&[0, 0, 0, 0], 7, 128);
    assert_eq!(r, Ok(()));
    assert!(table.iter().all(|e| *e == entry(0, 1)));
}

#[test]
fn single_codeword_gets_both_bit_values() {
    let (r, table) = build(&[0, 0, 1, 0], 7, 128);
    assert_eq!(r, Ok(()));
    assert!(table.iter().all(|e| *e == entry(2, 1)));
}

#[test]
fn lengths_are_counted_and_symbols_sorted() {
    let lens = [3u8, 0, 1, 3, 2, 0, 3];
    let counts = count_lengths(&lens, lens.len());
    assert_eq!(counts.len(), 16);
    assert_eq!(&counts[..4], &[2, 1, 1, 3]);
    assert!(counts[4..].iter().all(|c| *c == 0));
    let sorted = sort_symbols(&lens, lens.len(), &counts);
    assert_eq!(sorted, vec![1, 5, 2, 4, 0, 3, 6]);
    // only the first symbols count
    let counts = count_lengths(&lens, 3);
    assert_eq!(&counts[..4], &[1, 1, 0, 1]);
}

#[test]
fn codewords_advance_in_reversed_bit_order() {
    // three bits: 000 100 010 110 001 101 011 111
    let mut codeword = 0usize;
    let mut seen = vec![codeword];
    while codeword != 7 {
        codeword = next_codeword(codeword, 3);
        seen.push(codeword);
    }
    assert_eq!(seen, vec![0, 4, 2, 6, 1, 5, 3, 7]);
    assert_eq!(next_codeword(0b0111_1111_1111_1110, 15), 0b0000_0000_0000_0001);
    assert_eq!(next_codeword(0, 1), 1);
}

#[test]
fn symbol_tables_follow_the_format() {
    // literal 65
    assert_eq!(litlen_decode_result(65), (65 << 16) | 0x4000);
    // end of block
    assert_eq!(litlen_decode_result(256), 0x8000);
    // length codes: base and extra bits
    assert_eq!(litlen_decode_result(257), 3 << 16);
    assert_eq!(litlen_decode_result(264), 10 << 16);
    assert_eq!(litlen_decode_result(265), (11 << 16) | 1);
    assert_eq!(litlen_decode_result(268), (17 << 16) | 1);
    assert_eq!(litlen_decode_result(269), (19 << 16) | 2);
    assert_eq!(litlen_decode_result(273), (35 << 16) | 3);
    assert_eq!(litlen_decode_result(277), (67 << 16) | 4);
    assert_eq!(litlen_decode_result(281), (131 << 16) | 5);
    assert_eq!(litlen_decode_result(284), (227 << 16) | 5);
    assert_eq!(litlen_decode_result(285), 258 << 16);
    // the reserved symbols
    assert_eq!(litlen_decode_result(286), 0);
    assert_eq!(litlen_decode_result(287), 0);
    // offset codes
    let offsets: [(usize, u32, u32); 10] = [
        (0, 1, 0),
        (3, 4, 0),
        (4, 5, 1),
        (5, 7, 1),
        (6, 9, 2),
        (9, 25, 3),
        (10, 33, 4),
        (20, 1025, 9),
        (28, 16385, 13),
        (29, 24577, 13),
    ];
    for (sym, base, extra) in offsets {
        assert_eq!(offset_decode_result(sym), (base << 16) | extra, "offset symbol {}", sym);
    }
    assert_eq!(offset_decode_result(30), 0);
    assert_eq!(offset_decode_result(31), 0);
    let table = litlen_decode_results();
    assert_eq!(table.len(), 288);
    assert_eq!(make_decode_table_entry(&table, 270, 7), (23 << 16) | (7 << 8) | 9);
}

#[test]
fn reader_reads_bits_lowest_first() {
    let data = [0b1010_0101u8, 0xFF, 0x00, 0x12, 0x34, 0x56, 0x78, 0x9A, 0xBC, 0xDE];
    let mut reader = BitStreamReader::new(&data);
    assert!(!reader.has(1));
    reader.refill();
    assert!(reader.has(56));
    assert!(!reader.has(57));
    assert_eq!(reader.get_bits_left(), 56);
    assert_eq!(reader.remaining_bytes(), 3);
    assert_eq!(reader.peek_bits::<4>(), 0b0101);
    assert_eq!(reader.peek_var_bits(8), 0b1010_0101);
    assert_eq!(reader.get_bits(3), 0b101);
    assert_eq!(reader.get_bits(5), 0b10100);
    assert_eq!(reader.get_position(), 1);
    reader.drop_bits(3);
    assert_eq!(reader.partial_bits(), 5);
    reader.align_to_byte();
    assert_eq!(reader.get_position(), 2);
    assert_eq!(reader.get_bits(16), 0x1200);
    reader.refill();
    assert_eq!(reader.remaining_bytes(), 0);
    assert_eq!(reader.get_bits(32), 0x9A78_5634);
    assert_eq!(reader.get_bits(16), 0xDEBC);
    assert!(!reader.has(1));
    // bits behind the end of the input read as zero
    assert_eq!(reader.peek_var_bits(11), 0);
    reader.reset(3);
    reader.refill();
    assert_eq!(reader.get_bits(8), 0x12);
}

#[test]
fn reader_refill_stops_at_the_end_of_the_input() {
    let data = [0xABu8, 0xCD];
    let mut reader = BitStreamReader::new(&data);
    reader.refill();
    assert_eq!(reader.get_bits_left(), 16);
    assert!(reader.has(16));
    assert!(!reader.has(17));
    assert_eq!(reader.peek_var_bits(16), 0xCDAB);
    reader.refill();
    assert_eq!(reader.get_bits_left(), 16);
}

#[test]
fn push_grows_the_buffer_by_one_step() {
    let mut buf = vec![1u8, 2, 3];
    resize_and_push(&mut buf, 1, 9);
    assert_eq!(buf, vec![1, 9, 3]);
    resize_and_push(&mut buf, 3, 7);
    assert_eq!(buf.len(), 3 + 4096);
    assert_eq!(&buf[..4], &[1, 9, 3, 7]);
    assert!(buf[4..].iter().all(|b| *b == 0));
}

#[test]
fn matches_copy_from_their_offset() {
    // a run
    let mut buf = vec![0u8; 64];
    buf[0] = 5;
    buf[1] = 6;
    copy_match(&mut buf, 2, 1, 20);
    assert_eq!(&buf[..22], &[5u8, 6, 6, 6, 6, 6, 6, 6, 6, 6, 6, 6, 6, 6, 6, 6, 6, 6, 6, 6, 6, 6][..]);
    // a match that reaches into itself
    let mut buf = vec![0u8; 64];
    buf[..3].copy_from_slice(b"abc");
    copy_match(&mut buf, 3, 3, 7);
    assert_eq!(&buf[..10], b"abcabcabca");
    // a match far from its source
    let mut buf = vec![0u8; 128];
    for i in 0..50 {
        buf[i] = i as u8;
    }
    copy_match(&mut buf, 50, 50, 20);
    for i in 0..20 {
        assert_eq!(buf[50 + i], i as u8);
    }
    // a match of length zero leaves everything
    let mut buf = vec![3u8; 32];
    copy_match(&mut buf, 4, 2, 0);
    assert_eq!(&buf[..4], &[3u8; 4]);
}

#[test]
fn gif_errors_come_from_messages() {
    let e = GifDecoderErrors::from("broken");
    assert!(matches!(e, GifDecoderErrors::Static("broken")));
    let e = GifDecoderErrors::TooLargeDimensions("width", 100, 200);
    assert!(matches!(e, GifDecoderErrors::TooLargeDimensions("width", 100, 200)));
    assert!(format!("{:?}", GifDecoderErrors::NotAGif).contains("NotAGif"));
}

#[test]
fn grayscale_settings() {
    let plain = RgbToGrayScale::new();
    assert!(!plain.preserve_alpha);
    assert_eq!(plain.step_for(true, 1), Some(GrayscaleStep::Skip));
    assert_eq!(plain.step_for(true, 4), Some(GrayscaleStep::Skip));
    assert_eq!(plain.step_for(false, 3), Some(GrayscaleStep::ToLuma));
    assert_eq!(plain.step_for(false, 4), Some(GrayscaleStep::ToLuma));
    assert_eq!(plain.step_for(false, 2), None);
    assert_eq!(plain.step_for(false, 0), None);
    let keeping = RgbToGrayScale::new().preserve_alpha(true);
    assert!(keeping.preserve_alpha);
    assert_eq!(keeping.step_for(false, 4), Some(GrayscaleStep::ToLumaAlpha));
    assert_eq!(keeping.step_for(false, 3), Some(GrayscaleStep::ToLuma));
    assert!(!keeping.preserve_alpha(false).preserve_alpha);
}

#[test]
fn ppm_encoder_is_a_unit() {
    let a = PPMEncoder::new();
    let b = PPMEncoder::default();
    let c = a;
    assert_eq!(std::mem::size_of_val(&a), 0);
    assert_eq!(std::mem::size_of_val(&b), std::mem::size_of_val(&c));
}

#[test]
fn png_info_counts_the_bytes_of_an_image() {
    let empty = PngInfo::default();
    assert_eq!(empty.width, 0);
    assert_eq!(empty.color, PngColor::Unknown);
    assert_eq!(empty.filter_method, FilterMethod::Unknown);
    assert_eq!(empty.interlace_method, InterlaceMethod::Unknown);
    assert_eq!(empty.min_data_len(), Some(0));
    let info = PngInfo {
        width: 10,
        height: 4,
        depth: 8,
        color: PngColor::RGB,
        component: 3,
        filter_method: FilterMethod::NoFilter,
        interlace_method: InterlaceMethod::Standard,
    };
    // 30 bytes of samples and a filter byte for each of four rows
    assert_eq!(info.min_data_len(), Some(124));
    let one_bit = PngInfo { width: 9, height: 2, depth: 1, component: 1, ..PngInfo::default() };
    // nine bits round up to two bytes
    assert_eq!(one_bit.min_data_len(), Some(6));
    let huge = PngInfo { width: usize::MAX, height: 2, depth: 16, component: 4, ..PngInfo::default() };
    assert_eq!(huge.min_data_len(), None);
    let tall = PngInfo { width: 1, height: usize::MAX, depth: 8, component: 1, ..PngInfo::default() };
    assert_eq!(tall.min_data_len(), None);
}
