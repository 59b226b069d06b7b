use arithmetic_compression_wizard::{
    BitMagicReader, BitMagicWriter, ARITHMETIC_PRECISION_LIMIT, FIRST_QTR, HALF, THIRD_QTR,
};

#[test]
fn test_bit_writer_basic_functionality() {
    let writer = BitMagicWriter::conjure_new(Vec::new());
    let output_scroll = writer.complete_compression_ritual();
    assert!(!output_scroll.is_empty());
}

#[test]
fn test_bit_reader_initialization() {
    let test_data = vec![0xFF, 0x00, 0xFF, 0x00];
    let reader = BitMagicReader::conjure_from_scroll(test_data);
    let position = reader.reveal_mystical_position();
    assert!(position > 0);
}

#[test]
fn constants_split_the_interval_in_quarters() {
    assert_eq!(ARITHMETIC_PRECISION_LIMIT, 16_777_215);
    assert_eq!(FIRST_QTR, 4_194_304);
    assert_eq!(HALF, 8_388_608);
    assert_eq!(THIRD_QTR, 12_582_912);
}

#[test]
fn writer_packs_bits_most_significant_first() {
    let mut writer = BitMagicWriter::conjure_new(Vec::new());
    for bit in [1u8, 0, 1, 1, 0, 0, 1, 0] {
        writer.write_bit(bit);
    }
    let out = writer.complete_compression_ritual();
    // 0xB2, then the closing "10" padded with zeros.
    assert_eq!(out, vec![0xB2, 0x80]);
}

#[test]
fn fresh_writer_closes_with_one_then_zero() {
    let writer = BitMagicWriter::conjure_new(Vec::new());
    assert_eq!(writer.complete_compression_ritual(), vec![0x80]);
}

#[test]
fn writer_keeps_existing_bytes() {
    let writer = BitMagicWriter::conjure_new(vec![0x12]);
    assert_eq!(writer.complete_compression_ritual(), vec![0x12, 0x80]);
}

#[test]
fn write_bit_uses_low_bit_only() {
    let mut writer = BitMagicWriter::conjure_new(Vec::new());
    writer.write_bit(3);
    writer.write_bit(2);
    // bits 1, 0, then closing 1, 0.
    assert_eq!(writer.complete_compression_ritual(), vec![0xA0]);
}

#[test]
fn output_bit_resolves_pending_bits() {
    let mut writer = BitMagicWriter::conjure_new(Vec::new());
    let mut low: u32 = FIRST_QTR;
    let mut high: u32 = THIRD_QTR - 1;
    // The middle half defers one bit and widens to the whole interval.
    writer.normalize(&mut low, &mut high);
    assert_eq!((low, high), (0, ARITHMETIC_PRECISION_LIMIT));
    writer.output_bit(0);
    // 0, then one deferred 1, then the closing 1, 0.
    assert_eq!(writer.complete_compression_ritual(), vec![0b0110_0000]);
}

#[test]
fn bit_plus_follow_matches_output_bit() {
    let mut writer = BitMagicWriter::conjure_new(Vec::new());
    writer.bit_plus_follow(1);
    writer.bit_plus_follow(1);
    assert_eq!(writer.complete_compression_ritual(), vec![0b1110_0000]);
}

#[test]
fn encoding_lower_half_emits_a_zero() {
    let mut writer = BitMagicWriter::conjure_new(Vec::new());
    let mut low: u32 = 0;
    let mut high: u32 = ARITHMETIC_PRECISION_LIMIT;
    writer.encode_mystical_symbol(&mut low, &mut high, 0, 1, 2);
    assert_eq!((low, high), (0, ARITHMETIC_PRECISION_LIMIT));
    assert_eq!(writer.complete_compression_ritual(), vec![0b0100_0000]);
}

#[test]
fn encoding_upper_half_emits_a_one() {
    let mut writer = BitMagicWriter::conjure_new(Vec::new());
    let mut low: u32 = 0;
    let mut high: u32 = ARITHMETIC_PRECISION_LIMIT;
    writer.encode_mystical_symbol(&mut low, &mut high, 1, 2, 2);
    assert_eq!((low, high), (0, ARITHMETIC_PRECISION_LIMIT));
    assert_eq!(writer.complete_compression_ritual(), vec![0b1100_0000]);
}

#[test]
fn reader_window_holds_first_24_bits() {
    let reader = BitMagicReader::conjure_from_scroll(vec![0x12, 0x34, 0x56, 0x78]);
    assert_eq!(reader.reveal_mystical_position(), 0x123456);
}

#[test]
fn reader_pads_short_stream_with_zeros() {
    let reader = BitMagicReader::conjure_from_scroll(vec![0xAB]);
    assert_eq!(reader.reveal_mystical_position(), 0xAB0000);
    let empty = BitMagicReader::conjure_from_scroll(Vec::new());
    assert_eq!(empty.reveal_mystical_position(), 0);
}

#[test]
fn read_bit_continues_after_window() {
    let mut reader = BitMagicReader::conjure_from_scroll(vec![0, 0, 0, 0b1010_0000]);
    assert_eq!(reader.read_bit(), 1);
    assert_eq!(reader.read_bit(), 0);
    assert_eq!(reader.read_bit(), 1);
    assert_eq!(reader.read_bit(), 0);
    for _ in 0..10 {
        assert_eq!(reader.read_bit(), 0);
    }
}

#[test]
fn decode_target_exact_value() {
    let reader = BitMagicReader::conjure_from_scroll(vec![0x80, 0x00, 0x00]);
    assert_eq!(reader.reveal_mystical_position(), HALF);
    // ((8388608 - 0 + 1) * 4 - 1) / 16777216 = 2
    assert_eq!(reader.decode_mystical_target(4, 0, ARITHMETIC_PRECISION_LIMIT), 2);
    assert_eq!(reader.decode_mystical_target(2, 0, ARITHMETIC_PRECISION_LIMIT), 1);
}

#[test]
fn reader_follows_writer() {
    let mut writer = BitMagicWriter::conjure_new(Vec::new());
    let mut low: u32 = 0;
    let mut high: u32 = ARITHMETIC_PRECISION_LIMIT;
    // symbols 1, 0, 2 out of ranges [0,1), [1,3), [3,4) of total 4
    let ranges = [(1u32, 3u32), (0, 1), (3, 4)];
    for &(cs, ce) in &ranges {
        writer.encode_mystical_symbol(&mut low, &mut high, cs, ce, 4);
    }
    let stream = writer.complete_compression_ritual();
    let mut reader = BitMagicReader::conjure_from_scroll(stream);
    let mut low: u32 = 0;
    let mut high: u32 = ARITHMETIC_PRECISION_LIMIT;
    for &(cs, ce) in &ranges {
        let t = reader.decode_mystical_target(4, low, high);
        assert!(cs <= t && t < ce);
        reader.update_mystical_intervals(&mut low, &mut high, cs, ce, 4);
    }
}
