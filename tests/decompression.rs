use arithmetic_compression_wizard::{
    model_is_valid, reconstruct_original_manuscript, unweave_compression_spell,
    weave_compression_spell, BitMagicWriter, CodecError, CompressionArtifact,
    ARITHMETIC_PRECISION_LIMIT, analyze_symbolic_frequencies,
};

#[test]
fn test_compression_decompression_roundtrip() {
    let original_data = b"Hello, magical world of Rust compression!";
    let compressed_artifact = weave_compression_spell(original_data).unwrap();
    let reconstructed_data = unweave_compression_spell(compressed_artifact).unwrap();
    assert_eq!(original_data.as_slice(), reconstructed_data.as_slice());
}

#[test]
fn test_symbol_reconstruction_with_words() {
    let test_text = b"the quick brown fox jumps over the lazy dog";
    let compressed = weave_compression_spell(test_text).unwrap();
    let reconstructed = unweave_compression_spell(compressed).unwrap();
    assert_eq!(test_text.as_slice(), reconstructed.as_slice());
}

#[test]
fn test_empty_data_handling() {
    let empty_data: &[u8] = b"";
    let compressed = weave_compression_spell(empty_data).unwrap();
    let reconstructed = unweave_compression_spell(compressed).unwrap();
    assert_eq!(empty_data, reconstructed.as_slice());
}

#[test]
fn test_single_byte_compression() {
    let single_byte = b"A";
    let compressed = weave_compression_spell(single_byte).unwrap();
    let reconstructed = unweave_compression_spell(compressed).unwrap();
    assert_eq!(single_byte.as_slice(), reconstructed.as_slice());
}

#[test]
fn test_non_ascii_character_preservation() {
    let mixed_data = b"Caf\xc3\xa9 with non-breaking space\xa0here";
    let compressed = weave_compression_spell(mixed_data).unwrap();
    let reconstructed = unweave_compression_spell(compressed).unwrap();
    assert_eq!(mixed_data.as_slice(), reconstructed.as_slice());
}

fn round_trip(x: &[u8]) {
    let a = weave_compression_spell(x).unwrap();
    assert_eq!(unweave_compression_spell(a).unwrap(), x.to_vec());
}

#[test]
fn two_symbol_input_round_trips() {
    let a = weave_compression_spell(b"AB").unwrap();
    assert_eq!(a.mystical_frequency_codex, vec![(65, 1, 0), (66, 1, 1)]);
    assert_eq!(a.total_frequency_essence, 2);
    assert!(a.mystical_word_grimoire.is_empty());
    assert_eq!(unweave_compression_spell(a).unwrap(), b"AB".to_vec());
}

#[test]
fn empty_input_codes_no_symbol() {
    let a = weave_compression_spell(b"").unwrap();
    assert!(a.mystical_frequency_codex.is_empty());
    assert_eq!(a.total_frequency_essence, 0);
    assert_eq!(a.compressed_bit_stream, vec![0x80]);
    assert_eq!(unweave_compression_spell(a).unwrap(), Vec::<u8>::new());
}

#[test]
fn varied_inputs_round_trip() {
    round_trip(b"x");
    round_trip(&[0u8; 3000]);
    round_trip(&(0..=255u8).collect::<Vec<u8>>());
    round_trip(&(0x80..=0xFFu8).cycle().take(5000).collect::<Vec<u8>>());
    let mut state: u32 = 12345;
    let random: Vec<u8> = (0..20000)
        .map(|_| {
            state = state.wrapping_mul(1103515245).wrapping_add(12345);
            (state >> 16) as u8
        })
        .collect();
    round_trip(&random);
    round_trip("it's the cat's hat, isn't it? the hat. ".repeat(60).as_bytes());
}

#[test]
fn repetitive_text_gets_dictionary_and_beats_byte_coding() {
    let text: Vec<u8> = "the cat sat on the mat".repeat(455).into_bytes()[..10_000].to_vec();
    let a = weave_compression_spell(&text).unwrap();
    assert!(a.mystical_word_grimoire.contains(&b"the".to_vec()));
    // The same coder over the raw bytes, with no dictionary.
    let symbols: Vec<u32> = text.iter().map(|&b| b as u32).collect();
    let model = analyze_symbolic_frequencies(&symbols);
    let mut writer = BitMagicWriter::conjure_new(Vec::new());
    let mut low: u32 = 0;
    let mut high: u32 = ARITHMETIC_PRECISION_LIMIT;
    for s in &symbols {
        let e = model.frequency_entries.iter().find(|e| e.0 == *s).unwrap();
        writer.encode_mystical_symbol(
            &mut low,
            &mut high,
            e.2 as u32,
            (e.2 + e.1) as u32,
            model.total_frequency_mass as u32,
        );
    }
    let byte_only = writer.complete_compression_ritual();
    assert!(a.compressed_bit_stream.len() < byte_only.len());
    assert_eq!(unweave_compression_spell(a).unwrap(), text);
}

#[test]
fn reference_past_dictionary_is_an_error() {
    let words = vec![b"word".to_vec()];
    assert_eq!(
        reconstruct_original_manuscript(&[104, 256, 105], &words),
        Ok(b"hwordi".to_vec())
    );
    assert_eq!(
        reconstruct_original_manuscript(&[104, 257], &words),
        Err(CodecError::CorruptReferenceError)
    );
}

#[test]
fn artifact_with_dangling_reference_fails_to_decode() {
    let a = CompressionArtifact {
        mystical_frequency_codex: vec![(256, 1, 0)],
        total_frequency_essence: 1,
        compressed_bit_stream: vec![0x80],
        mystical_word_grimoire: Vec::new(),
    };
    assert_eq!(unweave_compression_spell(a), Err(CodecError::CorruptReferenceError));
}

#[test]
fn artifact_with_broken_model_is_a_format_error() {
    let gap = CompressionArtifact {
        mystical_frequency_codex: vec![(65, 1, 0), (66, 1, 2)],
        total_frequency_essence: 3,
        compressed_bit_stream: vec![0x80],
        mystical_word_grimoire: Vec::new(),
    };
    assert_eq!(unweave_compression_spell(gap), Err(CodecError::FormatError));
    assert!(!model_is_valid(&vec![(66, 1, 0), (65, 1, 1)], 2));
    assert!(!model_is_valid(&vec![(65, 0, 0)], 0));
    assert!(!model_is_valid(&vec![(65, 4_194_304, 0)], 4_194_304));
    assert!(!model_is_valid(&Vec::new(), 1));
    assert!(model_is_valid(&vec![(65, 2, 0), (66, 1, 2)], 3));
    assert!(model_is_valid(&Vec::new(), 0));
}
