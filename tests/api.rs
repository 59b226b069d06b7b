use arithmetic_compression_wizard::{
    compress_data, decompress_data, deserialize_artifact, serialize_artifact,
    weave_compression_spell, CodecError, CompressionArtifact,
};

#[test]
fn test_round_trip_compression() {
    let test_cases = vec![
        b"Hello, world!".as_slice(),
        b"The quick brown fox jumps over the lazy dog".as_slice(),
        b"a".as_slice(),
        b"".as_slice(),
        b"aaaaaaaaaa".as_slice(),
        b"abcdefghijklmnopqrstuvwxyz".as_slice(),
    ];
    for original in test_cases {
        let compressed = compress_data(original).unwrap();
        let restored = decompress_data(compressed).unwrap();
        assert_eq!(
            original,
            restored.as_slice(),
            "Round-trip failed for: {:?}",
            std::str::from_utf8(original)
        );
    }
}

#[test]
fn test_empty_data() {
    let empty: &[u8] = b"";
    let compressed = compress_data(empty).unwrap();
    let restored = decompress_data(compressed).unwrap();
    assert_eq!(empty, restored.as_slice());
}

#[test]
fn serialized_layout_is_little_endian() {
    let a = CompressionArtifact {
        mystical_frequency_codex: vec![(0x41, 2, 0)],
        total_frequency_essence: 2,
        compressed_bit_stream: vec![0xAA, 0xBB],
        mystical_word_grimoire: vec![b"hi".to_vec()],
    };
    let b = serialize_artifact(&a);
    let expected: Vec<u8> = vec![
        1, 0, 0, 0, // one word
        2, 0, 0, 0, b'h', b'i', // "hi"
        1, 0, 0, 0, // one entry
        0x41, 0, 0, 0, 2, 0, 0, 0, 0, 0, 0, 0, 0, 0, 0, 0, 0, 0, 0, 0, // (0x41, 2, 0)
        2, 0, 0, 0, 0, 0, 0, 0, // total
        2, 0, 0, 0, 0xAA, 0xBB, // stream
    ];
    assert_eq!(b, expected);
    let back = deserialize_artifact(&b).unwrap();
    assert_eq!(back.mystical_frequency_codex, a.mystical_frequency_codex);
    assert_eq!(back.total_frequency_essence, a.total_frequency_essence);
    assert_eq!(back.compressed_bit_stream, a.compressed_bit_stream);
    assert_eq!(back.mystical_word_grimoire, a.mystical_word_grimoire);
}

#[test]
fn serialization_round_trips_an_encoded_artifact() {
    let text = "so the story goes, the end; the start. ".repeat(40);
    let a = weave_compression_spell(text.as_bytes()).unwrap();
    let back = deserialize_artifact(&serialize_artifact(&a)).unwrap();
    assert_eq!(back.mystical_frequency_codex, a.mystical_frequency_codex);
    assert_eq!(back.total_frequency_essence, a.total_frequency_essence);
    assert_eq!(back.compressed_bit_stream, a.compressed_bit_stream);
    assert_eq!(back.mystical_word_grimoire, a.mystical_word_grimoire);
    assert!(!a.mystical_word_grimoire.is_empty());
}

#[test]
fn truncated_buffers_are_format_errors() {
    let full = compress_data(b"abracadabra").unwrap();
    for cut in 0..full.len() {
        assert!(matches!(
            deserialize_artifact(&full[..cut]),
            Err(CodecError::FormatError)
        ));
        assert_eq!(decompress_data(full[..cut].to_vec()), Err(CodecError::FormatError));
    }
    // A word length that runs past the end.
    assert!(matches!(
        deserialize_artifact(&[1, 0, 0, 0, 9, 0, 0, 0, b'a']),
        Err(CodecError::FormatError)
    ));
}

#[test]
fn trailing_bytes_are_ignored() {
    let mut buf = compress_data(b"abracadabra").unwrap();
    buf.extend_from_slice(&[1, 2, 3]);
    assert_eq!(decompress_data(buf).unwrap(), b"abracadabra".to_vec());
}

#[test]
fn compression_is_deterministic() {
    let x = "the cat sat on the mat ".repeat(100);
    assert_eq!(compress_data(x.as_bytes()), compress_data(x.as_bytes()));
}
