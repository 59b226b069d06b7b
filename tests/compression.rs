use arithmetic_compression_wizard::{
    analyze_symbolic_frequencies, discover_profitable_word_enchantments, find_slot, find_symbol,
    transform_manuscript_to_symbols, weave_compression_spell, CodecError, DictionaryConfig,
};

#[test]
fn test_word_discovery_functionality() {
    let sample_text = b"the quick brown fox jumps over the lazy dog the end the beginning the world the universe the magic the power";
    let config = DictionaryConfig { min_input_len: 0, max_words: 25 };
    let discovered_words = discover_profitable_word_enchantments(sample_text, &config);
    assert!(discovered_words.contains(&b"the".to_vec()));
}

#[test]
fn test_symbol_transformation() {
    let test_data = b"hello world hello";
    let word_dict = vec![b"hello".to_vec()];
    let symbols = transform_manuscript_to_symbols(test_data, &word_dict);
    assert!(symbols.contains(&256));
    assert!(symbols.contains(&32));
}

#[test]
fn test_frequency_analysis() {
    let symbols = vec![65u32, 66u32, 65u32];
    let analysis = analyze_symbolic_frequencies(&symbols);
    assert_eq!(analysis.total_frequency_mass, 3);
    assert_eq!(analysis.frequency_entries.len(), 2);
}

#[test]
fn frequency_table_is_sorted_and_cumulative() {
    let symbols = vec![300u32, 7, 65, 7, 300, 300, 0];
    let analysis = analyze_symbolic_frequencies(&symbols);
    assert_eq!(
        analysis.frequency_entries,
        vec![(0, 1, 0), (7, 2, 1), (65, 1, 3), (300, 3, 4)]
    );
    assert_eq!(analysis.total_frequency_mass, 7);
}

#[test]
fn frequency_table_of_nothing_is_empty() {
    let analysis = analyze_symbolic_frequencies(&[]);
    assert!(analysis.frequency_entries.is_empty());
    assert_eq!(analysis.total_frequency_mass, 0);
}

#[test]
fn table_lookups_by_symbol_and_by_target() {
    let table = vec![(0u32, 1u64, 0u64), (7, 2, 1), (65, 1, 3), (300, 3, 4)];
    assert_eq!(find_symbol(&table, 65), Ok(2));
    assert_eq!(find_symbol(&table, 8), Err(2));
    assert_eq!(find_symbol(&table, 400), Err(4));
    assert_eq!(find_slot(&table, 7, 0), 0);
    assert_eq!(find_slot(&table, 7, 2), 1);
    assert_eq!(find_slot(&table, 7, 3), 2);
    assert_eq!(find_slot(&table, 7, 6), 3);
}

#[test]
fn dictionary_substitutes_standalone_words_only() {
    let words = vec![b"the".to_vec()];
    let symbols = transform_manuscript_to_symbols(b"theme the theory the", &words);
    let mut expected: Vec<u32> = b"theme ".iter().map(|&b| b as u32).collect();
    expected.push(256);
    expected.extend(b" theory ".iter().map(|&b| b as u32));
    expected.push(256);
    assert_eq!(symbols, expected);
}

#[test]
fn dictionary_word_after_apostrophe_and_first_entry_wins() {
    let words = vec![b"cat".to_vec(), b"cats".to_vec(), b"'cat".to_vec()];
    let symbols = transform_manuscript_to_symbols(b"cats cat 'cat", &words);
    // "cats": "cat" is followed by a letter, so "cats" matches.
    // "'cat": "'cat" begins at the apostrophe after a space.
    assert_eq!(symbols, vec![257, 32, 256, 32, 258]);
}

#[test]
fn discovery_skips_short_inputs_and_ranks_by_savings() {
    let text = b"alpha alpha alpha alpha beta beta beta beta beta gamma gamma";
    let standard = DictionaryConfig::standard();
    assert_eq!((standard.min_input_len, standard.max_words), (1000, 25));
    assert!(discover_profitable_word_enchantments(text, &standard).is_empty());
    let open = DictionaryConfig { min_input_len: 0, max_words: 25 };
    // alpha: 5*4 - 9 = 11; beta: 4*5 - 8 = 12; gamma occurs twice only.
    assert_eq!(
        discover_profitable_word_enchantments(text, &open),
        vec![b"beta".to_vec(), b"alpha".to_vec()]
    );
    let one = DictionaryConfig { min_input_len: 0, max_words: 1 };
    assert_eq!(discover_profitable_word_enchantments(text, &one), vec![b"beta".to_vec()]);
}

#[test]
fn discovery_breaks_ties_by_first_occurrence() {
    let text = b"dog cat dog cat dog cat dog cat";
    let open = DictionaryConfig { min_input_len: 0, max_words: 25 };
    assert_eq!(
        discover_profitable_word_enchantments(text, &open),
        vec![b"dog".to_vec(), b"cat".to_vec()]
    );
}

#[test]
fn encoding_is_deterministic() {
    let text = "the cat sat on the mat ".repeat(80);
    let a = weave_compression_spell(text.as_bytes()).unwrap();
    let b = weave_compression_spell(text.as_bytes()).unwrap();
    assert_eq!(a.mystical_frequency_codex, b.mystical_frequency_codex);
    assert_eq!(a.total_frequency_essence, b.total_frequency_essence);
    assert_eq!(a.compressed_bit_stream, b.compressed_bit_stream);
    assert_eq!(a.mystical_word_grimoire, b.mystical_word_grimoire);
}

#[test]
fn encoding_too_many_symbols_fails() {
    let big = vec![0u8; 4_194_304];
    assert!(matches!(
        weave_compression_spell(&big),
        Err(CodecError::PrecisionOverflowError)
    ));
}

#[test]
fn encoding_largest_symbol_count_succeeds() {
    let big = vec![7u8; 4_194_303];
    let a = weave_compression_spell(&big).unwrap();
    assert_eq!(a.total_frequency_essence, 4_194_303);
    assert_eq!(a.mystical_frequency_codex, vec![(7, 4_194_303, 0)]);
}
