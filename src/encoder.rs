//! The encoder: dictionary, symbols, frequency model, then the interval
//! coder over the symbols in order. Its result is the artifact that the
//! decoder needs and nothing more.

use vstd::prelude::*;
use crate::bitstream::{BitMagicWriter, bytes_bits, padded, lemma_bytes_bits_len};
use crate::dictionary::{
    DictionaryConfig, discover_profitable_word_enchantments, transform_manuscript_to_symbols,
    dictionary_of, substitute, select, view_words,
};
use crate::error::CodecError;
use crate::frequency::{
    Entry, analyze_symbolic_frequencies, find_symbol, is_table_of, index_of, lemma_index_unique,
    lemma_ranges_within,
};
use crate::interval::{
    ARITHMETIC_PRECISION_LIMIT, FIRST_QTR, EncState, interval_ok, settled, enc_symbol,
    enc_final_bits,
};

verus! {

/// Everything needed to reverse a compression: the frequency model, the
/// symbol count, the coded bits and the dictionary.
pub struct CompressionArtifact {
    /// `(symbol, count, cumulative_start)`, ascending by symbol.
    pub mystical_frequency_codex: Vec<Entry>,
    /// Number of coded symbols: the sum of the counts.
    pub total_frequency_essence: u64,
    /// The coded bits, most significant first, zero-padded to whole bytes.
    pub compressed_bit_stream: Vec<u8>,
    /// Dictionary words; symbol `256 + j` stands for word `j`.
    pub mystical_word_grimoire: Vec<Vec<u8>>,
}

/// The encoder state before any symbol.
pub open spec fn initial_enc() -> EncState {
    EncState { low: 0, high: ARITHMETIC_PRECISION_LIMIT as int, pending: 0, bits: Seq::empty() }
}

/// The encoder state after coding `syms` in order under `table`.
pub open spec fn encode_symbols(table: Seq<Entry>, total: int, syms: Seq<u32>) -> EncState
    decreases syms.len(),
{
    if syms.len() == 0 {
        initial_enc()
    } else {
        let s = encode_symbols(table, total, syms.drop_last());
        let e = table[index_of(table, syms.last())];
        enc_symbol(s, e.2 as int, e.2 + e.1, total)
    }
}

/// The bits of a finished stream for `syms` under `table`, padded to whole
/// bytes.
pub open spec fn stream_bits(table: Seq<Entry>, syms: Seq<u32>) -> Seq<bool> {
    padded(enc_final_bits(encode_symbols(table, syms.len() as int, syms)))
}

/// The dictionary that the encoder uses for `x`.
pub open spec fn encoder_dictionary(x: Seq<u8>) -> Seq<Seq<u8>> {
    dictionary_of(x, 1000, 25)
}

/// The symbols that the encoder codes for `x`.
pub open spec fn encoder_symbols(x: Seq<u8>) -> Seq<u32> {
    substitute(x, encoder_dictionary(x))
}

/// An artifact's parts as the spec functions see them.
pub struct ArtifactParts {
    pub table: Seq<Entry>,
    pub total: u64,
    pub stream: Seq<u8>,
    pub words: Seq<Seq<u8>>,
}

/// The parts of an artifact.
pub open spec fn parts_of(a: CompressionArtifact) -> ArtifactParts {
    ArtifactParts {
        table: a.mystical_frequency_codex@,
        total: a.total_frequency_essence,
        stream: a.compressed_bit_stream@,
        words: view_words(a.mystical_word_grimoire@),
    }
}

/// `p` encodes `x`: the dictionary chosen for `x`, the frequency table of
/// its symbols, their number, and the coded stream.
pub open spec fn encodes(p: ArtifactParts, x: Seq<u8>) -> bool {
    let syms = encoder_symbols(x);
    &&& p.words == encoder_dictionary(x)
    &&& is_table_of(p.table, syms)
    &&& p.total == syms.len()
    &&& bytes_bits(p.stream) == stream_bits(p.table, syms)
}

/// `a` is the artifact of `x`.
pub open spec fn is_artifact_of(a: CompressionArtifact, x: Seq<u8>) -> bool {
    encodes(parts_of(a), x)
}

/// Selection keeps at most `k` words.
pub proof fn lemma_select_len(c: Seq<(Seq<u8>, int)>, k: nat)
    ensures
        select(c, k).len() <= k,
    decreases k,
{
    if k > 0 && c.len() > 0 {
        lemma_select_len(c.remove(crate::dictionary::best_index(c)), (k - 1) as nat);
    }
}

/// A settled interval is wider than the first quarter.
pub proof fn lemma_settled_width(low: int, high: int)
    requires
        settled(low, high),
    ensures
        high - low + 1 > FIRST_QTR,
{
}

/// The index of a symbol that the table holds.
fn symbol_index(table: &Vec<Entry>, s: u32) -> (i: usize)
    requires
        crate::frequency::ids_increasing(table@),
        exists|j: int| 0 <= j < table@.len() && table@[j].0 == s,
    ensures
        i < table@.len(),
        table@[i as int].0 == s,
        i == index_of(table@, s),
{
    match find_symbol(table, s) {
        Ok(i) => {
            proof {
                lemma_index_unique(table@, s, i as int);
            }
            i
        },
        Err(_) => {
            // Cannot happen: the table holds `s`.
            proof {
                let j = choose|j: int| 0 <= j < table@.len() && table@[j].0 == s;
                assert(table@[j].0 != s);
            }
            0
        },
    }
}

/// Compresses `x`: chooses the dictionary, rewrites `x` into symbols,
/// builds their frequency table and codes them. Fails when the symbols are
/// too many for the coder's precision.
pub fn weave_compression_spell(x: &[u8]) -> (r: Result<CompressionArtifact, CodecError>)
    ensures
        match r {
            Ok(a) => {
                &&& encoder_symbols(x@).len() < FIRST_QTR
                &&& is_artifact_of(a, x@)
                &&& a.compressed_bit_stream@.len() <= 3 * encoder_symbols(x@).len() + 2
            },
            Err(e) => {
                &&& encoder_symbols(x@).len() >= FIRST_QTR
                &&& e == CodecError::PrecisionOverflowError
            },
        },
{
    let config = DictionaryConfig::standard();
    let words = discover_profitable_word_enchantments(x, &config);
    proof {
        let ts = crate::dictionary::tokens(x@);
        if x@.len() >= 1000 {
            lemma_select_len(crate::dictionary::candidates(crate::dictionary::distinct_words(ts), ts), 25);
        }
        assert(view_words(words@).len() == words@.len());
    }
    let syms = transform_manuscript_to_symbols(x, &words);
    if syms.len() >= FIRST_QTR as usize {
        return Err(CodecError::PrecisionOverflowError);
    }
    let analysis = analyze_symbolic_frequencies(syms.as_slice());
    let table = analysis.frequency_entries;
    let total = analysis.total_frequency_mass;
    let ghost sv = syms@;
    let mut writer = BitMagicWriter::conjure_new(Vec::new());
    let mut low: u32 = 0;
    let mut high: u32 = ARITHMETIC_PRECISION_LIMIT;
    let mut k: usize = 0;
    proof {
        assert(bytes_bits(Seq::<u8>::empty()) == Seq::<bool>::empty());
        assert(sv.take(0) =~= Seq::<u32>::empty());
    }
    while k < syms.len()
        invariant
            sv == syms@,
            sv.len() < FIRST_QTR,
            is_table_of(table@, sv),
            total == sv.len(),
            k <= sv.len(),
            writer.wf(),
            interval_ok(low as int, high as int),
            total <= high - low + 1,
            writer.state_with(low as int, high as int) == encode_symbols(table@, total as int, sv.take(k as int)),
            writer.bits().len() + writer.pending() <= 24 * k,
        decreases sv.len() - k,
    {
        let s = syms[k];
        proof {
            assert(sv.contains(s)) by {
                assert(sv[k as int] == s);
            }
        }
        let i = symbol_index(&table, s);
        let (_, c, start) = table[i];
        proof {
            lemma_ranges_within(table@, total as int, i as int);
            assert(sv.take(k + 1).drop_last() == sv.take(k as int));
            assert(sv.take(k + 1).last() == s);
        }
        writer.encode_mystical_symbol(&mut low, &mut high, start as u32, (start + c) as u32, total as u32);
        proof {
            lemma_settled_width(low as int, high as int);
        }
        k = k + 1;
    }
    proof {
        assert(sv.take(sv.len() as int) == sv);
    }
    let ghost closing = enc_final_bits(writer.state_with(low as int, high as int));
    let stream = writer.complete_compression_ritual();
    proof {
        lemma_bytes_bits_len(stream@);
        assert(closing.len() <= 24 * sv.len() + 2);
        assert(8 * stream@.len() <= 24 * sv.len() + 9);
    }
    Ok(CompressionArtifact {
        mystical_frequency_codex: table,
        total_frequency_essence: total,
        compressed_bit_stream: stream,
        mystical_word_grimoire: words,
    })
}

/// The encoder's dictionary has at most 25 words.
pub proof fn lemma_encoder_dictionary_len(x: Seq<u8>)
    ensures
        encoder_dictionary(x).len() <= 25,
{
    if x.len() >= 1000 {
        let ts = crate::dictionary::tokens(x);
        lemma_select_len(crate::dictionary::candidates(crate::dictionary::distinct_words(ts), ts), 25);
    }
}

} // verus!
