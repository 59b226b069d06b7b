//! Lossless compression of byte strings by static-model arithmetic coding,
//! with a whole-word dictionary pass in front of the entropy coder.
//!
//! The pieces, leaf to root: the bit channel (`bitstream`), the interval
//! arithmetic it serves (`interval`), the frequency model (`frequency`), the
//! word dictionary (`dictionary`), the encoder and decoder, and the flat
//! container format (`container`). Failures are `error::CodecError`.
//! `laws` states what holds across them; `tracking` proves that the decoder
//! retraces the encoder, on which the round trip rests.

pub mod bitstream;
pub mod container;
pub mod decoder;
pub mod dictionary;
pub mod encoder;
pub mod error;
pub mod frequency;
pub mod interval;
pub mod laws;
pub mod tracking;

pub use bitstream::{BitMagicReader, BitMagicWriter};
pub use container::{compress_data, decompress_data, deserialize_artifact, serialize_artifact};
pub use decoder::{model_is_valid, unweave_compression_spell};
pub use dictionary::{
    discover_profitable_word_enchantments, reconstruct_original_manuscript,
    transform_manuscript_to_symbols, DictionaryConfig,
};
pub use encoder::{weave_compression_spell, CompressionArtifact};
pub use error::CodecError;
pub use frequency::{analyze_symbolic_frequencies, find_slot, find_symbol, FrequencyAnalysisWisdom};
pub use interval::{ARITHMETIC_PRECISION_LIMIT, FIRST_QTR, HALF, THIRD_QTR};
