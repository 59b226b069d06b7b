//! What holds across the library's operations.

use vstd::prelude::*;
use crate::container::{
    parse_artifact, serialized, fits_layout, ser_words, ser_table, le_bytes, lemma_le_bytes_len,
    lemma_ser_table_len, lemma_parse_words_back, lemma_parse_table_back, lemma_read_back,
    lemma_pow256_facts,
};
use crate::container::is_compressed_form_of;
use crate::bitstream::lemma_bytes_bits_injective;
use crate::decoder::{decode_artifact, model_ok};
use crate::dictionary::lemma_expand_substitute_from;
use crate::encoder::{ArtifactParts, encodes, encoder_dictionary, encoder_symbols, lemma_encoder_dictionary_len};
use crate::error::CodecError;
use crate::interval::FIRST_QTR;
use crate::tracking::lemma_decode_retraces;
use crate::frequency::lemma_table_unique;

verus! {

/// Serialization loses nothing: the container form of an artifact whose
/// lengths fit the layout parses back to the same artifact, which decodes
/// as the artifact does.
pub proof fn lemma_serialization_round_trip(p: ArtifactParts)
    requires
        fits_layout(p.table, p.stream, p.words),
    ensures
        parse_artifact(serialized(p.table, p.total, p.stream, p.words)) == Some(p),
        match parse_artifact(serialized(p.table, p.total, p.stream, p.words)) {
            Some(q) => decode_artifact(q.table, q.total as int, q.stream, q.words)
                == decode_artifact(p.table, p.total as int, p.stream, p.words),
            None => false,
        },
{
    let buf = serialized(p.table, p.total, p.stream, p.words);
    let sw = ser_words(p.words);
    let st = ser_table(p.table);
    lemma_le_bytes_len(p.words.len() as nat, 4);
    lemma_le_bytes_len(p.table.len() as nat, 4);
    lemma_le_bytes_len(p.total as nat, 8);
    lemma_le_bytes_len(p.stream.len() as nat, 4);
    lemma_ser_table_len(p.table);
    lemma_pow256_facts();
    let p1: int = 4 + sw.len() as int;
    let p2: int = p1 + 4 + st.len() as int;
    assert(buf.subrange(0, 4) =~= le_bytes(p.words.len() as nat, 4));
    lemma_read_back(buf, 0, p.words.len() as nat, 4);
    assert(buf.subrange(4, p1) =~= sw);
    lemma_parse_words_back(buf, 4, p.words);
    assert(buf.subrange(p1, p1 + 4) =~= le_bytes(p.table.len() as nat, 4));
    lemma_read_back(buf, p1, p.table.len() as nat, 4);
    assert(buf.subrange(p1 + 4, p2) =~= st);
    lemma_parse_table_back(buf, p1 + 4, p.table);
    assert(buf.subrange(p2, p2 + 8) =~= le_bytes(p.total as nat, 8));
    lemma_read_back(buf, p2, p.total as nat, 8);
    assert(buf.subrange(p2 + 8, p2 + 12) =~= le_bytes(p.stream.len() as nat, 4));
    lemma_read_back(buf, p2 + 8, p.stream.len() as nat, 4);
    assert(buf.subrange(p2 + 12, p2 + 12 + p.stream.len()) =~= p.stream);
}

/// Encoding is a function of its input: any two artifacts that both encode
/// `x` are the same, part for part.
pub proof fn lemma_encoding_deterministic(x: Seq<u8>, p: ArtifactParts, q: ArtifactParts)
    requires
        encodes(p, x),
        encodes(q, x),
    ensures
        p == q,
{
    let syms = encoder_symbols(x);
    lemma_table_unique(p.table, q.table, syms);
    lemma_bytes_bits_injective(p.stream, q.stream);
}

/// Compression is a function of its input: any two buffers that are both
/// the compressed form of `x` are byte for byte the same.
pub proof fn lemma_compression_deterministic(x: Seq<u8>, b1: Seq<u8>, b2: Seq<u8>)
    requires
        is_compressed_form_of(b1, x),
        is_compressed_form_of(b2, x),
    ensures
        b1 == b2,
{
    let p = choose|p: ArtifactParts|
        encodes(p, x) && fits_layout(p.table, p.stream, p.words) && b1 == serialized(p.table, p.total, p.stream, p.words);
    let q = choose|q: ArtifactParts|
        encodes(q, x) && fits_layout(q.table, q.stream, q.words) && b2 == serialized(q.table, q.total, q.stream, q.words);
    lemma_encoding_deterministic(x, p, q);
}

/// Decoding undoes encoding: whenever encoding `x` succeeds (its symbols fit
/// the coder's precision), the artifact that encodes `x` decodes to `x`.
pub proof fn lemma_round_trip(x: Seq<u8>, p: ArtifactParts)
    requires
        encodes(p, x),
        encoder_symbols(x).len() < FIRST_QTR,
    ensures
        decode_artifact(p.table, p.total as int, p.stream, p.words) == Ok::<Seq<u8>, CodecError>(x),
{
    let syms = encoder_symbols(x);
    let n = syms.len() as int;
    assert(syms.take(n) =~= syms);
    assert(model_ok(p.table, p.total as int));
    lemma_decode_retraces(p.table, syms, p.stream, n);
    lemma_encoder_dictionary_len(x);
    lemma_expand_substitute_from(x, encoder_dictionary(x), 0);
    assert(x.subrange(0, x.len() as int) =~= x);
}

/// Decompression undoes compression: the compressed form of `x` parses,
/// and what it holds decodes to `x`.
pub proof fn lemma_compress_round_trip(x: Seq<u8>, b: Seq<u8>)
    requires
        is_compressed_form_of(b, x),
        encoder_symbols(x).len() < FIRST_QTR,
    ensures
        match parse_artifact(b) {
            Some(q) => decode_artifact(q.table, q.total as int, q.stream, q.words) == Ok::<Seq<u8>, CodecError>(x),
            None => false,
        },
{
    let p = choose|p: ArtifactParts|
        encodes(p, x) && fits_layout(p.table, p.stream, p.words) && b == serialized(p.table, p.total, p.stream, p.words);
    lemma_serialization_round_trip(p);
    lemma_round_trip(x, p);
}

} // verus!
