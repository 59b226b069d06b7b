//! The decoder: checks the model, runs the interval coder backwards for
//! exactly as many symbols as were coded, then expands the dictionary
//! references.

use vstd::prelude::*;
use crate::bitstream::{BitMagicReader, initial_window};
use crate::dictionary::{expand, reconstruct_original_manuscript, view_words};
use crate::encoder::{CompressionArtifact, lemma_settled_width};
use crate::error::CodecError;
use crate::frequency::{
    Entry, cumulative_ok, find_slot, ids_increasing, lemma_ranges_within, slot_of, table_ok,
};
use crate::interval::{
    ARITHMETIC_PRECISION_LIMIT, FIRST_QTR, DecState, interval_ok, dec_symbol, target_of,
    lemma_target_in_range,
};

verus! {

/// A model that the decoder accepts: a valid table whose total stays below
/// the first quarter of the coding interval.
pub open spec fn model_ok(table: Seq<Entry>, total: int) -> bool {
    table_ok(table, total) && total < FIRST_QTR
}

/// The decoder state before any symbol.
pub open spec fn initial_dec(stream: Seq<u8>) -> DecState {
    DecState {
        low: 0,
        high: ARITHMETIC_PRECISION_LIMIT as int,
        window: initial_window(stream) as int,
        cursor: if 24 <= 8 * stream.len() { 24 } else { 8 * stream.len() },
    }
}

/// The first `n` symbols decoded from `stream` under `table`, and the
/// decoder state after them.
pub open spec fn decode_run(table: Seq<Entry>, total: int, stream: Seq<u8>, n: nat) -> (Seq<u32>, DecState)
    decreases n,
{
    if n == 0 {
        (Seq::empty(), initial_dec(stream))
    } else {
        let (syms, st) = decode_run(table, total, stream, (n - 1) as nat);
        let e = table[slot_of(table, target_of(st.window, st.low, st.high, total))];
        (syms.push(e.0), dec_symbol(st, e.2 as int, e.2 + e.1, total, stream))
    }
}

/// What decoding an artifact gives: a format error for a model that the
/// decoder does not accept, a reference error when a decoded symbol refers
/// past the dictionary, and otherwise the bytes.
pub open spec fn decode_artifact(
    table: Seq<Entry>,
    total: int,
    stream: Seq<u8>,
    words: Seq<Seq<u8>>,
) -> Result<Seq<u8>, CodecError> {
    if !model_ok(table, total) {
        Err(CodecError::FormatError)
    } else {
        match expand(decode_run(table, total, stream, total as nat).0, words) {
            Some(b) => Ok(b),
            None => Err(CodecError::CorruptReferenceError),
        }
    }
}

/// What decoding `a` gives.
pub open spec fn decode_of(a: CompressionArtifact) -> Result<Seq<u8>, CodecError> {
    decode_artifact(
        a.mystical_frequency_codex@,
        a.total_frequency_essence as int,
        a.compressed_bit_stream@,
        view_words(a.mystical_word_grimoire@),
    )
}

/// Checks the model: ascending ids, positive counts, contiguous cumulative
/// ranges from 0 to `total`, and `total` below the first quarter.
pub fn model_is_valid(table: &Vec<Entry>, total: u64) -> (r: bool)
    ensures
        r == model_ok(table@, total as int),
{
    if total >= FIRST_QTR as u64 {
        return false;
    }
    let n = table.len();
    let mut next: u64 = 0;
    let mut i: usize = 0;
    while i < n
        invariant
            n == table@.len(),
            total < FIRST_QTR,
            i <= n,
            next <= total,
            forall|a: int, b: int| 0 <= a < b < i ==> table@[a].0 < table@[b].0,
            forall|j: int| 0 <= j < i ==> table@[j].1 > 0,
            i > 0 ==> table@[0].2 == 0,
            forall|j: int| 0 <= j < i - 1 ==> #[trigger] table@[j + 1].2 == table@[j].2 + table@[j].1,
            i == 0 ==> next == 0,
            i > 0 ==> next == table@[i - 1].2 + table@[i - 1].1,
        decreases n - i,
    {
        let (id, c, start) = table[i];
        if start != next || c == 0 || c > total - next {
            proof {
                if model_ok(table@, total as int) {
                    if i > 0 {
                        assert(table@[(i - 1) + 1].2 == table@[i - 1].2 + table@[i - 1].1);
                    }
                    lemma_ranges_within(table@, total as int, i as int);
                }
            }
            return false;
        }
        if i > 0 && table[i - 1].0 >= id {
            return false;
        }
        proof {
            assert forall|a: int, b: int| 0 <= a < b < i + 1 implies table@[a].0 < table@[b].0 by {
                if b == i && a < i - 1 {
                    assert(table@[a].0 < table@[i - 1].0);
                }
            }
        }
        next = next + c;
        i = i + 1;
    }
    let ok = if n == 0 { total == 0 } else { next == total };
    proof {
        if ok {
            assert(ids_increasing(table@));
            assert(cumulative_ok(table@, total as int));
        }
    }
    ok
}

/// Decodes `total` symbols from `stream` under a model that the decoder
/// accepts.
fn decode_symbols(table: &Vec<Entry>, total: u64, stream: Vec<u8>) -> (r: Vec<u32>)
    requires
        model_ok(table@, total as int),
    ensures
        r@ == decode_run(table@, total as int, stream@, total as nat).0,
{
    let ghost sv = stream@;
    let mut reader = BitMagicReader::conjure_from_scroll(stream);
    let mut low: u32 = 0;
    let mut high: u32 = ARITHMETIC_PRECISION_LIMIT;
    let mut out: Vec<u32> = Vec::new();
    let mut k: u64 = 0;
    proof {
        crate::bitstream::lemma_bits_value_bound(crate::bitstream::code_prefix(sv, 24));
        vstd::arithmetic::power2::lemma2_to64();
    }
    while k < total
        invariant
            model_ok(table@, total as int),
            k <= total,
            reader.wf(),
            reader.stream() == sv,
            interval_ok(low as int, high as int),
            low <= reader.window() <= high,
            total <= high - low + 1,
            out@ == decode_run(table@, total as int, sv, k as nat).0,
            reader.state_with(low as int, high as int) == decode_run(table@, total as int, sv, k as nat).1,
        decreases total - k,
    {
        let t = reader.decode_mystical_target(total as u32, low, high);
        let i = find_slot(table, total, t as u64);
        let (id, c, start) = table[i];
        proof {
            lemma_ranges_within(table@, total as int, i as int);
            lemma_target_in_range(reader.window() as int, low as int, high as int, start as int, (start + c) as int, total as int);
        }
        reader.update_mystical_intervals(&mut low, &mut high, start as u32, (start + c) as u32, total as u32);
        out.push(id);
        proof {
            lemma_settled_width(low as int, high as int);
        }
        k = k + 1;
    }
    out
}

/// Decompresses an artifact: the bytes that `weave_compression_spell` was
/// given. Fails on a model that does not describe a decodable stream, and on
/// a symbol that refers past the end of the dictionary.
pub fn unweave_compression_spell(a: CompressionArtifact) -> (r: Result<Vec<u8>, CodecError>)
    ensures
        match r {
            Ok(v) => decode_of(a) == Ok::<Seq<u8>, CodecError>(v@),
            Err(e) => decode_of(a) == Err::<Seq<u8>, CodecError>(e),
        },
{
    let CompressionArtifact {
        mystical_frequency_codex: table,
        total_frequency_essence: total,
        compressed_bit_stream: stream,
        mystical_word_grimoire: words,
    } = a;
    if !model_is_valid(&table, total) {
        return Err(CodecError::FormatError);
    }
    let syms = decode_symbols(&table, total, stream);
    reconstruct_original_manuscript(syms.as_slice(), &words)
}

} // verus!
