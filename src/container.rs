//! The flat container: an artifact laid out as little-endian fixed-width
//! integers and raw bytes.
//!
//! ```text
//! u32 word count,   then per word:  u32 length, the word's bytes
//! u32 entry count,  then per entry: u32 symbol, u64 count, u64 cumulative start
//! u64 total
//! u32 stream length, then the stream's bytes
//! ```

use vstd::prelude::*;
use crate::decoder::{decode_artifact, unweave_compression_spell};
use crate::dictionary::view_words;
use crate::encoder::{
    ArtifactParts, CompressionArtifact, encoder_symbols, encodes, parts_of, weave_compression_spell,
};
use crate::error::CodecError;
use crate::frequency::Entry;
use crate::interval::FIRST_QTR;

verus! {

/// `256^n`.
pub open spec fn pow256(n: nat) -> nat
    decreases n,
{
    if n == 0 {
        1
    } else {
        256 * pow256((n - 1) as nat)
    }
}

/// The `n` low bytes of `v`, least significant first.
pub open spec fn le_bytes(v: nat, n: nat) -> Seq<u8>
    decreases n,
{
    if n == 0 {
        Seq::empty()
    } else {
        seq![(v % 256) as u8] + le_bytes(v / 256, (n - 1) as nat)
    }
}

/// The value of a little-endian byte string.
pub open spec fn le_value(s: Seq<u8>) -> nat
    decreases s.len(),
{
    if s.len() == 0 {
        0
    } else {
        s[0] as nat + 256 * le_value(s.drop_first())
    }
}

/// The words, each as its length and its bytes.
pub open spec fn ser_words(ws: Seq<Seq<u8>>) -> Seq<u8>
    decreases ws.len(),
{
    if ws.len() == 0 {
        Seq::empty()
    } else {
        ser_words(ws.drop_last()) + le_bytes(ws.last().len(), 4) + ws.last()
    }
}

/// One table entry: symbol, count, cumulative start.
pub open spec fn ser_entry(e: Entry) -> Seq<u8> {
    le_bytes(e.0 as nat, 4) + le_bytes(e.1 as nat, 8) + le_bytes(e.2 as nat, 8)
}

/// The table entries, one after another.
pub open spec fn ser_table(t: Seq<Entry>) -> Seq<u8>
    decreases t.len(),
{
    if t.len() == 0 {
        Seq::empty()
    } else {
        ser_table(t.drop_last()) + ser_entry(t.last())
    }
}

/// The serialized form of an artifact's parts.
pub open spec fn serialized(table: Seq<Entry>, total: u64, stream: Seq<u8>, words: Seq<Seq<u8>>) -> Seq<u8> {
    le_bytes(words.len(), 4) + ser_words(words) + le_bytes(table.len(), 4) + ser_table(table)
        + le_bytes(total as nat, 8) + le_bytes(stream.len(), 4) + stream
}

/// Every length that the layout stores in a `u32` fits one.
pub open spec fn fits_layout(table: Seq<Entry>, stream: Seq<u8>, words: Seq<Seq<u8>>) -> bool {
    &&& words.len() <= u32::MAX
    &&& forall|j: int| 0 <= j < words.len() ==> (#[trigger] words[j]).len() <= u32::MAX
    &&& table.len() <= u32::MAX
    &&& stream.len() <= u32::MAX
}

/// The `n`-byte little-endian value at `pos`, if the buffer holds it.
pub open spec fn read_le(buf: Seq<u8>, pos: int, n: nat) -> Option<nat> {
    if 0 <= pos && pos + n <= buf.len() {
        Some(le_value(buf.subrange(pos, pos + n)))
    } else {
        None
    }
}

/// `k` words read from `pos` on, and the position after them.
pub open spec fn parse_words(buf: Seq<u8>, pos: int, k: nat) -> Option<(Seq<Seq<u8>>, int)>
    decreases k,
{
    if k == 0 {
        Some((Seq::empty(), pos))
    } else {
        match parse_words(buf, pos, (k - 1) as nat) {
            Some((ws, p)) => match read_le(buf, p, 4) {
                Some(len) => if p + 4 + len <= buf.len() {
                    Some((ws.push(buf.subrange(p + 4, p + 4 + len)), p + 4 + len))
                } else {
                    None
                },
                None => None,
            },
            None => None,
        }
    }
}

/// The entry whose 20 bytes start at `p`, which the buffer must hold.
pub open spec fn entry_at(buf: Seq<u8>, p: int) -> Entry {
    (
        le_value(buf.subrange(p, p + 4)) as u32,
        le_value(buf.subrange(p + 4, p + 12)) as u64,
        le_value(buf.subrange(p + 12, p + 20)) as u64,
    )
}

/// `k` table entries read from `pos` on, and the position after them.
pub open spec fn parse_table(buf: Seq<u8>, pos: int, k: nat) -> Option<(Seq<Entry>, int)>
    decreases k,
{
    if k == 0 {
        Some((Seq::empty(), pos))
    } else {
        match parse_table(buf, pos, (k - 1) as nat) {
            Some((t, p)) => if p + 20 <= buf.len() {
                Some((t.push(entry_at(buf, p)), p + 20))
            } else {
                None
            },
            None => None,
        }
    }
}

/// The artifact parts that a buffer holds; none where a declared length
/// runs past the end. Bytes after the stream are ignored.
pub open spec fn parse_artifact(buf: Seq<u8>) -> Option<ArtifactParts> {
    match read_le(buf, 0, 4) {
        None => None,
        Some(nw) => match parse_words(buf, 4, nw) {
            None => None,
            Some((words, p1)) => match read_le(buf, p1, 4) {
                None => None,
                Some(nt) => match parse_table(buf, p1 + 4, nt) {
                    None => None,
                    Some((table, p2)) => match read_le(buf, p2, 8) {
                        None => None,
                        Some(total) => match read_le(buf, p2 + 8, 4) {
                            None => None,
                            Some(ns) => if p2 + 12 + ns <= buf.len() {
                                Some(ArtifactParts {
                                    table,
                                    total: total as u64,
                                    stream: buf.subrange(p2 + 12, p2 + 12 + ns),
                                    words,
                                })
                            } else {
                                None
                            },
                        },
                    },
                },
            },
        },
    }
}

/// `le_bytes` gives exactly `n` bytes.
pub proof fn lemma_le_bytes_len(v: nat, n: nat)
    ensures
        le_bytes(v, n).len() == n,
    decreases n,
{
    if n > 0 {
        lemma_le_bytes_len(v / 256, (n - 1) as nat);
    }
}

/// Reading back the bytes of a value that fits gives the value.
pub proof fn lemma_le_round_trip(v: nat, n: nat)
    requires
        v < pow256(n),
    ensures
        le_value(le_bytes(v, n)) == v,
    decreases n,
{
    if n > 0 {
        lemma_le_round_trip(v / 256, (n - 1) as nat);
        lemma_le_bytes_len(v / 256, (n - 1) as nat);
        assert(le_bytes(v, n).drop_first() == le_bytes(v / 256, (n - 1) as nat));
    }
}

/// A value of `n` bytes is below `256^n`.
pub proof fn lemma_le_value_bound(s: Seq<u8>)
    ensures
        le_value(s) < pow256(s.len()),
    decreases s.len(),
{
    if s.len() > 0 {
        lemma_le_value_bound(s.drop_first());
    }
}

/// `256^4` and `256^8`, the bounds of `u32` and `u64` plus one.
pub proof fn lemma_pow256_facts()
    ensures
        pow256(4) == 0x1_0000_0000,
        pow256(8) == 0x1_0000_0000_0000_0000,
{
    reveal_with_fuel(pow256, 9);
}

/// `256^n` grows with `n`.
proof fn lemma_pow256_mono(a: nat, b: nat)
    requires
        a <= b,
    ensures
        pow256(a) <= pow256(b),
    decreases b,
{
    if a < b {
        lemma_pow256_mono(a, (b - 1) as nat);
    }
}

/// Appends the `n` low bytes of `v`, least significant first.
fn push_le(out: &mut Vec<u8>, v: u64, n: usize)
    ensures
        final(out)@ == old(out)@ + le_bytes(v as nat, n as nat),
{
    let mut cur: u64 = v;
    let mut i: usize = 0;
    proof {
        assert(old(out)@ + le_bytes(v as nat, n as nat) == out@ + le_bytes(cur as nat, (n - i) as nat));
    }
    while i < n
        invariant
            i <= n,
            old(out)@ + le_bytes(v as nat, n as nat) == out@ + le_bytes(cur as nat, (n - i) as nat),
        decreases n - i,
    {
        let ghost prev = out@;
        out.push((cur % 256) as u8);
        proof {
            assert(le_bytes(cur as nat, (n - i) as nat) == seq![(cur % 256) as u8] + le_bytes((cur / 256) as nat, (n - i - 1) as nat));
            assert(out@ + le_bytes((cur / 256) as nat, (n - i - 1) as nat) =~= prev + le_bytes(cur as nat, (n - i) as nat));
        }
        cur = cur / 256;
        i = i + 1;
    }
    proof {
        assert(out@ + le_bytes(cur as nat, 0) =~= out@);
    }
}

/// Appends raw bytes.
fn push_bytes(out: &mut Vec<u8>, w: &Vec<u8>)
    ensures
        final(out)@ == old(out)@ + w@,
{
    let mut k: usize = 0;
    while k < w.len()
        invariant
            k <= w@.len(),
            out@ == old(out)@ + w@.take(k as int),
        decreases w@.len() - k,
    {
        out.push(w[k]);
        k = k + 1;
        proof {
            assert(out@ =~= old(out)@ + w@.take(k as int));
        }
    }
    proof {
        assert(w@.take(w@.len() as int) == w@);
    }
}

/// Lays an artifact out in the container format.
pub fn serialize_artifact(a: &CompressionArtifact) -> (r: Vec<u8>)
    requires
        fits_layout(a.mystical_frequency_codex@, a.compressed_bit_stream@, view_words(a.mystical_word_grimoire@)),
    ensures
        r@ == serialized(
            a.mystical_frequency_codex@,
            a.total_frequency_essence,
            a.compressed_bit_stream@,
            view_words(a.mystical_word_grimoire@),
        ),
{
    let words = &a.mystical_word_grimoire;
    let table = &a.mystical_frequency_codex;
    let ghost wv = view_words(words@);
    let mut out: Vec<u8> = Vec::new();
    push_le(&mut out, words.len() as u64, 4);
    let ghost head = out@;
    let mut j: usize = 0;
    proof {
        assert(wv.take(0) =~= Seq::<Seq<u8>>::empty());
        assert(out@ =~= head + ser_words(wv.take(0)));
    }
    while j < words.len()
        invariant
            wv == view_words(words@),
            j <= words@.len(),
            out@ == head + ser_words(wv.take(j as int)),
        decreases words@.len() - j,
    {
        let ghost prev = out@;
        push_le(&mut out, words[j].len() as u64, 4);
        push_bytes(&mut out, &words[j]);
        proof {
            assert(wv.take(j + 1).drop_last() == wv.take(j as int));
            assert(wv.take(j + 1).last() == words@[j as int]@);
            assert(out@ =~= head + ser_words(wv.take(j + 1)));
        }
        j = j + 1;
    }
    proof {
        assert(wv.take(words@.len() as int) == wv);
    }
    push_le(&mut out, table.len() as u64, 4);
    let ghost head2 = out@;
    let mut i: usize = 0;
    proof {
        assert(table@.take(0) =~= Seq::<Entry>::empty());
        assert(out@ =~= head2 + ser_table(table@.take(0)));
    }
    while i < table.len()
        invariant
            i <= table@.len(),
            out@ == head2 + ser_table(table@.take(i as int)),
        decreases table@.len() - i,
    {
        let (s, c, start) = table[i];
        push_le(&mut out, s as u64, 4);
        push_le(&mut out, c, 8);
        push_le(&mut out, start, 8);
        proof {
            assert(table@.take(i + 1).drop_last() == table@.take(i as int));
            assert(table@.take(i + 1).last() == table@[i as int]);
            assert(out@ =~= head2 + ser_table(table@.take(i + 1)));
        }
        i = i + 1;
    }
    proof {
        assert(table@.take(table@.len() as int) == table@);
    }
    push_le(&mut out, a.total_frequency_essence, 8);
    push_le(&mut out, a.compressed_bit_stream.len() as u64, 4);
    push_bytes(&mut out, &a.compressed_bit_stream);
    proof {
        assert(out@ =~= serialized(table@, a.total_frequency_essence, a.compressed_bit_stream@, wv));
    }
    out
}

/// Once a word cannot be read, no longer list of words can be.
proof fn lemma_parse_words_none(buf: Seq<u8>, pos: int, k: nat, m: nat)
    requires
        k <= m,
        parse_words(buf, pos, k) is None,
    ensures
        parse_words(buf, pos, m) is None,
    decreases m,
{
    if k < m {
        lemma_parse_words_none(buf, pos, k, (m - 1) as nat);
    }
}

/// Once an entry cannot be read, no longer table can be.
proof fn lemma_parse_table_none(buf: Seq<u8>, pos: int, k: nat, m: nat)
    requires
        k <= m,
        parse_table(buf, pos, k) is None,
    ensures
        parse_table(buf, pos, m) is None,
    decreases m,
{
    if k < m {
        lemma_parse_table_none(buf, pos, k, (m - 1) as nat);
    }
}

/// The `n`-byte little-endian value at `pos`.
fn read_le_at(buf: &[u8], pos: usize, n: usize) -> (v: u64)
    requires
        n <= 8,
        pos + n <= buf@.len(),
    ensures
        v as nat == le_value(buf@.subrange(pos as int, pos + n)),
{
    let mut v: u64 = 0;
    let mut j: usize = n;
    let len = buf.len();
    proof {
        assert(buf@.subrange(pos + n, pos + n) =~= Seq::<u8>::empty());
        lemma_pow256_facts();
    }
    while j > 0
        invariant
            j <= n,
            n <= 8,
            len == buf@.len(),
            pos + n <= buf@.len(),
            v as nat == le_value(buf@.subrange(pos + j, pos + n)),
            (v as nat) < pow256((n - j) as nat),
        decreases j,
    {
        j = j - 1;
        proof {
            lemma_pow256_mono((n - j) as nat, 8);
            lemma_pow256_facts();
            assert(pow256((n - j) as nat) == 256 * pow256((n - j - 1) as nat));
            assert(v * 256 + 255 <= u64::MAX) by (nonlinear_arith)
                requires
                    (v as nat) < pow256((n - j - 1) as nat),
                    pow256((n - j) as nat) == 256 * pow256((n - j - 1) as nat),
                    pow256((n - j) as nat) <= 0x1_0000_0000_0000_0000;
            let sub = buf@.subrange(pos + j, pos + n);
            assert(sub[0] == buf@[pos + j]);
            assert(sub.drop_first() =~= buf@.subrange(pos + j + 1, pos + n));
            lemma_pow256_mono((n - j) as nat, 8);
            lemma_pow256_facts();
            assert(pow256((n - j) as nat) == 256 * pow256((n - j - 1) as nat));
        }
        let idx = pos + j;
        let b = buf[idx] as u64;
        v = v * 256 + b;
    }
    v
}

/// The bytes of `buf` from `from` up to `to`.
fn copy_range(buf: &[u8], from: usize, to: usize) -> (r: Vec<u8>)
    requires
        from <= to <= buf@.len(),
    ensures
        r@ == buf@.subrange(from as int, to as int),
{
    let mut out: Vec<u8> = Vec::new();
    let mut k: usize = from;
    while k < to
        invariant
            from <= k <= to,
            to <= buf@.len(),
            out@ == buf@.subrange(from as int, k as int),
        decreases to - k,
    {
        out.push(buf[k]);
        k = k + 1;
        proof {
            assert(out@ =~= buf@.subrange(from as int, k as int));
        }
    }
    out
}

/// Reads an artifact back from the container format. Fails when a declared
/// length runs past the end of the buffer; bytes after the stream are
/// ignored.
pub fn deserialize_artifact(buf: &[u8]) -> (r: Result<CompressionArtifact, CodecError>)
    ensures
        match r {
            Ok(a) => parse_artifact(buf@) == Some(parts_of(a)),
            Err(e) => parse_artifact(buf@) is None && e == CodecError::FormatError,
        },
{
    let n = buf.len();
    if n < 4 {
        return Err(CodecError::FormatError);
    }
    let nw = read_le_at(buf, 0, 4);
    let mut pos: usize = 4;
    let mut words: Vec<Vec<u8>> = Vec::new();
    let mut i: u64 = 0;
    proof {
        assert(view_words(words@) =~= Seq::<Seq<u8>>::empty());
    }
    while i < nw
        invariant
            n == buf@.len(),
            i <= nw,
            pos <= n,
            read_le(buf@, 0, 4) == Some(nw as nat),
            parse_words(buf@, 4, i as nat) == Some((view_words(words@), pos as int)),
        decreases nw - i,
    {
        if n - pos < 4 {
            proof {
                lemma_parse_words_none(buf@, 4, (i + 1) as nat, nw as nat);
            }
            return Err(CodecError::FormatError);
        }
        let len = read_le_at(buf, pos, 4);
        if len > (n - pos - 4) as u64 {
            proof {
                lemma_parse_words_none(buf@, 4, (i + 1) as nat, nw as nat);
            }
            return Err(CodecError::FormatError);
        }
        let w = copy_range(buf, pos + 4, pos + 4 + len as usize);
        let ghost prev = view_words(words@);
        words.push(w);
        proof {
            assert(view_words(words@) =~= prev.push(w@));
        }
        pos = pos + 4 + len as usize;
        i = i + 1;
    }
    let ghost p1 = pos as int;
    if n - pos < 4 {
        return Err(CodecError::FormatError);
    }
    let nt = read_le_at(buf, pos, 4);
    pos = pos + 4;
    let mut table: Vec<Entry> = Vec::new();
    let mut k: u64 = 0;
    while k < nt
        invariant
            n == buf@.len(),
            k <= nt,
            pos <= n,
            read_le(buf@, 0, 4) == Some(nw as nat),
            parse_words(buf@, 4, nw as nat) == Some((view_words(words@), p1)),
            read_le(buf@, p1, 4) == Some(nt as nat),
            parse_table(buf@, p1 + 4, k as nat) == Some((table@, pos as int)),
        decreases nt - k,
    {
        if n - pos < 20 {
            proof {
                lemma_parse_table_none(buf@, p1 + 4, (k + 1) as nat, nt as nat);
            }
            return Err(CodecError::FormatError);
        }
        let s = read_le_at(buf, pos, 4);
        let c = read_le_at(buf, pos + 4, 8);
        let start = read_le_at(buf, pos + 12, 8);
        proof {
            lemma_le_value_bound(buf@.subrange(pos as int, pos + 4));
            lemma_pow256_facts();
        }
        table.push((s as u32, c, start));
        pos = pos + 20;
        k = k + 1;
    }
    if n - pos < 12 {
        return Err(CodecError::FormatError);
    }
    let total = read_le_at(buf, pos, 8);
    let ns = read_le_at(buf, pos + 8, 4);
    if ns > (n - pos - 12) as u64 {
        return Err(CodecError::FormatError);
    }
    let stream = copy_range(buf, pos + 12, pos + 12 + ns as usize);
    let a = CompressionArtifact {
        mystical_frequency_codex: table,
        total_frequency_essence: total,
        compressed_bit_stream: stream,
        mystical_word_grimoire: words,
    };
    proof {
        assert(parse_artifact(buf@) == Some(parts_of(a)));
    }
    Ok(a)
}

/// `b` is the compressed form of `x`: the container layout of the artifact
/// that encodes `x`.
pub open spec fn is_compressed_form_of(b: Seq<u8>, x: Seq<u8>) -> bool {
    exists|p: ArtifactParts|
        encodes(p, x) && fits_layout(p.table, p.stream, p.words) && b == serialized(p.table, p.total, p.stream, p.words)
}

/// Compresses `x` into one buffer: the artifact of `x` in the container
/// layout. Fails when the symbols are too many for the coder's precision.
pub fn compress_data(x: &[u8]) -> (r: Result<Vec<u8>, CodecError>)
    requires
        x@.len() <= u32::MAX,
    ensures
        match r {
            Ok(b) => encoder_symbols(x@).len() < FIRST_QTR && is_compressed_form_of(b@, x@),
            Err(e) => encoder_symbols(x@).len() >= FIRST_QTR && e == CodecError::PrecisionOverflowError,
        },
{
    let a = match weave_compression_spell(x) {
        Ok(a) => a,
        Err(e) => return Err(e),
    };
    proof {
        let p = parts_of(a);
        crate::dictionary::lemma_dictionary_word_len(x@, 1000, 25);
        crate::frequency::lemma_table_len(p.table, p.total as int);
        crate::encoder::lemma_encoder_dictionary_len(x@);
        assert(fits_layout(p.table, p.stream, p.words));
    }
    let b = serialize_artifact(&a);
    proof {
        assert(encodes(parts_of(a), x@));
    }
    Ok(b)
}

/// Decompresses a buffer in the container layout: the bytes that the
/// artifact it holds decodes to. Fails with a format error where a declared
/// length runs past the end, and as decoding fails otherwise.
pub fn decompress_data(compressed: Vec<u8>) -> (r: Result<Vec<u8>, CodecError>)
    ensures
        match parse_artifact(compressed@) {
            None => r == Err::<Vec<u8>, CodecError>(CodecError::FormatError),
            Some(p) => match r {
                Ok(v) => decode_artifact(p.table, p.total as int, p.stream, p.words) == Ok::<Seq<u8>, CodecError>(v@),
                Err(e) => decode_artifact(p.table, p.total as int, p.stream, p.words) == Err::<Seq<u8>, CodecError>(e),
            },
        },
{
    let a = match deserialize_artifact(compressed.as_slice()) {
        Ok(a) => a,
        Err(e) => return Err(e),
    };
    unweave_compression_spell(a)
}

/// The bytes of a value that fits read back as the value.
pub proof fn lemma_read_back(buf: Seq<u8>, pos: int, v: nat, n: nat)
    requires
        0 <= pos,
        pos + n <= buf.len(),
        buf.subrange(pos, pos + n) == le_bytes(v, n),
        v < pow256(n),
    ensures
        read_le(buf, pos, n) == Some(v),
{
    lemma_le_round_trip(v, n);
}

/// Each entry takes twenty bytes.
pub proof fn lemma_ser_table_len(t: Seq<Entry>)
    ensures
        ser_table(t).len() == 20 * t.len(),
    decreases t.len(),
{
    if t.len() > 0 {
        lemma_ser_table_len(t.drop_last());
        lemma_le_bytes_len(t.last().0 as nat, 4);
        lemma_le_bytes_len(t.last().1 as nat, 8);
        lemma_le_bytes_len(t.last().2 as nat, 8);
    }
}

/// Serialized words parse back as the same words.
pub proof fn lemma_parse_words_back(buf: Seq<u8>, pos: int, ws: Seq<Seq<u8>>)
    requires
        0 <= pos,
        pos + ser_words(ws).len() <= buf.len(),
        buf.subrange(pos, pos + ser_words(ws).len()) == ser_words(ws),
        forall|j: int| 0 <= j < ws.len() ==> (#[trigger] ws[j]).len() <= u32::MAX,
    ensures
        parse_words(buf, pos, ws.len()) == Some((ws, pos + ser_words(ws).len())),
    decreases ws.len(),
{
    if ws.len() > 0 {
        let init = ws.drop_last();
        let w = ws.last();
        let si = ser_words(init);
        let sl = si.len() as int;
        let wl = w.len() as int;
        let p = pos + sl;
        lemma_le_bytes_len(w.len() as nat, 4);
        assert(ser_words(ws) == si + le_bytes(w.len() as nat, 4) + w);
        assert(buf.subrange(pos, p) =~= si) by {
            assert(buf.subrange(pos, p) =~= buf.subrange(pos, pos + ser_words(ws).len()).subrange(0, sl));
        }
        assert forall|j: int| 0 <= j < init.len() implies (#[trigger] init[j]).len() <= u32::MAX by {
            assert(init[j] == ws[j]);
        }
        lemma_parse_words_back(buf, pos, init);
        assert(buf.subrange(p, p + 4) =~= le_bytes(w.len() as nat, 4)) by {
            assert(buf.subrange(p, p + 4) =~= buf.subrange(pos, pos + ser_words(ws).len()).subrange(sl, sl + 4));
        }
        assert(w == ws[ws.len() - 1]);
        lemma_pow256_facts();
        lemma_read_back(buf, p, w.len() as nat, 4);
        assert(buf.subrange(p + 4, p + 4 + w.len()) =~= w) by {
            assert(buf.subrange(p + 4, p + 4 + w.len()) =~= buf.subrange(pos, pos + ser_words(ws).len()).subrange(sl + 4, sl + 4 + wl));
        }
        assert(init.push(w) == ws);
    }
}

/// Serialized entries parse back as the same entries.
pub proof fn lemma_parse_table_back(buf: Seq<u8>, pos: int, t: Seq<Entry>)
    requires
        0 <= pos,
        pos + ser_table(t).len() <= buf.len(),
        buf.subrange(pos, pos + ser_table(t).len()) == ser_table(t),
    ensures
        parse_table(buf, pos, t.len()) == Some((t, pos + ser_table(t).len())),
    decreases t.len(),
{
    lemma_ser_table_len(t);
    if t.len() > 0 {
        let init = t.drop_last();
        let e = t.last();
        let si = ser_table(init);
        lemma_ser_table_len(init);
        let sl = si.len() as int;
        let p = pos + sl;
        let whole = buf.subrange(pos, pos + ser_table(t).len());
        lemma_le_bytes_len(e.0 as nat, 4);
        lemma_le_bytes_len(e.1 as nat, 8);
        lemma_le_bytes_len(e.2 as nat, 8);
        assert(ser_table(t) == si + ser_entry(e));
        assert(buf.subrange(pos, p) =~= si) by {
            assert(buf.subrange(pos, p) =~= whole.subrange(0, sl));
        }
        lemma_parse_table_back(buf, pos, init);
        lemma_pow256_facts();
        assert(buf.subrange(p, p + 4) =~= le_bytes(e.0 as nat, 4)) by {
            assert(buf.subrange(p, p + 4) =~= whole.subrange(sl, sl + 4));
        }
        assert(buf.subrange(p + 4, p + 12) =~= le_bytes(e.1 as nat, 8)) by {
            assert(buf.subrange(p + 4, p + 12) =~= whole.subrange(sl + 4, sl + 12));
        }
        assert(buf.subrange(p + 12, p + 20) =~= le_bytes(e.2 as nat, 8)) by {
            assert(buf.subrange(p + 12, p + 20) =~= whole.subrange(sl + 12, sl + 20));
        }
        lemma_le_round_trip(e.0 as nat, 4);
        lemma_le_round_trip(e.1 as nat, 8);
        lemma_le_round_trip(e.2 as nat, 8);
        assert(entry_at(buf, p) == e);
        assert(init.push(e) == t);
    }
}

} // verus!
