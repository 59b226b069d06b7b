//! Why the decoder retraces the encoder.
//!
//! An encoder state places its interval inside the whole code: after
//! `scale` doublings, with `bits` emitted and `pending` bits deferred, the
//! interval `[low, high]` sits at `offset + low ..= offset + high` in units
//! of `2^-(24 + scale)`. Renormalisation only rescales that absolute
//! interval, narrowing only shrinks it, and the closing bits pick a point
//! inside the last one. The decoder's window is that point, seen through the
//! same offset; so at every symbol it falls inside the symbol's share.

use vstd::prelude::*;
use vstd::arithmetic::power2::{pow2, lemma_pow2_unfold, lemma2_to64, lemma_pow2_adds, lemma_pow2_pos};
use crate::bitstream::{
    bits_value, bytes_bits, code_bit, code_prefix, padded, lemma_bits_value_bound,
    lemma_bits_value_push, lemma_bytes_bits_len,
};
use crate::decoder::decode_run;
use crate::encoder::{encode_symbols, initial_enc};
use crate::frequency::{Entry, is_table_of, index_of, lemma_ranges_within, lemma_slot_unique};
use crate::interval::{
    ARITHMETIC_PRECISION_LIMIT, FIRST_QTR, HALF, THIRD_QTR, EncState, DecState, interval_ok,
    settled, narrow_low, narrow_high, narrow_ok, follow_bits, enc_renorm, enc_final_bits,
    dec_renorm, dec_symbol, target_of, lemma_narrow, lemma_target_in_range,
};

verus! {

/// How many times the interval has been doubled.
pub open spec fn scale(e: EncState) -> nat {
    e.bits.len() + e.pending
}

/// Where the encoder's interval starts within the whole code, in units of
/// `2^-(24 + scale)`.
pub open spec fn offset(e: EncState) -> int {
    pow2(e.pending) * bits_value(e.bits) * pow2(24) + pow2(23) * (pow2(e.pending) - 1)
}

/// The first `24 + s` bits of the stream, as a number.
pub open spec fn code_value(stream: Seq<u8>, s: nat) -> nat {
    bits_value(code_prefix(stream, 24 + s))
}

/// The cursor of a decoder that has read `n` bits.
pub open spec fn cursor_after(stream: Seq<u8>, n: nat) -> nat {
    if n <= 8 * stream.len() { n } else { 8 * stream.len() }
}

/// Decoder state `d` retraces encoder state `e` over `stream`: the same
/// interval, and a window that is the code seen through `e`'s offset.
pub open spec fn tracks(d: DecState, e: EncState, stream: Seq<u8>) -> bool {
    &&& d.low == e.low
    &&& d.high == e.high
    &&& d.window == code_value(stream, scale(e)) - offset(e)
    &&& d.cursor == cursor_after(stream, 24 + scale(e))
}

/// `e` narrowed to `[cs, ce)` out of `total`, before renormalisation.
pub open spec fn narrowed_enc(e: EncState, cs: int, ce: int, total: int) -> EncState {
    EncState {
        low: narrow_low(e.low, e.high, cs, total),
        high: narrow_high(e.low, e.high, ce, total),
        pending: e.pending,
        bits: e.bits,
    }
}

/// The value of two bit strings one after the other.
pub proof fn lemma_bits_value_concat(a: Seq<bool>, b: Seq<bool>)
    ensures
        bits_value(a + b) == bits_value(a) * pow2(b.len()) + bits_value(b),
    decreases b.len(),
{
    if b.len() == 0 {
        lemma2_to64();
        assert(a + b =~= a);
    } else {
        let b0 = b.drop_last();
        lemma_bits_value_concat(a, b0);
        assert((a + b).drop_last() =~= a + b0);
        assert((a + b).last() == b.last());
        lemma_pow2_unfold(b.len());
        let x = bits_value(a);
        let y = bits_value(b0);
        let c: nat = if b.last() { 1 } else { 0 };
        assert(bits_value(a + b) == 2 * (x * pow2(b0.len()) + y) + c);
        assert(bits_value(b) == 2 * y + c);
        assert(2 * (x * pow2(b0.len()) + y) + c == x * (2 * pow2(b0.len())) + (2 * y + c)) by (nonlinear_arith);
    }
}

/// A run of equal bits: all zeros is 0, all ones is `2^n - 1`.
pub proof fn lemma_bits_value_run(b: bool, n: nat)
    ensures
        bits_value(Seq::new(n, |i: int| b)) == if b { pow2(n) - 1 } else { 0 },
    decreases n,
{
    if n == 0 {
        lemma2_to64();
    } else {
        lemma_pow2_unfold(n);
        lemma_bits_value_run(b, (n - 1) as nat);
        assert(Seq::new(n, |i: int| b).drop_last() =~= Seq::new((n - 1) as nat, |i: int| b));
        lemma_pow2_pos((n - 1) as nat);
    }
}

/// The value of a resolved straddle: `b` followed by `n` copies of `!b`.
pub proof fn lemma_follow_value(b: bool, n: nat)
    ensures
        bits_value(follow_bits(b, n)) == if b { pow2(n) } else { (pow2(n) - 1) as nat },
{
    let nb = !b;
    let run = Seq::new(n, |i: int| nb);
    assert(follow_bits(b, n) =~= seq![b] + run);
    lemma_bits_value_concat(seq![b], run);
    lemma_bits_value_run(nb, n);
    lemma_bits_value_push(Seq::<bool>::empty(), b);
    assert(Seq::<bool>::empty().push(b) =~= seq![b]);
    assert(bits_value(Seq::<bool>::empty()) == 0);
    assert(bits_value(seq![b]) == if b { 1nat } else { 0nat });
    lemma_pow2_pos(n);
    assert(run.len() == n);
    assert(bits_value(follow_bits(b, n)) == bits_value(seq![b]) * pow2(n) + bits_value(run));
    if b {
        assert(bits_value(run) == 0);
        assert(bits_value(seq![b]) * pow2(n) == pow2(n));
    } else {
        assert(bits_value(run) == pow2(n) - 1);
        assert(bits_value(seq![b]) == 0);
        assert(bits_value(seq![b]) * pow2(n) == 0) by (nonlinear_arith)
            requires bits_value(seq![b]) == 0;
    }
}

/// One doubling step on the encoding side rescales the absolute interval:
/// the offset becomes `2 * (offset + sub)`, one scale up.
pub proof fn lemma_enc_step_offset(e: EncState, next: EncState, sub: int)
    requires
        (sub == 0 && next == (EncState {
            low: 2 * e.low,
            high: 2 * e.high + 1,
            pending: 0,
            bits: e.bits + follow_bits(false, e.pending),
        })) || (sub == HALF && next == (EncState {
            low: 2 * (e.low - HALF),
            high: 2 * (e.high - HALF) + 1,
            pending: 0,
            bits: e.bits + follow_bits(true, e.pending),
        })) || (sub == FIRST_QTR && next == (EncState {
            low: 2 * (e.low - FIRST_QTR),
            high: 2 * (e.high - FIRST_QTR) + 1,
            pending: e.pending + 1,
            bits: e.bits,
        })),
    ensures
        scale(next) == scale(e) + 1,
        offset(next) == 2 * (offset(e) + sub),
{
    lemma2_to64();
    let p = e.pending;
    let v = bits_value(e.bits);
    let pp = pow2(p);
    lemma_pow2_unfold(p + 1);
    lemma_pow2_pos(p);
    if sub == FIRST_QTR {
        assert(offset(next) == 2 * pp * v * pow2(24) + pow2(23) * (2 * pp - 1));
        assert(2 * pp * v * pow2(24) + pow2(23) * (2 * pp - 1) == 2 * (pp * v * pow2(24) + pow2(23) * (pp - 1) + FIRST_QTR))
            by (nonlinear_arith)
            requires pow2(23) == 8388608, FIRST_QTR == 4194304;
    } else {
        let b = sub == HALF;
        lemma_bits_value_concat(e.bits, follow_bits(b, p));
        lemma_follow_value(b, p);
        assert(follow_bits(b, p).len() == p + 1);
        let f = bits_value(follow_bits(b, p));
        assert(bits_value(next.bits) == v * (2 * pp) + f);
        assert(offset(next) == 1 * (v * (2 * pp) + f) * pow2(24) + pow2(23) * (1 - 1));
        if b {
            assert(f == pp);
            assert((v * (2 * pp) + pp) * pow2(24) == 2 * (pp * v * pow2(24) + pow2(23) * (pp - 1) + HALF))
                by (nonlinear_arith)
                requires pow2(23) == 8388608, pow2(24) == 16777216, HALF == 8388608;
        } else {
            assert(f == pp - 1);
            assert((v * (2 * pp) + (pp - 1)) * pow2(24) == 2 * (pp * v * pow2(24) + pow2(23) * (pp - 1)))
                by (nonlinear_arith)
                requires pow2(23) == 8388608, pow2(24) == 16777216;
        }
    }
}

/// Where the encoder's interval starts within the whole code, in units of
/// `2^-(24 + scale(e))`.
pub open spec fn abs_low(e: EncState) -> int {
    offset(e) + e.low
}

/// The first unit past the end of the encoder's interval, in the same units.
pub open spec fn abs_end(e: EncState) -> int {
    offset(e) + e.high + 1
}

/// Renormalising on the encoding side ends settled, and only rescales the
/// absolute interval.
pub proof fn lemma_enc_renorm(e: EncState)
    requires
        interval_ok(e.low, e.high),
    ensures
        interval_ok(enc_renorm(e).low, enc_renorm(e).high),
        settled(enc_renorm(e).low, enc_renorm(e).high),
        scale(enc_renorm(e)) >= scale(e),
        abs_low(enc_renorm(e)) == abs_low(e) * pow2((scale(enc_renorm(e)) - scale(e)) as nat),
        abs_end(enc_renorm(e)) == abs_end(e) * pow2((scale(enc_renorm(e)) - scale(e)) as nat),
    decreases ARITHMETIC_PRECISION_LIMIT - (e.high - e.low),
{
    lemma2_to64();
    let (sub, go): (int, bool) = if e.high < HALF {
        (0, true)
    } else if e.low >= HALF {
        (HALF as int, true)
    } else if e.low >= FIRST_QTR && e.high < THIRD_QTR {
        (FIRST_QTR as int, true)
    } else {
        (0, false)
    };
    if go {
        let e1 = crate::bitstream::enc_renorm_step(e);
        lemma_enc_step_offset(e, e1, sub);
        assert(enc_renorm(e) == enc_renorm(e1));
        lemma_enc_renorm(e1);
        let e2 = enc_renorm(e1);
        let d1 = (scale(e2) - scale(e1)) as nat;
        lemma_pow2_unfold(d1 + 1);
        assert((scale(e2) - scale(e)) as nat == d1 + 1);
        assert(abs_low(e1) == 2 * abs_low(e));
        assert(abs_end(e1) == 2 * abs_end(e));
        assert(abs_low(e2) == abs_low(e) * pow2(d1 + 1)) by (nonlinear_arith)
            requires abs_low(e2) == abs_low(e1) * pow2(d1), abs_low(e1) == 2 * abs_low(e), pow2(d1 + 1) == 2 * pow2(d1);
        assert(abs_end(e2) == abs_end(e) * pow2(d1 + 1)) by (nonlinear_arith)
            requires abs_end(e2) == abs_end(e1) * pow2(d1), abs_end(e1) == 2 * abs_end(e), pow2(d1 + 1) == 2 * pow2(d1);
        assert(enc_renorm(e) == e2);
    } else {
        assert(enc_renorm(e) == e);
        assert((scale(e) - scale(e)) as nat == 0);
        assert(pow2(0) == 1);
        assert(abs_low(e) * pow2(0) == abs_low(e)) by (nonlinear_arith)
            requires pow2(0) == 1;
        assert(abs_end(e) * pow2(0) == abs_end(e)) by (nonlinear_arith)
            requires pow2(0) == 1;
    }
}

/// The first `n + 1` bits are the first `n` and one more.
pub proof fn lemma_code_value_step(stream: Seq<u8>, s: nat)
    ensures
        code_value(stream, s + 1) == 2 * code_value(stream, s)
            + if code_bit(stream, 24 + s) { 1nat } else { 0nat },
{
    assert(code_prefix(stream, 24 + s + 1) =~= code_prefix(stream, 24 + s).push(code_bit(stream, 24 + s)));
    lemma_bits_value_push(code_prefix(stream, 24 + s), code_bit(stream, 24 + s));
}

/// A decoder that tracks an encoder keeps tracking it through
/// renormalisation.
pub proof fn lemma_dec_renorm_tracks(d: DecState, e: EncState, stream: Seq<u8>)
    requires
        interval_ok(e.low, e.high),
        tracks(d, e, stream),
    ensures
        tracks(dec_renorm(d, stream), enc_renorm(e), stream),
    decreases ARITHMETIC_PRECISION_LIMIT - (e.high - e.low),
{
    let (sub, go): (int, bool) = if e.high < HALF {
        (0, true)
    } else if e.low >= HALF {
        (HALF as int, true)
    } else if e.low >= FIRST_QTR && e.high < THIRD_QTR {
        (FIRST_QTR as int, true)
    } else {
        (0, false)
    };
    if go {
        let e1 = crate::bitstream::enc_renorm_step(e);
        let d1 = crate::bitstream::dec_renorm_step(d, stream);
        lemma_enc_step_offset(e, e1, sub);
        assert(enc_renorm(e) == enc_renorm(e1));
        assert(dec_renorm(d, stream) == dec_renorm(d1, stream));
        let n = 24 + scale(e);
        lemma_code_value_step(stream, scale(e));
        assert(code_bit(stream, d.cursor) == code_bit(stream, n));
        assert(d1.window == code_value(stream, scale(e1)) - offset(e1));
        assert(d1.cursor == cursor_after(stream, 24 + scale(e1)));
        lemma_dec_renorm_tracks(d1, e1, stream);
    } else {
        assert(enc_renorm(e) == e);
        assert(dec_renorm(d, stream) == d);
    }
}

/// Fewer bits of the code give its value at a coarser scale: the finer
/// value divided down.
pub proof fn lemma_code_value_coarser(stream: Seq<u8>, s: nat, t: nat)
    requires
        s <= t,
    ensures
        code_value(stream, s) == code_value(stream, t) / pow2((t - s) as nat),
{
    let d = (t - s) as nat;
    let rest = Seq::new(d, |i: int| code_bit(stream, (24 + s + i) as nat));
    assert(code_prefix(stream, 24 + t) =~= code_prefix(stream, 24 + s) + rest);
    lemma_bits_value_concat(code_prefix(stream, 24 + s), rest);
    lemma_bits_value_bound(rest);
    lemma_pow2_pos(d);
    vstd::arithmetic::div_mod::lemma_fundamental_div_mod_converse(
        code_value(stream, t) as int,
        pow2(d) as int,
        code_value(stream, s) as int,
        bits_value(rest) as int,
    );
}

/// The closing bits put the code at the midpoint of the last interval,
/// seen through its offset.
pub proof fn lemma_final_code_value(e: EncState, stream: Seq<u8>)
    requires
        bytes_bits(stream) == padded(enc_final_bits(e)),
    ensures
        code_value(stream, scale(e)) == offset(e) + HALF,
{
    lemma2_to64();
    let p = e.pending;
    let fin = enc_final_bits(e);
    let tail = follow_bits(true, p + 1);
    assert(fin.len() == scale(e) + 2);
    lemma_bytes_bits_len(stream);
    let zeros = Seq::new(22, |i: int| false);
    assert(code_prefix(stream, 24 + scale(e)) =~= fin + zeros) by {
        assert forall|i: int| 0 <= i < 24 + scale(e) implies #[trigger] code_prefix(stream, 24 + scale(e))[i] == (fin + zeros)[i] by {
            if i < fin.len() {
                assert(padded(fin)[i] == fin[i]);
            } else if i < 8 * stream.len() {
                assert(padded(fin)[i] == false);
            }
        }
    }
    lemma_bits_value_concat(fin, zeros);
    lemma_bits_value_run(false, 22);
    lemma_bits_value_concat(e.bits, tail);
    lemma_follow_value(true, p + 1);
    lemma_pow2_unfold(p + 1);
    lemma_pow2_unfold(p + 2);
    let v = bits_value(e.bits);
    let pp = pow2(p);
    assert(bits_value(fin) == v * (4 * pp) + 2 * pp);
    assert(code_value(stream, scale(e)) == (v * (4 * pp) + 2 * pp) * 4194304);
    assert((v * (4 * pp) + 2 * pp) * 4194304 == pp * v * 16777216 + 8388608 * (pp - 1) + 8388608)
        by (nonlinear_arith);
}

/// The encoder state after the first `k` symbols.
pub open spec fn enc_after(t: Seq<Entry>, syms: Seq<u32>, k: int) -> EncState {
    encode_symbols(t, syms.len() as int, syms.take(k))
}

/// Where symbol `k`'s cumulative range starts.
pub open spec fn range_lo(t: Seq<Entry>, syms: Seq<u32>, k: int) -> int {
    t[index_of(t, syms[k])].2 as int
}

/// Where symbol `k`'s cumulative range ends.
pub open spec fn range_hi(t: Seq<Entry>, syms: Seq<u32>, k: int) -> int {
    t[index_of(t, syms[k])].2 + t[index_of(t, syms[k])].1
}

/// The encoder state after the first `k` symbols, narrowed to symbol `k`.
pub open spec fn narrowed_at(t: Seq<Entry>, syms: Seq<u32>, k: int) -> EncState {
    narrowed_enc(enc_after(t, syms, k), range_lo(t, syms, k), range_hi(t, syms, k), syms.len() as int)
}

/// What the frequency table gives every coded symbol: its entry, with a
/// non-empty range inside the total.
pub proof fn lemma_symbol_entry(t: Seq<Entry>, syms: Seq<u32>, k: int)
    requires
        is_table_of(t, syms),
        0 <= k < syms.len(),
    ensures
        0 <= index_of(t, syms[k]) < t.len(),
        t[index_of(t, syms[k])].0 == syms[k],
        0 <= range_lo(t, syms, k) < range_hi(t, syms, k) <= syms.len(),
{
    assert(syms.contains(syms[k]));
    let i = index_of(t, syms[k]);
    lemma_ranges_within(t, syms.len() as int, i);
}

/// One symbol on: the next encoder state renormalises the narrowed one, and
/// stays valid and at least as wide as the total.
pub proof fn lemma_enc_next(t: Seq<Entry>, syms: Seq<u32>, k: int)
    requires
        is_table_of(t, syms),
        0 <= k < syms.len(),
        interval_ok(enc_after(t, syms, k).low, enc_after(t, syms, k).high),
        syms.len() <= enc_after(t, syms, k).high - enc_after(t, syms, k).low + 1,
    ensures
        narrow_ok(enc_after(t, syms, k).low, enc_after(t, syms, k).high, range_lo(t, syms, k), range_hi(t, syms, k), syms.len() as int),
        interval_ok(narrowed_at(t, syms, k).low, narrowed_at(t, syms, k).high),
        enc_after(t, syms, k).low <= narrowed_at(t, syms, k).low,
        narrowed_at(t, syms, k).high <= enc_after(t, syms, k).high,
        enc_after(t, syms, k + 1) == enc_renorm(narrowed_at(t, syms, k)),
        interval_ok(enc_after(t, syms, k + 1).low, enc_after(t, syms, k + 1).high),
        settled(enc_after(t, syms, k + 1).low, enc_after(t, syms, k + 1).high),
        scale(enc_after(t, syms, k + 1)) >= scale(enc_after(t, syms, k)),
        abs_low(enc_after(t, syms, k + 1)) == abs_low(narrowed_at(t, syms, k))
            * pow2((scale(enc_after(t, syms, k + 1)) - scale(enc_after(t, syms, k))) as nat),
        abs_end(enc_after(t, syms, k + 1)) == abs_end(narrowed_at(t, syms, k))
            * pow2((scale(enc_after(t, syms, k + 1)) - scale(enc_after(t, syms, k))) as nat),
{
    lemma_symbol_entry(t, syms, k);
    let e = enc_after(t, syms, k);
    lemma_narrow(e.low, e.high, range_lo(t, syms, k), range_hi(t, syms, k), syms.len() as int);
    assert(syms.take(k + 1).drop_last() =~= syms.take(k));
    assert(syms.take(k + 1).last() == syms[k]);
    lemma_enc_renorm(narrowed_at(t, syms, k));
}

/// Every encoder state on the way is valid and at least as wide as the
/// total; after the first symbol it is settled.
pub proof fn lemma_enc_prefix(t: Seq<Entry>, syms: Seq<u32>, k: int)
    requires
        is_table_of(t, syms),
        syms.len() < FIRST_QTR,
        0 <= k <= syms.len(),
    ensures
        interval_ok(enc_after(t, syms, k).low, enc_after(t, syms, k).high),
        syms.len() <= enc_after(t, syms, k).high - enc_after(t, syms, k).low + 1,
        k > 0 ==> settled(enc_after(t, syms, k).low, enc_after(t, syms, k).high),
        k == 0 ==> enc_after(t, syms, k) == initial_enc(),
    decreases k,
{
    if k == 0 {
        assert(syms.take(0) =~= Seq::<u32>::empty());
    } else {
        lemma_enc_prefix(t, syms, k - 1);
        lemma_enc_next(t, syms, k - 1);
    }
}

/// The absolute interval of every later state lies inside the narrowed
/// interval of symbol `k`, rescaled.
pub proof fn lemma_nesting(t: Seq<Entry>, syms: Seq<u32>, k: int, m: int)
    requires
        is_table_of(t, syms),
        syms.len() < FIRST_QTR,
        0 <= k < m <= syms.len(),
    ensures
        scale(enc_after(t, syms, m)) >= scale(enc_after(t, syms, k)),
        abs_low(enc_after(t, syms, m)) >= abs_low(narrowed_at(t, syms, k))
            * pow2((scale(enc_after(t, syms, m)) - scale(enc_after(t, syms, k))) as nat),
        abs_end(enc_after(t, syms, m)) <= abs_end(narrowed_at(t, syms, k))
            * pow2((scale(enc_after(t, syms, m)) - scale(enc_after(t, syms, k))) as nat),
    decreases m - k,
{
    lemma_enc_prefix(t, syms, m - 1);
    lemma_enc_next(t, syms, m - 1);
    if m > k + 1 {
        lemma_nesting(t, syms, k, m - 1);
        let n0 = narrowed_at(t, syms, k);
        let em = enc_after(t, syms, m - 1);
        let nm = narrowed_at(t, syms, m - 1);
        let a = (scale(enc_after(t, syms, m)) - scale(em)) as nat;
        let b = (scale(em) - scale(enc_after(t, syms, k))) as nat;
        lemma_pow2_adds(b, a);
        lemma_pow2_pos(a);
        assert((scale(enc_after(t, syms, m)) - scale(enc_after(t, syms, k))) as nat == b + a);
        assert(abs_low(nm) >= abs_low(em));
        assert(abs_end(nm) <= abs_end(em));
        assert(abs_low(enc_after(t, syms, m)) >= abs_low(n0) * pow2(b + a)) by (nonlinear_arith)
            requires
                abs_low(enc_after(t, syms, m)) == abs_low(nm) * pow2(a),
                abs_low(nm) >= abs_low(em),
                abs_low(em) >= abs_low(n0) * pow2(b),
                pow2(b) * pow2(a) == pow2(b + a),
                pow2(a) > 0;
        assert(abs_end(enc_after(t, syms, m)) <= abs_end(n0) * pow2(b + a)) by (nonlinear_arith)
            requires
                abs_end(enc_after(t, syms, m)) == abs_end(nm) * pow2(a),
                abs_end(nm) <= abs_end(em),
                abs_end(em) <= abs_end(n0) * pow2(b),
                pow2(b) * pow2(a) == pow2(b + a),
                pow2(a) > 0;
    }
}

/// At every symbol, the code seen through the encoder's offset lies in the
/// symbol's narrowed interval.
pub proof fn lemma_window_inside(t: Seq<Entry>, syms: Seq<u32>, stream: Seq<u8>, k: int)
    requires
        is_table_of(t, syms),
        syms.len() < FIRST_QTR,
        0 <= k < syms.len(),
        bytes_bits(stream) == padded(enc_final_bits(enc_after(t, syms, syms.len() as int))),
    ensures
        narrowed_at(t, syms, k).low <= code_value(stream, scale(enc_after(t, syms, k))) - offset(enc_after(t, syms, k))
            <= narrowed_at(t, syms, k).high,
{
    let n = syms.len() as int;
    let en = enc_after(t, syms, n);
    let ek = enc_after(t, syms, k);
    let nk = narrowed_at(t, syms, k);
    lemma_enc_prefix(t, syms, n);
    lemma_final_code_value(en, stream);
    lemma_nesting(t, syms, k, n);
    let d = (scale(en) - scale(ek)) as nat;
    lemma_code_value_coarser(stream, scale(ek), scale(en));
    lemma_pow2_pos(d);
    let cn = code_value(stream, scale(en)) as int;
    let ck = code_value(stream, scale(ek)) as int;
    let dd = pow2(d) as int;
    vstd::arithmetic::div_mod::lemma_fundamental_div_mod(cn, dd);
    let r = cn % dd;
    assert(0 <= r < dd) by {
        vstd::arithmetic::div_mod::lemma_mod_bound(cn, dd);
    }
    assert(cn == ck * dd + r);
    assert(abs_low(nk) * dd <= cn < abs_end(nk) * dd);
    assert(abs_low(nk) <= ck) by (nonlinear_arith)
        requires abs_low(nk) * dd <= ck * dd + r, r < dd, dd > 0;
    assert(ck < abs_end(nk)) by (nonlinear_arith)
        requires ck * dd + r < abs_end(nk) * dd, 0 <= r, dd > 0;
}

/// The decoder retraces the encoder: after `k` steps it has produced the
/// first `k` symbols and tracks the encoder state after them.
pub proof fn lemma_decode_retraces(t: Seq<Entry>, syms: Seq<u32>, stream: Seq<u8>, k: int)
    requires
        is_table_of(t, syms),
        syms.len() < FIRST_QTR,
        0 <= k <= syms.len(),
        bytes_bits(stream) == padded(enc_final_bits(enc_after(t, syms, syms.len() as int))),
    ensures
        decode_run(t, syms.len() as int, stream, k as nat).0 == syms.take(k),
        tracks(decode_run(t, syms.len() as int, stream, k as nat).1, enc_after(t, syms, k), stream),
    decreases k,
{
    let total = syms.len() as int;
    if k == 0 {
        lemma_enc_prefix(t, syms, 0);
        lemma2_to64();
        assert(syms.take(0) =~= Seq::<u32>::empty());
        let e0 = initial_enc();
        assert(bits_value(e0.bits) == 0);
        assert(pow2(e0.pending) == 1);
        assert(offset(e0) == 0) by (nonlinear_arith)
            requires
                offset(e0) == pow2(e0.pending) * bits_value(e0.bits) * pow2(24) + pow2(23) * (pow2(e0.pending) - 1),
                bits_value(e0.bits) == 0,
                pow2(e0.pending) == 1;
    } else {
        let j = k - 1;
        lemma_decode_retraces(t, syms, stream, j);
        lemma_enc_prefix(t, syms, j);
        lemma_enc_next(t, syms, j);
        lemma_symbol_entry(t, syms, j);
        lemma_window_inside(t, syms, stream, j);
        let (sy, st) = decode_run(t, total, stream, j as nat);
        let ej = enc_after(t, syms, j);
        let nj = narrowed_at(t, syms, j);
        let cs = range_lo(t, syms, j);
        let ce = range_hi(t, syms, j);
        let i = index_of(t, syms[j]);
        lemma_target_in_range(st.window, st.low, st.high, cs, ce, total);
        let target = target_of(st.window, st.low, st.high, total);
        lemma_slot_unique(t, total, target, i);
        assert(decode_run(t, total, stream, k as nat) == (
            sy.push(t[i].0),
            dec_symbol(st, cs, ce, total, stream),
        ));
        assert(syms.take(k) =~= syms.take(j).push(syms[j]));
        let dn = DecState { low: nj.low, high: nj.high, window: st.window, cursor: st.cursor };
        assert(tracks(dn, nj, stream));
        lemma_dec_renorm_tracks(dn, nj, stream);
    }
}

} // verus!
