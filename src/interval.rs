//! The interval arithmetic of the coder, as spec functions: narrowing the
//! interval to one symbol's share, and renormalising it bit by bit.
//!
//! Both coder halves run the same arithmetic on `(low, high)`; the encoder
//! emits bits where the decoder shifts them into its code window.

use vstd::prelude::*;
use crate::bitstream::code_bit;

verus! {

/// Upper bound of the coding interval: 2^24 - 1.
pub const ARITHMETIC_PRECISION_LIMIT: u32 = 16777215;

/// First quarter point of the coding interval.
pub const FIRST_QTR: u32 = 4194304;

/// Midpoint of the coding interval.
pub const HALF: u32 = 8388608;

/// Third quarter point of the coding interval.
pub const THIRD_QTR: u32 = 12582912;

/// `0 <= low <= high <= ARITHMETIC_PRECISION_LIMIT`.
pub open spec fn interval_ok(low: int, high: int) -> bool {
    0 <= low <= high <= ARITHMETIC_PRECISION_LIMIT
}

/// An interval that renormalisation leaves as it is: it straddles the
/// midpoint and is not confined to the middle half.
pub open spec fn settled(low: int, high: int) -> bool {
    &&& low < HALF <= high
    &&& (low < FIRST_QTR || high >= THIRD_QTR)
}

/// Lower bound after narrowing `[low, high]` to the cumulative range
/// `[cs, ..)` out of `total`.
pub open spec fn narrow_low(low: int, high: int, cs: int, total: int) -> int {
    low + (high - low + 1) * cs / total
}

/// Upper bound after narrowing `[low, high]` to the cumulative range
/// `[.., ce)` out of `total`.
pub open spec fn narrow_high(low: int, high: int, ce: int, total: int) -> int {
    low + (high - low + 1) * ce / total - 1
}

/// What narrowing asks of its arguments: a valid interval at least as wide
/// as the total, and a non-empty cumulative range inside the total.
pub open spec fn narrow_ok(low: int, high: int, cs: int, ce: int, total: int) -> bool {
    &&& interval_ok(low, high)
    &&& 0 <= cs < ce <= total
    &&& total <= high - low + 1
}

/// The bits that a resolved straddle emits: `b`, then `!b` once per
/// deferred bit.
pub open spec fn follow_bits(b: bool, pending: nat) -> Seq<bool> {
    seq![b] + Seq::new(pending, |i: int| !b)
}

/// Encoder state: the interval, the number of deferred bits, and the bits
/// emitted so far.
pub struct EncState {
    pub low: int,
    pub high: int,
    pub pending: nat,
    pub bits: Seq<bool>,
}

/// Renormalisation on the encoding side: while the interval lies in the
/// lower half, the upper half or the middle half, emit 0, emit 1 or defer a
/// bit, and double the interval.
pub open spec fn enc_renorm(s: EncState) -> EncState
    decreases ARITHMETIC_PRECISION_LIMIT - (s.high - s.low),
{
    if !interval_ok(s.low, s.high) {
        s
    } else if s.high < HALF {
        enc_renorm(EncState {
            low: 2 * s.low,
            high: 2 * s.high + 1,
            pending: 0,
            bits: s.bits + follow_bits(false, s.pending),
        })
    } else if s.low >= HALF {
        enc_renorm(EncState {
            low: 2 * (s.low - HALF),
            high: 2 * (s.high - HALF) + 1,
            pending: 0,
            bits: s.bits + follow_bits(true, s.pending),
        })
    } else if s.low >= FIRST_QTR && s.high < THIRD_QTR {
        enc_renorm(EncState {
            low: 2 * (s.low - FIRST_QTR),
            high: 2 * (s.high - FIRST_QTR) + 1,
            pending: s.pending + 1,
            bits: s.bits,
        })
    } else {
        s
    }
}

/// One encoded symbol: narrow to `[cs, ce)` out of `total`, then renormalise.
pub open spec fn enc_symbol(s: EncState, cs: int, ce: int, total: int) -> EncState {
    enc_renorm(EncState {
        low: narrow_low(s.low, s.high, cs, total),
        high: narrow_high(s.low, s.high, ce, total),
        pending: s.pending,
        bits: s.bits,
    })
}

/// The bits that close an encoding: one more deferred bit, resolved as a 1.
pub open spec fn enc_final_bits(s: EncState) -> Seq<bool> {
    s.bits + follow_bits(true, s.pending + 1)
}

/// Decoder state: the interval, the code window, and the cursor into the
/// stream's bits.
pub struct DecState {
    pub low: int,
    pub high: int,
    pub window: int,
    pub cursor: nat,
}

/// The cursor after one read: it stops at the end of the stream.
pub open spec fn advance(cursor: nat, stream: Seq<u8>) -> nat {
    if cursor < 8 * stream.len() {
        cursor + 1
    } else {
        cursor
    }
}

/// The window after one doubling step that first subtracts `sub`.
pub open spec fn shifted_window(s: DecState, sub: int, stream: Seq<u8>) -> int {
    2 * (s.window - sub) + if code_bit(stream, s.cursor) { 1int } else { 0int }
}

/// Renormalisation on the decoding side: the same case analysis as
/// `enc_renorm`, where each doubling shifts one stream bit into the window.
pub open spec fn dec_renorm(s: DecState, stream: Seq<u8>) -> DecState
    decreases ARITHMETIC_PRECISION_LIMIT - (s.high - s.low),
{
    if !interval_ok(s.low, s.high) {
        s
    } else if s.high < HALF {
        dec_renorm(DecState {
            low: 2 * s.low,
            high: 2 * s.high + 1,
            window: shifted_window(s, 0, stream),
            cursor: advance(s.cursor, stream),
        }, stream)
    } else if s.low >= HALF {
        dec_renorm(DecState {
            low: 2 * (s.low - HALF),
            high: 2 * (s.high - HALF) + 1,
            window: shifted_window(s, HALF as int, stream),
            cursor: advance(s.cursor, stream),
        }, stream)
    } else if s.low >= FIRST_QTR && s.high < THIRD_QTR {
        dec_renorm(DecState {
            low: 2 * (s.low - FIRST_QTR),
            high: 2 * (s.high - FIRST_QTR) + 1,
            window: shifted_window(s, FIRST_QTR as int, stream),
            cursor: advance(s.cursor, stream),
        }, stream)
    } else {
        s
    }
}

/// One decoded step after the symbol is known: narrow, then renormalise.
pub open spec fn dec_symbol(s: DecState, cs: int, ce: int, total: int, stream: Seq<u8>) -> DecState {
    dec_renorm(DecState {
        low: narrow_low(s.low, s.high, cs, total),
        high: narrow_high(s.low, s.high, ce, total),
        window: s.window,
        cursor: s.cursor,
    }, stream)
}

/// The cumulative position that the window points at, out of `total`.
pub open spec fn target_of(window: int, low: int, high: int, total: int) -> int {
    ((window - low + 1) * total - 1) / (high - low + 1)
}

/// Narrowing keeps a valid interval when it is at least as wide as the total.
pub proof fn lemma_narrow(low: int, high: int, cs: int, ce: int, total: int)
    requires
        narrow_ok(low, high, cs, ce, total),
    ensures
        low <= narrow_low(low, high, cs, total) <= narrow_high(low, high, ce, total) <= high,
{
    let r = high - low + 1;
    assert(r * cs / total + 1 <= r * ce / total) by (nonlinear_arith)
        requires r >= total, 0 <= cs < ce <= total, total > 0;
    assert(r * ce / total <= r) by (nonlinear_arith)
        requires r >= total, ce <= total, total > 0, ce >= 0;
    assert(0 <= r * cs / total) by (nonlinear_arith)
        requires r >= 0, cs >= 0, total > 0;
}

/// A window inside `[low, high]` points at a target below the total.
pub proof fn lemma_target_bound(window: int, low: int, high: int, total: int)
    requires
        interval_ok(low, high),
        low <= window <= high,
        total >= 1,
    ensures
        0 <= target_of(window, low, high, total) < total,
{
    let r = high - low + 1;
    let d = window - low + 1;
    assert(0 <= (d * total - 1) / r < total) by (nonlinear_arith)
        requires 1 <= d <= r, total >= 1;
}

/// The target that a window points at falls in the cumulative range of the
/// symbol whose narrowed interval holds the window; and a window that falls
/// in a symbol's range lies in that symbol's narrowed interval.
pub proof fn lemma_target_in_range(window: int, low: int, high: int, cs: int, ce: int, total: int)
    requires
        narrow_ok(low, high, cs, ce, total),
        low <= window <= high,
    ensures
        (narrow_low(low, high, cs, total) <= window <= narrow_high(low, high, ce, total))
            <==> (cs <= target_of(window, low, high, total) < ce),
{
    let r = high - low + 1;
    let d = window - low;
    let t = target_of(window, low, high, total);
    assert(t == ((d + 1) * total - 1) / r);
    assert(d >= r * cs / total <==> ((d + 1) * total - 1) / r >= cs) by (nonlinear_arith)
        requires r >= total, total > 0, d >= 0, cs >= 0;
    assert(d <= r * ce / total - 1 <==> ((d + 1) * total - 1) / r < ce) by (nonlinear_arith)
        requires r >= total, total > 0, d >= 0, ce >= 0;
}

} // verus!
