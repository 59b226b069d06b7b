//! The bit channel: a writer that packs bits into bytes, most significant
//! bit first, and defers straddle bits until their direction is known; and a
//! reader that unpacks them again behind a 24-bit code window.

use vstd::prelude::*;
use vstd::arithmetic::power2::{pow2, lemma_pow2_unfold, lemma2_to64};
use crate::interval::{
    ARITHMETIC_PRECISION_LIMIT, FIRST_QTR, HALF, THIRD_QTR, EncState, DecState,
    interval_ok, settled, narrow_low, narrow_high, narrow_ok, follow_bits, enc_renorm,
    enc_symbol, dec_renorm, dec_symbol, advance, target_of, lemma_narrow,
    lemma_target_bound,
};

verus! {

/// Value of a bit string read most significant bit first.
pub open spec fn bits_value(s: Seq<bool>) -> nat
    decreases s.len(),
{
    if s.len() == 0 {
        0
    } else {
        2 * bits_value(s.drop_last()) + if s.last() { 1nat } else { 0nat }
    }
}

/// The `n` low bits of `v`, most significant first.
pub open spec fn low_bits(v: nat, n: nat) -> Seq<bool>
    decreases n,
{
    if n == 0 {
        Seq::empty()
    } else {
        low_bits(v / 2, (n - 1) as nat).push(v % 2 == 1)
    }
}

/// The bits of a byte string, each byte most significant bit first.
pub open spec fn bytes_bits(s: Seq<u8>) -> Seq<bool>
    decreases s.len(),
{
    if s.len() == 0 {
        Seq::empty()
    } else {
        bytes_bits(s.drop_last()) + low_bits(s.last() as nat, 8)
    }
}

/// `s` followed by the zero bits that fill its last byte.
pub open spec fn padded(s: Seq<bool>) -> Seq<bool> {
    s + Seq::new(((8 - s.len() % 8) % 8) as nat, |i: int| false)
}

/// Bit `i` of a stream; past its end every bit reads as 0.
pub open spec fn code_bit(stream: Seq<u8>, i: nat) -> bool {
    if i < 8 * stream.len() {
        bytes_bits(stream)[i as int]
    } else {
        false
    }
}

/// The first `n` bits of a stream, with zeros past its end.
pub open spec fn code_prefix(stream: Seq<u8>, n: nat) -> Seq<bool> {
    Seq::new(n, |i: int| code_bit(stream, i as nat))
}

/// The code window that a reader starts from: the stream's first 24 bits.
pub open spec fn initial_window(stream: Seq<u8>) -> nat {
    bits_value(code_prefix(stream, 24))
}

/// `low_bits` gives exactly `n` bits.
pub proof fn lemma_low_bits_len(v: nat, n: nat)
    ensures
        low_bits(v, n).len() == n,
    decreases n,
{
    if n > 0 {
        lemma_low_bits_len(v / 2, (n - 1) as nat);
    }
}

/// Every byte gives eight bits.
pub proof fn lemma_bytes_bits_len(s: Seq<u8>)
    ensures
        bytes_bits(s).len() == 8 * s.len(),
    decreases s.len(),
{
    if s.len() > 0 {
        lemma_bytes_bits_len(s.drop_last());
        lemma_low_bits_len(s.last() as nat, 8);
    }
}

/// Appending a byte appends its eight bits.
pub proof fn lemma_bytes_bits_push(s: Seq<u8>, b: u8)
    ensures
        bytes_bits(s.push(b)) == bytes_bits(s) + low_bits(b as nat, 8),
{
    assert(s.push(b).drop_last() == s);
}

/// A value of `n` bits is below 2^n.
pub proof fn lemma_bits_value_bound(s: Seq<bool>)
    ensures
        bits_value(s) < pow2(s.len()),
    decreases s.len(),
{
    if s.len() > 0 {
        lemma_bits_value_bound(s.drop_last());
        lemma_pow2_unfold(s.len());
    } else {
        lemma2_to64();
    }
}

/// The value of a bit string with one more bit.
pub proof fn lemma_bits_value_push(s: Seq<bool>, b: bool)
    ensures
        bits_value(s.push(b)) == 2 * bits_value(s) + if b { 1nat } else { 0nat },
{
    assert(s.push(b).drop_last() == s);
}

/// Writes bits into a byte buffer, most significant bit first, and keeps
/// count of deferred straddle bits.
pub struct BitMagicWriter {
    output: Vec<u8>,
    accumulator: u8,
    filled: u8,
    pending: u32,
}

impl BitMagicWriter {
    /// The writer's invariant: fewer than eight bits wait in the accumulator.
    pub closed spec fn wf(&self) -> bool {
        &&& self.filled < 8
        &&& (self.accumulator as nat) < pow2(self.filled as nat)
    }

    /// Every bit written so far, the full bytes and then the waiting bits.
    pub closed spec fn bits(&self) -> Seq<bool> {
        bytes_bits(self.output@) + low_bits(self.accumulator as nat, self.filled as nat)
    }

    /// The number of deferred straddle bits.
    pub closed spec fn pending(&self) -> nat {
        self.pending as nat
    }

    proof fn lemma_filled(&self)
        requires
            self.wf(),
        ensures
            self.bits().len() == 8 * self.output@.len() + self.filled,
            self.filled == self.bits().len() % 8,
    {
        lemma_bytes_bits_len(self.output@);
        lemma_low_bits_len(self.accumulator as nat, self.filled as nat);
    }

    /// The encoder state that the writer holds, with the given interval.
    pub open spec fn state_with(&self, low: int, high: int) -> EncState {
        EncState { low, high, pending: self.pending(), bits: self.bits() }
    }

    /// A writer that appends to `output`.
    pub fn conjure_new(output: Vec<u8>) -> (w: Self)
        ensures
            w.wf(),
            w.bits() == bytes_bits(output@),
            w.pending() == 0,
    {
        let w = BitMagicWriter { output, accumulator: 0, filled: 0, pending: 0 };
        proof {
            lemma2_to64();
            assert(w.bits() =~= bytes_bits(output@));
        }
        w
    }

    /// Appends one bit: the low bit of `bit`.
    pub fn write_bit(&mut self, bit: u8)
        requires
            old(self).wf(),
        ensures
            final(self).wf(),
            final(self).bits() == old(self).bits().push(bit % 2 == 1),
            final(self).pending() == old(self).pending(),
    {
        let b = bit % 2;
        proof {
            lemma2_to64();
            lemma_pow2_unfold((self.filled + 1) as nat);
            if self.filled < 7 {
                vstd::arithmetic::power2::lemma_pow2_strictly_increases(self.filled as nat, 7);
            }
        }
        let ghost old_acc = self.accumulator as nat;
        let ghost old_filled = self.filled as nat;
        self.accumulator = self.accumulator * 2 + b;
        self.filled = self.filled + 1;
        proof {
            let v = self.accumulator as nat;
            assert(v / 2 == old_acc);
            assert((v % 2 == 1) == (bit % 2 == 1));
            assert(low_bits(v, old_filled + 1) == low_bits(old_acc, old_filled).push(bit % 2 == 1));
        }
        if self.filled == 8 {
            proof {
                lemma_bytes_bits_push(self.output@, self.accumulator);
            }
            self.output.push(self.accumulator);
            self.accumulator = 0;
            self.filled = 0;
            proof {
                reveal(pow2);
                assert(low_bits(0, 0) =~= Seq::empty());
            }
        }
        proof {
            assert(self.bits() =~= old(self).bits().push(bit % 2 == 1));
        }
    }

    /// Writes `bit`, then its complement once per deferred bit, and clears
    /// the deferred count.
    pub fn output_bit(&mut self, bit: u8)
        requires
            old(self).wf(),
            bit <= 1,
        ensures
            final(self).wf(),
            final(self).bits() == old(self).bits() + follow_bits(bit == 1, old(self).pending()),
            final(self).pending() == 0,
    {
        self.write_bit(bit);
        let n = self.pending;
        let ghost start = self.bits();
        let mut i: u32 = 0;
        while i < n
            invariant
                self.wf(),
                i <= n,
                bit <= 1,
                n == old(self).pending(),
                start == old(self).bits().push(bit == 1),
                self.bits() == start + Seq::new(i as nat, |k: int| bit != 1),
            decreases n - i,
        {
            self.write_bit(1 - bit);
            i = i + 1;
            proof {
                assert(self.bits() =~= start + Seq::new(i as nat, |k: int| bit != 1));
            }
        }
        self.pending = 0;
        proof {
            assert(self.bits() =~= old(self).bits() + follow_bits(bit == 1, old(self).pending()));
        }
    }

    /// Resolves the deferred bits in the direction of `bit`: the same as
    /// `output_bit`.
    pub fn bit_plus_follow(&mut self, bit: u8)
        requires
            old(self).wf(),
            bit <= 1,
        ensures
            final(self).wf(),
            final(self).bits() == old(self).bits() + follow_bits(bit == 1, old(self).pending()),
            final(self).pending() == 0,
    {
        self.output_bit(bit);
    }

    /// Closes the stream: one more deferred bit, resolved as a 1, then zero
    /// bits up to the next byte boundary. Returns the buffer.
    pub fn complete_compression_ritual(self) -> (out: Vec<u8>)
        requires
            self.wf(),
            self.pending() < u32::MAX,
        ensures
            bytes_bits(out@) == padded(self.bits() + follow_bits(true, self.pending() + 1)),
    {
        let ghost closing = self.bits() + follow_bits(true, self.pending() + 1);
        let mut w = self;
        w.finish();
        w.output
    }

    /// Closes the stream in place (see `complete_compression_ritual`).
    fn finish(&mut self)
        requires
            old(self).wf(),
            old(self).pending() < u32::MAX,
        ensures
            bytes_bits(final(self).output@) == padded(old(self).bits() + follow_bits(true, old(self).pending() + 1)),
    {
        let ghost closing = self.bits() + follow_bits(true, self.pending() + 1);
        self.pending = self.pending + 1;
        self.bit_plus_follow(1);
        let ghost r = (closing.len() % 8) as nat;
        proof {
            self.lemma_filled();
        }
        let mut j: u8 = 0;
        while self.filled > 0
            invariant
                self.wf(),
                r == closing.len() % 8,
                r + j <= 8,
                r == 0 ==> j == 0,
                self.bits() == closing + Seq::new(j as nat, |k: int| false),
                self.filled == self.bits().len() % 8,
            decreases 8 - r - j,
        {
            proof {
                assert(self.bits().len() == closing.len() + j);
                assert((closing.len() + j) % 8 == (r + j) % 8) by (nonlinear_arith)
                    requires r == closing.len() % 8;
            }
            self.write_bit(0);
            j = j + 1;
            proof {
                self.lemma_filled();
                assert(self.bits() =~= closing + Seq::new(j as nat, |k: int| false));
            }
        }
        proof {
            self.lemma_filled();
            assert(self.bits().len() == closing.len() + j);
            assert((closing.len() + j) % 8 == (r + j) % 8) by (nonlinear_arith)
                requires r == closing.len() % 8;
        }
        proof {
            assert(low_bits(self.accumulator as nat, 0) =~= Seq::empty());
            assert(self.bits() == bytes_bits(self.output@) + Seq::<bool>::empty());
            assert(bytes_bits(self.output@) =~= self.bits());
            assert(r + j == 0 || r + j == 8);
            if r == 0 {
                assert((8 - closing.len() % 8) % 8 == 0);
            } else {
                assert((8 - closing.len() % 8) == j as int);
            }
            assert(padded(closing) =~= closing + Seq::new(j as nat, |k: int| false));
        }
    }
}


impl BitMagicWriter {
    /// Renormalises `[low, high]` after a symbol: emits or defers one bit
    /// per doubling until the interval is settled.
    pub fn normalize(&mut self, low: &mut u32, high: &mut u32)
        requires
            old(self).wf(),
            interval_ok(*old(low) as int, *old(high) as int),
            old(self).pending() + 24 <= u32::MAX,
        ensures
            final(self).wf(),
            final(self).state_with(*final(low) as int, *final(high) as int)
                == enc_renorm(old(self).state_with(*old(low) as int, *old(high) as int)),
            interval_ok(*final(low) as int, *final(high) as int),
            settled(*final(low) as int, *final(high) as int),
            final(self).bits().len() + final(self).pending()
                <= old(self).bits().len() + old(self).pending() + 24,
    {
        let ghost start = self.state_with(*low as int, *high as int);
        let ghost r0: int = *high - *low + 1;
        let ghost mut it: nat = 0;
        proof {
            lemma2_to64();
            vstd::arithmetic::power2::lemma_pow2(0);
            reveal(pow2);
        }
        loop
            invariant
                self.wf(),
                interval_ok(*low as int, *high as int),
                enc_renorm(self.state_with(*low as int, *high as int)) == enc_renorm(start),
                1 <= r0,
                *high - *low + 1 == pow2(it) * r0,
                self.bits().len() + self.pending() == start.bits.len() + start.pending + it,
                self.pending() <= start.pending + it,
                it <= 24,
                start.pending + 24 <= u32::MAX,
            ensures
                self.wf(),
                interval_ok(*low as int, *high as int),
                enc_renorm(self.state_with(*low as int, *high as int)) == enc_renorm(start),
                settled(*low as int, *high as int),
                self.bits().len() + self.pending() <= start.bits.len() + start.pending + 24,
            decreases ARITHMETIC_PRECISION_LIMIT - (*high - *low),
        {
            let ghost before = self.state_with(*low as int, *high as int);
            if *high < HALF {
                self.bit_plus_follow(0);
            } else if *low >= HALF {
                self.bit_plus_follow(1);
                *low = *low - HALF;
                *high = *high - HALF;
            } else if *low >= FIRST_QTR && *high < THIRD_QTR {
                proof {
                    vstd::arithmetic::power2::lemma_pow2_unfold(it + 1);
                    assert(2 * (*high - *low + 1) == pow2(it + 1) * r0) by (nonlinear_arith)
                        requires
                            *high - *low + 1 == pow2(it) * r0,
                            pow2(it + 1) == 2 * pow2(it);
                    lemma_doubling_count(r0, it + 1, 2 * (*high - *low + 1));
                }
                self.pending = self.pending + 1;
                *low = *low - FIRST_QTR;
                *high = *high - FIRST_QTR;
            } else {
                proof {
                    assert(enc_renorm(before) == before);
                }
                break;
            }
            *low = 2 * *low;
            *high = 2 * *high + 1;
            proof {
                vstd::arithmetic::power2::lemma_pow2_unfold(it + 1);
                assert(*high - *low + 1 == 2 * (before.high - before.low + 1));
                assert(*high - *low + 1 == pow2(it + 1) * r0) by (nonlinear_arith)
                    requires
                        *high - *low + 1 == 2 * (before.high - before.low + 1),
                        before.high - before.low + 1 == pow2(it) * r0,
                        pow2(it + 1) == 2 * pow2(it);
                it = it + 1;
                lemma_doubling_count(r0, it, *high - *low + 1);
                assert(self.state_with(*low as int, *high as int) =~= enc_renorm_step(before));
            }
        }
    }

    /// Encodes one symbol with cumulative range `[cs, ce)` out of `total`:
    /// narrows the interval to that share and renormalises.
    pub fn encode_mystical_symbol(
        &mut self,
        low: &mut u32,
        high: &mut u32,
        cs: u32,
        ce: u32,
        total: u32,
    )
        requires
            old(self).wf(),
            narrow_ok(*old(low) as int, *old(high) as int, cs as int, ce as int, total as int),
            old(self).pending() + 24 <= u32::MAX,
        ensures
            final(self).wf(),
            final(self).state_with(*final(low) as int, *final(high) as int)
                == enc_symbol(old(self).state_with(*old(low) as int, *old(high) as int), cs as int, ce as int, total as int),
            interval_ok(*final(low) as int, *final(high) as int),
            settled(*final(low) as int, *final(high) as int),
            final(self).bits().len() + final(self).pending()
                <= old(self).bits().len() + old(self).pending() + 24,
    {
        proof {
            lemma_narrow(*low as int, *high as int, cs as int, ce as int, total as int);
        }
        let (nl, nh) = narrowed(*low, *high, cs, ce, total);
        *low = nl;
        *high = nh;
        self.normalize(low, high);
    }
}

/// One step of `enc_renorm` on an interval that is not yet settled.
pub open spec fn enc_renorm_step(s: EncState) -> EncState {
    if s.high < HALF {
        EncState { low: 2 * s.low, high: 2 * s.high + 1, pending: 0, bits: s.bits + follow_bits(false, s.pending) }
    } else if s.low >= HALF {
        EncState {
            low: 2 * (s.low - HALF),
            high: 2 * (s.high - HALF) + 1,
            pending: 0,
            bits: s.bits + follow_bits(true, s.pending),
        }
    } else {
        EncState {
            low: 2 * (s.low - FIRST_QTR),
            high: 2 * (s.high - FIRST_QTR) + 1,
            pending: s.pending + 1,
            bits: s.bits,
        }
    }
}

/// A width that is `2^it` times a positive width and fits the interval
/// has been doubled at most 24 times.
proof fn lemma_doubling_count(r0: int, it: nat, width: int)
    requires
        1 <= r0,
        width == pow2(it) * r0,
        width <= ARITHMETIC_PRECISION_LIMIT + 1,
    ensures
        it <= 24,
{
    lemma2_to64();
    assert(pow2(it) <= width) by (nonlinear_arith)
        requires width == pow2(it) * r0, 1 <= r0;
    if it > 24 {
        vstd::arithmetic::power2::lemma_pow2_strictly_increases(24, it);
    }
}

/// `[low, high]` narrowed to `[cs, ce)` out of `total`.
fn narrowed(low: u32, high: u32, cs: u32, ce: u32, total: u32) -> (r: (u32, u32))
    requires
        narrow_ok(low as int, high as int, cs as int, ce as int, total as int),
    ensures
        r.0 as int == narrow_low(low as int, high as int, cs as int, total as int),
        r.1 as int == narrow_high(low as int, high as int, ce as int, total as int),
{
    proof {
        lemma_narrow(low as int, high as int, cs as int, ce as int, total as int);
    }
    let range: u64 = (high as u64) - (low as u64) + 1;
    assert(range * (ce as u64) <= 0x1000000 * 0x100000000) by (nonlinear_arith)
        requires range <= 0x1000000, ce <= 0xffffffff;
    assert(range * (cs as u64) <= 0x1000000 * 0x100000000) by (nonlinear_arith)
        requires range <= 0x1000000, cs <= 0xffffffff;
    let new_high = (low as u64) + (range * (ce as u64)) / (total as u64) - 1;
    let new_low = (low as u64) + (range * (cs as u64)) / (total as u64);
    (new_low as u32, new_high as u32)
}

/// Reads the bits of a byte buffer, most significant first, behind a code
/// window of 24 bits. Reads past the end give 0.
pub struct BitMagicReader {
    data: Vec<u8>,
    byte_pos: usize,
    bit_pos: u8,
    window: u32,
}

impl BitMagicReader {
    /// The reader's invariant: its cursor lies within the stream.
    pub closed spec fn wf(&self) -> bool {
        &&& self.byte_pos <= self.data@.len()
        &&& self.bit_pos < 8
        &&& self.byte_pos == self.data@.len() ==> self.bit_pos == 0
    }

    /// The stream being read.
    pub closed spec fn stream(&self) -> Seq<u8> {
        self.data@
    }

    /// Index of the next bit to read; it stops at the end of the stream.
    pub closed spec fn cursor(&self) -> nat {
        (8 * self.byte_pos + self.bit_pos) as nat
    }

    /// The code window.
    pub closed spec fn window(&self) -> nat {
        self.window as nat
    }

    /// The decoder state that the reader holds, with the given interval.
    pub open spec fn state_with(&self, low: int, high: int) -> DecState {
        DecState { low, high, window: self.window() as int, cursor: self.cursor() }
    }

    /// A reader over `data` whose window holds the first 24 bits.
    pub fn conjure_from_scroll(data: Vec<u8>) -> (r: Self)
        ensures
            r.wf(),
            r.stream() == data@,
            r.window() == initial_window(data@),
            r.cursor() == if 24 <= 8 * data@.len() { 24 } else { 8 * data@.len() },
    {
        let mut reader = BitMagicReader { data, byte_pos: 0, bit_pos: 0, window: 0 };
        let mut k: u32 = 0;
        proof {
            lemma2_to64();
            assert(code_prefix(reader.data@, 0) =~= Seq::empty());
        }
        while k < 24
            invariant
                reader.wf(),
                reader.stream() == data@,
                k <= 24,
                reader.window() == bits_value(code_prefix(data@, k as nat)),
                reader.cursor() == if k <= 8 * data@.len() { k as nat } else { 8 * data@.len() },
            decreases 24 - k,
        {
            proof {
                lemma2_to64();
                lemma_bits_value_bound(code_prefix(data@, k as nat));
                if k < 23 {
                    vstd::arithmetic::power2::lemma_pow2_strictly_increases(k as nat, 23);
                }
                assert(code_bit(data@, k as nat) == code_bit(data@, reader.cursor()));
            }
            let bit = reader.read_bit();
            proof {
                assert(code_prefix(data@, (k + 1) as nat) =~= code_prefix(data@, k as nat).push(code_bit(data@, k as nat)));
                lemma_bits_value_push(code_prefix(data@, k as nat), code_bit(data@, k as nat));
            }
            reader.window = reader.window * 2 + bit as u32;
            k = k + 1;
        }
        reader
    }

    /// Reads the bit under the cursor and moves past it; at the end of the
    /// stream the bit is 0 and the cursor stays.
    pub fn read_bit(&mut self) -> (bit: u8)
        requires
            old(self).wf(),
        ensures
            final(self).wf(),
            bit == if code_bit(old(self).stream(), old(self).cursor()) { 1u8 } else { 0u8 },
            final(self).cursor() == advance(old(self).cursor(), old(self).stream()),
            final(self).stream() == old(self).stream(),
            final(self).window() == old(self).window(),
    {
        if self.byte_pos >= self.data.len() {
            return 0;
        }
        let byte = self.data[self.byte_pos];
        let bit = bit_of(byte, 7 - self.bit_pos);
        proof {
            lemma_bytes_bits_index(self.data@, self.byte_pos as int, self.bit_pos as int);
            lemma_low_bits_index(byte as nat, 8, self.bit_pos as nat);
        }
        self.bit_pos = self.bit_pos + 1;
        if self.bit_pos == 8 {
            self.bit_pos = 0;
            self.byte_pos = self.byte_pos + 1;
        }
        bit
    }

    /// The cumulative position that the window points at, out of `total`.
    pub fn decode_mystical_target(&self, total: u32, low: u32, high: u32) -> (t: u32)
        requires
            interval_ok(low as int, high as int),
            low <= self.window() <= high,
            total >= 1,
        ensures
            t as int == target_of(self.window() as int, low as int, high as int, total as int),
            t < total,
    {
        proof {
            lemma_target_bound(self.window() as int, low as int, high as int, total as int);
        }
        let range: u64 = (high as u64) - (low as u64) + 1;
        let d: u64 = (self.window as u64) - (low as u64) + 1;
        assert(d * (total as u64) <= 0x1000000 * 0x100000000) by (nonlinear_arith)
            requires d <= 0x1000000, total <= 0xffffffff;
        assert(d * (total as u64) >= 1) by (nonlinear_arith)
            requires d >= 1, total >= 1;
        ((d * (total as u64) - 1) / range) as u32
    }
}


impl BitMagicReader {
    /// Narrows `[low, high]` to the decoded symbol's share `[cs, ce)` out of
    /// `total`, then renormalises.
    pub fn update_mystical_intervals(
        &mut self,
        low: &mut u32,
        high: &mut u32,
        cs: u32,
        ce: u32,
        total: u32,
    )
        requires
            old(self).wf(),
            narrow_ok(*old(low) as int, *old(high) as int, cs as int, ce as int, total as int),
            narrow_low(*old(low) as int, *old(high) as int, cs as int, total as int) <= old(self).window(),
            old(self).window() <= narrow_high(*old(low) as int, *old(high) as int, ce as int, total as int),
        ensures
            final(self).wf(),
            final(self).stream() == old(self).stream(),
            final(self).state_with(*final(low) as int, *final(high) as int)
                == dec_symbol(old(self).state_with(*old(low) as int, *old(high) as int), cs as int, ce as int, total as int, old(self).stream()),
            interval_ok(*final(low) as int, *final(high) as int),
            settled(*final(low) as int, *final(high) as int),
            *final(low) <= final(self).window() <= *final(high),
    {
        proof {
            lemma_narrow(*low as int, *high as int, cs as int, ce as int, total as int);
        }
        let (nl, nh) = narrowed(*low, *high, cs, ce, total);
        *low = nl;
        *high = nh;
        self.normalize(low, high);
    }

    /// Renormalises `[low, high]` after a symbol, shifting one stream bit
    /// into the window per doubling, until the interval is settled.
    pub fn normalize(&mut self, low: &mut u32, high: &mut u32)
        requires
            old(self).wf(),
            interval_ok(*old(low) as int, *old(high) as int),
            *old(low) <= old(self).window() <= *old(high),
        ensures
            final(self).wf(),
            final(self).stream() == old(self).stream(),
            final(self).state_with(*final(low) as int, *final(high) as int)
                == dec_renorm(old(self).state_with(*old(low) as int, *old(high) as int), old(self).stream()),
            interval_ok(*final(low) as int, *final(high) as int),
            settled(*final(low) as int, *final(high) as int),
            *final(low) <= final(self).window() <= *final(high),
    {
        let ghost start = self.state_with(*low as int, *high as int);
        let ghost stream = self.stream();
        loop
            invariant
                self.wf(),
                self.stream() == stream,
                interval_ok(*low as int, *high as int),
                *low <= self.window() <= *high,
                dec_renorm(self.state_with(*low as int, *high as int), stream) == dec_renorm(start, stream),
            ensures
                self.wf(),
                self.stream() == stream,
                interval_ok(*low as int, *high as int),
                *low <= self.window() <= *high,
                dec_renorm(self.state_with(*low as int, *high as int), stream) == dec_renorm(start, stream),
                settled(*low as int, *high as int),
            decreases ARITHMETIC_PRECISION_LIMIT - (*high - *low),
        {
            let ghost before = self.state_with(*low as int, *high as int);
            if *high < HALF {
            } else if *low >= HALF {
                self.window = self.window - HALF;
                *low = *low - HALF;
                *high = *high - HALF;
            } else if *low >= FIRST_QTR && *high < THIRD_QTR {
                self.window = self.window - FIRST_QTR;
                *low = *low - FIRST_QTR;
                *high = *high - FIRST_QTR;
            } else {
                proof {
                    assert(dec_renorm(before, stream) == before);
                }
                break;
            }
            *low = 2 * *low;
            *high = 2 * *high + 1;
            let bit = self.read_bit();
            self.window = 2 * self.window + bit as u32;
            proof {
                assert(self.state_with(*low as int, *high as int) == dec_renorm_step(before, stream));
            }
        }
    }

    /// The code window.
    pub fn reveal_mystical_position(&self) -> (w: u32)
        ensures
            w as nat == self.window(),
    {
        self.window
    }
}

/// One step of `dec_renorm` on an interval that is not yet settled.
pub open spec fn dec_renorm_step(s: DecState, stream: Seq<u8>) -> DecState {
    let sub: int = if s.high < HALF {
        0
    } else if s.low >= HALF {
        HALF as int
    } else {
        FIRST_QTR as int
    };
    DecState {
        low: 2 * (s.low - sub),
        high: 2 * (s.high - sub) + 1,
        window: crate::interval::shifted_window(s, sub, stream),
        cursor: advance(s.cursor, stream),
    }
}

/// Bit `k` of `byte`, counting from the least significant.
fn bit_of(byte: u8, k: u8) -> (bit: u8)
    requires
        k < 8,
    ensures
        bit as nat == (byte as nat / pow2(k as nat)) % 2,
{
    let mut v: u8 = byte;
    let mut i: u8 = 0;
    proof {
        lemma2_to64();
    }
    while i < k
        invariant
            i <= k,
            v as nat == byte as nat / pow2(i as nat),
        decreases k - i,
    {
        proof {
            lemma_pow2_unfold((i + 1) as nat);
            vstd::arithmetic::power2::lemma_pow2_pos(i as nat);
            vstd::arithmetic::div_mod::lemma_div_denominator(byte as int, pow2(i as nat) as int, 2);
        }
        v = v / 2;
        i = i + 1;
    }
    v % 2
}

/// Bit `j` of the `n` low bits of `v` is bit `n - 1 - j` of `v`.
proof fn lemma_low_bits_index(v: nat, n: nat, j: nat)
    requires
        j < n,
    ensures
        low_bits(v, n).len() == n,
        low_bits(v, n)[j as int] == ((v / pow2((n - 1 - j) as nat)) % 2 == 1),
    decreases n,
{
    lemma_low_bits_len(v, n);
    lemma_low_bits_len(v / 2, (n - 1) as nat);
    if j == n - 1 {
        lemma2_to64();
        assert((n - 1 - j) as nat == 0);
        assert(v / pow2(0) == v);
        assert(low_bits(v, n)[j as int] == (v % 2 == 1));
    } else {
        lemma_low_bits_index(v / 2, (n - 1) as nat, j);
        let e = (n - 2 - j) as nat;
        lemma_pow2_unfold(e + 1);
        vstd::arithmetic::power2::lemma_pow2_pos(e);
        vstd::arithmetic::div_mod::lemma_div_denominator(v as int, 2, pow2(e) as int);
        assert((n - 1 - j) as nat == e + 1);
        assert(low_bits(v, n)[j as int] == low_bits(v / 2, (n - 1) as nat)[j as int]);
        assert(v / 2 / pow2(e) == v / pow2(e + 1));
    }
}

/// Bit `8 * i + j` of a byte string is bit `j` of byte `i`.
pub proof fn lemma_bytes_bits_index(s: Seq<u8>, i: int, j: int)
    requires
        0 <= i < s.len(),
        0 <= j < 8,
    ensures
        8 * i + j < bytes_bits(s).len(),
        bytes_bits(s)[8 * i + j] == low_bits(s[i] as nat, 8)[j],
    decreases s.len(),
{
    lemma_bytes_bits_len(s);
    lemma_bytes_bits_len(s.drop_last());
    lemma_low_bits_len(s.last() as nat, 8);
    if i < s.len() - 1 {
        lemma_bytes_bits_index(s.drop_last(), i, j);
    }
}

/// The `n` low bits of a value below `2^n` read back as the value.
pub proof fn lemma_low_bits_round_trip(v: nat, n: nat)
    requires
        v < pow2(n),
    ensures
        bits_value(low_bits(v, n)) == v,
    decreases n,
{
    if n == 0 {
        lemma2_to64();
    } else {
        lemma_pow2_unfold(n);
        lemma_low_bits_round_trip(v / 2, (n - 1) as nat);
        lemma_bits_value_push(low_bits(v / 2, (n - 1) as nat), v % 2 == 1);
    }
}

/// Different byte strings have different bits.
pub proof fn lemma_bytes_bits_injective(a: Seq<u8>, b: Seq<u8>)
    requires
        bytes_bits(a) == bytes_bits(b),
    ensures
        a == b,
{
    lemma_bytes_bits_len(a);
    lemma_bytes_bits_len(b);
    assert forall|i: int| 0 <= i < a.len() implies a[i] == b[i] by {
        assert forall|j: int| 0 <= j < 8 implies low_bits(a[i] as nat, 8)[j] == low_bits(b[i] as nat, 8)[j] by {
            lemma_bytes_bits_index(a, i, j);
            lemma_bytes_bits_index(b, i, j);
        }
        lemma_low_bits_len(a[i] as nat, 8);
        lemma_low_bits_len(b[i] as nat, 8);
        assert(low_bits(a[i] as nat, 8) =~= low_bits(b[i] as nat, 8));
        lemma2_to64();
        lemma_low_bits_round_trip(a[i] as nat, 8);
        lemma_low_bits_round_trip(b[i] as nat, 8);
    }
    assert(a =~= b);
}

} // verus!
