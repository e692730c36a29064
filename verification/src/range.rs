//! Renormalizing binary arithmetic decoder with exact consumed-bit accounting.
//!
//! The decoder walks one immutable byte buffer from both ends at once: a
//! forward cursor feeds the arithmetic-coded bits, and an independent backward
//! cursor feeds raw (uncoded) bits packed from the tail. Out-of-range reads
//! always degrade to zero-valued bytes; no operation fails on any byte
//! sequence, including an empty one.

use vstd::prelude::*;

verus! {

use vstd::arithmetic::div_mod::lemma_fundamental_div_mod;
use vstd::arithmetic::div_mod::lemma_mod_division_less_than_divisor;

/// Abstract state of a [`Decoder`], used by every contract in this module.
pub ghost struct DecoderModel {
    /// The whole underlying buffer.
    pub buf: Seq<u8>,
    /// Index of the next byte the forward (coded-bit) cursor will read.
    pub pos: int,
    /// The byte most recently read by the forward cursor (0 past the end).
    pub current: int,
    /// Number of bytes of `buf[1..]` not yet consumed by the backward cursor.
    pub raw_len: int,
    /// Cached raw bits, newest bits highest.
    pub raw_cache: u32,
    /// Running raw-bit cache accounting, as kept by the algorithm.
    pub raw_cache_len: int,
    /// Current arithmetic-decoder value; always below `range`.
    pub value: int,
    /// Current interval width; in `(2^23, 2^31]` after any mutating call.
    pub range: int,
    /// Running consumed-bit counter, primed to 9 at construction.
    pub bits_read: int,
}

/// `2^n` for a non-negative exponent, the form of every scale factor here.
pub open spec fn pow2i(n: int) -> int
    decreases n,
{
    if n <= 0 {
        1
    } else {
        2 * pow2i(n - 1)
    }
}

/// Number of significant bits of `v`: the least `k` with `v < 2^k`.
pub open spec fn spec_ilog(v: int) -> int
    decreases v,
{
    if v <= 0 {
        0
    } else {
        1 + spec_ilog(v / 2)
    }
}

/// The smaller of two integers.
pub open spec fn spec_min(a: int, b: int) -> int {
    if a < b {
        a
    } else {
        b
    }
}

/// Offset reported by the frequency query: `total - min(value / divisor + 1, total)`.
pub open spec fn spec_offset(value: int, divisor: int, total: int) -> int {
    total - spec_min(value / divisor + 1, total)
}

/// State after committing a decoded symbol with cumulative bounds
/// `[low, high)` out of `total`, using the divisor of the paired query:
/// the excluded upper tail leaves `value`, `range` shrinks to the symbol's
/// sub-interval, and the decoder renormalizes.
pub open spec fn spec_update(
    m: DecoderModel,
    divisor: int,
    low: int,
    high: int,
    total: int,
) -> DecoderModel {
    let excl = divisor * (total - high);
    let v2 = m.value - excl;
    let r2 = if low > 0 {
        divisor * (high - low)
    } else {
        m.range - excl
    };
    spec_normalize(DecoderModel { value: v2, range: r2, ..m })
}

/// State after a self-contained single-bit decode with probability `1/2^logp`.
pub open spec fn spec_bit_logp(m: DecoderModel, logp: int) -> DecoderModel {
    let scale = m.range / pow2i(logp);
    if m.value < scale {
        spec_normalize(DecoderModel { range: scale, ..m })
    } else {
        spec_normalize(DecoderModel { value: m.value - scale, range: m.range - scale, ..m })
    }
}

/// Euclidean facts about `v / d` for a positive divisor.
pub proof fn lemma_div_bounds(v: int, d: int)
    requires
        0 <= v,
        1 <= d,
    ensures
        d * (v / d) <= v,
        v < d * (v / d) + d,
        0 <= v / d,
{
    lemma_fundamental_div_mod(v, d);
    lemma_mod_division_less_than_divisor(v, d);
    assert(v / d >= 0) by (nonlinear_arith)
        requires
            v >= 0,
            d >= 1,
    ;
}

/// Well-formedness of a decoder state between public calls.
pub open spec fn model_wf(m: DecoderModel) -> bool {
    &&& 0 <= m.pos <= m.buf.len()
    &&& 0 <= m.current < 256
    &&& 0 <= m.raw_len
    &&& (m.raw_len == 0 || m.raw_len + 1 <= m.buf.len())
    &&& 0 <= m.raw_cache_len
    &&& 0 <= m.value < m.range
    &&& 0x800000 < m.range <= 0x80000000
    &&& 33 <= m.bits_read
}

/// The byte the forward cursor would read next (0 once the buffer is spent).
pub open spec fn next_forward_byte(m: DecoderModel) -> int {
    if m.pos < m.buf.len() {
        m.buf[m.pos] as int
    } else {
        0
    }
}

/// Forward-cursor position after one read; it saturates at the buffer end.
pub open spec fn advance_forward(m: DecoderModel) -> int {
    if m.pos < m.buf.len() {
        m.pos + 1
    } else {
        m.pos
    }
}

/// One renormalization iteration: widen `range` by one byte, shift the next
/// coded-bit byte (7 fresh bits plus 1 bit carried from the previous byte,
/// complemented) into `value`, and account 8 bits.
pub open spec fn norm_step(m: DecoderModel) -> DecoderModel {
    let b = next_forward_byte(m);
    let sym = (m.current % 2) * 128 + b / 2;
    DecoderModel {
        pos: advance_forward(m),
        current: b,
        value: (m.value % 0x800000) * 256 + 255 - sym,
        range: m.range * 256,
        bits_read: m.bits_read + 8,
        ..m
    }
}

/// Renormalize until `range` exceeds `2^23` again.
pub open spec fn spec_normalize(m: DecoderModel) -> DecoderModel
    decreases 0x80000000 - m.range,
{
    if m.range <= 0 || m.range > 0x800000 {
        m
    } else {
        spec_normalize(norm_step(m))
    }
}

/// State of a fresh decoder over `data`, before use: the first byte seeds
/// `value = 127 - (b >> 1)` with `range = 128` and 9 bits accounted, and one
/// renormalization pass runs.
pub open spec fn spec_new(data: Seq<u8>) -> DecoderModel {
    let current = if data.len() > 0 {
        data[0] as int
    } else {
        0
    };
    spec_normalize(
        DecoderModel {
            buf: data,
            pos: if data.len() > 0 {
                1
            } else {
                0
            },
            current: current,
            raw_len: if data.len() > 0 {
                data.len() - 1
            } else {
                0
            },
            raw_cache: 0,
            raw_cache_len: 0,
            value: 127 - current / 2,
            range: 128,
            bits_read: 9,
        },
    )
}

/// Renormalization keeps every well-formedness fact except the lower range
/// bound, which it restores; it never touches the raw-bit side.
pub proof fn lemma_normalize_props(m: DecoderModel)
    requires
        0 < m.range <= 0x80000000,
        0 <= m.value < m.range,
        0 <= m.pos <= m.buf.len(),
        0 <= m.current < 256,
    ensures
        ({
            let r = spec_normalize(m);
            &&& 0x800000 < r.range <= 0x80000000
            &&& 0 <= r.value < r.range
            &&& 0 <= r.pos <= r.buf.len()
            &&& 0 <= r.current < 256
            &&& r.bits_read >= m.bits_read
            &&& r.buf == m.buf
            &&& r.raw_len == m.raw_len
            &&& r.raw_cache == m.raw_cache
            &&& r.raw_cache_len == m.raw_cache_len
        }),
    decreases 0x80000000 - m.range,
{
    if m.range <= 0x800000 {
        let s = norm_step(m);
        assert(m.value % 0x800000 == m.value);
        lemma_normalize_props(s);
    }
}

/// Powers of two are positive.
pub proof fn lemma_pow2i_pos(n: int)
    ensures
        pow2i(n) >= 1,
    decreases n,
{
    if n > 0 {
        lemma_pow2i_pos(n - 1);
    }
}

/// Powers of two grow monotonically with the exponent.
pub proof fn lemma_pow2i_monotone(a: int, b: int)
    requires
        a <= b,
    ensures
        pow2i(a) <= pow2i(b),
    decreases b - a,
{
    if a < b {
        lemma_pow2i_monotone(a, b - 1);
        lemma_pow2i_pos(b - 1);
    }
}

/// The largest power of two that fits in 32 bits.
pub proof fn lemma_pow2i_31()
    ensures
        pow2i(31) == 0x80000000,
{
    reveal_with_fuel(pow2i, 32);
}

/// Interval arithmetic justifying one commit step: with a divisor from the
/// paired query and symbol bounds bracketing the reported offset, the excluded
/// tail fits below `value` and the shrunken `range` stays positive and above
/// the new `value`.
pub proof fn lemma_update_bounds(m: DecoderModel, d: int, low: int, high: int, total: int)
    requires
        model_wf(m),
        1 <= d,
        d * total <= m.range,
        0 <= low < high <= total,
        low <= spec_offset(m.value, d, total),
        spec_offset(m.value, d, total) < high,
    ensures
        0 <= d * (total - high) <= m.value,
        low > 0 ==> m.value - d * (total - high) < d * (high - low),
        low > 0 ==> 1 <= d * (high - low) <= m.range,
        low == 0 ==> m.value - d * (total - high) < m.range - d * (total - high),
        low == 0 ==> 1 <= m.range - d * (total - high),
        low == 0 ==> m.range - d * (total - high) <= m.range,
{
    let v = m.value;
    let q = v / d;
    lemma_div_bounds(v, d);
    // The offset bound pins `total - high` under the quotient.
    assert(total - high <= q);
    assert(d * (total - high) <= d * q) by (nonlinear_arith)
        requires
            total - high <= q,
            d >= 0,
    ;
    assert(d * (total - high) >= 0) by (nonlinear_arith)
        requires
            total - high >= 0,
            d >= 0,
    ;
    if low > 0 {
        // A positive lower bound forces the query's minimum to be `q + 1`.
        assert(q + 1 <= total - low);
        assert(v < d * (total - low)) by (nonlinear_arith)
            requires
                v < d * q + d,
                q + 1 <= total - low,
                d >= 1,
        ;
        assert(d * (total - low) - d * (total - high) == d * (high - low)) by (nonlinear_arith);
        assert(1 <= d * (high - low)) by (nonlinear_arith)
            requires
                d >= 1,
                high - low >= 1,
        ;
        assert(d * (high - low) <= d * total) by (nonlinear_arith)
            requires
                high - low <= total,
                d >= 0,
        ;
    } else {
        assert(d * high >= 0) by (nonlinear_arith)
            requires
                d >= 0,
                high >= 0,
        ;
        assert(d * total - d * (total - high) == d * high) by (nonlinear_arith);
        assert(d * high >= 1) by (nonlinear_arith)
            requires
                d >= 1,
                high >= 1,
        ;
    }
}

/// Index where the linear ICDF scan starting at entry `k` stops: the least
/// `j + 1` with `value >= scale * table[j]`, at most `table.len()`
/// when the table ends in a zero threshold.
pub open spec fn icdf_index(value: int, scale: int, table: Seq<u8>, k: int) -> int
    decreases table.len() - k,
{
    if k < 0 || k >= table.len() {
        k + 1
    } else if value >= scale * table[k] {
        k + 1
    } else {
        icdf_index(value, scale, table, k + 1)
    }
}

/// Result and state of a categorical-symbol decode against an ICDF table
/// scaled to `2^total_bits`: the 1-based index where the scan stops, with the
/// interval narrowed to that entry's band and renormalized.
pub open spec fn spec_icdf(m: DecoderModel, table: Seq<u8>, total_bits: int) -> (int, DecoderModel) {
    let scale = m.range / pow2i(total_bits);
    let r = icdf_index(m.value, scale, table, 0);
    let hi = if r == 1 {
        m.range
    } else {
        scale * table[r - 2]
    };
    let lo = scale * table[r - 1];
    (r, spec_normalize(DecoderModel { value: m.value - lo, range: hi - lo, ..m }))
}

/// Little-endian value of the last `amount` bytes of the tail region
/// `buf[1 .. raw_len + 1]`, the bytes taken newest-first; missing bytes read
/// as zero.
pub open spec fn spec_tail_bytes(buf: Seq<u8>, raw_len: int, amount: int) -> int
    decreases amount,
{
    if amount <= 0 || raw_len <= 0 || raw_len + 1 > buf.len() {
        0
    } else {
        buf[raw_len] + 256 * spec_tail_bytes(buf, raw_len - 1, amount - 1)
    }
}

/// Result and state of an `n`-bit raw read: the backward cursor surrenders
/// `n / 8 + 1` tail bytes into the cache, and the low `n` cache bits are the
/// result.
pub open spec fn spec_decode_bits(m: DecoderModel, bits: int) -> (int, DecoderModel) {
    let amount = bits / 8 + 1;
    let grabbed = spec_tail_bytes(m.buf, m.raw_len, amount);
    let merged = m.raw_cache | ((grabbed as u32) << (m.raw_cache_len as u32));
    let res = merged & ((pow2i(bits) - 1) as u32);
    (
        res as int,
        DecoderModel {
            raw_len: if m.raw_len >= amount {
                m.raw_len - amount
            } else {
                0
            },
            raw_cache: merged >> (bits as u32),
            raw_cache_len: m.raw_cache_len + bits,
            bits_read: m.bits_read + bits,
            ..m
        },
    )
}

/// Result and state of a uniform decode over `[0, total)`: totals up to 256
/// decode directly; larger totals decode 8 bits of precision arithmetically,
/// fill the rest from raw bits, and clamp to `total - 1`.
pub open spec fn spec_uniform(m: DecoderModel, total: int) -> (int, DecoderModel) {
    let tb = spec_ilog(total - 1);
    if tb <= 8 {
        let d = m.range / total;
        let o = spec_offset(m.value, d, total);
        (o, spec_update(m, d, o, o + 1, total))
    } else {
        let p = pow2i(tb - 8);
        let upper = (total - 1) / p + 1;
        let d = m.range / upper;
        let o = spec_offset(m.value, d, upper);
        let m2 = spec_update(m, d, o, o + 1, upper);
        let rb = spec_decode_bits(m2, tb - 8);
        (spec_min(o * p + rb.0, total - 1), rb.1)
    }
}

/// Total bits consumed so far: the running counter less the bits still
/// represented by the width of `range`.
pub open spec fn spec_tell(m: DecoderModel) -> int {
    m.bits_read - spec_ilog(m.range)
}

/// One fixed-point squaring step of the fractional bit estimate.
pub open spec fn frac_step(rb: int, q: int) -> (int, int) {
    let q2 = (q * q) / 32768;
    let bit = q2 / 65536;
    (2 * rb + bit, q2 / pow2i(bit))
}

/// Bits consumed at 1/8-bit resolution, refined by three squaring steps on a
/// 16-bit-normalized view of `range`.
pub open spec fn spec_tell_frac(m: DecoderModel) -> int {
    let rb0 = spec_ilog(m.range);
    let q0 = m.range / pow2i(rb0 - 16);
    let s1 = frac_step(rb0, q0);
    let s2 = frac_step(s1.0, s1.1);
    let s3 = frac_step(s2.0, s2.1);
    8 * m.bits_read - s3.0
}

/// Correction thresholds for the single-step fractional bit estimate.
pub open spec fn spec_correction(i: int) -> int {
    if i == 0 {
        35733
    } else if i == 1 {
        38967
    } else if i == 2 {
        42495
    } else if i == 3 {
        46340
    } else if i == 4 {
        50535
    } else if i == 5 {
        55109
    } else if i == 6 {
        60097
    } else {
        65535
    }
}

/// Bits consumed at 1/8-bit resolution, estimated in a single table-driven
/// step.
pub open spec fn spec_tell_frac_fast(m: DecoderModel) -> int {
    let rb = spec_ilog(m.range);
    let q = m.range / pow2i(rb - 16);
    let b0 = q / 4096 - 8;
    let b = if q > spec_correction(b0) {
        b0 + 1
    } else {
        b0
    };
    8 * m.bits_read - (8 * rb + b)
}

/// The significant-bit count brackets its argument between two powers of two.
pub proof fn lemma_ilog_bounds(v: int)
    requires
        v >= 0,
    ensures
        v < pow2i(spec_ilog(v)),
        v >= 1 ==> v >= pow2i(spec_ilog(v) - 1),
        v >= 1 ==> spec_ilog(v) >= 1,
    decreases v,
{
    if v >= 1 {
        lemma_ilog_bounds(v / 2);
    }
}

/// For a well-formed `range`, the significant-bit count lies in `[24, 32]`.
pub proof fn lemma_ilog_range(range: int)
    requires
        0x800000 < range <= 0x80000000,
    ensures
        24 <= spec_ilog(range) <= 32,
{
    lemma_ilog_bounds(range);
    reveal_with_fuel(pow2i, 34);
    if spec_ilog(range) <= 23 {
        lemma_pow2i_monotone(spec_ilog(range), 23);
        assert(false);
    }
    if spec_ilog(range) >= 33 {
        lemma_pow2i_monotone(33, spec_ilog(range));
        assert(false);
    }
}

/// Splitting an exponent splits the power.
pub proof fn lemma_pow2i_adds(a: int, b: int)
    requires
        a >= 0,
        b >= 0,
    ensures
        pow2i(a + b) == pow2i(a) * pow2i(b),
    decreases a,
{
    if a > 0 {
        lemma_pow2i_adds(a - 1, b);
        assert(2 * (pow2i(a - 1) * pow2i(b)) == (2 * pow2i(a - 1)) * pow2i(b))
            by (nonlinear_arith);
    }
}

/// The 16-bit-normalized view of a well-formed `range` sits in
/// `[2^15, 2^16)`.
pub proof fn lemma_scaled_range(range: int)
    requires
        0x800000 < range <= 0x80000000,
    ensures
        ({
            let rb = spec_ilog(range);
            let q = range / pow2i(rb - 16);
            &&& 24 <= rb <= 32
            &&& 32768 <= q < 65536
        }),
{
    lemma_ilog_range(range);
    lemma_ilog_bounds(range);
    let rb = spec_ilog(range);
    let p = pow2i(rb - 16);
    lemma_pow2i_pos(rb - 16);
    lemma_pow2i_adds(rb - 16, 15);
    lemma_pow2i_adds(rb - 16, 16);
    reveal_with_fuel(pow2i, 17);
    assert(range / p >= 32768) by (nonlinear_arith)
        requires
            range >= p * 32768,
            p >= 1,
    ;
    assert(range / p < 65536) by (nonlinear_arith)
        requires
            range < p * 65536,
            p >= 1,
    ;
}

/// Bound on the value carried by a bounded tail-byte read.
pub proof fn lemma_tail_bytes_bound(buf: Seq<u8>, raw_len: int, amount: int)
    ensures
        0 <= spec_tail_bytes(buf, raw_len, amount) < pow2i(8 * amount),
    decreases amount,
{
    lemma_pow2i_pos(8 * amount);
    if amount > 0 && raw_len > 0 && raw_len + 1 <= buf.len() {
        lemma_tail_bytes_bound(buf, raw_len - 1, amount - 1);
        lemma_pow2i_adds(8, 8 * amount - 8);
        reveal_with_fuel(pow2i, 9);
        assert(buf[raw_len] + 256 * spec_tail_bytes(buf, raw_len - 1, amount - 1) < 256 * pow2i(
            8 * amount - 8,
        )) by (nonlinear_arith)
            requires
                buf[raw_len] < 256,
                spec_tail_bytes(buf, raw_len - 1, amount - 1) <= pow2i(8 * amount - 8) - 1,
                pow2i(8 * amount - 8) >= 1,
        ;
    }
}

/// Renormalization from a positive `range` never pulls more than three
/// bytes, and pulls none once `range` already exceeds `2^23`.
pub proof fn lemma_normalize_bits(m: DecoderModel)
    requires
        0 < m.range,
    ensures
        spec_normalize(m).bits_read <= m.bits_read + 24,
        m.range >= 256 ==> spec_normalize(m).bits_read <= m.bits_read + 16,
        m.range >= 65536 ==> spec_normalize(m).bits_read <= m.bits_read + 8,
        m.range > 0x800000 ==> spec_normalize(m).bits_read == m.bits_read,
    decreases 0x80000000 - m.range,
{
    if m.range <= 0x800000 {
        lemma_normalize_bits(norm_step(m));
    }
}

/// `2^n` as a machine integer.
fn pow2_u32(n: u32) -> (r: u32)
    requires
        n <= 31,
    ensures
        r as int == pow2i(n as int),
        r >= 1,
{
    let mut r: u32 = 1;
    let mut i: u32 = 0;
    while i < n
        invariant
            i <= n,
            n <= 31,
            r as int == pow2i(i as int),
        decreases n - i,
    {
        proof {
            lemma_pow2i_monotone(i as int + 1, 31);
            lemma_pow2i_31();
            lemma_pow2i_pos(i as int);
        }
        r = r * 2;
        i = i + 1;
    }
    proof {
        lemma_pow2i_pos(n as int);
    }
    r
}

/// Number of significant bits of `val`.
fn ilog(val: u32) -> (r: u32)
    ensures
        r as int == spec_ilog(val as int),
        r <= 32,
{
    let mut v = val;
    let mut k: u32 = 0;
    proof {
        lemma_pow2i_31();
    }
    while v > 0
        invariant
            spec_ilog(val as int) == k + spec_ilog(v as int),
            k <= 32,
            (v as int) < pow2i(32 - k),
        decreases v,
    {
        proof {
            if k == 32 {
                assert((v as int) < pow2i(0));
                assert(false);
            }
            assert(v as int / 2 < pow2i(31 - k)) by (nonlinear_arith)
                requires
                    (v as int) < 2 * pow2i(31 - k),
            ;
        }
        v = v / 2;
        k = k + 1;
    }
    k
}

/// Correction threshold lookup for the single-step fractional bit estimate.
fn correction(i: u32) -> (r: u32)
    requires
        i <= 7,
    ensures
        r as int == spec_correction(i as int),
{
    if i == 0 {
        35733
    } else if i == 1 {
        38967
    } else if i == 2 {
        42495
    } else if i == 3 {
        46340
    } else if i == 4 {
        50535
    } else if i == 5 {
        55109
    } else if i == 6 {
        60097
    } else {
        65535
    }
}

/// One fixed-point squaring step of the fractional bit estimate.
fn frac_step_exec(rb: u32, q: u32) -> (r: (u32, u32))
    requires
        32768 <= q < 65536,
        rb <= 500,
    ensures
        r.0 as int == frac_step(rb as int, q as int).0,
        r.1 as int == frac_step(rb as int, q as int).1,
        32768 <= r.1 < 65536,
        r.0 <= 2 * rb + 1,
{
    proof {
        assert(q * q < 0x100000000) by (nonlinear_arith)
            requires
                q < 65536,
        ;
        assert(q * q >= 32768 * 32768) by (nonlinear_arith)
            requires
                q >= 32768,
        ;
    }
    let q2 = (q * q) / 32768;
    let bit = q2 / 65536;
    let rb2 = 2 * rb + bit;
    proof {
        reveal_with_fuel(pow2i, 3);
    }
    let q3 = if bit == 1 {
        q2 / 2
    } else {
        q2
    };
    (rb2, q3)
}

/// One decoding request, as a frame decoder would issue it.
pub ghost enum DecodeOp {
    Frequency { total: int },
    Binary { total_bits: int },
    BitLogp { logp: int },
    Icdf { table: Seq<u8>, total_bits: int },
    RawBits { bits: int },
    Uniform { total: int },
    Commit { divisor: int, low: int, high: int, total: int },
}

/// Result and successor state of one decoding request against a state.
pub open spec fn apply_op(m: DecoderModel, op: DecodeOp) -> (int, DecoderModel) {
    match op {
        DecodeOp::Frequency { total } => (spec_offset(m.value, m.range / total, total), m),
        DecodeOp::Binary { total_bits } => (
            spec_offset(m.value, m.range / pow2i(total_bits), pow2i(total_bits)),
            m,
        ),
        DecodeOp::BitLogp { logp } => (
            if m.value < m.range / pow2i(logp) {
                1
            } else {
                0
            },
            spec_bit_logp(m, logp),
        ),
        DecodeOp::Icdf { table, total_bits } => spec_icdf(m, table, total_bits),
        DecodeOp::RawBits { bits } => spec_decode_bits(m, bits),
        DecodeOp::Uniform { total } => spec_uniform(m, total),
        DecodeOp::Commit { divisor, low, high, total } => (
            0,
            spec_update(m, divisor, low, high, total),
        ),
    }
}

/// Outputs of a whole request sequence run from a state.
pub open spec fn apply_ops(m: DecoderModel, ops: Seq<DecodeOp>) -> Seq<int>
    decreases ops.len(),
{
    if ops.len() == 0 {
        Seq::empty()
    } else {
        let step = apply_op(m, ops[0]);
        seq![step.0] + apply_ops(step.1, ops.drop_first())
    }
}

/// Determinism: two decoders constructed over identical bytes and driven by
/// the identical request sequence traverse identical states and produce
/// identical outputs. Every public operation's contract equates its result
/// and successor state with [`apply_op`] on the decoder's model, so the
/// executable decoder inherits this law.
pub proof fn lemma_deterministic(data: Seq<u8>, other: Seq<u8>, ops: Seq<DecodeOp>)
    requires
        data == other,
    ensures
        spec_new(data) == spec_new(other),
        apply_ops(spec_new(data), ops) == apply_ops(spec_new(other), ops),
{
}

/// A table whose first threshold is already zero describes a single band
/// covering the whole interval: the categorical decode reports index 1
/// whatever bits remain in the stream.
pub proof fn lemma_icdf_single_entry(m: DecoderModel, table: Seq<u8>, total_bits: int)
    requires
        model_wf(m),
        table.len() >= 1,
        table[0] == 0,
    ensures
        spec_icdf(m, table, total_bits).0 == 1,
{
    let scale = m.range / pow2i(total_bits);
    assert(scale * (table[0] as int) == 0) by (nonlinear_arith)
        requires
            table[0] as int == 0,
    ;
}

/// Immediately after construction the consumed-bit count reads exactly 1:
/// the counter is primed to 9 and the initial renormalization pass accounts
/// three more bytes, while `range` widens to `2^31` (32 significant bits).
pub proof fn lemma_tell_after_new(data: Seq<u8>)
    ensures
        spec_tell(spec_new(data)) == 1,
        spec_new(data).bits_read == 33,
        spec_new(data).range == 0x80000000,
{
    let current = if data.len() > 0 {
        data[0] as int
    } else {
        0
    };
    let m0 = DecoderModel {
        buf: data,
        pos: if data.len() > 0 {
            1
        } else {
            0
        },
        current: current,
        raw_len: if data.len() > 0 {
            data.len() - 1
        } else {
            0
        },
        raw_cache: 0,
        raw_cache_len: 0,
        value: 127 - current / 2,
        range: 128,
        bits_read: 9,
    };
    lemma_new_bits(m0);
    assert(spec_new(data) == spec_normalize(m0));
    lemma_ilog_bounds(0x80000000);
    lemma_pow2i_31();
    if spec_ilog(0x80000000) <= 31 {
        lemma_pow2i_monotone(spec_ilog(0x80000000), 31);
        assert(false);
    }
    lemma_ilog_range(0x80000000);
}

/// The renormalizing range decoder.
pub struct Decoder<'a> {
    buffer: &'a [u8],
    pos: usize,
    current: u8,
    raw_len: usize,
    raw_cache: u32,
    raw_cache_len: usize,
    value: u32,
    range: u32,
    bits_read: usize,
}

impl<'a> View for Decoder<'a> {
    type V = DecoderModel;

    closed spec fn view(&self) -> DecoderModel {
        DecoderModel {
            buf: self.buffer@,
            pos: self.pos as int,
            current: self.current as int,
            raw_len: self.raw_len as int,
            raw_cache: self.raw_cache,
            raw_cache_len: self.raw_cache_len as int,
            value: self.value as int,
            range: self.range as int,
            bits_read: self.bits_read as int,
        }
    }
}

impl<'a> Decoder<'a> {
    /// Construct a decoder over `buffer`; an empty buffer is decoded as an
    /// endless stream of zero bytes.
    pub fn new(buffer: &'a [u8]) -> (r: Decoder<'a>)
        ensures
            r@ == spec_new(buffer@),
            model_wf(r@),
            r@.buf == buffer@,
    {
        let current: u8 = if buffer.len() > 0 {
            buffer[0]
        } else {
            0
        };
        let mut val = Decoder {
            buffer,
            pos: if buffer.len() > 0 {
                1
            } else {
                0
            },
            current,
            raw_len: if buffer.len() > 0 {
                buffer.len() - 1
            } else {
                0
            },
            raw_cache: 0,
            raw_cache_len: 0,
            value: 127 - (current as u32) / 2,
            range: 128,
            bits_read: 9,
        };
        proof {
            lemma_normalize_props(val@);
            lemma_new_bits(val@);
        }
        val.normalize();
        val
    }

    /// Frequency query: report the offset of `value` inside the current
    /// interval scaled to `total`, together with the divisor that scaled it.
    /// A pure query — the bitstream does not advance; exactly one [`update`]
    /// with the returned divisor must follow before any other decode call.
    ///
    /// [`update`]: Decoder::update
    pub fn decode(&self, total: u32) -> (r: (u32, u32))
        requires
            model_wf(self@),
            1 < total <= 65536,
        ensures
            r.1 as int == self@.range / total as int,
            r.0 as int == spec_offset(self@.value, r.1 as int, total as int),
            r.0 < total,
            1 <= r.1,
            r.1 * total <= self@.range,
    {
        proof {
            lemma_div_bounds(self@.range, total as int);
            assert(self@.range / total as int >= 1) by (nonlinear_arith)
                requires
                    self@.range >= total as int,
                    total as int >= 1,
            ;
        }
        let divisor = self.range / total;
        proof {
            lemma_div_bounds(self@.value, divisor as int);
            assert(self@.value / divisor as int <= self@.value) by (nonlinear_arith)
                requires
                    divisor as int >= 1,
                    self@.value >= 0,
            ;
        }
        let t = self.value / divisor + 1;
        let m = if t < total {
            t
        } else {
            total
        };
        proof {
            assert(divisor as int * total as int <= self@.range) by (nonlinear_arith)
                requires
                    divisor as int == self@.range / total as int,
                    total as int >= 1,
                    self@.range >= 0,
            ;
        }
        (total - m, divisor)
    }

    /// Frequency query specialized to a power-of-two `total`, avoiding the
    /// division by replacing it with a shift of `total_bits`.
    pub fn decode_bin(&self, total_bits: u8) -> (r: (u32, u32))
        requires
            model_wf(self@),
            1 <= total_bits <= 16,
        ensures
            r.1 as int == self@.range / pow2i(total_bits as int),
            r.0 as int == spec_offset(self@.value, r.1 as int, pow2i(total_bits as int)),
            r.0 < pow2i(total_bits as int),
            1 <= r.1,
            r.1 * pow2i(total_bits as int) <= self@.range,
    {
        let p = pow2_u32(total_bits as u32);
        proof {
            lemma_pow2i_monotone(total_bits as int, 16);
            reveal_with_fuel(pow2i, 17);
            lemma_div_bounds(self@.range, p as int);
            assert(self@.range / p as int >= 1) by (nonlinear_arith)
                requires
                    self@.range >= p as int,
                    p as int >= 1,
            ;
        }
        let divisor = self.range / p;
        proof {
            lemma_div_bounds(self@.value, divisor as int);
            assert(self@.value / divisor as int <= self@.value) by (nonlinear_arith)
                requires
                    divisor as int >= 1,
                    self@.value >= 0,
            ;
        }
        let t = self.value / divisor + 1;
        let m = if t < p {
            t
        } else {
            p
        };
        proof {
            assert(divisor as int * p as int <= self@.range) by (nonlinear_arith)
                requires
                    divisor as int == self@.range / p as int,
                    p as int >= 1,
                    self@.range >= 0,
            ;
        }
        (p - m, divisor)
    }

    /// Commit the symbol chosen from a preceding query: `low` and `high` are
    /// the symbol's cumulative bounds around the reported offset, `divisor`
    /// is the value the query returned. Shrinks the interval to the symbol
    /// and renormalizes.
    pub fn update(&mut self, divisor: u32, low: u16, high: u16, total: u16)
        requires
            model_wf(old(self)@),
            old(self)@.bits_read + 32 <= usize::MAX,
            1 <= divisor,
            divisor * total <= old(self)@.range,
            low < high,
            high <= total,
            low as int <= spec_offset(old(self)@.value, divisor as int, total as int),
            spec_offset(old(self)@.value, divisor as int, total as int) < high as int,
        ensures
            final(self)@ == spec_update(
                old(self)@,
                divisor as int,
                low as int,
                high as int,
                total as int,
            ),
            model_wf(final(self)@),
            final(self)@.bits_read <= old(self)@.bits_read + 24,
            final(self)@.bits_read >= old(self)@.bits_read,
            final(self)@.buf == old(self)@.buf,
            final(self)@.raw_len == old(self)@.raw_len,
            final(self)@.raw_cache == old(self)@.raw_cache,
            final(self)@.raw_cache_len == old(self)@.raw_cache_len,
    {
        proof {
            lemma_update_bounds(
                old(self)@,
                divisor as int,
                low as int,
                high as int,
                total as int,
            );
        }
        let excl = divisor * ((total - high) as u32);
        self.value = self.value - excl;
        self.range = if low > 0 {
            divisor * ((high - low) as u32)
        } else {
            self.range - excl
        };
        proof {
            lemma_normalize_props(self@);
            lemma_normalize_bits(self@);
        }
        self.normalize();
    }

    /// Self-contained single-bit decode with probability `1/2^logp`: collapse
    /// the interval to the matching half, renormalize, and report the outcome.
    pub fn decode_bit_logp(&mut self, logp: u16) -> (r: bool)
        requires
            model_wf(old(self)@),
            logp <= 31,
            old(self)@.bits_read + 32 <= usize::MAX,
        ensures
            r == (old(self)@.value < old(self)@.range / pow2i(logp as int)),
            final(self)@ == spec_bit_logp(old(self)@, logp as int),
            model_wf(final(self)@),
            final(self)@.bits_read <= old(self)@.bits_read + 24,
            final(self)@.bits_read >= old(self)@.bits_read,
            final(self)@.buf == old(self)@.buf,
            final(self)@.raw_len == old(self)@.raw_len,
            final(self)@.raw_cache == old(self)@.raw_cache,
            final(self)@.raw_cache_len == old(self)@.raw_cache_len,
    {
        let p = pow2_u32(logp as u32);
        proof {
            lemma_div_bounds(self@.range, p as int);
            assert(self@.range / p as int <= self@.range) by (nonlinear_arith)
                requires
                    p as int >= 1,
                    self@.range >= 0,
            ;
        }
        let scale = self.range / p;
        let res = self.value < scale;
        if res {
            self.range = scale;
        } else {
            self.value = self.value - scale;
            self.range = self.range - scale;
        }
        proof {
            lemma_normalize_props(self@);
            lemma_normalize_bits(self@);
        }
        self.normalize();
        res
    }

    /// Decode one categorical symbol against an ICDF `table` scaled to
    /// `2^total_bits`: scan the table until `value` falls inside an entry's
    /// band, narrow the interval to it, renormalize, and report the 1-based
    /// index where the scan stopped.
    pub fn decode_icdf(&mut self, table: &[u8], total_bits: u8) -> (r: usize)
        requires
            model_wf(old(self)@),
            total_bits <= 31,
            old(self)@.bits_read + 32 <= usize::MAX,
            table@.len() >= 1,
            table@[table@.len() - 1] == 0,
            forall|i: int| 0 <= i < table@.len() ==> (table@[i] as int) < pow2i(total_bits as int),
        ensures
            r as int == spec_icdf(old(self)@, table@, total_bits as int).0,
            final(self)@ == spec_icdf(old(self)@, table@, total_bits as int).1,
            1 <= r <= table@.len(),
            model_wf(final(self)@),
            final(self)@.bits_read <= old(self)@.bits_read + 24,
            final(self)@.bits_read >= old(self)@.bits_read,
            final(self)@.buf == old(self)@.buf,
            final(self)@.raw_len == old(self)@.raw_len,
            final(self)@.raw_cache == old(self)@.raw_cache,
            final(self)@.raw_cache_len == old(self)@.raw_cache_len,
    {
        let ghost orig = self@;
        let p = pow2_u32(total_bits as u32);
        let scale = self.range / p;
        proof {
            lemma_div_bounds(orig.range, p as int);
            assert(scale as int * (table@[0] as int) <= orig.range) by (nonlinear_arith)
                requires
                    scale as int == orig.range / p as int,
                    0 <= (table@[0] as int) < p as int,
                    p as int >= 1,
                    orig.range >= 0,
            ;
        }
        let mut new_range = scale * (table[0] as u32);
        let mut res: usize = 1;
        while self.value < new_range
            invariant
                model_wf(orig),
                1 <= res <= table@.len(),
                table@.len() >= 1,
                table@[table@.len() - 1] == 0,
                forall|i: int|
                    0 <= i < table@.len() ==> (table@[i] as int) < pow2i(total_bits as int),
                scale as int == orig.range / pow2i(total_bits as int),
                p as int == pow2i(total_bits as int),
                p >= 1,
                new_range as int == scale as int * (table@[res - 1] as int),
                scale as int * (table@[res - 1] as int) <= orig.range,
                res > 1 ==> scale as int * (table@[res - 2] as int) <= orig.range,
                self@ == (DecoderModel {
                    range: if res == 1 {
                        orig.range
                    } else {
                        scale as int * (table@[res - 2] as int)
                    },
                    ..orig
                }),
                icdf_index(orig.value, scale as int, table@, 0) == icdf_index(
                    orig.value,
                    scale as int,
                    table@,
                    res - 1,
                ),
                res > 1 ==> orig.value < scale as int * (table@[res - 2] as int),
            decreases table@.len() - res,
        {
            proof {
                // A positive threshold cannot be the trailing zero entry.
                if res == table@.len() {
                    assert(new_range as int == scale as int * 0);
                    assert(false);
                }
                assert(scale as int * (table@[res as int] as int) <= orig.range)
                    by (nonlinear_arith)
                    requires
                        scale as int == orig.range / p as int,
                        0 <= (table@[res as int] as int) < p as int,
                        p as int >= 1,
                        orig.range >= 0,
                ;
            }
            self.range = new_range;
            new_range = scale * (table[res] as u32);
            res = res + 1;
        }
        proof {
            assert(icdf_index(orig.value, scale as int, table@, res - 1) == res);
        }
        self.value = self.value - new_range;
        self.range = self.range - new_range;
        proof {
            lemma_normalize_props(self@);
            lemma_normalize_bits(self@);
        }
        self.normalize();
        res
    }

    /// Read the last `amount` tail bytes as one little-endian value and
    /// retire them from the backward cursor.
    fn take_tail_bytes(&mut self, amount: usize) -> (r: u32)
        requires
            1 <= amount <= 4,
            0 <= old(self)@.raw_len,
            old(self)@.raw_len == 0 || old(self)@.raw_len + 1 <= old(self)@.buf.len(),
        ensures
            r as int == spec_tail_bytes(old(self)@.buf, old(self)@.raw_len, amount as int),
            final(self)@ == (DecoderModel {
                raw_len: if old(self)@.raw_len >= amount {
                    old(self)@.raw_len - amount
                } else {
                    0
                },
                ..old(self)@
            }),
    {
        let ghost orig = self@;
        let mut val: u32 = 0;
        let mut j: usize = amount;
        while j > 0
            invariant
                0 <= j <= amount,
                amount <= 4,
                orig.raw_len == 0 || orig.raw_len + 1 <= orig.buf.len(),
                orig.raw_len >= 0,
                self@ == orig,
                val as int == spec_tail_bytes(orig.buf, orig.raw_len - j, amount as int - j),
                (val as int) < pow2i(8 * (amount - j)),
            decreases j,
        {
            proof {
                lemma_tail_bytes_bound(orig.buf, orig.raw_len - j, amount as int - j);
                lemma_pow2i_monotone(8 * (amount - j), 24);
                reveal_with_fuel(pow2i, 26);
            }
            j = j - 1;
            let b: u8 = if j < self.raw_len {
                self.buffer[self.raw_len - j]
            } else {
                0
            };
            val = val * 256 + (b as u32);
            proof {
                lemma_pow2i_adds(8, 8 * (amount - j) - 8);
            }
        }
        let stripped = if self.raw_len >= amount {
            self.raw_len - amount
        } else {
            0
        };
        self.raw_len = stripped;
        val
    }

    /// Decode `bits` (at most 25) raw bits packed backward from the buffer
    /// tail, interleaving with the arithmetic-coded forward stream.
    pub fn decode_bits(&mut self, bits: usize) -> (r: u32)
        requires
            model_wf(old(self)@),
            bits <= 25,
            old(self)@.raw_cache_len < 32,
            old(self)@.bits_read + bits <= usize::MAX,
        ensures
            r as int == spec_decode_bits(old(self)@, bits as int).0,
            final(self)@ == spec_decode_bits(old(self)@, bits as int).1,
            (r as int) < pow2i(bits as int),
            model_wf(final(self)@),
    {
        let ghost orig = self@;
        self.bits_read = self.bits_read + bits;
        let amount = bits / 8 + 1;
        let grabbed = self.take_tail_bytes(amount);
        proof {
            lemma_tail_bytes_bound(orig.buf, orig.raw_len, amount as int);
            lemma_pow2i_monotone(8 * (amount as int), 32);
            lemma_pow2i_31();
            assert(pow2i(32) == 2 * pow2i(31));
        }
        let merged = self.raw_cache | (grabbed << (self.raw_cache_len as u32));
        self.raw_cache_len = self.raw_cache_len + bits;
        let mask = pow2_u32(bits as u32) - 1;
        let ret = merged & mask;
        self.raw_cache = merged >> (bits as u32);
        proof {
            assert(ret <= mask) by (bit_vector)
                requires
                    ret == merged & mask,
            ;
        }
        ret
    }

    /// Decode a uniform integer in `[0, total)`. Totals above 256 decode the
    /// top 8 bits of precision arithmetically, fill the low bits from the raw
    /// tail, and clamp the result to `total - 1` — the format's only defined
    /// recovery for corrupted uniform fields.
    pub fn decode_uniform(&mut self, total: u32) -> (r: u32)
        requires
            model_wf(old(self)@),
            1 < total,
            old(self)@.bits_read + 64 <= usize::MAX,
            total > 256 ==> old(self)@.raw_cache_len < 32,
        ensures
            r as int == spec_uniform(old(self)@, total as int).0,
            final(self)@ == spec_uniform(old(self)@, total as int).1,
            r < total,
            model_wf(final(self)@),
    {
        proof {
            lemma_ilog_bounds(total as int - 1);
            reveal_with_fuel(pow2i, 9);
        }
        let total_bits = ilog(total - 1);
        if total_bits <= 8 {
            proof {
                lemma_pow2i_monotone(spec_ilog(total as int - 1), 8);
            }
            let (dec, divisor) = self.decode(total);
            self.update(divisor, dec as u16, (dec + 1) as u16, total as u16);
            dec
        } else {
            let p = pow2_u32(total_bits - 8);
            proof {
                lemma_pow2i_adds(total_bits as int - 8, 8);
                lemma_pow2i_adds(total_bits as int - 8, 7);
                lemma_pow2i_monotone(8, total_bits as int - 1);
                lemma_pow2i_monotone(total_bits as int - 8, 24);
                reveal_with_fuel(pow2i, 26);
                assert(((total - 1) as int / p as int) < 256) by (nonlinear_arith)
                    requires
                        ((total - 1) as int) < p as int * 256,
                        p as int >= 1,
                ;
                assert((total - 1) as int / p as int >= 128) by (nonlinear_arith)
                    requires
                        (total - 1) as int >= p as int * 128,
                        p as int >= 1,
                ;
            }
            let upper = (total - 1) / p + 1;
            let (dec, divisor) = self.decode(upper);
            self.update(divisor, dec as u16, (dec + 1) as u16, upper as u16);
            let low_bits = self.decode_bits((total_bits - 8) as usize);
            proof {
                assert(dec as int * p as int <= 255 * pow2i(total_bits as int - 8))
                    by (nonlinear_arith)
                    requires
                        dec as int <= 255,
                        0 <= p as int == pow2i(total_bits as int - 8),
                ;
            }
            let val = dec * p + low_bits;
            if val <= total - 1 {
                val
            } else {
                total - 1
            }
        }
    }

    /// Total bits consumed so far, rounded up to whole bits.
    pub fn tell(&self) -> (r: usize)
        requires
            model_wf(self@),
        ensures
            r as int == spec_tell(self@),
    {
        proof {
            lemma_ilog_range(self@.range);
        }
        self.bits_read - (ilog(self.range) as usize)
    }

    /// Total bits consumed so far at 1/8-bit resolution, via three
    /// fixed-point squaring refinements.
    pub fn tell_frac(&self) -> (r: usize)
        requires
            model_wf(self@),
            self@.bits_read * 8 <= usize::MAX,
        ensures
            r as int == spec_tell_frac(self@),
    {
        proof {
            lemma_scaled_range(self@.range);
        }
        let range_bits = ilog(self.range);
        let q0 = self.range / pow2_u32(range_bits - 16);
        let (rb1, q1) = frac_step_exec(range_bits, q0);
        let (rb2, q2) = frac_step_exec(rb1, q1);
        let (rb3, _q3) = frac_step_exec(rb2, q2);
        self.bits_read * 8 - (rb3 as usize)
    }

    /// Total bits consumed so far at 1/8-bit resolution, via one
    /// table-driven correction step.
    pub fn tell_frac_fast(&self) -> (r: usize)
        requires
            model_wf(self@),
            self@.bits_read * 8 <= usize::MAX,
        ensures
            r as int == spec_tell_frac_fast(self@),
    {
        proof {
            lemma_scaled_range(self@.range);
        }
        let range_bits = ilog(self.range);
        let q = self.range / pow2_u32(range_bits - 16);
        let mut bit = q / 4096 - 8;
        let c = correction(bit);
        if q > c {
            bit = bit + 1;
        }
        let rb2 = range_bits * 8 + bit;
        self.bits_read * 8 - (rb2 as usize)
    }

    /// Read one byte at the forward cursor, or 0 once the buffer is spent.
    fn forward_byte(&mut self) -> (b: u8)
        requires
            0 <= old(self)@.pos <= old(self)@.buf.len(),
        ensures
            b as int == next_forward_byte(old(self)@),
            final(self)@ == (DecoderModel { pos: advance_forward(old(self)@), ..old(self)@ }),
    {
        if self.pos < self.buffer.len() {
            let b = self.buffer[self.pos];
            self.pos = self.pos + 1;
            b
        } else {
            0
        }
    }

    /// Pull forward bytes into `value` until `range` exceeds `2^23` again.
    fn normalize(&mut self)
        requires
            0 < old(self)@.range <= 0x80000000,
            0 <= old(self)@.value < old(self)@.range,
            0 <= old(self)@.pos <= old(self)@.buf.len(),
            0 <= old(self)@.current < 256,
            old(self)@.bits_read + 32 <= usize::MAX,
            old(self)@.bits_read >= 0,
        ensures
            final(self)@ == spec_normalize(old(self)@),
    {
        let ghost orig = self@;
        let ghost mut k: int = 0;
        while self.range <= 0x800000
            invariant
                0 < self@.range <= 0x80000000,
                0 <= self@.value < self@.range,
                0 <= self@.pos <= self@.buf.len(),
                0 <= self@.current < 256,
                spec_normalize(self@) == spec_normalize(orig),
                self@.bits_read == orig.bits_read + 8 * k,
                0 <= k <= 3,
                k == 0 ==> self@.range >= 1,
                k == 1 ==> self@.range >= 256,
                k == 2 ==> self@.range >= 65536,
                k == 3 ==> self@.range >= 0x1000000,
                orig.bits_read + 32 <= usize::MAX,
                orig.bits_read >= 0,
            decreases 0x80000000int - self@.range,
        {
            let ghost pre = self@;
            let prev = self.current;
            self.range = self.range * 256;
            let b = self.forward_byte();
            self.current = b;
            self.bits_read = self.bits_read + 8;
            let sym: u8 = (prev % 2) * 128 + b / 2;
            self.value = (self.value % 0x800000) * 256 + (255 - sym) as u32;
            proof {
                assert(self@ == norm_step(pre));
                assert(pre.value % 0x800000 == pre.value);
                k = k + 1;
            }
        }
    }
}

/// A fresh decoder always accounts exactly 33 bits (9 primed plus three
/// renormalization bytes) and lands on `range == 2^31`.
proof fn lemma_new_bits(m: DecoderModel)
    requires
        m.range == 128,
        0 <= m.value < 128,
        0 <= m.pos <= m.buf.len(),
        0 <= m.current < 256,
    ensures
        spec_normalize(m).bits_read == m.bits_read + 24,
        spec_normalize(m).range == 0x80000000,
{
    let m1 = norm_step(m);
    let m2 = norm_step(m1);
    let m3 = norm_step(m2);
    assert(spec_normalize(m) == spec_normalize(m1));
    assert(spec_normalize(m1) == spec_normalize(m2));
    assert(spec_normalize(m2) == spec_normalize(m3));
    assert(spec_normalize(m3) == m3);
}

} // verus!
