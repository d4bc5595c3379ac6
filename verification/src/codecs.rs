//! Pure codecs between physical quantities and register bit patterns.
//!
//! A physical quantity is an exact fixed-point decimal: the value in its
//! natural unit (MHz for the carrier frequency, kHz for the deviation, kBaud
//! for the data rate) scaled by 10^24 and held in a `u128`. The scale is fine
//! enough that every value a register can denote is represented exactly, so
//! decoding is exact and the quantization performed by encoding can be stated
//! precisely.
//!
//! Each codec turns a quantity into an integer number of register ticks (a
//! floor division by the tick size, derived from the 26 MHz reference crystal
//! and the quantity's binary point), then packs the tick count into the
//! register fields:
//! - the frequency uses a linear 24-bit field split over three registers;
//! - the deviation uses a 3-bit mantissa and a 3-bit exponent in one byte;
//! - the data rate uses an 8-bit mantissa and a 4-bit exponent nibble.

use vstd::prelude::*;
use vstd::arithmetic::power2::{
    pow2, lemma2_to64, lemma2_to64_rest, lemma_pow2_adds, lemma_pow2_pos,
    lemma_pow2_strictly_increases,
};
use vstd::arithmetic::div_mod::{
    lemma_fundamental_div_mod, lemma_fundamental_div_mod_converse, lemma_div_denominator,
    lemma_div_is_ordered, lemma_div_multiples_vanish, lemma_multiply_divide_lt, lemma_small_mod,
};
use vstd::arithmetic::mul::{
    lemma_mul_inequality, lemma_mul_is_associative, lemma_mul_is_commutative,
    lemma_mul_is_distributive_add_other_way, lemma_mul_is_distributive_sub,
    lemma_mul_left_inequality, lemma_mul_upper_bound,
};

verus! {

/// Fixed-point scale of every physical quantity: values are held in their
/// natural unit times 10^24.
pub const VALUE_SCALE: u128 = 1_000_000_000_000_000_000_000_000;

/// One tick of the 24-bit frequency field: 26/2^16 MHz, scaled by 10^24.
pub const FREQUENCY_TICK: u128 = 396_728_515_625_000_000_000;

/// One tick of the deviation field: 26000/2^17 kHz, scaled by 10^24.
pub const DEVIATION_TICK: u128 = 198_364_257_812_500_000_000_000;

/// One tick of the data-rate field: 26000/2^28 kBaud, scaled by 10^24.
pub const DATA_RATE_TICK: u128 = 96_857_547_760_009_765_625;

/// Lowest accepted carrier frequency: 2400 MHz.
pub const FREQUENCY_MIN: u128 = 2_400_000_000_000_000_000_000_000_000;

/// Highest accepted carrier frequency: 2483.5 MHz.
pub const FREQUENCY_MAX: u128 = 2_483_500_000_000_000_000_000_000_000;

/// Lowest accepted deviation: 1.6 kHz.
pub const DEVIATION_MIN: u128 = 1_600_000_000_000_000_000_000_000;

/// Highest accepted deviation: 381 kHz.
pub const DEVIATION_MAX: u128 = 381_000_000_000_000_000_000_000_000;

/// Lowest accepted data rate: 0.025 kBaud.
pub const DATA_RATE_MIN: u128 = 25_000_000_000_000_000_000_000;

/// Highest accepted data rate: 1622 kBaud.
pub const DATA_RATE_MAX: u128 = 1_622_000_000_000_000_000_000_000_000;

/// Why a quantity could not be packed into its register fields.
#[derive(Clone, Copy, Debug, PartialEq, Eq, Structural)]
pub enum EncodeError {
    /// The tick count is below the mantissa base, so no exponent exists
    /// (the logarithm of zero is undefined and is rejected, never computed).
    Underflow,
    /// The exponent does not fit the width of its register field.
    Overflow,
}

/// Floor of the base-2 logarithm of `n` (0 for `n == 0`).
pub open spec fn log2(n: nat) -> nat
    decreases n,
{
    if n < 2 {
        0
    } else {
        (1 + log2(n / 2)) as nat
    }
}

/// `log2` names the unique exponent whose power of two brackets `n`.
pub proof fn lemma_log2_bracket(n: nat)
    requires
        n >= 1,
    ensures
        pow2(log2(n)) <= n < pow2(log2(n) + 1),
    decreases n,
{
    lemma2_to64();
    if n < 2 {
        assert(log2(n) == 0);
    } else {
        lemma_log2_bracket(n / 2);
        let l = log2(n / 2);
        assert(log2(n) == l + 1);
        lemma_pow2_adds(l, 1);
        lemma_pow2_adds(l + 1, 1);
        lemma_fundamental_div_mod(n as int, 2);
    }
}

/// Any exponent whose power of two brackets `n` is `log2(n)`.
pub proof fn lemma_log2_unique(n: nat, e: nat)
    requires
        pow2(e) <= n < pow2(e + 1),
    ensures
        log2(n) == e,
{
    lemma_pow2_pos(e);
    lemma_log2_bracket(n);
    let l = log2(n);
    if l < e {
        lemma_pow2_strictly_increases(l + 1, e + 1);
        if l + 1 < e {
            lemma_pow2_strictly_increases(l + 1, e);
        }
        assert(pow2(l + 1) <= pow2(e));
        assert(false);
    }
    if l > e {
        if e + 1 < l {
            lemma_pow2_strictly_increases(e + 1, l);
        }
        assert(pow2(e + 1) <= pow2(l));
        assert(false);
    }
}

/// Power of two is monotone (non-strict form).
pub proof fn lemma_pow2_le(e1: nat, e2: nat)
    requires
        e1 <= e2,
    ensures
        pow2(e1) <= pow2(e2),
{
    if e1 < e2 {
        lemma_pow2_strictly_increases(e1, e2);
    }
}

/// Floor of the base-2 logarithm, returned with the matching power of two.
fn floor_log2(x: u64) -> (r: (u32, u64))
    requires
        x >= 1,
    ensures
        r.0 == log2(x as nat),
        r.1 == pow2(r.0 as nat),
        r.0 <= 63,
{
    let mut e: u32 = 0;
    let mut p: u64 = 1;
    proof {
        lemma2_to64();
    }
    while p <= x / 2
        invariant
            1 <= p <= x,
            x >= 1,
            p == pow2(e as nat),
            e <= 63,
        decreases x - p,
    {
        proof {
            lemma_fundamental_div_mod(x as int, 2);
            assert(2 * p <= x);
            lemma_pow2_adds(e as nat, 1);
            lemma2_to64();
            assert(pow2((e + 1) as nat) == 2 * p);
            // the doubled power still fits, so the exponent stays below 64
            if e + 1 > 63 {
                lemma_pow2_le(64, (e + 1) as nat);
                lemma2_to64();
                assert(false);
            }
        }
        p = p * 2;
        e = e + 1;
    }
    proof {
        lemma_fundamental_div_mod(x as int, 2);
        assert(x < 2 * p);
        lemma_pow2_adds(e as nat, 1);
        lemma2_to64();
        lemma_log2_unique(x as nat, e as nat);
    }
    (e, p)
}

/// 2 to the `e`, as a machine word.
fn pow2_u64(e: u32) -> (p: u64)
    requires
        e <= 63,
    ensures
        p == pow2(e as nat),
{
    let mut i: u32 = 0;
    let mut p: u64 = 1;
    proof {
        lemma2_to64();
    }
    while i < e
        invariant
            i <= e <= 63,
            p == pow2(i as nat),
        decreases e - i,
    {
        proof {
            lemma_pow2_adds(i as nat, 1);
            lemma2_to64();
            lemma_pow2_le((i + 1) as nat, 63);
            lemma2_to64_rest();
        }
        p = p * 2;
        i = i + 1;
    }
    p
}

/// Exponent a mantissa/exponent field uses for `raw` ticks, with a mantissa
/// of `mant_bits` bits: the floor of log2 of `raw` shifted below the base.
pub open spec fn me_exponent(raw: nat, mant_bits: nat) -> nat {
    log2(raw / pow2(mant_bits))
}

/// Mantissa stored for `raw` ticks: the bits below the leading bit, after
/// dropping `me_exponent` low bits.
pub open spec fn me_mantissa(raw: nat, mant_bits: nat) -> nat {
    (raw / pow2(me_exponent(raw, mant_bits)) - pow2(mant_bits)) as nat
}

/// Tick count denoted by an (exponent, mantissa) pair: `(base + m) * 2^e`.
pub open spec fn me_raw(e: nat, m: nat, mant_bits: nat) -> nat {
    (pow2(mant_bits) + m) * pow2(e)
}

/// Whether `raw` ticks fit a mantissa/exponent field whose exponent field
/// holds values up to `max_exp`.
pub open spec fn me_encodable(raw: nat, mant_bits: nat, max_exp: nat) -> bool {
    raw >= pow2(mant_bits) && me_exponent(raw, mant_bits) <= max_exp
}

/// For an encodable tick count the quotient by `2^exponent` lands exactly in
/// the mantissa window `[base, 2 * base)`.
pub proof fn lemma_me_window(raw: nat, mant_bits: nat)
    requires
        raw >= pow2(mant_bits),
    ensures
        pow2(mant_bits) <= raw / pow2(me_exponent(raw, mant_bits)) < 2 * pow2(mant_bits),
{
    let k = pow2(mant_bits);
    lemma_pow2_pos(mant_bits);
    let n = raw / k;
    assert(n >= 1) by {
        lemma_div_is_ordered(k as int, raw as int, k as int);
        lemma_div_multiples_vanish(1, k as int);
    }
    lemma_log2_bracket(n);
    let e = log2(n);
    lemma_pow2_pos(e);
    // raw >= 2^e * base, because even the floored quotient is at least 2^e
    assert(pow2(e) * k <= raw) by {
        lemma_fundamental_div_mod(raw as int, k as int);
        lemma_mul_inequality(pow2(e) as int, n as int, k as int);
    }
    assert(raw / pow2(e) >= k) by {
        lemma_div_is_ordered((pow2(e) * k) as int, raw as int, pow2(e) as int);
        lemma_mul_is_commutative(pow2(e) as int, k as int);
        lemma_div_multiples_vanish(k as int, pow2(e) as int);
    }
    // raw < 2^e * (2 * base), because the floored quotient is below 2^(e+1)
    assert(raw < pow2(e) * (2 * k)) by {
        lemma_fundamental_div_mod(raw as int, k as int);
        assert(n <= pow2(e + 1) - 1);
        assert(k * n <= k * (pow2(e + 1) - 1)) by {
            lemma_mul_left_inequality(k as int, n as int, (pow2(e + 1) - 1) as int);
        }
        assert(k * (pow2(e + 1) - 1) == k * pow2(e + 1) - k) by {
            lemma_mul_is_distributive_sub(k as int, pow2(e + 1) as int, 1);
        }
        assert(k * pow2(e + 1) == pow2(e) * (2 * k)) by {
            lemma_pow2_adds(e, 1);
            lemma2_to64();
            lemma_mul_is_commutative(k as int, pow2(e + 1) as int);
            lemma_mul_is_associative(pow2(e) as int, 2, k as int);
        }
    }
    lemma_multiply_divide_lt(raw as int, pow2(e) as int, (2 * k) as int);
}

/// Unpacking an (exponent, mantissa) pair and re-encoding the resulting tick
/// count gives the same pair back: every representable tick count has exactly
/// one representation with the mantissa in its window.
pub proof fn lemma_me_reencode(e: nat, m: nat, mant_bits: nat)
    requires
        m < pow2(mant_bits),
    ensures
        me_raw(e, m, mant_bits) >= pow2(mant_bits),
        me_exponent(me_raw(e, m, mant_bits), mant_bits) == e,
        me_mantissa(me_raw(e, m, mant_bits), mant_bits) == m,
{
    let k = pow2(mant_bits);
    let p = pow2(e);
    let raw = me_raw(e, m, mant_bits);
    lemma_pow2_pos(mant_bits);
    lemma_pow2_pos(e);
    lemma_pow2_adds(e, 1);
    lemma2_to64();
    assert(raw == k * p + m * p) by {
        lemma_mul_is_distributive_add_other_way(p as int, k as int, m as int);
    }
    assert(raw >= k) by {
        lemma_mul_left_inequality(k as int, 1, p as int);
    }
    // the quotient raw / base sits exactly between 2^e and 2^(e+1)
    assert(pow2(e) <= raw / k) by {
        lemma_div_is_ordered((k * p) as int, raw as int, k as int);
        lemma_div_multiples_vanish(p as int, k as int);
    }
    assert(raw / k < pow2(e + 1)) by {
        assert(m * p <= (k - 1) * p) by {
            lemma_mul_inequality(m as int, (k - 1) as int, p as int);
        }
        assert((k - 1) * p == k * p - p) by {
            lemma_mul_is_distributive_add_other_way(p as int, (k - 1) as int, 1);
        }
        assert(raw < k * pow2(e + 1)) by {
            assert(k * pow2(e + 1) == 2 * (k * p)) by {
                lemma_mul_is_associative(k as int, p as int, 2);
                lemma_mul_is_commutative((k * p) as int, 2);
            }
        }
        lemma_multiply_divide_lt(raw as int, k as int, pow2(e + 1) as int);
    }
    lemma_log2_unique(raw / k, e);
    // dividing the exact product by 2^e recovers base + mantissa
    assert(raw / p == k + m) by {
        lemma_mul_is_commutative((k + m) as int, p as int);
        lemma_div_multiples_vanish((k + m) as int, p as int);
    }
}

/// Tick count the frequency codec stores: the value floor-divided by the
/// frequency tick.
pub open spec fn frequency_raw(freq: u128) -> nat {
    freq as nat / FREQUENCY_TICK as nat
}

/// Whether a frequency fits the linear 24-bit field.
pub open spec fn frequency_encodable(freq: u128) -> bool {
    frequency_raw(freq) < 0x1000000
}

/// The three frequency register bytes, most significant first.
pub open spec fn frequency_bytes(freq: u128) -> (u8, u8, u8) {
    let raw = frequency_raw(freq);
    ((raw / 0x10000) as u8, ((raw / 0x100) % 0x100) as u8, (raw % 0x100) as u8)
}

/// Exact frequency denoted by the three frequency registers, combined as a
/// 24-bit big-endian tick count.
pub open spec fn decoded_frequency(freq2: u8, freq1: u8, freq0: u8) -> u128 {
    ((freq2 as nat * 0x10000 + freq1 as nat * 0x100 + freq0 as nat)
        * FREQUENCY_TICK as nat) as u128
}

/// Encode a carrier frequency (MHz, scaled by 10^24) into the three
/// frequency register bytes, most significant first.
pub fn encode_frequency(freq: u128) -> (r: Result<(u8, u8, u8), EncodeError>)
    ensures
        r is Ok <==> frequency_encodable(freq),
        r matches Ok(bytes) ==> bytes == frequency_bytes(freq),
        r is Err ==> r == Err::<(u8, u8, u8), EncodeError>(EncodeError::Overflow),
{
    let raw128: u128 = freq / FREQUENCY_TICK;
    if raw128 >= 0x1000000 {
        return Err(EncodeError::Overflow);
    }
    let raw: u32 = raw128 as u32;
    let f0: u8 = (raw % 0x100) as u8;
    let f1: u8 = ((raw / 0x100) % 0x100) as u8;
    let f2: u8 = (raw / 0x10000) as u8;
    Ok((f2, f1, f0))
}

/// Decode the three frequency register bytes back to the exact frequency
/// they denote (MHz, scaled by 10^24).
pub fn decode_frequency(freq2: u8, freq1: u8, freq0: u8) -> (freq: u128)
    ensures
        freq == decoded_frequency(freq2, freq1, freq0),
        freq == (freq2 as nat * 0x10000 + freq1 as nat * 0x100 + freq0 as nat)
            * FREQUENCY_TICK as nat,
{
    let raw: u32 = (freq2 as u32) * 0x10000 + (freq1 as u32) * 0x100 + (freq0 as u32);
    (raw as u128) * FREQUENCY_TICK
}

/// Quantization law of the frequency codec: for every frequency in the
/// accepted range the encoding exists, and decoding the encoded registers
/// gives a value at most one tick below the input.
pub proof fn frequency_quantization_close(freq: u128)
    requires
        FREQUENCY_MIN <= freq <= FREQUENCY_MAX,
    ensures
        frequency_encodable(freq),
        ({
            let bytes = frequency_bytes(freq);
            let back = decoded_frequency(bytes.0, bytes.1, bytes.2);
            back <= freq < back + FREQUENCY_TICK
        }),
{
    let t = FREQUENCY_TICK as int;
    let raw = frequency_raw(freq);
    assert(raw < 0x1000000) by {
        lemma_multiply_divide_lt(freq as int, t, 0x1000000);
    }
    // the three byte fields reassemble into the tick count
    let b2 = raw / 0x10000;
    let b1 = (raw / 0x100) % 0x100;
    let b0 = raw % 0x100;
    assert(b2 * 0x10000 + b1 * 0x100 + b0 == raw) by {
        lemma_fundamental_div_mod(raw as int, 0x100);
        lemma_fundamental_div_mod((raw / 0x100) as int, 0x100);
        lemma_div_denominator(raw as int, 0x100, 0x100);
    }
    // the decoded value differs from the input by the division remainder
    assert(raw * t <= freq < raw * t + t) by {
        lemma_fundamental_div_mod(freq as int, t);
    }
}

/// Tick count the deviation codec stores.
pub open spec fn deviation_raw(dev: u128) -> nat {
    dev as nat / DEVIATION_TICK as nat
}

/// Whether a deviation fits the 3-bit-mantissa/3-bit-exponent field.
pub open spec fn deviation_encodable(dev: u128) -> bool {
    me_encodable(deviation_raw(dev), 3, 7)
}

/// The DEVIATN byte for a deviation value: exponent in bits 6-4, mantissa in
/// bits 2-0, bits 7 and 3 clear.
pub open spec fn deviation_byte(dev: u128) -> u8 {
    (me_exponent(deviation_raw(dev), 3) * 16 + me_mantissa(deviation_raw(dev), 3)) as u8
}

/// Exponent field of a DEVIATN byte (bits 6-4).
pub open spec fn deviatn_exponent(b: u8) -> u8 {
    (b / 16) % 8
}

/// Mantissa field of a DEVIATN byte (bits 2-0).
pub open spec fn deviatn_mantissa(b: u8) -> u8 {
    b % 8
}

/// Exact deviation denoted by a DEVIATN byte (kHz, scaled by 10^24).
pub open spec fn decoded_deviation(b: u8) -> u128 {
    (me_raw(deviatn_exponent(b) as nat, deviatn_mantissa(b) as nat, 3)
        * DEVIATION_TICK as nat) as u128
}

/// Encode a deviation (kHz, scaled by 10^24) into the DEVIATN byte.
///
/// A tick count below the mantissa base has no exponent (the logarithm of
/// zero is undefined) and is rejected as `Underflow`; an exponent beyond the
/// 3-bit field is rejected as `Overflow`.
pub fn encode_deviation(dev: u128) -> (r: Result<u8, EncodeError>)
    ensures
        r is Ok <==> deviation_encodable(dev),
        r matches Ok(b) ==> b == deviation_byte(dev),
        r matches Err(err) ==> ((err == EncodeError::Underflow && deviation_raw(dev) < 8)
            || (err == EncodeError::Overflow && deviation_raw(dev) >= 8
                && me_exponent(deviation_raw(dev), 3) > 7)),
{
    proof {
        lemma2_to64();
    }
    let raw128: u128 = dev / DEVIATION_TICK;
    if raw128 < 8 {
        return Err(EncodeError::Underflow);
    }
    proof {
        lemma_multiply_divide_lt(dev as int, DEVIATION_TICK as int, 0x10000000000000000);
    }
    let raw: u64 = raw128 as u64;
    let (e, p) = floor_log2(raw / 8);
    proof {
        lemma_me_window(raw as nat, 3);
    }
    if e > 7 {
        return Err(EncodeError::Overflow);
    }
    let m: u64 = raw / p - 8;
    let byte: u8 = ((e as u8) << 4) | (m as u8);
    proof {
        let eb = e as u8;
        let mb = m as u8;
        assert(eb <= 7 && mb <= 7 ==> ((eb << 4) | mb) == eb * 16 + mb) by (bit_vector);
    }
    Ok(byte)
}

/// Decode a DEVIATN byte back to the exact deviation it denotes
/// (kHz, scaled by 10^24).
pub fn decode_deviation(deviatn: u8) -> (dev: u128)
    ensures
        dev == decoded_deviation(deviatn),
        dev == me_raw(deviatn_exponent(deviatn) as nat, deviatn_mantissa(deviatn) as nat, 3)
            * DEVIATION_TICK as nat,
{
    let e: u8 = (deviatn >> 4) & 0x07;
    let m: u8 = deviatn & 0x07;
    proof {
        assert(((deviatn >> 4) & 0x07) == (deviatn / 16) % 8 && (deviatn & 0x07) == deviatn % 8
            && ((deviatn >> 4) & 0x07) < 8 && (deviatn & 0x07) < 8) by (bit_vector);
        lemma2_to64();
        lemma_pow2_le(((deviatn >> 4) & 0x07) as nat, 7);
    }
    let p: u64 = pow2_u64(e as u32);
    proof {
        lemma_mul_upper_bound((8 + m as u64) as int, 15, p as int, 128);
    }
    let raw: u64 = (8 + m as u64) * p;
    (raw as u128) * DEVIATION_TICK
}

/// Quantization law of the deviation codec: every deviation in the accepted
/// range encodes, decoding gives a value no larger than the input, and
/// re-encoding the decoded value reproduces the same register byte. The
/// mantissa/exponent representation is exact on its own image.
pub proof fn deviation_quantization_stable(dev: u128)
    requires
        DEVIATION_MIN <= dev <= DEVIATION_MAX,
    ensures
        deviation_encodable(dev),
        deviation_encodable(decoded_deviation(deviation_byte(dev))),
        deviation_byte(decoded_deviation(deviation_byte(dev))) == deviation_byte(dev),
        decoded_deviation(deviation_byte(dev)) <= dev,
{
    let t = DEVIATION_TICK as nat;
    let raw1 = deviation_raw(dev);
    lemma2_to64();
    assert(raw1 >= 8) by {
        lemma_mul_is_commutative(8, t as int);
        lemma_div_is_ordered((8 * t) as int, dev as int, t as int);
        lemma_div_multiples_vanish(8, t as int);
    }
    assert(raw1 < 2048) by {
        lemma_multiply_divide_lt(dev as int, t as int, 2048);
    }
    lemma_me_window(raw1, 3);
    let e1 = me_exponent(raw1, 3);
    let m1 = me_mantissa(raw1, 3);
    assert(e1 <= 7) by {
        lemma_multiply_divide_lt(raw1 as int, 8, 256);
        lemma_log2_bracket(raw1 / 8);
        if e1 >= 8 {
            lemma_pow2_le(8, e1);
            assert(false);
        }
    }
    let b = deviation_byte(dev);
    assert(b == e1 * 16 + m1);
    assert(deviatn_exponent(b) == e1) by {
        lemma_fundamental_div_mod_converse(b as int, 16, e1 as int, m1 as int);
        lemma_small_mod(e1, 8);
    }
    assert(deviatn_mantissa(b) == m1) by {
        lemma_fundamental_div_mod_converse(b as int, 8, (2 * e1) as int, m1 as int);
    }
    let raw2 = me_raw(e1, m1, 3);
    lemma_me_reencode(e1, m1, 3);
    assert(raw2 <= raw1) by {
        lemma_fundamental_div_mod(raw1 as int, pow2(e1) as int);
        lemma_pow2_pos(e1);
        lemma_mul_is_commutative(pow2(e1) as int, (raw1 / pow2(e1)) as int);
    }
    let dev2 = decoded_deviation(b);
    assert(dev2 == raw2 * t);
    assert(deviation_raw(dev2) == raw2) by {
        lemma_mul_is_commutative(raw2 as int, t as int);
        lemma_div_multiples_vanish(raw2 as int, t as int);
    }
    assert(dev2 <= dev) by {
        lemma_fundamental_div_mod(dev as int, t as int);
        lemma_mul_inequality(raw2 as int, raw1 as int, t as int);
        lemma_mul_is_commutative(raw1 as int, t as int);
    }
    assert(deviation_byte(dev2) == b);
}

/// Tick count the data-rate codec stores.
pub open spec fn data_rate_raw(rate: u128) -> nat {
    rate as nat / DATA_RATE_TICK as nat
}

/// Whether a data rate fits the 8-bit-mantissa/4-bit-exponent field.
pub open spec fn data_rate_encodable(rate: u128) -> bool {
    me_encodable(data_rate_raw(rate), 8, 15)
}

/// Exponent nibble the data-rate codec stores in the low four bits of the
/// control register.
pub open spec fn data_rate_exponent(rate: u128) -> u8 {
    me_exponent(data_rate_raw(rate), 8) as u8
}

/// Mantissa byte the data-rate codec stores in its own register.
pub open spec fn data_rate_mantissa(rate: u128) -> u8 {
    me_mantissa(data_rate_raw(rate), 8) as u8
}

/// Exact data rate denoted by an exponent nibble and a mantissa byte
/// (kBaud, scaled by 10^24). Only the low nibble of `exp` is meaningful.
pub open spec fn decoded_data_rate(exp: u8, mantissa: u8) -> u128 {
    (me_raw((exp % 16) as nat, mantissa as nat, 8) * DATA_RATE_TICK as nat) as u128
}

/// Encode a data rate (kBaud, scaled by 10^24) into its exponent nibble and
/// mantissa byte.
pub fn encode_data_rate(rate: u128) -> (r: Result<(u8, u8), EncodeError>)
    ensures
        r is Ok <==> data_rate_encodable(rate),
        r matches Ok(pair) ==> pair == (data_rate_exponent(rate), data_rate_mantissa(rate)),
        r matches Ok(pair) ==> pair.0 < 16,
        r matches Err(err) ==> ((err == EncodeError::Underflow && data_rate_raw(rate) < 256)
            || (err == EncodeError::Overflow && data_rate_raw(rate) >= 256
                && me_exponent(data_rate_raw(rate), 8) > 15)),
{
    proof {
        lemma2_to64();
    }
    let raw128: u128 = rate / DATA_RATE_TICK;
    if raw128 < 256 {
        return Err(EncodeError::Underflow);
    }
    proof {
        lemma_multiply_divide_lt(rate as int, DATA_RATE_TICK as int, 0x10000000000000000);
    }
    let raw: u64 = raw128 as u64;
    let (e, p) = floor_log2(raw / 256);
    proof {
        lemma_me_window(raw as nat, 8);
    }
    if e > 15 {
        return Err(EncodeError::Overflow);
    }
    let m: u64 = raw / p - 256;
    Ok((e as u8, m as u8))
}

/// Decode the data-rate fields (exponent nibble of the control register,
/// mantissa byte) back to the exact data rate they denote.
pub fn decode_data_rate(mdmcfg4: u8, mdmcfg3: u8) -> (rate: u128)
    ensures
        rate == decoded_data_rate(mdmcfg4, mdmcfg3),
        rate == me_raw((mdmcfg4 % 16) as nat, mdmcfg3 as nat, 8) * DATA_RATE_TICK as nat,
{
    let e: u8 = mdmcfg4 & 0x0F;
    let m: u8 = mdmcfg3;
    proof {
        assert((mdmcfg4 & 0x0F) == mdmcfg4 % 16 && (mdmcfg4 & 0x0F) < 16) by (bit_vector);
        lemma2_to64();
        lemma_pow2_le((mdmcfg4 & 0x0F) as nat, 15);
    }
    let p: u64 = pow2_u64(e as u32);
    proof {
        lemma_mul_upper_bound((256 + m as u64) as int, 511, p as int, 0x8000);
    }
    let raw: u64 = (256 + m as u64) * p;
    (raw as u128) * DATA_RATE_TICK
}

/// Quantization law of the data-rate codec: every rate in the accepted range
/// encodes, decoding gives a value no larger than the input, and re-encoding
/// the decoded value reproduces the same exponent and mantissa.
pub proof fn data_rate_quantization_stable(rate: u128)
    requires
        DATA_RATE_MIN <= rate <= DATA_RATE_MAX,
    ensures
        data_rate_encodable(rate),
        data_rate_encodable(decoded_data_rate(data_rate_exponent(rate), data_rate_mantissa(rate))),
        ({
            let back = decoded_data_rate(data_rate_exponent(rate), data_rate_mantissa(rate));
            data_rate_exponent(back) == data_rate_exponent(rate)
                && data_rate_mantissa(back) == data_rate_mantissa(rate)
                && back <= rate
        }),
{
    let t = DATA_RATE_TICK as nat;
    let raw1 = data_rate_raw(rate);
    lemma2_to64();
    assert(raw1 >= 256) by {
        lemma_mul_is_commutative(256, t as int);
        lemma_div_is_ordered((256 * t) as int, rate as int, t as int);
        lemma_div_multiples_vanish(256, t as int);
    }
    assert(raw1 < 0x1000000) by {
        lemma_multiply_divide_lt(rate as int, t as int, 0x1000000);
    }
    lemma_me_window(raw1, 8);
    let e1 = me_exponent(raw1, 8);
    let m1 = me_mantissa(raw1, 8);
    assert(e1 <= 15) by {
        lemma_multiply_divide_lt(raw1 as int, 256, 0x10000);
        lemma_log2_bracket(raw1 / 256);
        if e1 >= 16 {
            lemma_pow2_le(16, e1);
            assert(false);
        }
    }
    let raw2 = me_raw(e1, m1, 8);
    lemma_me_reencode(e1, m1, 8);
    assert(raw2 <= raw1) by {
        lemma_fundamental_div_mod(raw1 as int, pow2(e1) as int);
        lemma_pow2_pos(e1);
        lemma_mul_is_commutative(pow2(e1) as int, (raw1 / pow2(e1)) as int);
    }
    let back = decoded_data_rate(data_rate_exponent(rate), data_rate_mantissa(rate));
    assert(data_rate_exponent(rate) % 16 == e1) by {
        lemma_small_mod(e1, 16);
    }
    assert(back == raw2 * t);
    assert(data_rate_raw(back) == raw2) by {
        lemma_mul_is_commutative(raw2 as int, t as int);
        lemma_div_multiples_vanish(raw2 as int, t as int);
    }
    assert(back <= rate) by {
        lemma_fundamental_div_mod(rate as int, t as int);
        lemma_mul_inequality(raw2 as int, raw1 as int, t as int);
        lemma_mul_is_commutative(raw1 as int, t as int);
    }
}

} // verus!
