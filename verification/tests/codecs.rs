//! Value-level codec behaviour: exact register bytes, exact decodes, and the
//! quantization laws on concrete values.

use rfconf::codecs::{
    decode_data_rate, decode_deviation, decode_frequency, encode_data_rate, encode_deviation,
    encode_frequency, EncodeError, DATA_RATE_TICK, DEVIATION_TICK, FREQUENCY_TICK, VALUE_SCALE,
};

const E24: u128 = 1_000_000_000_000_000_000_000_000;

#[test]
fn value_scale_is_ten_to_the_24() {
    assert_eq!(VALUE_SCALE, E24);
}

#[test]
fn frequency_reset_default_regression() {
    // 2464.0 MHz is the chip's documented reset default.
    assert_eq!(encode_frequency(2464 * E24), Ok((0x5E, 0xC4, 0xEC)));
}

#[test]
fn frequency_decode_exact() {
    assert_eq!(
        decode_frequency(0x5E, 0xC4, 0xEC),
        2_463_999_877_929_687_500_000_000_000
    );
    assert_eq!(decode_frequency(0, 0, 0), 0);
    assert_eq!(decode_frequency(0, 0, 1), FREQUENCY_TICK);
}

#[test]
fn frequency_round_trip_within_one_step() {
    let inputs: [u128; 4] = [2400 * E24, 2464 * E24, 2_441_300_000_000_000_000_000_000_000, 24_835 * E24 / 10];
    for f in inputs {
        let (f2, f1, f0) = encode_frequency(f).unwrap();
        let back = decode_frequency(f2, f1, f0);
        assert!(back <= f);
        assert!(f - back < FREQUENCY_TICK);
    }
}

#[test]
fn frequency_field_overflow_rejected() {
    // 6656 MHz is the first value whose tick count no longer fits 24 bits.
    assert_eq!(encode_frequency(6656 * E24), Err(EncodeError::Overflow));
    assert!(encode_frequency(6655 * E24).is_ok());
}

#[test]
fn deviation_reset_default_regression() {
    // 47.7 kHz quantizes to the reset default byte 0x47.
    assert_eq!(encode_deviation(47_700_000_000_000_000_000_000_000), Ok(0x47));
}

#[test]
fn deviation_decode_exact() {
    // 0x47: mantissa 7, exponent 4 -> (8 + 7) * 2^4 = 240 ticks.
    assert_eq!(
        decode_deviation(0x47),
        47_607_421_875_000_000_000_000_000
    );
    assert_eq!(decode_deviation(0x00), 8 * DEVIATION_TICK);
    // bits 7 and 3 carry no deviation meaning
    assert_eq!(decode_deviation(0xCF), decode_deviation(0x47));
}

#[test]
fn deviation_idempotent_after_first_quantization() {
    // 100.0 kHz -> 0x57; decoding and re-encoding reproduces 0x57 exactly.
    let b = encode_deviation(100 * E24).unwrap();
    assert_eq!(b, 0x57);
    let back = decode_deviation(b);
    assert_eq!(back, 95_214_843_750_000_000_000_000_000);
    assert_eq!(encode_deviation(back).unwrap(), b);
}

#[test]
fn deviation_idempotent_across_range() {
    let inputs: [u128; 5] = [
        1_600_000_000_000_000_000_000_000,
        5 * E24,
        47_700_000_000_000_000_000_000_000,
        200 * E24,
        381 * E24,
    ];
    for d in inputs {
        let b = encode_deviation(d).unwrap();
        let back = decode_deviation(b);
        assert!(back <= d);
        assert_eq!(encode_deviation(back).unwrap(), b);
    }
}

#[test]
fn deviation_degenerate_and_overflow_rejected() {
    // below eight ticks the exponent would be the log of zero
    assert_eq!(encode_deviation(E24), Err(EncodeError::Underflow));
    assert_eq!(encode_deviation(0), Err(EncodeError::Underflow));
    // above the 3-bit exponent's reach
    assert_eq!(encode_deviation(500 * E24), Err(EncodeError::Overflow));
}

#[test]
fn data_rate_default_scale_regression() {
    // 115.051 kBaud with the documented scale: exponent nibble 0xC; the exact
    // mantissa of that input is 0x21, one step below the reset default, which
    // corresponds to the slightly higher rate checked in the next test.
    assert_eq!(encode_data_rate(115_051_000_000_000_000_000_000_000), Ok((0xC, 0x21)));
}

#[test]
fn data_rate_reset_default_round_trip() {
    // the reset registers (mdmcfg4 = 0x8C, mdmcfg3 = 0x22) denote exactly
    // 115.05126953125 kBaud, which encodes back to the same fields
    let rate = decode_data_rate(0x8C, 0x22);
    assert_eq!(rate, 115_051_269_531_250_000_000_000_000);
    assert_eq!(encode_data_rate(rate), Ok((0xC, 0x22)));
}

#[test]
fn data_rate_decode_exact() {
    // exponent 0, mantissa 0 -> 256 ticks; only the low nibble matters
    assert_eq!(decode_data_rate(0x80, 0x00), 256 * DATA_RATE_TICK);
    assert_eq!(decode_data_rate(0x00, 0x00), 256 * DATA_RATE_TICK);
}

#[test]
fn data_rate_idempotent_across_range() {
    let inputs: [u128; 4] = [
        25_000_000_000_000_000_000_000,
        E24 / 2,
        115_051_000_000_000_000_000_000_000,
        1622 * E24,
    ];
    for r in inputs {
        let (e, m) = encode_data_rate(r).unwrap();
        let back = decode_data_rate(e, m);
        assert!(back <= r);
        assert_eq!(encode_data_rate(back).unwrap(), (e, m));
    }
}

#[test]
fn data_rate_degenerate_and_overflow_rejected() {
    assert_eq!(encode_data_rate(E24 / 100), Err(EncodeError::Underflow));
    assert_eq!(encode_data_rate(2000 * E24), Err(EncodeError::Overflow));
}
