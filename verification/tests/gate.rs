//! The validation gate: accepted inputs update their field group atomically;
//! rejected inputs leave the register map untouched.

use rfconf::gate::{InputError, Quantity};
use rfconf::registers::RegisterValue;

const E24: u128 = 1_000_000_000_000_000_000_000_000;

#[test]
fn frequency_text_updates_all_three_registers() {
    let mut rv = RegisterValue::reset();
    rv.freq2 = 0;
    rv.freq1 = 0;
    rv.freq0 = 0;
    assert_eq!(rv.set_base_frequency_text(b"2464.0"), Ok(()));
    let mut expected = RegisterValue::reset();
    expected.freq2 = 0x5E;
    expected.freq1 = 0xC4;
    expected.freq0 = 0xEC;
    assert_eq!(rv, expected);
}

#[test]
fn frequency_out_of_range_text_never_mutates() {
    let mut rv = RegisterValue::reset();
    let before = rv;
    assert_eq!(
        rv.set_base_frequency_text(b"2399.999999"),
        Err(InputError::OutOfRange(Quantity::Frequency))
    );
    assert_eq!(rv, before);
    assert_eq!(
        rv.set_base_frequency_text(b"2483.500001"),
        Err(InputError::OutOfRange(Quantity::Frequency))
    );
    assert_eq!(rv, before);
}

#[test]
fn frequency_unparsable_text_never_mutates() {
    let mut rv = RegisterValue::reset();
    let before = rv;
    assert_eq!(
        rv.set_base_frequency_text(b"24a64"),
        Err(InputError::Unparsable(Quantity::Frequency))
    );
    assert_eq!(rv, before);
    assert_eq!(
        rv.set_base_frequency_text(b""),
        Err(InputError::Unparsable(Quantity::Frequency))
    );
    assert_eq!(rv, before);
}

#[test]
fn frequency_oversized_number_is_out_of_range() {
    let mut rv = RegisterValue::reset();
    let before = rv;
    assert_eq!(
        rv.set_base_frequency_text(b"999999999999999999999999999999999999999999"),
        Err(InputError::OutOfRange(Quantity::Frequency))
    );
    assert_eq!(rv, before);
}

#[test]
fn frequency_range_bounds_inclusive() {
    let mut rv = RegisterValue::reset();
    assert_eq!(rv.set_base_frequency(2400 * E24), Ok(()));
    assert_eq!(rv.set_base_frequency(24_835 * E24 / 10), Ok(()));
    assert_eq!(
        rv.set_base_frequency(2400 * E24 - 1),
        Err(InputError::OutOfRange(Quantity::Frequency))
    );
}

#[test]
fn frequency_readback_is_exact() {
    let rv = RegisterValue::reset();
    assert_eq!(rv.base_frequency(), 2_463_999_877_929_687_500_000_000_000);
}

#[test]
fn deviation_text_updates_register() {
    let mut rv = RegisterValue::reset();
    rv.deviatn = 0;
    assert_eq!(rv.set_deviation_text(b"47.7"), Ok(()));
    let mut expected = RegisterValue::reset();
    expected.deviatn = 0x47;
    assert_eq!(rv, expected);
}

#[test]
fn deviation_rejections_never_mutate() {
    let mut rv = RegisterValue::reset();
    let before = rv;
    assert_eq!(
        rv.set_deviation_text(b"1.5"),
        Err(InputError::OutOfRange(Quantity::Deviation))
    );
    assert_eq!(
        rv.set_deviation_text(b"381.1"),
        Err(InputError::OutOfRange(Quantity::Deviation))
    );
    assert_eq!(
        rv.set_deviation_text(b"fast"),
        Err(InputError::Unparsable(Quantity::Deviation))
    );
    assert_eq!(rv, before);
}

#[test]
fn deviation_readback_is_exact() {
    let rv = RegisterValue::reset();
    assert_eq!(rv.deviation(), 47_607_421_875_000_000_000_000_000);
}

#[test]
fn data_rate_text_keeps_high_nibble() {
    let mut rv = RegisterValue::reset();
    rv.mdmcfg4 = 0x85;
    rv.mdmcfg3 = 0x00;
    assert_eq!(rv.set_data_rate_text(b"115.051"), Ok(()));
    let mut expected = RegisterValue::reset();
    expected.mdmcfg4 = 0x8C;
    expected.mdmcfg3 = 0x21;
    assert_eq!(rv, expected);
}

#[test]
fn data_rate_reset_defaults_reachable_from_text() {
    // the exact rate the reset registers denote reproduces them
    let mut rv = RegisterValue::reset();
    rv.mdmcfg4 = 0x80;
    rv.mdmcfg3 = 0x00;
    assert_eq!(rv.set_data_rate_text(b"115.05126953125"), Ok(()));
    assert_eq!(rv.mdmcfg4, 0x8C);
    assert_eq!(rv.mdmcfg3, 0x22);
}

#[test]
fn data_rate_rejections_never_mutate() {
    let mut rv = RegisterValue::reset();
    let before = rv;
    assert_eq!(
        rv.set_data_rate_text(b"0.024"),
        Err(InputError::OutOfRange(Quantity::DataRate))
    );
    assert_eq!(
        rv.set_data_rate_text(b"1622.1"),
        Err(InputError::OutOfRange(Quantity::DataRate))
    );
    assert_eq!(
        rv.set_data_rate_text(b"12..5"),
        Err(InputError::Unparsable(Quantity::DataRate))
    );
    assert_eq!(rv, before);
}

#[test]
fn data_rate_readback_is_exact() {
    let rv = RegisterValue::reset();
    assert_eq!(rv.data_rate(), 115_051_269_531_250_000_000_000_000);
}

#[test]
fn valid_ranges_reported() {
    assert_eq!(
        Quantity::Frequency.valid_range(),
        (2400 * E24, 24_835 * E24 / 10)
    );
    assert_eq!(Quantity::Deviation.valid_range(), (16 * E24 / 10, 381 * E24));
    assert_eq!(Quantity::DataRate.valid_range(), (25 * E24 / 1000, 1622 * E24));
}
