//! Bit-field codecs: modulation, TX power, whitening, Manchester coding,
//! phase transition time, channel number.

use rfconf::fields::Modulation;
use rfconf::registers::RegisterValue;

#[test]
fn modulation_two_fsk_clears_field_from_any_state() {
    // encoding "2-FSK" forces bits 6-4 to 000 whatever stood there
    let mut rv = RegisterValue::reset();
    rv.mdmcfg2 = 0xFF;
    rv.set_modulation_scheme(b"2-FSK");
    assert_eq!(rv.mdmcfg2, 0x8F);
    assert_eq!(rv.mdmcfg2 & 0x70, 0x00);
}

#[test]
fn modulation_encode_is_idempotent() {
    let mut rv = RegisterValue::reset();
    rv.mdmcfg2 = 0xFF;
    rv.set_modulation_scheme(b"2-FSK");
    let once = rv.mdmcfg2;
    rv.set_modulation_scheme(b"2-FSK");
    assert_eq!(rv.mdmcfg2, once);
}

#[test]
fn modulation_codes() {
    let mut rv = RegisterValue::reset();
    rv.set_modulation(Modulation::Gfsk);
    assert_eq!(rv.mdmcfg2 & 0x70, 0x10);
    rv.set_modulation(Modulation::Msk);
    assert_eq!(rv.mdmcfg2 & 0x70, 0x70);
    rv.set_modulation(Modulation::Fsk2);
    assert_eq!(rv.mdmcfg2 & 0x70, 0x00);
    rv.set_modulation_scheme(b"MSK");
    assert_eq!(rv.mdmcfg2 & 0x70, 0x70);
    rv.set_modulation_scheme(b"GFSK");
    assert_eq!(rv.mdmcfg2 & 0x70, 0x10);
}

#[test]
fn modulation_unrecognized_label_is_identity() {
    let mut rv = RegisterValue::reset();
    rv.mdmcfg2 = 0x5A;
    let before = rv;
    rv.set_modulation_scheme(b"QPSK");
    assert_eq!(rv, before);
    rv.set_modulation_scheme(b"");
    assert_eq!(rv, before);
}

#[test]
fn tx_power_minus_55_always_forces_zero() {
    for prior in [0x00u8, 0x7F, 0xC8, 0xFF] {
        let mut rv = RegisterValue::reset();
        rv.pa_table0 = prior;
        rv.set_tx_power(-55);
        assert_eq!(rv.pa_table0, 0x00);
    }
}

#[test]
fn tx_power_table_values() {
    let mut rv = RegisterValue::reset();
    rv.set_tx_power(1);
    assert_eq!(rv.pa_table0, 0xFF);
    rv.set_tx_power(0);
    assert_eq!(rv.pa_table0, 0xFE);
    rv.set_tx_power(-10);
    assert_eq!(rv.pa_table0, 0xCB);
    rv.set_tx_power(-22);
    assert_eq!(rv.pa_table0, 0x83);
    rv.set_tx_power(-30);
    assert_eq!(rv.pa_table0, 0x44);
}

#[test]
fn tx_power_outside_table_is_identity() {
    let mut rv = RegisterValue::reset();
    rv.pa_table0 = 0xCB;
    let before = rv;
    rv.set_tx_power(-3);
    assert_eq!(rv, before);
    rv.set_tx_power(2);
    assert_eq!(rv, before);
    rv.set_tx_power(-50);
    assert_eq!(rv, before);
}

#[test]
fn whitening_flag_drives_bit_six() {
    let mut rv = RegisterValue::reset();
    assert_eq!(rv.pktctrl0, 0x45);
    rv.set_data_whitening(false);
    assert_eq!(rv.pktctrl0, 0x05);
    rv.set_data_whitening(true);
    assert_eq!(rv.pktctrl0, 0x45);
}

#[test]
fn manchester_flag_drives_bit_three() {
    let mut rv = RegisterValue::reset();
    assert_eq!(rv.mdmcfg2, 0x02);
    rv.set_manchester(true);
    assert_eq!(rv.mdmcfg2, 0x0A);
    rv.set_manchester(false);
    assert_eq!(rv.mdmcfg2, 0x02);
}

#[test]
fn phase_transition_time_sets_low_field() {
    let mut rv = RegisterValue::reset();
    assert_eq!(rv.deviatn, 0x47);
    rv.set_phase_transition_time(3);
    assert_eq!(rv.deviatn, 0x43);
    rv.set_phase_transition_time(0);
    assert_eq!(rv.deviatn, 0x40);
    rv.set_phase_transition_time(7);
    assert_eq!(rv.deviatn, 0x47);
}

#[test]
fn phase_transition_time_outside_set_is_identity() {
    let mut rv = RegisterValue::reset();
    let before = rv;
    rv.set_phase_transition_time(8);
    assert_eq!(rv, before);
    rv.set_phase_transition_time(255);
    assert_eq!(rv, before);
}

#[test]
fn channel_number_is_stored_directly() {
    let mut rv = RegisterValue::reset();
    rv.set_channel_number(42);
    assert_eq!(rv.channr, 42);
    rv.set_channel_number(255);
    assert_eq!(rv.channr, 255);
}
