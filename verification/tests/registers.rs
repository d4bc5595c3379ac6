//! The register map: reset baseline and the fixed address table.

use rfconf::registers::{RegisterAddress, RegisterValue};

#[test]
fn reset_baseline_matches_datasheet() {
    let rv = RegisterValue::reset();
    assert_eq!(rv.iocfg2, 0x00);
    assert_eq!(rv.sync1, 0xD3);
    assert_eq!(rv.sync0, 0x91);
    assert_eq!(rv.pktlen, 0xFF);
    assert_eq!(rv.pktctrl1, 0x04);
    assert_eq!(rv.pktctrl0, 0x45);
    assert_eq!(rv.channr, 0x00);
    assert_eq!(rv.freq2, 0x5E);
    assert_eq!(rv.freq1, 0xC4);
    assert_eq!(rv.freq0, 0xEC);
    assert_eq!(rv.mdmcfg4, 0x8C);
    assert_eq!(rv.mdmcfg3, 0x22);
    assert_eq!(rv.mdmcfg2, 0x02);
    assert_eq!(rv.deviatn, 0x47);
    assert_eq!(rv.mcsm0, 0x04);
    assert_eq!(rv.foccfg, 0x76);
    assert_eq!(rv.agcctrl2, 0x03);
    assert_eq!(rv.frend1, 0x56);
    assert_eq!(rv.fscal3, 0xA9);
    assert_eq!(rv.test0, 0x0B);
    assert_eq!(rv.pa_table0, 0x00);
}

#[test]
fn address_table_matches_datasheet() {
    let ra = RegisterAddress::new();
    assert_eq!(ra.sync1, 0xDF00);
    assert_eq!(ra.pktlen, 0xDF02);
    assert_eq!(ra.channr, 0xDF06);
    assert_eq!(ra.freq2, 0xDF09);
    assert_eq!(ra.freq1, 0xDF0A);
    assert_eq!(ra.freq0, 0xDF0B);
    assert_eq!(ra.mdmcfg4, 0xDF0C);
    assert_eq!(ra.deviatn, 0xDF11);
    assert_eq!(ra.fscal0, 0xDF1F);
    assert_eq!(ra.test2, 0xDF23);
    assert_eq!(ra.pa_table0, 0xDF2E);
    assert_eq!(ra.iocfg2, 0xDF2F);
    assert_eq!(ra.iocfg0, 0xDF31);
}

#[test]
fn address_low_byte_identifies_register() {
    assert_eq!(RegisterAddress::low_byte(0xDF2E), 0x2E);
    assert_eq!(RegisterAddress::low_byte(0xDF00), 0x00);
}
