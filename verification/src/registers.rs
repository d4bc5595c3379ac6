//! The register map of the transceiver: the current byte value of every
//! configuration register, and the fixed table of hardware addresses.
//!
//! `RegisterValue` mirrors the chip's configuration cells. Every field is one
//! byte, exactly what the chip will hold after a successful write. The map
//! starts from the documented power-on-reset baseline and is edited field by
//! field by the codecs.
//!
//! `RegisterAddress` is the immutable table pairing each register with its
//! 16-bit hardware address, reproduced from the datasheet. It exists only so
//! a caller can know which address a write-register command should target.

use vstd::prelude::*;

verus! {

/// Current contents of the transceiver's configuration registers.
///
/// Invariant: each field is the literal byte the chip will hold after a
/// successful write; the `u8` type itself enforces the 0-255 range.
#[derive(Clone, Copy, Debug, PartialEq, Eq)]
pub struct RegisterValue {
    pub iocfg2: u8,
    pub iocfg1: u8,
    pub iocfg0: u8,
    pub sync1: u8,
    pub sync0: u8,
    pub pktlen: u8,
    pub pktctrl1: u8,
    pub pktctrl0: u8,
    pub addr: u8,
    pub channr: u8,
    pub fsctrl1: u8,
    pub fsctrl0: u8,
    pub freq2: u8,
    pub freq1: u8,
    pub freq0: u8,
    pub mdmcfg4: u8,
    pub mdmcfg3: u8,
    pub mdmcfg2: u8,
    pub mdmcfg1: u8,
    pub mdmcfg0: u8,
    pub deviatn: u8,
    pub mcsm2: u8,
    pub mcsm1: u8,
    pub mcsm0: u8,
    pub foccfg: u8,
    pub bscfg: u8,
    pub agcctrl2: u8,
    pub agcctrl1: u8,
    pub agcctrl0: u8,
    pub frend1: u8,
    pub frend0: u8,
    pub fscal3: u8,
    pub fscal2: u8,
    pub fscal1: u8,
    pub fscal0: u8,
    pub test2: u8,
    pub test1: u8,
    pub test0: u8,
    pub pa_table0: u8,
}

/// The documented power-on-reset baseline of the register map.
pub open spec fn reset_register_value() -> RegisterValue {
    RegisterValue {
        iocfg2: 0x00,
        iocfg1: 0x00,
        iocfg0: 0x00,
        sync1: 0xD3,
        sync0: 0x91,
        pktlen: 0xFF,
        pktctrl1: 0x04,
        pktctrl0: 0x45,
        addr: 0x00,
        channr: 0x00,
        fsctrl1: 0x0F,
        fsctrl0: 0x00,
        freq2: 0x5E,
        freq1: 0xC4,
        freq0: 0xEC,
        mdmcfg4: 0x8C,
        mdmcfg3: 0x22,
        mdmcfg2: 0x02,
        mdmcfg1: 0x22,
        mdmcfg0: 0xF8,
        deviatn: 0x47,
        mcsm2: 0x07,
        mcsm1: 0x30,
        mcsm0: 0x04,
        foccfg: 0x76,
        bscfg: 0x6C,
        agcctrl2: 0x03,
        agcctrl1: 0x40,
        agcctrl0: 0x91,
        frend1: 0x56,
        frend0: 0x10,
        fscal3: 0xA9,
        fscal2: 0x0A,
        fscal1: 0x20,
        fscal0: 0x0D,
        test2: 0x88,
        test1: 0x11,
        test0: 0x0B,
        pa_table0: 0x00,
    }
}

impl RegisterValue {
    /// A register map in the power-on-reset state.
    pub fn reset() -> (r: RegisterValue)
        ensures
            r == reset_register_value(),
    {
        RegisterValue {
            iocfg2: 0x00,
            iocfg1: 0x00,
            iocfg0: 0x00,
            sync1: 0xD3,
            sync0: 0x91,
            pktlen: 0xFF,
            pktctrl1: 0x04,
            pktctrl0: 0x45,
            addr: 0x00,
            channr: 0x00,
            fsctrl1: 0x0F,
            fsctrl0: 0x00,
            freq2: 0x5E,
            freq1: 0xC4,
            freq0: 0xEC,
            mdmcfg4: 0x8C,
            mdmcfg3: 0x22,
            mdmcfg2: 0x02,
            mdmcfg1: 0x22,
            mdmcfg0: 0xF8,
            deviatn: 0x47,
            mcsm2: 0x07,
            mcsm1: 0x30,
            mcsm0: 0x04,
            foccfg: 0x76,
            bscfg: 0x6C,
            agcctrl2: 0x03,
            agcctrl1: 0x40,
            agcctrl0: 0x91,
            frend1: 0x56,
            frend0: 0x10,
            fscal3: 0xA9,
            fscal2: 0x0A,
            fscal1: 0x20,
            fscal0: 0x0D,
            test2: 0x88,
            test1: 0x11,
            test0: 0x0B,
            pa_table0: 0x00,
        }
    }
}

/// Hardware address of every configuration register.
///
/// Fixed at startup and never mutated. The values come verbatim from the
/// chip's datasheet; all of them share the high byte 0xDF, the register page
/// of the configuration area.
#[derive(Clone, Copy, Debug, PartialEq, Eq)]
pub struct RegisterAddress {
    pub iocfg2: u16,
    pub iocfg1: u16,
    pub iocfg0: u16,
    pub sync1: u16,
    pub sync0: u16,
    pub pktlen: u16,
    pub pktctrl1: u16,
    pub pktctrl0: u16,
    pub addr: u16,
    pub channr: u16,
    pub fsctrl1: u16,
    pub fsctrl0: u16,
    pub freq2: u16,
    pub freq1: u16,
    pub freq0: u16,
    pub mdmcfg4: u16,
    pub mdmcfg3: u16,
    pub mdmcfg2: u16,
    pub mdmcfg1: u16,
    pub mdmcfg0: u16,
    pub deviatn: u16,
    pub mcsm2: u16,
    pub mcsm1: u16,
    pub mcsm0: u16,
    pub foccfg: u16,
    pub bscfg: u16,
    pub agcctrl2: u16,
    pub agcctrl1: u16,
    pub agcctrl0: u16,
    pub frend1: u16,
    pub frend0: u16,
    pub fscal3: u16,
    pub fscal2: u16,
    pub fscal1: u16,
    pub fscal0: u16,
    pub test2: u16,
    pub test1: u16,
    pub test0: u16,
    pub pa_table0: u16,
}

/// The datasheet's register-to-address table.
pub open spec fn register_address_table() -> RegisterAddress {
    RegisterAddress {
        iocfg2: 0xDF2F,
        iocfg1: 0xDF30,
        iocfg0: 0xDF31,
        sync1: 0xDF00,
        sync0: 0xDF01,
        pktlen: 0xDF02,
        pktctrl1: 0xDF03,
        pktctrl0: 0xDF04,
        addr: 0xDF05,
        channr: 0xDF06,
        fsctrl1: 0xDF07,
        fsctrl0: 0xDF08,
        freq2: 0xDF09,
        freq1: 0xDF0A,
        freq0: 0xDF0B,
        mdmcfg4: 0xDF0C,
        mdmcfg3: 0xDF0D,
        mdmcfg2: 0xDF0E,
        mdmcfg1: 0xDF0F,
        mdmcfg0: 0xDF10,
        deviatn: 0xDF11,
        mcsm2: 0xDF12,
        mcsm1: 0xDF13,
        mcsm0: 0xDF14,
        foccfg: 0xDF15,
        bscfg: 0xDF16,
        agcctrl2: 0xDF17,
        agcctrl1: 0xDF18,
        agcctrl0: 0xDF19,
        frend1: 0xDF1A,
        frend0: 0xDF1B,
        fscal3: 0xDF1C,
        fscal2: 0xDF1D,
        fscal1: 0xDF1E,
        fscal0: 0xDF1F,
        test2: 0xDF23,
        test1: 0xDF24,
        test0: 0xDF25,
        pa_table0: 0xDF2E,
    }
}

impl RegisterAddress {
    /// The fixed register-to-address table.
    pub fn new() -> (r: RegisterAddress)
        ensures
            r == register_address_table(),
    {
        RegisterAddress {
            iocfg2: 0xDF2F,
            iocfg1: 0xDF30,
            iocfg0: 0xDF31,
            sync1: 0xDF00,
            sync0: 0xDF01,
            pktlen: 0xDF02,
            pktctrl1: 0xDF03,
            pktctrl0: 0xDF04,
            addr: 0xDF05,
            channr: 0xDF06,
            fsctrl1: 0xDF07,
            fsctrl0: 0xDF08,
            freq2: 0xDF09,
            freq1: 0xDF0A,
            freq0: 0xDF0B,
            mdmcfg4: 0xDF0C,
            mdmcfg3: 0xDF0D,
            mdmcfg2: 0xDF0E,
            mdmcfg1: 0xDF0F,
            mdmcfg0: 0xDF10,
            deviatn: 0xDF11,
            mcsm2: 0xDF12,
            mcsm1: 0xDF13,
            mcsm0: 0xDF14,
            foccfg: 0xDF15,
            bscfg: 0xDF16,
            agcctrl2: 0xDF17,
            agcctrl1: 0xDF18,
            agcctrl0: 0xDF19,
            frend1: 0xDF1A,
            frend0: 0xDF1B,
            fscal3: 0xDF1C,
            fscal2: 0xDF1D,
            fscal1: 0xDF1E,
            fscal0: 0xDF1F,
            test2: 0xDF23,
            test1: 0xDF24,
            test0: 0xDF25,
            pa_table0: 0xDF2E,
        }
    }

    /// Low byte of a hardware address: the register identifier carried in a
    /// write-register command payload (every address sits on page 0xDF).
    pub fn low_byte(address: u16) -> (b: u8)
        ensures
            b == address % 256,
    {
        (address % 256) as u8
    }
}

} // verus!
