//! Bit-field codecs: in-place edits of single registers driven by simple
//! parameters (modulation scheme, TX power level, whitening, Manchester
//! coding, MSK phase transition time, channel number).
//!
//! Each setter replaces exactly the bits of its field and leaves every other
//! bit and every other register untouched; inputs outside a field's permitted
//! set leave the register map unchanged.

use vstd::prelude::*;
use crate::registers::RegisterValue;

verus! {

/// Modulation schemes offered by the modem configuration field.
#[derive(Clone, Copy, Debug, PartialEq, Eq, Structural)]
pub enum Modulation {
    /// Binary frequency shift keying ("2-FSK").
    Fsk2,
    /// Gaussian-filtered frequency shift keying ("GFSK").
    Gfsk,
    /// Minimum shift keying ("MSK").
    Msk,
}

/// Value of bits 6-4 of the modem configuration byte for a scheme.
pub open spec fn modulation_code(m: Modulation) -> u8 {
    match m {
        Modulation::Fsk2 => 0x00,
        Modulation::Gfsk => 0x10,
        Modulation::Msk => 0x70,
    }
}

/// The modem configuration byte after encoding a scheme: bits 6-4 replaced
/// by the scheme's code, all other bits kept.
pub open spec fn with_modulation(b: u8, m: Modulation) -> u8 {
    (b & 0x8F) | modulation_code(m)
}

/// The scheme named by an ASCII label ("2-FSK", "GFSK" or "MSK").
pub open spec fn modulation_of_label(label: Seq<u8>) -> Option<Modulation> {
    if label == seq![50u8, 45u8, 70u8, 83u8, 75u8] {
        Some(Modulation::Fsk2)
    } else if label == seq![71u8, 70u8, 83u8, 75u8] {
        Some(Modulation::Gfsk)
    } else if label == seq![77u8, 83u8, 75u8] {
        Some(Modulation::Msk)
    } else {
        None
    }
}

/// Recognize a modulation label ("2-FSK", "GFSK" or "MSK", as ASCII bytes).
pub fn parse_modulation(label: &[u8]) -> (r: Option<Modulation>)
    ensures
        r == modulation_of_label(label@),
{
    if label.len() == 5 && label[0] == 50 && label[1] == 45 && label[2] == 70 && label[3] == 83
        && label[4] == 75 {
        proof {
            assert(label@ =~= seq![50u8, 45u8, 70u8, 83u8, 75u8]);
        }
        Some(Modulation::Fsk2)
    } else if label.len() == 4 && label[0] == 71 && label[1] == 70 && label[2] == 83
        && label[3] == 75 {
        proof {
            assert(label@ =~= seq![71u8, 70u8, 83u8, 75u8]);
        }
        Some(Modulation::Gfsk)
    } else if label.len() == 3 && label[0] == 77 && label[1] == 83 && label[2] == 75 {
        proof {
            assert(label@ =~= seq![77u8, 83u8, 75u8]);
        }
        Some(Modulation::Msk)
    } else {
        None
    }
}

/// Power-table byte for a TX power level in dBm, defined exactly on the
/// permitted set {1, 0, -2, -4, ..., -30, -55}. The level -55 selects the
/// full power-table bypass, byte 0x00.
pub open spec fn tx_power_byte(dbm: int) -> Option<u8> {
    if dbm == 1 {
        Some(0xFF)
    } else if dbm == 0 {
        Some(0xFE)
    } else if dbm == -2 {
        Some(0xBF)
    } else if dbm == -4 {
        Some(0xAA)
    } else if dbm == -6 {
        Some(0x7F)
    } else if dbm == -8 {
        Some(0x99)
    } else if dbm == -10 {
        Some(0xCB)
    } else if dbm == -12 {
        Some(0x95)
    } else if dbm == -14 {
        Some(0x59)
    } else if dbm == -16 {
        Some(0x87)
    } else if dbm == -18 {
        Some(0xC8)
    } else if dbm == -20 {
        Some(0xC1)
    } else if dbm == -22 {
        Some(0x83)
    } else if dbm == -24 {
        Some(0x53)
    } else if dbm == -26 {
        Some(0x54)
    } else if dbm == -28 {
        Some(0x41)
    } else if dbm == -30 {
        Some(0x44)
    } else if dbm == -55 {
        Some(0x00)
    } else {
        None
    }
}

impl RegisterValue {
    /// Encode a modulation scheme into bits 6-4 of the modem configuration
    /// register.
    pub fn set_modulation(&mut self, m: Modulation)
        ensures
            (*final(self) == RegisterValue {
                mdmcfg2: with_modulation(old(self).mdmcfg2, m),
                ..*old(self)
            }),
    {
        let code: u8 = match m {
            Modulation::Fsk2 => 0x00,
            Modulation::Gfsk => 0x10,
            Modulation::Msk => 0x70,
        };
        self.mdmcfg2 = (self.mdmcfg2 & 0x8F) | code;
    }

    /// Encode the modulation scheme named by an ASCII label; an unrecognized
    /// label leaves the register map unchanged.
    pub fn set_modulation_scheme(&mut self, label: &[u8])
        ensures
            (*final(self) == RegisterValue {
                mdmcfg2: (match modulation_of_label(label@) {
                    Some(m) => with_modulation(old(self).mdmcfg2, m),
                    None => old(self).mdmcfg2,
                }),
                ..*old(self)
            }),
    {
        match parse_modulation(label) {
            Some(m) => self.set_modulation(m),
            None => (),
        }
    }

    /// Encode a TX power level. A level in the permitted set replaces the
    /// power-table byte; any other level leaves the register map unchanged.
    /// The level -55 always forces the byte to 0x00.
    pub fn set_tx_power(&mut self, dbm: i8)
        ensures
            (*final(self) == RegisterValue {
                pa_table0: (match tx_power_byte(dbm as int) {
                    Some(b) => b,
                    None => old(self).pa_table0,
                }),
                ..*old(self)
            }),
    {
        match dbm {
            1 => self.pa_table0 = 0xFF,
            0 => self.pa_table0 = 0xFE,
            -2 => self.pa_table0 = 0xBF,
            -4 => self.pa_table0 = 0xAA,
            -6 => self.pa_table0 = 0x7F,
            -8 => self.pa_table0 = 0x99,
            -10 => self.pa_table0 = 0xCB,
            -12 => self.pa_table0 = 0x95,
            -14 => self.pa_table0 = 0x59,
            -16 => self.pa_table0 = 0x87,
            -18 => self.pa_table0 = 0xC8,
            -20 => self.pa_table0 = 0xC1,
            -22 => self.pa_table0 = 0x83,
            -24 => self.pa_table0 = 0x53,
            -26 => self.pa_table0 = 0x54,
            -28 => self.pa_table0 = 0x41,
            -30 => self.pa_table0 = 0x44,
            -55 => self.pa_table0 = 0x00,
            _ => (),
        }
    }

    /// Set or clear the data-whitening flag, bit 6 of the packet control
    /// register.
    pub fn set_data_whitening(&mut self, enabled: bool)
        ensures
            (*final(self) == RegisterValue {
                pktctrl0: (if enabled {
                    old(self).pktctrl0 | 0x40
                } else {
                    old(self).pktctrl0 & 0xBF
                }),
                ..*old(self)
            }),
    {
        if enabled {
            self.pktctrl0 = self.pktctrl0 | 0x40;
        } else {
            self.pktctrl0 = self.pktctrl0 & 0xBF;
        }
    }

    /// Set or clear the Manchester-coding flag, bit 3 of the modem
    /// configuration register.
    pub fn set_manchester(&mut self, enabled: bool)
        ensures
            (*final(self) == RegisterValue {
                mdmcfg2: (if enabled {
                    old(self).mdmcfg2 | 0x08
                } else {
                    old(self).mdmcfg2 & 0xF7
                }),
                ..*old(self)
            }),
    {
        if enabled {
            self.mdmcfg2 = self.mdmcfg2 | 0x08;
        } else {
            self.mdmcfg2 = self.mdmcfg2 & 0xF7;
        }
    }

    /// Encode an MSK phase transition time into bits 2-0 of the deviation
    /// register. Only the eight values 0-7 are permitted; any other value
    /// leaves the register map unchanged.
    pub fn set_phase_transition_time(&mut self, time: u8)
        ensures
            (*final(self) == RegisterValue {
                deviatn: (if time < 8 {
                    (old(self).deviatn & 0xF8) | time
                } else {
                    old(self).deviatn
                }),
                ..*old(self)
            }),
    {
        if time < 8 {
            self.deviatn = (self.deviatn & 0xF8) | time;
        }
    }

    /// Set the channel number register.
    pub fn set_channel_number(&mut self, channel: u8)
        ensures
            (*final(self) == RegisterValue { channr: channel, ..*old(self) }),
    {
        self.channr = channel;
    }
}

/// Encoding a modulation scheme is idempotent, and the value of bits 6-4
/// after encoding depends on the scheme alone, never on the register's prior
/// contents.
pub proof fn modulation_encode_idempotent(b: u8, m: Modulation)
    ensures
        with_modulation(with_modulation(b, m), m) == with_modulation(b, m),
        with_modulation(b, m) & 0x70 == modulation_code(m),
{
    let c = modulation_code(m);
    assert(c == 0x00 || c == 0x10 || c == 0x70);
    assert((c == 0x00 || c == 0x10 || c == 0x70) ==> ((((b & 0x8F) | c) & 0x8F) | c) == ((b
        & 0x8F) | c) && (((b & 0x8F) | c) & 0x70) == c) by (bit_vector);
}

} // verus!
