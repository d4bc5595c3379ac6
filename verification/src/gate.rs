//! The validation gate: the checked path from free-form user input to the
//! register map.
//!
//! Each quantity is checked against its documented range before its codec
//! runs, either at the value level or straight from raw text. A rejected
//! input — unreadable text or an out-of-range value — leaves the register map
//! exactly as it was; an accepted one updates all registers of its field
//! group together. For every value inside the documented range the codec is
//! proved to succeed, so range-checked encoding can never overflow a field.
//!
//! The module also offers the exact readback of each quantity from the
//! current register bytes, the inverse direction used for display.

use vstd::prelude::*;
use crate::codecs::{
    FREQUENCY_MIN, FREQUENCY_MAX, DEVIATION_MIN, DEVIATION_MAX, DATA_RATE_MIN, DATA_RATE_MAX,
    frequency_bytes, decoded_frequency, frequency_quantization_close, encode_frequency,
    decode_frequency, deviation_byte, decoded_deviation, deviation_quantization_stable,
    encode_deviation, decode_deviation, data_rate_exponent, data_rate_mantissa,
    decoded_data_rate, data_rate_quantization_stable, encode_data_rate, decode_data_rate,
};
use crate::registers::RegisterValue;
use crate::text::{parse_decimal, wf_decimal, number_body, decimal_value_e24, ParseError};

verus! {

/// The physical quantity an input referred to.
#[derive(Clone, Copy, Debug, PartialEq, Eq, Structural)]
pub enum Quantity {
    Frequency,
    Deviation,
    DataRate,
}

/// Inclusive accepted range of a quantity, in its unit scaled by 10^24.
pub open spec fn quantity_range(q: Quantity) -> (u128, u128) {
    match q {
        Quantity::Frequency => (FREQUENCY_MIN, FREQUENCY_MAX),
        Quantity::Deviation => (DEVIATION_MIN, DEVIATION_MAX),
        Quantity::DataRate => (DATA_RATE_MIN, DATA_RATE_MAX),
    }
}

impl Quantity {
    /// Inclusive accepted range of the quantity (unit scaled by 10^24), for
    /// rejection messages.
    pub fn valid_range(self) -> (r: (u128, u128))
        ensures
            r == quantity_range(self),
    {
        match self {
            Quantity::Frequency => (FREQUENCY_MIN, FREQUENCY_MAX),
            Quantity::Deviation => (DEVIATION_MIN, DEVIATION_MAX),
            Quantity::DataRate => (DATA_RATE_MIN, DATA_RATE_MAX),
        }
    }
}

/// Rejection of a user input. A rejected input never changes the register
/// map.
#[derive(Clone, Copy, Debug, PartialEq, Eq, Structural)]
pub enum InputError {
    /// The text could not be read as a decimal number.
    Unparsable(Quantity),
    /// The value lies outside the quantity's documented range.
    OutOfRange(Quantity),
}

impl RegisterValue {
    /// Set the carrier frequency (MHz, scaled by 10^24): range-check, encode,
    /// and write the three frequency registers together.
    pub fn set_base_frequency(&mut self, freq: u128) -> (r: Result<(), InputError>)
        ensures
            r is Ok <==> FREQUENCY_MIN <= freq <= FREQUENCY_MAX,
            r is Ok ==> (*final(self) == RegisterValue {
                freq2: frequency_bytes(freq).0,
                freq1: frequency_bytes(freq).1,
                freq0: frequency_bytes(freq).2,
                ..*old(self)
            }),
            r is Err ==> *final(self) == *old(self) && r == Err::<(), InputError>(
                InputError::OutOfRange(Quantity::Frequency),
            ),
    {
        if freq < FREQUENCY_MIN || freq > FREQUENCY_MAX {
            return Err(InputError::OutOfRange(Quantity::Frequency));
        }
        proof {
            frequency_quantization_close(freq);
        }
        match encode_frequency(freq) {
            Ok((f2, f1, f0)) => {
                self.freq2 = f2;
                self.freq1 = f1;
                self.freq0 = f0;
                Ok(())
            },
            // a range-checked frequency always fits the 24-bit field
            Err(_) => unreached(),
        }
    }

    /// Set the carrier frequency from decimal text (MHz). The text is parsed
    /// and range-checked; on any rejection the register map is untouched.
    pub fn set_base_frequency_text(&mut self, input: &[u8]) -> (r: Result<(), InputError>)
        ensures
            ({
                let body = number_body(input@);
                let value = decimal_value_e24(body);
                &&& (r is Ok <==> wf_decimal(body) && FREQUENCY_MIN <= value <= FREQUENCY_MAX)
                &&& (r == Err::<(), InputError>(InputError::Unparsable(Quantity::Frequency))
                    <==> !wf_decimal(body))
                &&& (r == Err::<(), InputError>(InputError::OutOfRange(Quantity::Frequency))
                    <==> wf_decimal(body) && !(FREQUENCY_MIN <= value <= FREQUENCY_MAX))
                &&& (r is Ok ==> (*final(self) == RegisterValue {
                    freq2: frequency_bytes(value as u128).0,
                    freq1: frequency_bytes(value as u128).1,
                    freq0: frequency_bytes(value as u128).2,
                    ..*old(self)
                }))
                &&& (r is Err ==> *final(self) == *old(self))
            }),
    {
        match parse_decimal(input) {
            Ok(v) => self.set_base_frequency(v),
            Err(ParseError::NotDecimal) => Err(InputError::Unparsable(Quantity::Frequency)),
            Err(ParseError::TooLarge) => Err(InputError::OutOfRange(Quantity::Frequency)),
        }
    }

    /// Exact frequency currently denoted by the three frequency registers
    /// (MHz, scaled by 10^24).
    pub fn base_frequency(&self) -> (freq: u128)
        ensures
            freq == decoded_frequency(self.freq2, self.freq1, self.freq0),
    {
        decode_frequency(self.freq2, self.freq1, self.freq0)
    }

    /// Set the frequency deviation (kHz, scaled by 10^24): range-check,
    /// encode, and write the deviation register.
    pub fn set_deviation(&mut self, dev: u128) -> (r: Result<(), InputError>)
        ensures
            r is Ok <==> DEVIATION_MIN <= dev <= DEVIATION_MAX,
            r is Ok ==> (*final(self) == RegisterValue {
                deviatn: deviation_byte(dev),
                ..*old(self)
            }),
            r is Err ==> *final(self) == *old(self) && r == Err::<(), InputError>(
                InputError::OutOfRange(Quantity::Deviation),
            ),
    {
        if dev < DEVIATION_MIN || dev > DEVIATION_MAX {
            return Err(InputError::OutOfRange(Quantity::Deviation));
        }
        proof {
            deviation_quantization_stable(dev);
        }
        match encode_deviation(dev) {
            Ok(b) => {
                self.deviatn = b;
                Ok(())
            },
            // a range-checked deviation always has a 3-bit exponent
            Err(_) => unreached(),
        }
    }

    /// Set the frequency deviation from decimal text (kHz). The text is
    /// parsed and range-checked; on any rejection the register map is
    /// untouched.
    pub fn set_deviation_text(&mut self, input: &[u8]) -> (r: Result<(), InputError>)
        ensures
            ({
                let body = number_body(input@);
                let value = decimal_value_e24(body);
                &&& (r is Ok <==> wf_decimal(body) && DEVIATION_MIN <= value <= DEVIATION_MAX)
                &&& (r == Err::<(), InputError>(InputError::Unparsable(Quantity::Deviation))
                    <==> !wf_decimal(body))
                &&& (r == Err::<(), InputError>(InputError::OutOfRange(Quantity::Deviation))
                    <==> wf_decimal(body) && !(DEVIATION_MIN <= value <= DEVIATION_MAX))
                &&& (r is Ok ==> (*final(self) == RegisterValue {
                    deviatn: deviation_byte(value as u128),
                    ..*old(self)
                }))
                &&& (r is Err ==> *final(self) == *old(self))
            }),
    {
        match parse_decimal(input) {
            Ok(v) => self.set_deviation(v),
            Err(ParseError::NotDecimal) => Err(InputError::Unparsable(Quantity::Deviation)),
            Err(ParseError::TooLarge) => Err(InputError::OutOfRange(Quantity::Deviation)),
        }
    }

    /// Exact deviation currently denoted by the deviation register
    /// (kHz, scaled by 10^24).
    pub fn deviation(&self) -> (dev: u128)
        ensures
            dev == decoded_deviation(self.deviatn),
    {
        decode_deviation(self.deviatn)
    }

    /// Set the data rate (kBaud, scaled by 10^24): range-check, encode, and
    /// write the exponent nibble and the mantissa register together.
    pub fn set_data_rate(&mut self, rate: u128) -> (r: Result<(), InputError>)
        ensures
            r is Ok <==> DATA_RATE_MIN <= rate <= DATA_RATE_MAX,
            r is Ok ==> (*final(self) == RegisterValue {
                mdmcfg4: (old(self).mdmcfg4 & 0xF0) | data_rate_exponent(rate),
                mdmcfg3: data_rate_mantissa(rate),
                ..*old(self)
            }),
            r is Err ==> *final(self) == *old(self) && r == Err::<(), InputError>(
                InputError::OutOfRange(Quantity::DataRate),
            ),
    {
        if rate < DATA_RATE_MIN || rate > DATA_RATE_MAX {
            return Err(InputError::OutOfRange(Quantity::DataRate));
        }
        proof {
            data_rate_quantization_stable(rate);
        }
        match encode_data_rate(rate) {
            Ok((e, m)) => {
                self.mdmcfg4 = (self.mdmcfg4 & 0xF0) | e;
                self.mdmcfg3 = m;
                Ok(())
            },
            // a range-checked data rate always has a 4-bit exponent
            Err(_) => unreached(),
        }
    }

    /// Set the data rate from decimal text (kBaud). The text is parsed and
    /// range-checked; on any rejection the register map is untouched.
    pub fn set_data_rate_text(&mut self, input: &[u8]) -> (r: Result<(), InputError>)
        ensures
            ({
                let body = number_body(input@);
                let value = decimal_value_e24(body);
                &&& (r is Ok <==> wf_decimal(body) && DATA_RATE_MIN <= value <= DATA_RATE_MAX)
                &&& (r == Err::<(), InputError>(InputError::Unparsable(Quantity::DataRate))
                    <==> !wf_decimal(body))
                &&& (r == Err::<(), InputError>(InputError::OutOfRange(Quantity::DataRate))
                    <==> wf_decimal(body) && !(DATA_RATE_MIN <= value <= DATA_RATE_MAX))
                &&& (r is Ok ==> (*final(self) == RegisterValue {
                    mdmcfg4: (old(self).mdmcfg4 & 0xF0) | data_rate_exponent(value as u128),
                    mdmcfg3: data_rate_mantissa(value as u128),
                    ..*old(self)
                }))
                &&& (r is Err ==> *final(self) == *old(self))
            }),
    {
        match parse_decimal(input) {
            Ok(v) => self.set_data_rate(v),
            Err(ParseError::NotDecimal) => Err(InputError::Unparsable(Quantity::DataRate)),
            Err(ParseError::TooLarge) => Err(InputError::OutOfRange(Quantity::DataRate)),
        }
    }

    /// Exact data rate currently denoted by the exponent nibble and the
    /// mantissa register (kBaud, scaled by 10^24).
    pub fn data_rate(&self) -> (rate: u128)
        ensures
            rate == decoded_data_rate(self.mdmcfg4, self.mdmcfg3),
    {
        decode_data_rate(self.mdmcfg4, self.mdmcfg3)
    }
}

} // verus!
