//! Configuration engine for a 2.4 GHz RF transceiver controlled over a
//! point-to-point serial link.
//!
//! The crate translates physical parameters (carrier frequency, frequency
//! deviation, data rate, modulation scheme, channel, TX power, whitening,
//! Manchester coding) into the exact byte values of the chip's configuration
//! register map, and wraps typed commands into framed byte sequences ready for
//! a transport.
//!
//! Physical quantities are handled as exact fixed-point decimals: a value is a
//! `u128` holding the quantity in its natural unit (MHz, kHz or kBaud) scaled
//! by 10^24. This representation is exact for every register readback, so the
//! quantization behaviour of each codec can be stated and proved precisely.
//!
//! The modules follow the components of the design:
//! - [`registers`]: the register map (current values and hardware addresses);
//! - [`codecs`]: pure value-level codecs between physical quantities and
//!   register bit patterns;
//! - [`fields`]: bit-field codecs that edit single registers in place;
//! - [`text`]: decimal text parsed into exact fixed-point values;
//! - [`gate`]: the validation gate, from user input to register updates;
//! - [`framing`]: the command frame wire format;
//! - [`dispatch`]: building complete command frames.

pub mod codecs;
pub mod dispatch;
pub mod fields;
pub mod framing;
pub mod gate;
pub mod registers;
pub mod text;
