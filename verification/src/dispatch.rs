//! The command dispatcher: complete frames for high-level actions.
//!
//! Exactly one frame leaves per invocation; the caller hands it to the
//! transport unchanged (fire and forget, no retry and no acknowledgement
//! wait).

use vstd::prelude::*;
use crate::framing::{CommandID, Packet, WriteRegisterFrame, frame_packet, spec_frame};

verus! {

/// Build the frame of a write-register command for a register identifier
/// byte and the value to store.
///
/// The address byte is the caller's register identifier: for registers of
/// the fixed address table it is the low byte of the 16-bit hardware address
/// (the high byte 0xDF names the configuration page and is implied).
pub fn write_register_command(address: u8, value: u8) -> (out: Vec<u8>)
    ensures
        out@ == spec_frame(CommandID::WriteRegister, seq![address, value]),
{
    let frame = WriteRegisterFrame { address, value };
    let packet = Packet { command_id: CommandID::WriteRegister, payload: frame.to_payload() };
    frame_packet(&packet)
}

} // verus!
