//! The command frame wire format.
//!
//! A command travels as one self-delimiting frame:
//!
//! ```text
//! [0x45] [command byte] [payload length, LEB128] [payload bytes] [trailer]
//! ```
//!
//! A single marker byte 0x45 opens the frame. The command identifier is one
//! byte, the ordinal of [`CommandID`]. The payload is length-prefixed with an
//! unsigned little-endian base-128 varint (seven value bits per byte, high
//! bit set on every byte but the last, minimal length). One trailer byte
//! closes the frame; it is reserved for an integrity check and is fixed at
//! 0xFF until one is defined — receivers should not assign it meaning.
//!
//! Parsing is the exact inverse of framing: a byte sequence parses
//! successfully if and only if it is the frame of exactly one packet.

use vstd::prelude::*;
use vstd::arithmetic::power2::{pow2, lemma2_to64, lemma2_to64_rest, lemma_pow2_adds,
    lemma_pow2_strictly_increases};
use vstd::arithmetic::div_mod::{lemma_fundamental_div_mod, lemma_fundamental_div_mod_converse,
    lemma_multiply_divide_lt};
use crate::codecs::lemma_pow2_le;

verus! {

/// Start-of-frame marker, the first byte of every frame.
pub const FRAME_MARKER: u8 = 0x45;

/// Trailer byte closing every frame. A placeholder for an integrity check;
/// it carries no meaning yet.
pub const FRAME_TRAILER: u8 = 0xFF;

/// Command identifiers, one byte on the wire (ordinal encoding).
#[derive(Clone, Copy, Debug, PartialEq, Eq, Structural)]
pub enum CommandID {
    Ping,
    WriteRegister,
    ReadRegister,
    PerformAction,
}

/// Wire byte of a command identifier.
pub open spec fn command_byte(c: CommandID) -> u8 {
    match c {
        CommandID::Ping => 0,
        CommandID::WriteRegister => 1,
        CommandID::ReadRegister => 2,
        CommandID::PerformAction => 3,
    }
}

/// Command identifier denoted by a wire byte, if any.
pub open spec fn command_of_byte(b: u8) -> Option<CommandID> {
    if b == 0 {
        Some(CommandID::Ping)
    } else if b == 1 {
        Some(CommandID::WriteRegister)
    } else if b == 2 {
        Some(CommandID::ReadRegister)
    } else if b == 3 {
        Some(CommandID::PerformAction)
    } else {
        None
    }
}

impl CommandID {
    /// The identifier's wire byte.
    pub fn wire_byte(&self) -> (b: u8)
        ensures
            b == command_byte(*self),
    {
        match self {
            CommandID::Ping => 0,
            CommandID::WriteRegister => 1,
            CommandID::ReadRegister => 2,
            CommandID::PerformAction => 3,
        }
    }

    /// The identifier a wire byte denotes, if any.
    pub fn from_wire_byte(b: u8) -> (r: Option<CommandID>)
        ensures
            r == command_of_byte(b),
    {
        match b {
            0 => Some(CommandID::Ping),
            1 => Some(CommandID::WriteRegister),
            2 => Some(CommandID::ReadRegister),
            3 => Some(CommandID::PerformAction),
            _ => None,
        }
    }
}

/// Reading back the wire byte of a command gives the command.
pub proof fn lemma_command_byte_round_trip(c: CommandID)
    ensures
        command_of_byte(command_byte(c)) == Some(c),
{
    match c {
        CommandID::Ping => {},
        CommandID::WriteRegister => {},
        CommandID::ReadRegister => {},
        CommandID::PerformAction => {},
    }
}

/// Payload of a write-register command: the register identifier byte and the
/// value to store.
#[derive(Clone, Copy, Debug, PartialEq, Eq, Structural)]
pub struct WriteRegisterFrame {
    pub address: u8,
    pub value: u8,
}

impl WriteRegisterFrame {
    /// The two payload bytes: address, then value.
    pub fn to_payload(&self) -> (v: Vec<u8>)
        ensures
            v@ == seq![self.address, self.value],
    {
        let mut v: Vec<u8> = Vec::new();
        v.push(self.address);
        v.push(self.value);
        proof {
            assert(v@ =~= seq![self.address, self.value]);
        }
        v
    }
}

/// One typed command ready for framing: an identifier and an opaque,
/// already-serialized payload. Because the payload is already bytes,
/// serializing and framing a packet can never fail.
#[derive(Debug, PartialEq, Eq)]
pub struct Packet {
    pub command_id: CommandID,
    pub payload: Vec<u8>,
}

/// Little-endian base-128 varint of a number: seven value bits per byte,
/// high bit set on every byte but the last.
pub open spec fn spec_varint(n: nat) -> Seq<u8>
    decreases n,
{
    if n < 128 {
        seq![n as u8]
    } else {
        seq![(128 + (n % 128)) as u8] + spec_varint(n / 128)
    }
}

/// Serialized form of a packet: command byte, payload length varint, payload.
pub open spec fn spec_serialized_packet(cmd: CommandID, payload: Seq<u8>) -> Seq<u8> {
    seq![command_byte(cmd)] + spec_varint(payload.len()) + payload
}

/// Complete frame of a packet: marker, serialized packet, trailer.
pub open spec fn spec_frame(cmd: CommandID, payload: Seq<u8>) -> Seq<u8> {
    seq![FRAME_MARKER] + spec_serialized_packet(cmd, payload) + seq![FRAME_TRAILER]
}

/// A varint encoding a value below 2^(7k) takes at most k bytes.
proof fn lemma_varint_len_le(n: nat, k: nat)
    requires
        k >= 1,
        n < pow2(7 * k),
    ensures
        1 <= spec_varint(n).len() <= k,
    decreases k,
{
    lemma2_to64();
    if n < 128 {
    } else {
        assert(k >= 2) by {
            if k == 1 {
                assert(pow2(7) == 128);
            }
        }
        assert(n / 128 < pow2((7 * (k - 1)) as nat)) by {
            lemma_pow2_adds((7 * (k - 1)) as nat, 7);
            lemma_multiply_divide_lt(n as int, 128, pow2((7 * (k - 1)) as nat) as int);
        }
        lemma_varint_len_le(n / 128, (k - 1) as nat);
    }
}

/// A multi-byte varint never ends in a zero byte: the encoding is minimal.
proof fn lemma_varint_minimal(n: nat)
    ensures
        spec_varint(n).len() > 1 ==> spec_varint(n).last() != 0,
    decreases n,
{
    if n >= 128 {
        lemma_varint_minimal(n / 128);
        assert(spec_varint(n).last() == spec_varint(n / 128).last());
        if spec_varint(n / 128).len() == 1 {
            assert(n / 128 >= 1);
        }
    }
}

/// Append the varint of a number to a byte vector.
#[verifier::loop_isolation(false)]
fn push_varint(out: &mut Vec<u8>, len: u64)
    ensures
        final(out)@ == old(out)@ + spec_varint(len as nat),
{
    let mut n: u64 = len;
    while n >= 128
        invariant
            out@ + spec_varint(n as nat) == old(out)@ + spec_varint(len as nat),
        decreases n,
    {
        let ghost before = out@;
        out.push((128 + (n % 128)) as u8);
        proof {
            assert(spec_varint(n as nat) == seq![(128 + (n as nat % 128)) as u8] + spec_varint(
                n as nat / 128,
            ));
            assert(out@ + spec_varint((n / 128) as nat) =~= before + spec_varint(n as nat));
        }
        n = n / 128;
    }
    let ghost before = out@;
    out.push(n as u8);
    proof {
        assert(out@ =~= before + spec_varint(n as nat));
    }
}

/// Serialize a packet: its command byte, then its length-prefixed payload.
#[verifier::loop_isolation(false)]
pub fn serialize_packet(packet: &Packet) -> (out: Vec<u8>)
    ensures
        out@ == spec_serialized_packet(packet.command_id, packet.payload@),
{
    let mut out: Vec<u8> = Vec::new();
    out.push(packet.command_id.wire_byte());
    proof {
        assert(out@ =~= seq![command_byte(packet.command_id)]);
    }
    push_varint(&mut out, packet.payload.len() as u64);
    let ghost prefix = out@;
    let mut idx: usize = 0;
    while idx < packet.payload.len()
        invariant
            0 <= idx <= packet.payload.len(),
            out@ == prefix + packet.payload@.take(idx as int),
        decreases packet.payload.len() - idx,
    {
        let ghost before = out@;
        out.push(packet.payload[idx]);
        proof {
            assert(out@ =~= prefix + packet.payload@.take(idx + 1));
        }
        idx = idx + 1;
    }
    proof {
        assert(packet.payload@.take(packet.payload@.len() as int) =~= packet.payload@);
        assert(out@ =~= spec_serialized_packet(packet.command_id, packet.payload@));
    }
    out
}

/// Build the complete frame of a packet: the marker byte, the serialized
/// packet, and the trailer byte. The first byte of the output is always the
/// marker, and the output is exactly two bytes longer than the serialized
/// packet.
pub fn frame_packet(packet: &Packet) -> (out: Vec<u8>)
    ensures
        out@ == spec_frame(packet.command_id, packet.payload@),
        out@.len() == spec_serialized_packet(packet.command_id, packet.payload@).len() + 2,
        out@[0] == FRAME_MARKER,
{
    let mut out: Vec<u8> = Vec::new();
    out.push(FRAME_MARKER);
    let mut serialized = serialize_packet(packet);
    let ghost ser = serialized@;
    let mut idx: usize = 0;
    while idx < serialized.len()
        invariant
            0 <= idx <= serialized.len(),
            serialized@ == ser,
            out@ == seq![FRAME_MARKER] + ser.take(idx as int),
        decreases serialized.len() - idx,
    {
        let ghost before = out@;
        out.push(serialized[idx]);
        proof {
            assert(out@ =~= seq![FRAME_MARKER] + ser.take(idx + 1));
        }
        idx = idx + 1;
    }
    out.push(FRAME_TRAILER);
    proof {
        assert(ser.take(ser.len() as int) =~= ser);
        assert(out@ =~= spec_frame(packet.command_id, packet.payload@));
    }
    out
}

/// Why a byte sequence is not a frame.
#[derive(Clone, Copy, Debug, PartialEq, Eq, Structural)]
pub enum FrameError {
    /// Fewer bytes than any frame holds, or the length field runs off the
    /// end.
    TooShort,
    /// The first byte is not the frame marker.
    BadMarker,
    /// The command byte names no command.
    BadCommand,
    /// The length field is over-long, not minimal, or does not match the
    /// bytes present.
    BadLength,
    /// The trailer byte is missing its fixed value.
    BadTrailer,
}

/// Leading varint of a byte sequence: its value and how many bytes it
/// occupies, or nothing when no terminating byte (high bit clear) arrives.
pub open spec fn take_varint(s: Seq<u8>) -> Option<(nat, int)>
    decreases s.len(),
{
    if s.len() == 0 {
        None
    } else if s[0] < 128 {
        Some((s[0] as nat, 1int))
    } else {
        match take_varint(s.drop_first()) {
            None => None,
            Some((v, k)) => Some((((s[0] - 128) + v * 128) as nat, k + 1)),
        }
    }
}

/// What a byte sequence parses to: the framed packet it is, or the first
/// reason it is no frame. Parsing succeeds exactly on images of
/// [`spec_frame`].
pub open spec fn spec_parse_frame(s: Seq<u8>) -> Result<(CommandID, Seq<u8>), FrameError> {
    if s.len() < 4 {
        Err(FrameError::TooShort)
    } else if s[0] != FRAME_MARKER {
        Err(FrameError::BadMarker)
    } else {
        match command_of_byte(s[1]) {
            None => Err(FrameError::BadCommand),
            Some(cmd) => match take_varint(s.skip(2)) {
                None => Err(FrameError::TooShort),
                Some((n, k)) => {
                    if k > 10 || (k > 1 && s.skip(2)[k - 1] == 0) || n != s.len() - 3 - k {
                        Err(FrameError::BadLength)
                    } else if s.last() != FRAME_TRAILER {
                        Err(FrameError::BadTrailer)
                    } else {
                        Ok((cmd, s.subrange(2 + k, s.len() - 1)))
                    }
                },
            },
        }
    }
}

/// A sequence of continuation bytes alone holds no varint.
proof fn lemma_take_varint_none(s: Seq<u8>)
    requires
        forall|j: int| 0 <= j < s.len() ==> s[j] >= 128,
    ensures
        take_varint(s) is None,
    decreases s.len(),
{
    if s.len() > 0 {
        assert(forall|j: int| 0 <= j < s.drop_first().len() ==> s.drop_first()[j] >= 128);
        lemma_take_varint_none(s.drop_first());
    }
}

/// A varint ends at its first terminating byte.
proof fn lemma_take_varint_len(s: Seq<u8>, t: int)
    requires
        0 <= t < s.len(),
        forall|j: int| 0 <= j < t ==> s[j] >= 128,
        s[t] < 128,
    ensures
        take_varint(s) is Some,
        take_varint(s) matches Some(pair) ==> pair.1 == t + 1,
    decreases t,
{
    if t > 0 {
        let d = s.drop_first();
        assert(forall|j: int| 0 <= j < t - 1 ==> d[j] >= 128);
        lemma_take_varint_len(d, t - 1);
    }
}

/// Reading a varint back gives the encoded number and consumes exactly the
/// encoding, whatever follows it.
proof fn lemma_take_varint_of_varint(n: nat, rest: Seq<u8>)
    ensures
        take_varint(spec_varint(n) + rest) == Some((n, spec_varint(n).len() as int)),
    decreases n,
{
    let s = spec_varint(n) + rest;
    if n < 128 {
        assert(s[0] == n as u8);
    } else {
        lemma_take_varint_of_varint(n / 128, rest);
        assert(s[0] == (128 + (n % 128)) as u8);
        assert(s.drop_first() =~= spec_varint(n / 128) + rest);
        lemma_fundamental_div_mod(n as int, 128);
    }
}

/// A parsed varint occupies at least one and at most all of the bytes.
proof fn lemma_take_varint_bounds(s: Seq<u8>)
    ensures
        take_varint(s) matches Some(pair) ==> 1 <= pair.1 <= s.len(),
    decreases s.len(),
{
    if s.len() > 0 && s[0] >= 128 {
        lemma_take_varint_bounds(s.drop_first());
    }
}

/// A minimal terminated varint prefix is the encoding of its own value:
/// parsing and encoding are mutually inverse.
proof fn lemma_take_varint_exact(s: Seq<u8>, v: nat, k: int)
    requires
        take_varint(s) == Some((v, k)),
        k == 1 || s[k - 1] != 0,
    ensures
        1 <= k <= s.len(),
        s.take(k) == spec_varint(v),
    decreases s.len(),
{
    lemma_take_varint_bounds(s);
    if s[0] < 128 {
        assert(s.take(1) =~= spec_varint(v));
    } else {
        let d = s.drop_first();
        match take_varint(d) {
            Some((v2, k2)) => {
                lemma_take_varint_bounds(d);
                assert(k == k2 + 1);
                assert(k2 == 1 || d[k2 - 1] != 0) by {
                    if k2 > 1 {
                        assert(d[k2 - 1] == s[k2]);
                    }
                }
                lemma_take_varint_exact(d, v2, k2);
                // the inner value is nonzero, else its encoding had length one
                assert(v2 >= 1) by {
                    if v2 == 0 {
                        assert(spec_varint(0nat) =~= seq![0u8]);
                        assert(d.take(k2)[k2 - 1] == d[k2 - 1]);
                    }
                }
                assert(v == (s[0] - 128) + v2 * 128);
                assert(v >= 128);
                lemma_fundamental_div_mod_converse(v as int, 128, v2 as int, (s[0] - 128) as int);
                assert(s.take(k) =~= seq![s[0]] + d.take(k2));
                assert(s.take(k) =~= spec_varint(v));
            },
            None => {
                assert(false);
            },
        }
    }
}

/// Framing then parsing returns exactly the packet that was framed.
pub proof fn lemma_frame_parse_round_trip(cmd: CommandID, payload: Seq<u8>)
    requires
        payload.len() < 0x1_0000_0000_0000_0000,
    ensures
        spec_parse_frame(spec_frame(cmd, payload)) == Ok::<(CommandID, Seq<u8>), FrameError>(
            (cmd, payload),
        ),
{
    let s = spec_frame(cmd, payload);
    let n = payload.len();
    let vi = spec_varint(n);
    lemma2_to64();
    assert(n < pow2(70)) by {
        lemma_pow2_strictly_increases(64, 70);
    }
    lemma_varint_len_le(n, 10);
    lemma_varint_minimal(n);
    let k = vi.len() as int;
    assert(s.len() == 3 + k + n);
    assert(s[0] == FRAME_MARKER);
    assert(s[1] == command_byte(cmd));
    lemma_command_byte_round_trip(cmd);
    assert(s.skip(2) =~= vi + (payload + seq![FRAME_TRAILER]));
    lemma_take_varint_of_varint(n, payload + seq![FRAME_TRAILER]);
    assert(take_varint(s.skip(2)) == Some((n, k)));
    assert(k > 1 ==> s.skip(2)[k - 1] == vi.last());
    assert(s.last() == FRAME_TRAILER);
    assert(s.subrange(2 + k, s.len() - 1) =~= payload);
}

/// A wire byte that names a command is that command's wire byte.
proof fn lemma_command_of_byte_inverse(b: u8)
    ensures
        command_of_byte(b) matches Some(c) ==> command_byte(c) == b,
{
}

/// Whatever parses as a frame is the frame of what it parses to: the wire
/// format is unambiguous.
pub proof fn lemma_parse_frame_exact(s: Seq<u8>, cmd: CommandID, payload: Seq<u8>)
    requires
        spec_parse_frame(s) == Ok::<(CommandID, Seq<u8>), FrameError>((cmd, payload)),
    ensures
        s == spec_frame(cmd, payload),
{
    lemma_command_of_byte_inverse(s[1]);
    lemma_take_varint_bounds(s.skip(2));
    match take_varint(s.skip(2)) {
        Some((n, k)) => {
            lemma_take_varint_exact(s.skip(2), n, k);
            assert(payload == s.subrange(2 + k, s.len() - 1));
            assert(payload.len() == n);
            assert(s.skip(2).take(k) == spec_varint(n));
            assert(s =~= spec_frame(cmd, payload)) by {
                let f = spec_frame(cmd, payload);
                assert(f.len() == 3 + k + n);
                assert(forall|i: int| 0 <= i < k ==> s.skip(2).take(k)[i] == s[2 + i]);
                assert(forall|i: int|
                    2 <= i < 2 + k ==> #[trigger] f[i] == spec_varint(n)[i - 2]);
                assert(forall|i: int|
                    2 + k <= i < f.len() - 1 ==> #[trigger] f[i] == payload[i - 2 - k]);
            }
        },
        None => {
            assert(false);
        },
    }
}

/// Parse one frame back into a packet.
///
/// The result is exactly what [`spec_parse_frame`] says of the bytes: the
/// framed command and payload on an image of [`spec_frame`], and the first
/// reason of rejection on anything else.
#[verifier::loop_isolation(false)]
#[verifier::rlimit(100)]
pub fn parse_frame(bytes: &[u8]) -> (r: Result<Packet, FrameError>)
    ensures
        r matches Ok(p) ==> spec_parse_frame(bytes@) == Ok::<(CommandID, Seq<u8>), FrameError>(
            (p.command_id, p.payload@),
        ),
        r matches Err(e) ==> spec_parse_frame(bytes@) == Err::<(CommandID, Seq<u8>), FrameError>(
            e,
        ),
{
    let n: usize = bytes.len();
    if n < 4 {
        return Err(FrameError::TooShort);
    }
    if bytes[0] != FRAME_MARKER {
        return Err(FrameError::BadMarker);
    }
    let cmd: CommandID = match CommandID::from_wire_byte(bytes[1]) {
        None => {
            return Err(FrameError::BadCommand);
        },
        Some(c) => c,
    };
    // find the terminating byte of the length varint
    let mut end: usize = 2;
    while end < n && bytes[end] >= 128
        invariant
            2 <= end <= n,
            forall|j: int| 2 <= j < end ==> bytes@[j] >= 128,
        decreases n - end,
    {
        end = end + 1;
    }
    if end == n {
        proof {
            assert(forall|j: int|
                0 <= j < bytes@.skip(2).len() ==> #[trigger] bytes@.skip(2)[j] >= 128);
            lemma_take_varint_none(bytes@.skip(2));
        }
        return Err(FrameError::TooShort);
    }
    let k: usize = end - 1;
    proof {
        assert(forall|j: int| 0 <= j < end - 2 ==> #[trigger] bytes@.skip(2)[j] >= 128);
        assert(bytes@.skip(2)[end - 2] == bytes@[end as int]);
        lemma_take_varint_len(bytes@.skip(2), end - 2);
        lemma2_to64();
    }
    if k > 10 {
        return Err(FrameError::BadLength);
    }
    // read the length varint back to front
    let mut i: usize = end;
    let mut value: u128 = bytes[end] as u128;
    proof {
        assert(bytes@.skip(end as int)[0] == bytes@[end as int]);
        assert(take_varint(bytes@.skip(end as int)) == Some((bytes@[end as int] as nat, 1int)));
    }
    while i > 2
        invariant
            2 <= i <= end,
            take_varint(bytes@.skip(i as int)) == Some((value as nat, (end + 1 - i) as int)),
            value < pow2((7 * (end + 1 - i)) as nat),
        decreases i,
    {
        i = i - 1;
        proof {
            let c = (end + 1 - i) as nat;
            lemma_pow2_adds((c - 1) as nat, 7);
            lemma_pow2_le(c, 10);
            lemma_pow2_adds(64, 6);
            lemma2_to64();
            lemma2_to64_rest();
            assert(bytes@[i as int] >= 128);
        }
        value = value * 128 + (bytes[i] - 128) as u128;
        proof {
            assert(bytes@.skip(i as int).drop_first() =~= bytes@.skip(i + 1));
            assert(bytes@.skip(i as int)[0] == bytes@[i as int]);
        }
    }
    // the varint must be minimal
    if k > 1 && bytes[end] == 0 {
        proof {
            assert(bytes@.skip(2)[k - 1] == bytes@[end as int]);
        }
        return Err(FrameError::BadLength);
    }
    // the payload must fill the frame exactly
    if k + 3 > n {
        return Err(FrameError::BadLength);
    }
    let rem: usize = n - 3 - k;
    if value != rem as u128 {
        return Err(FrameError::BadLength);
    }
    if bytes[n - 1] != FRAME_TRAILER {
        return Err(FrameError::BadTrailer);
    }
    let mut payload: Vec<u8> = Vec::new();
    proof {
        assert(payload@ =~= bytes@.subrange((2 + k) as int, (2 + k) as int));
    }
    let mut t: usize = 2 + k;
    while t < n - 1
        invariant
            2 + k <= t <= n - 1,
            payload@ == bytes@.subrange((2 + k) as int, t as int),
        decreases n - t,
    {
        payload.push(bytes[t]);
        proof {
            assert(bytes@.subrange((2 + k) as int, t as int).push(bytes@[t as int])
                =~= bytes@.subrange((2 + k) as int, (t + 1) as int));
        }
        t = t + 1;
    }
    Ok(Packet { command_id: cmd, payload })
}

} // verus!
