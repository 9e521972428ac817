//! Wire vocabulary: operation codes, error codes, tunable parameters, and the
//! frame and field helpers of the binary codec.
//!
//! A frame is `[u32 length][u8 opcode][payload]`, little-endian, where the
//! length counts the opcode and the payload.

use vstd::prelude::*;
use vstd::string::StringSliceAdditionalSpecFns;

verus! {

/// One-byte operation codes.
#[derive(Debug, Clone, Copy, PartialEq, Eq, Structural, Hash)]
pub enum OpCode {
    LineageCreate,
    LineageGet,
    LineageStimulate,
    LineageForget,
    LineageTouch,
    BondConnect,
    BondReinforce,
    BondSever,
    BondNeighbors,
    QueryConscious,
    QueryTopK,
    QueryTrauma,
    QueryPattern,
    SysPing,
    SysStats,
    SysSnapshot,
    SysRestore,
    SysFreeze,
    PhysicsTune,
    StreamSubscribe,
    StreamUnsubscribe,
    ResponseOk,
    ResponseError,
    ResponseEvent,
}

/// The byte of each operation code.
pub open spec fn opcode_byte(op: OpCode) -> u8 {
    match op {
        OpCode::LineageCreate => 0x10,
        OpCode::LineageGet => 0x11,
        OpCode::LineageStimulate => 0x12,
        OpCode::LineageForget => 0x13,
        OpCode::LineageTouch => 0x14,
        OpCode::BondConnect => 0x20,
        OpCode::BondReinforce => 0x21,
        OpCode::BondSever => 0x22,
        OpCode::BondNeighbors => 0x23,
        OpCode::QueryConscious => 0x30,
        OpCode::QueryTopK => 0x31,
        OpCode::QueryTrauma => 0x32,
        OpCode::QueryPattern => 0x33,
        OpCode::SysPing => 0x40,
        OpCode::SysStats => 0x41,
        OpCode::SysSnapshot => 0x42,
        OpCode::SysRestore => 0x43,
        OpCode::SysFreeze => 0x44,
        OpCode::PhysicsTune => 0x45,
        OpCode::StreamSubscribe => 0x50,
        OpCode::StreamUnsubscribe => 0x51,
        OpCode::ResponseOk => 0xF0,
        OpCode::ResponseError => 0xF1,
        OpCode::ResponseEvent => 0xF2,
    }
}

impl OpCode {
    /// The code of `byte`, if it names one.
    pub fn from_byte(byte: u8) -> (r: Option<OpCode>)
        ensures
            r matches Some(op) ==> opcode_byte(op) == byte,
            r is None <==> forall|op: OpCode| opcode_byte(op) != byte,
    {
        let r = match byte {
            0x10 => Some(OpCode::LineageCreate),
            0x11 => Some(OpCode::LineageGet),
            0x12 => Some(OpCode::LineageStimulate),
            0x13 => Some(OpCode::LineageForget),
            0x14 => Some(OpCode::LineageTouch),
            0x20 => Some(OpCode::BondConnect),
            0x21 => Some(OpCode::BondReinforce),
            0x22 => Some(OpCode::BondSever),
            0x23 => Some(OpCode::BondNeighbors),
            0x30 => Some(OpCode::QueryConscious),
            0x31 => Some(OpCode::QueryTopK),
            0x32 => Some(OpCode::QueryTrauma),
            0x33 => Some(OpCode::QueryPattern),
            0x40 => Some(OpCode::SysPing),
            0x41 => Some(OpCode::SysStats),
            0x42 => Some(OpCode::SysSnapshot),
            0x43 => Some(OpCode::SysRestore),
            0x44 => Some(OpCode::SysFreeze),
            0x45 => Some(OpCode::PhysicsTune),
            0x50 => Some(OpCode::StreamSubscribe),
            0x51 => Some(OpCode::StreamUnsubscribe),
            0xF0 => Some(OpCode::ResponseOk),
            0xF1 => Some(OpCode::ResponseError),
            0xF2 => Some(OpCode::ResponseEvent),
            _ => None,
        };
        proof {
            if let Some(op) = r {
                assert(opcode_byte(op) == byte);
            }
            if r is None {
                assert forall|op: OpCode| opcode_byte(op) != byte by {
                    match op {
                        OpCode::LineageCreate => {},
                        OpCode::LineageGet => {},
                        OpCode::LineageStimulate => {},
                        OpCode::LineageForget => {},
                        OpCode::LineageTouch => {},
                        OpCode::BondConnect => {},
                        OpCode::BondReinforce => {},
                        OpCode::BondSever => {},
                        OpCode::BondNeighbors => {},
                        OpCode::QueryConscious => {},
                        OpCode::QueryTopK => {},
                        OpCode::QueryTrauma => {},
                        OpCode::QueryPattern => {},
                        OpCode::SysPing => {},
                        OpCode::SysStats => {},
                        OpCode::SysSnapshot => {},
                        OpCode::SysRestore => {},
                        OpCode::SysFreeze => {},
                        OpCode::PhysicsTune => {},
                        OpCode::StreamSubscribe => {},
                        OpCode::StreamUnsubscribe => {},
                        OpCode::ResponseOk => {},
                        OpCode::ResponseError => {},
                        OpCode::ResponseEvent => {},
                    }
                }
            }
        }
        r
    }

    /// The byte of this code.
    pub fn as_byte(self) -> (r: u8)
        ensures
            r == opcode_byte(self),
    {
        match self {
            OpCode::LineageCreate => 0x10,
            OpCode::LineageGet => 0x11,
            OpCode::LineageStimulate => 0x12,
            OpCode::LineageForget => 0x13,
            OpCode::LineageTouch => 0x14,
            OpCode::BondConnect => 0x20,
            OpCode::BondReinforce => 0x21,
            OpCode::BondSever => 0x22,
            OpCode::BondNeighbors => 0x23,
            OpCode::QueryConscious => 0x30,
            OpCode::QueryTopK => 0x31,
            OpCode::QueryTrauma => 0x32,
            OpCode::QueryPattern => 0x33,
            OpCode::SysPing => 0x40,
            OpCode::SysStats => 0x41,
            OpCode::SysSnapshot => 0x42,
            OpCode::SysRestore => 0x43,
            OpCode::SysFreeze => 0x44,
            OpCode::PhysicsTune => 0x45,
            OpCode::StreamSubscribe => 0x50,
            OpCode::StreamUnsubscribe => 0x51,
            OpCode::ResponseOk => 0xF0,
            OpCode::ResponseError => 0xF1,
            OpCode::ResponseEvent => 0xF2,
        }
    }

    /// Response codes are those from 0xF0 up.
    pub fn is_response(self) -> (r: bool)
        ensures
            r == (opcode_byte(self) >= 0xF0),
    {
        self.as_byte() >= 0xF0
    }
}

/// Subscription event kinds, one bit each.
#[derive(Debug, Clone, Copy, PartialEq, Eq, Structural)]
pub enum EventMask {
    LineageCreated,
    LineageStimulated,
    LineageForgotten,
    BondCreated,
    BondSevered,
    DecayTick,
    SnapshotCreated,
    All,
}

impl EventMask {
    /// The mask bits of the kind; `All` has every bit.
    pub fn bits(self) -> (r: u32)
        ensures
            r == match self {
                EventMask::LineageCreated => 1u32,
                EventMask::LineageStimulated => 2u32,
                EventMask::LineageForgotten => 4u32,
                EventMask::BondCreated => 8u32,
                EventMask::BondSevered => 16u32,
                EventMask::DecayTick => 32u32,
                EventMask::SnapshotCreated => 64u32,
                EventMask::All => 0xFFFF_FFFFu32,
            },
    {
        match self {
            EventMask::LineageCreated => 1,
            EventMask::LineageStimulated => 2,
            EventMask::LineageForgotten => 4,
            EventMask::BondCreated => 8,
            EventMask::BondSevered => 16,
            EventMask::DecayTick => 32,
            EventMask::SnapshotCreated => 64,
            EventMask::All => 0xFFFF_FFFF,
        }
    }
}

/// Parameters that can be tuned at run time.
#[derive(Debug, Clone, Copy, PartialEq, Eq, Structural)]
pub enum PhysicsParam {
    DecayMultiplier,
    TraumaThreshold,
    BondPruneThreshold,
    MinEnergyThreshold,
}

impl PhysicsParam {
    /// The parameter of `byte` (1 to 4), if any.
    pub fn from_byte(byte: u8) -> (r: Option<PhysicsParam>)
        ensures
            r == match byte {
                1u8 => Some(PhysicsParam::DecayMultiplier),
                2u8 => Some(PhysicsParam::TraumaThreshold),
                3u8 => Some(PhysicsParam::BondPruneThreshold),
                4u8 => Some(PhysicsParam::MinEnergyThreshold),
                _ => None,
            },
    {
        match byte {
            1 => Some(PhysicsParam::DecayMultiplier),
            2 => Some(PhysicsParam::TraumaThreshold),
            3 => Some(PhysicsParam::BondPruneThreshold),
            4 => Some(PhysicsParam::MinEnergyThreshold),
            _ => None,
        }
    }
}

/// Outcome of a lineage read.
#[derive(Debug, Clone, Copy, PartialEq, Eq, Structural)]
pub enum LineageStatus {
    Found,
    NotFound,
    Repressed,
    Dormant,
}

impl LineageStatus {
    /// The wire byte of the status: 0 to 3.
    pub fn as_byte(self) -> (r: u8)
        ensures
            r == match self {
                LineageStatus::Found => 0u8,
                LineageStatus::NotFound => 1u8,
                LineageStatus::Repressed => 2u8,
                LineageStatus::Dormant => 3u8,
            },
    {
        match self {
            LineageStatus::Found => 0,
            LineageStatus::NotFound => 1,
            LineageStatus::Repressed => 2,
            LineageStatus::Dormant => 3,
        }
    }
}

/// Error codes carried by error responses.
#[derive(Debug, Clone, Copy, PartialEq, Eq, Structural)]
pub enum ErrorCode {
    Unknown,
    InvalidOpCode,
    MalformedPayload,
    LineageNotFound,
    LineageExists,
    BondNotFound,
    BondExists,
    SnapshotNotFound,
    Internal,
}

/// The byte of each error code.
pub open spec fn error_byte(e: ErrorCode) -> u8 {
    match e {
        ErrorCode::Unknown => 0x00,
        ErrorCode::InvalidOpCode => 0x01,
        ErrorCode::MalformedPayload => 0x02,
        ErrorCode::LineageNotFound => 0x10,
        ErrorCode::LineageExists => 0x11,
        ErrorCode::BondNotFound => 0x20,
        ErrorCode::BondExists => 0x21,
        ErrorCode::SnapshotNotFound => 0x30,
        ErrorCode::Internal => 0xFF,
    }
}

impl ErrorCode {
    /// The code of `byte`; bytes that name none read as `Unknown`.
    pub fn from_byte(byte: u8) -> (r: ErrorCode)
        ensures
            error_byte(r) == byte || (r == ErrorCode::Unknown && forall|e: ErrorCode| error_byte(e) != byte),
    {
        match byte {
            0x01 => ErrorCode::InvalidOpCode,
            0x02 => ErrorCode::MalformedPayload,
            0x10 => ErrorCode::LineageNotFound,
            0x11 => ErrorCode::LineageExists,
            0x20 => ErrorCode::BondNotFound,
            0x21 => ErrorCode::BondExists,
            0x30 => ErrorCode::SnapshotNotFound,
            0xFF => ErrorCode::Internal,
            _ => ErrorCode::Unknown,
        }
    }

    /// The byte of this code.
    pub fn as_byte(self) -> (r: u8)
        ensures
            r == error_byte(self),
    {
        match self {
            ErrorCode::Unknown => 0x00,
            ErrorCode::InvalidOpCode => 0x01,
            ErrorCode::MalformedPayload => 0x02,
            ErrorCode::LineageNotFound => 0x10,
            ErrorCode::LineageExists => 0x11,
            ErrorCode::BondNotFound => 0x20,
            ErrorCode::BondExists => 0x21,
            ErrorCode::SnapshotNotFound => 0x30,
            ErrorCode::Internal => 0xFF,
        }
    }
}

/// Codec failures.
#[derive(Debug, Clone, Copy, PartialEq, Eq, Structural)]
pub enum MfbpError {
    /// Unknown operation code.
    InvalidOpCode(u8),
    /// The payload ended early.
    PayloadTooShort,
    /// A string was not UTF-8.
    InvalidUtf8,
    /// The frame exceeds the size limit.
    FrameTooLarge,
}

/// Largest frame accepted, 16 MiB.
pub const MAX_FRAME_SIZE: usize = 16_777_216;

/// Little-endian bytes of a 32-bit value.
pub open spec fn le32(v: nat) -> Seq<u8> {
    seq![(v % 256) as u8, ((v / 256) % 256) as u8, ((v / 65536) % 256) as u8, ((v / 16777216) % 256) as u8]
}

/// Little-endian bytes of a 16-bit value.
pub open spec fn le16(v: nat) -> Seq<u8> {
    seq![(v % 256) as u8, ((v / 256) % 256) as u8]
}

/// The value of four little-endian bytes.
pub open spec fn u32_of(b: Seq<u8>) -> nat {
    b[0] as nat + b[1] as nat * 256 + b[2] as nat * 65536 + b[3] as nat * 16777216
}

/// The text that UTF-8 bytes decode to, or `None` when they are not UTF-8.
pub uninterp spec fn utf8_decode(b: Seq<u8>) -> Option<Seq<char>>;

/// Relies on `std::str::from_utf8` and `str::to_string`: the decoded text, or
/// `None` when the bytes are not UTF-8.
#[verifier::external_body]
fn decode_utf8(b: &[u8]) -> (r: Option<String>)
    ensures
        r matches Some(s) ==> utf8_decode(b@) == Some(s@),
        r is None <==> utf8_decode(b@) is None,
{
    std::str::from_utf8(b).ok().map(|s| s.to_string())
}

/// Encoder and decoder of frames and fields.
pub struct MfbpCodec;

fn append(buf: &mut Vec<u8>, bytes: &[u8])
    ensures
        final(buf)@ == old(buf)@ + bytes@,
{
    let mut i: usize = 0;
    while i < bytes.len()
        invariant
            i <= bytes@.len(),
            buf@ == old(buf)@ + bytes@.subrange(0, i as int),
        decreases bytes@.len() - i,
    {
        buf.push(bytes[i]);
        i = i + 1;
        assert(buf@ =~= old(buf)@ + bytes@.subrange(0, i as int));
    }
    assert(bytes@.subrange(0, bytes@.len() as int) =~= bytes@);
}

impl MfbpCodec {
    /// `[length][opcode][payload]`, the length counting opcode and payload.
    pub fn wrap_frame(opcode: OpCode, payload: &[u8]) -> (r: Vec<u8>)
        requires
            payload@.len() < 0xFFFF_FFFF,
        ensures
            r@ == le32((payload@.len() + 1) as nat) + seq![opcode_byte(opcode)] + payload@,
    {
        let total = (payload.len() + 1) as u32;
        let mut frame: Vec<u8> = Vec::new();
        frame.push((total % 256) as u8);
        frame.push(((total / 256) % 256) as u8);
        frame.push(((total / 65536) % 256) as u8);
        frame.push(((total / 16777216) % 256) as u8);
        frame.push(opcode.as_byte());
        append(&mut frame, payload);
        assert(frame@ =~= le32((payload@.len() + 1) as nat) + seq![opcode_byte(opcode)] + payload@);
        frame
    }

    /// Appends a string as a 16-bit little-endian length and its bytes.
    pub fn write_string(buf: &mut Vec<u8>, s: &str)
        requires
            s.spec_bytes().len() <= 0xFFFF,
        ensures
            final(buf)@ == old(buf)@ + le16(s.spec_bytes().len()) + s.spec_bytes(),
    {
        let bytes = s.as_bytes();
        let n = bytes.len() as u16;
        buf.push((n % 256) as u8);
        buf.push((n / 256) as u8);
        append(buf, bytes);
        assert(buf@ =~= old(buf)@ + le16(s.spec_bytes().len()) + s.spec_bytes());
    }

    /// Reads a 16-bit length and that many UTF-8 bytes at `cursor`, moving
    /// the cursor past them.
    pub fn read_string(buf: &[u8], cursor: &mut usize) -> (r: Result<String, MfbpError>)
        ensures
            ({
                let c = *old(cursor) as int;
                let n = buf@.len();
                if c + 2 > n {
                    r == Err::<String, MfbpError>(MfbpError::PayloadTooShort) && *final(cursor) == *old(cursor)
                } else {
                    let len = buf@[c] as int + buf@[c + 1] as int * 256;
                    if c + 2 + len > n {
                        r == Err::<String, MfbpError>(MfbpError::PayloadTooShort)
                    } else {
                        match utf8_decode(buf@.subrange(c + 2, c + 2 + len)) {
                            Some(text) => r matches Ok(s) && s@ == text && *final(cursor) == c + 2 + len,
                            None => r == Err::<String, MfbpError>(MfbpError::InvalidUtf8),
                        }
                    }
                }
            }),
    {
        if *cursor > buf.len() || buf.len() - *cursor < 2 {
            return Err(MfbpError::PayloadTooShort);
        }
        let c = *cursor;
        let len = buf[c] as usize + buf[c + 1] as usize * 256;
        *cursor = c + 2;
        if buf.len() - (c + 2) < len {
            return Err(MfbpError::PayloadTooShort);
        }
        let s = decode_utf8(slice_of(buf, c + 2, c + 2 + len).as_slice());
        match s {
            Some(text) => {
                *cursor = c + 2 + len;
                Ok(text)
            },
            None => Err(MfbpError::InvalidUtf8),
        }
    }

    /// Reads a little-endian `u32` at `cursor`, moving the cursor past it.
    pub fn read_u32(buf: &[u8], cursor: &mut usize) -> (r: Result<u32, MfbpError>)
        ensures
            (*old(cursor) as int) + 4 > buf@.len() ==> r == Err::<u32, MfbpError>(MfbpError::PayloadTooShort)
                && *final(cursor) == *old(cursor),
            (*old(cursor) as int) + 4 <= buf@.len() ==> r == Ok::<u32, MfbpError>(
                u32_of(buf@.subrange(*old(cursor) as int, *old(cursor) + 4)) as u32,
            ) && *final(cursor) == *old(cursor) + 4,
    {
        if *cursor > buf.len() || buf.len() - *cursor < 4 {
            return Err(MfbpError::PayloadTooShort);
        }
        let c = *cursor;
        let v = buf[c] as u32 + buf[c + 1] as u32 * 256 + buf[c + 2] as u32 * 65536 + buf[c + 3] as u32
            * 16777216;
        *cursor = c + 4;
        proof {
            let sub = buf@.subrange(c as int, c + 4);
            assert(sub[0] == buf@[c as int] && sub[1] == buf@[c + 1] && sub[2] == buf@[c + 2] && sub[3] == buf@[c + 3]);
        }
        Ok(v)
    }

    /// Reads one byte at `cursor`, moving the cursor past it.
    pub fn read_u8(buf: &[u8], cursor: &mut usize) -> (r: Result<u8, MfbpError>)
        ensures
            (*old(cursor) as int) >= buf@.len() ==> r == Err::<u8, MfbpError>(MfbpError::PayloadTooShort)
                && *final(cursor) == *old(cursor),
            (*old(cursor) as int) < buf@.len() ==> r == Ok::<u8, MfbpError>(buf@[*old(cursor) as int])
                && *final(cursor) == *old(cursor) + 1,
    {
        if *cursor >= buf.len() {
            return Err(MfbpError::PayloadTooShort);
        }
        let v = buf[*cursor];
        *cursor = *cursor + 1;
        Ok(v)
    }
}

fn slice_of(buf: &[u8], lo: usize, hi: usize) -> (r: Vec<u8>)
    requires
        lo <= hi <= buf@.len(),
    ensures
        r@ == buf@.subrange(lo as int, hi as int),
{
    let mut out: Vec<u8> = Vec::new();
    let mut i: usize = lo;
    while i < hi
        invariant
            lo <= i <= hi,
            hi <= buf@.len(),
            out@ == buf@.subrange(lo as int, i as int),
        decreases hi - i,
    {
        out.push(buf[i]);
        i = i + 1;
        assert(out@ =~= buf@.subrange(lo as int, i as int));
    }
    out
}

} // verus!
