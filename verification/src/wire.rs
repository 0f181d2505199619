//! The wire format's vocabulary: control opcodes, parse failures, and the
//! validated record a frame yields, together with the acquisition loop's
//! per-record policy decision.

use vstd::prelude::*;

verus! {

/// Control codes the device sends in the two-digit opcode field.
#[derive(Clone, Copy, Debug, PartialEq, Eq, Structural)]
pub enum OpCode {
    CommStart,
    CommEnd,
    CommHalt,
    CommError,
    CommSend,
}

/// The opcode a two-digit field value maps to; `None` for a recognized
/// frame whose opcode is outside the mapped set.
pub open spec fn op_of(n: u8) -> Option<OpCode> {
    if n == 55 {
        Some(OpCode::CommStart)
    } else if n == 56 {
        Some(OpCode::CommEnd)
    } else if n == 57 {
        Some(OpCode::CommHalt)
    } else if n == 58 {
        Some(OpCode::CommError)
    } else if n == 59 {
        Some(OpCode::CommSend)
    } else {
        None
    }
}

impl OpCode {
    /// Maps a numeric opcode value to its control code; values outside the
    /// mapped set are reported as an error.
    pub fn from_u8(n: u8) -> (r: Result<OpCode, &'static str>)
        ensures
            op_of(n) matches Some(op) ==> r == Ok::<OpCode, &'static str>(op),
            op_of(n) is None ==> r is Err,
    {
        match n {
            55 => Ok(OpCode::CommStart),
            56 => Ok(OpCode::CommEnd),
            57 => Ok(OpCode::CommHalt),
            58 => Ok(OpCode::CommError),
            59 => Ok(OpCode::CommSend),
            _ => Err("invalid opcode"),
        }
    }
}

/// Why a read window was rejected instead of yielding a record.
#[derive(Clone, Copy, Debug, PartialEq, Eq, Structural)]
pub enum FrameError {
    /// A byte of the frame is not plain text.
    NotText,
    /// The opcode field is not two decimal digits.
    BadOpcode,
    /// The size field is not one decimal digit.
    BadSize,
    /// The payload field is not a decimal number within 16 bits.
    BadPayload,
    /// The measured payload length plus one differs from the declared size.
    LengthMismatch,
}

/// One validated record extracted from a frame. Only constructed by the
/// parser, and only when the frame's length accounting checks out.
#[derive(Clone, Copy, Debug, PartialEq, Eq, Structural)]
pub struct SerialData {
    /// The mapped control code, or `None` for a valid frame with an
    /// unknown opcode value.
    pub opcode: Option<OpCode>,
    /// The payload length the frame declared (including the one-character
    /// terminator allowance).
    pub size: u8,
    /// The payload value.
    pub data: u16,
}

/// What the acquisition loop should do with one parsed record.
#[derive(Clone, Copy, Debug, PartialEq, Eq, Structural)]
pub enum LoopAction {
    /// Echo the session-end code back to the device.
    AcknowledgeStart,
    /// Report that the session ended.
    AnnounceEnd,
    /// Nothing to do for this record.
    Ignore,
}

/// The acquisition loop's handshake policy: acknowledge a session start,
/// announce a session end, ignore everything else.
pub fn acquisition_action(opcode: &Option<OpCode>) -> (r: LoopAction)
    ensures
        r == (match opcode {
            Some(OpCode::CommStart) => LoopAction::AcknowledgeStart,
            Some(OpCode::CommEnd) => LoopAction::AnnounceEnd,
            _ => LoopAction::Ignore,
        }),
{
    match opcode {
        Some(OpCode::CommStart) => LoopAction::AcknowledgeStart,
        Some(OpCode::CommEnd) => LoopAction::AnnounceEnd,
        _ => LoopAction::Ignore,
    }
}

} // verus!
