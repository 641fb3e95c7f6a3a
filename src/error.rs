use vstd::prelude::*;

verus! {

/// Why a packet could not be decoded.
#[derive(Debug, Clone, Copy, PartialEq, Eq, Structural)]
pub enum DecodeError {
    /// The stream ended before the packet's last field was terminated.
    UnexpectedEof,
    /// A synchronization packet carried this marker instead of the expected one.
    SyncMarkerMismatch(u8),
    /// The first byte of a packet carried this type code, which names no packet kind.
    InvalidTcode(u8),
}

/// Why replay stopped before the trace was complete.
#[derive(Debug, Clone, Copy, PartialEq, Eq, Structural)]
pub enum ReplayError {
    /// The trace says that an instruction ran at this address, but the image has none.
    MissingInstruction(u64),
    /// The instruction at this address has a branch operand that is no signed offset.
    UnsupportedBranchOperand(u64),
    /// The instruction at this address does not fit in what is left of the packet's
    /// instruction count (or occupies no parcel at all).
    ParcelCountMismatch(u64),
    /// A direct-branch packet at this pc ran no instruction, so no branch
    /// can be resolved.
    EmptyDirectBranch(u64),
    /// The first packet of the trace is no synchronization packet.
    MissingSync,
}

/// What made a trace fail, with where it happened.
#[derive(Debug, Clone, Copy, PartialEq, Eq, Structural)]
pub enum TraceFault {
    Decode(DecodeError),
    Replay(ReplayError),
}

/// A failure of a whole trace: the index of the packet (the synchronization
/// packet is packet 0) and the stream offset at which that packet starts.
#[derive(Debug, Clone, Copy, PartialEq, Eq, Structural)]
pub struct TraceError {
    pub packet_index: u64,
    pub offset: usize,
    pub fault: TraceFault,
}

} // verus!
