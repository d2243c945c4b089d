use vstd::prelude::*;

verus! {

/// Why a step of the guest could not complete.
#[derive(Debug, Clone, PartialEq, Eq)]
pub enum VmError {
    /// The word is no RV32IM instruction that the cycle table prices.
    IllegalInstruction(u32),
    /// The instruction at this PC could not be fetched.
    FetchFault(u32),
    /// The executor raised an exception on the instruction at this PC.
    ExecutionFault(u32),
    /// `t0` held no known ECALL number.
    UnknownEcall(u32),
    /// The low byte of `a0` of a HALT was neither terminate nor pause.
    IllegalHaltType(u32),
    /// The destination pointer of a SOFTWARE call lies outside the guest window.
    InvalidGuestPointer(u32),
    /// A guest read at this address failed.
    GuestRead(u32),
    /// A guest write at this address failed.
    GuestWrite(u32),
    /// Bytes handed over by the guest were not UTF-8.
    InvalidUtf8,
    /// The guest reported a panic with this message.
    GuestPanicked(String),
    /// A read was asked of a descriptor other than standard input.
    BadReadFd(u32),
    /// A write was asked of a descriptor other than stdout, stderr or the journal.
    BadWriteFd(u32),
    /// A read's word-aligned buffer is larger than the byte count it asked for.
    ReadBufferTooLarge,
    /// A read's byte count exceeds its word buffer by more than one word.
    ReadTailTooLong,
    /// Standard input ran out before the word-aligned buffer was filled.
    ShortRead,
    /// The guest asked for an argument past the end of argv.
    ArgIndexOutOfRange(u32),
    /// The BIGINT operation selector was not zero.
    BigIntOp(u32),
    /// A BIGINT with zero modulus overflowed 256 bits.
    BigIntOverflow,
    /// An output channel holds fewer unread bytes than were asked for.
    NotEnoughOutput,
    /// A host-call buffer of that many words does not fit in memory.
    BufferTooLarge,
    /// The host's random source failed.
    RandomFailed,
    /// One step costs more cycles than a fresh segment can hold.
    SegmentOverflow,
    /// The session's cycle count no longer fits in a `usize`.
    CycleCountOverflow,
}

} // verus!
