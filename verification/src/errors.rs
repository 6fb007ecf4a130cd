use vstd::prelude::*;

verus! {

/// Why a store or transport operation failed.
#[derive(Clone, Copy, Debug, PartialEq, Eq, Structural)]
pub enum StoreError {
    /// No counter with the requested id exists.
    NotFound,
    /// A counter with the requested id already exists.
    AlreadyExists,
    /// The mutation would drive the value below the counter's floor.
    BelowFloor,
    /// The encoded log line would not fit in the counter's record width.
    RecordTooLarge,
    /// The command keyword of a wire frame is not one of CREATE, MUTATE, GET.
    UnknownCommand,
    /// A numeric field of a wire frame failed to parse.
    DecodeError,
    /// A filesystem or socket operation failed.
    IoFailure,
}

} // verus!
