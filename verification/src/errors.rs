use vstd::prelude::*;

verus! {

/// Every way an operation on a world can fail. A failed operation leaves all
/// records as they were.
#[derive(Clone, Copy, Debug, PartialEq, Eq, Structural)]
pub enum ErrorCode {
    UnspecifiedError,
    InvalidArgument,
    InvalidAccount,
    AccountMismatch,
    UnauthorizedAction,
    InvalidResolution,
    InvalidCoordinates,
    InvalidTrixelAccount,
    InvalidTrixelId,
    ArithmeticOverflow,
}

} // verus!
