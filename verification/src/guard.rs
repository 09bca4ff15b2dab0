//! The room that is left on the stack.
use crate::ids::Fault;
use vstd::prelude::*;

verus! {

/// The room on the stack, in bytes, that is always kept free.
pub const RESERVE: usize = 32768;

/// Calls `stacker::remaining_stack`: the number of bytes that are left on the stack of this
/// thread, or `None` where the limit is not known. Nothing is claimed of the result, which
/// rests on the machine and on the caller.
#[verifier::external_body]
fn remaining_stack() -> (r: Option<usize>) {
    stacker::remaining_stack()
}

/// Whether to go on with `remaining` bytes left on the stack. It is a fault if less than the
/// reserve remains, or if the limit is not known.
pub fn check_room(remaining: Option<usize>) -> (r: Result<(), Fault>)
    ensures
        r == match remaining {
            Some(bytes) if bytes >= RESERVE => Ok::<(), Fault>(()),
            _ => Err(Fault::Overflow),
        },
{
    match remaining {
        Some(bytes) => if bytes >= RESERVE {
            Ok(())
        } else {
            Err(Fault::Overflow)
        },
        None => Err(Fault::Overflow),
    }
}

/// Stops before the stack overflows.
pub fn guard_overflow() -> (r: Result<(), Fault>)
    ensures
        r matches Err(f) ==> f == Fault::Overflow,
{
    check_room(remaining_stack())
}

} // verus!
