use vstd::prelude::*;

verus! {

/// The failure taxonomy of the guest.
///
/// `InvalidEncoding`: input bytes were not valid UTF-8 text, or not a valid
/// serialized frequency table. `OutOfCapacity`: a compute export would have
/// to write more bytes than the arena region backing its output can hold.
/// Every failure is all-or-nothing: the arena is left exactly as it was.
#[derive(Clone, Copy, Debug, PartialEq, Eq, Structural)]
pub enum GuestError {
    InvalidEncoding,
    OutOfCapacity,
}

} // verus!
