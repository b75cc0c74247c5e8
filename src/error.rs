use vstd::prelude::*;

use crate::wasm::Trap;

verus! {

/// Failures of the decoder and of the interpreter itself, as opposed to the
/// traps that a well-formed program runs into.
#[derive(Clone, Copy, Debug, PartialEq, Eq)]
pub enum Error {
    /// The module does not start with the magic number.
    InvalidInput,
    /// The module is of a binary version other than 1.
    BadVersion,
    UnknownSection,
    UnknownOpcode(u64),
    UnknownSecondaryOpcode(u64),
    /// The bytes ran out in the middle of an item.
    EndOfData,
    /// An integer is too wide for the width that was asked for.
    IntSizeViolation,
    /// Fewer bytes than a float needs were left.
    FloatSizeViolation,
    /// A pop or peek on an empty stack, or a stack left unbalanced.
    StackViolation,
    UnexpectedData(&'static str),
    Misc(&'static str),
    /// A trap that ended the call.
    Trap(Trap),
    /// The step budget of a call was used up.
    OutOfFuel,
}

} // verus!
