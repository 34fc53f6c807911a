//! The tags that announce the fields of an instruction.

use vstd::prelude::*;

verus! {

/// Begins the edicts, which take the rest of the instruction.
pub const BODY: u128 = 0;

/// One word of the message.
pub const MESSAGE: u128 = 81;

pub const BURN: u128 = 83;

pub const POINTER: u128 = 91;

pub const REFUND: u128 = 93;

/// One authorising input.
pub const FROM: u128 = 95;

/// Reserved.
pub const CENOTAPH: u128 = 126;

/// Reserved.
pub const NOP: u128 = 127;

} // verus!
