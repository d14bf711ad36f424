use vstd::prelude::*;

verus! {

/// Only the states defined in this crate implement this trait, so no other
/// crate can add a state to a post's workflow.
pub trait PostStateSecured {}

/// Only the states defined in this crate implement this trait, so no other
/// crate can add a state to a vending machine.
pub trait VendingMachineStateSecure {}

} // verus!
