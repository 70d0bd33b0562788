//! Ownership, breeding and trading of uniquely numbered kitties, kept in a
//! key-value ledger with a per-owner doubly linked index.
use vstd::prelude::*;

pub mod dna;
pub mod owned;
pub mod kitties;

verus! {

} // verus!
