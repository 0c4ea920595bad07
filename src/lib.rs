//! A run-time reference monitor enforcing "aliasing XOR mutability" over
//! pointer derivations: a borrow tree with its revocation rules, the monitor
//! that maps observed addresses onto it, and a flatter tag-per-allocation mode.
pub mod tree;
pub mod monitor;
pub mod tags;
