//! A local, git-versioned secrets vault engine.
//!
//! Each secret is encrypted in two nested layers: an asymmetric layer bound
//! to the vault's identity and a symmetric layer keyed by a passphrase
//! derived from the answer to a recovery question. The engine maintains a
//! line-oriented encrypted index of secret metadata and hands every mutation
//! to a version-control collaborator.

use vstd::prelude::*;

pub mod errors;
pub mod hashing;
pub mod codec;
pub mod index;
pub mod memory;
pub mod service;
pub mod tools;
pub mod util;
pub mod vault;

verus! {

} // verus!
