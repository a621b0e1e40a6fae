//! Incremental hash engines sharing one streaming contract: GOST R 34.11-94, SHA-1 and
//! SHA3-256, over a common block buffer.
use vstd::prelude::*;

pub mod buffer;
pub mod gost94;
pub mod sha1;
pub mod sha3;
pub mod wide;

verus! {

} // verus!
