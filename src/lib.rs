//! Named SSH profiles, each mapping hosts to key files, and the managed
//! section that puts one host's key into an SSH client configuration.
//!
//! `store` holds the profiles; `section` removes and writes the block of
//! lines that this library owns inside an otherwise user-written text file.
use vstd::prelude::*;

pub mod section;
pub mod store;

verus! {

} // verus!
