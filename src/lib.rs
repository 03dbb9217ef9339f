//! Conversion of (possibly fractional) numbers written in one base into
//! another base, through an exact canonical value.
use vstd::prelude::*;

pub mod digits;
pub mod positional;
pub mod value;
pub mod decode;
pub mod encode;
pub mod convert;
pub mod laws;

verus! {

} // verus!
