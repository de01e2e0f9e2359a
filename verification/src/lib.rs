//! Float-free core of the curve engine: the combinatorics that drive the
//! closed-form search, the exact text grammar of every rendered output (LaTeX,
//! Desmos, Wolfram), and the document schema gate. Each function here carries a
//! contract that pins its result down; the numeric spline fitting that feeds
//! these functions lives outside this crate.

use vstd::prelude::*;

pub mod basis;
pub mod text;
pub mod render;
pub mod document;

verus! {

/// Version of the curve engine, surfaced to the UI shell so it can show which
/// core build it is running against.
pub fn engine_version() -> (v: &'static str)
    ensures
        v@ == "0.1.0"@,
{
    "0.1.0"
}

} // verus!
