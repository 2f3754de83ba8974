//! The sampling densities that carry no data.

use vstd::prelude::*;

verus! {

/// The density that is zero everywhere. It stands in scatter records whose
/// ray is given outright.
#[derive(Clone, Copy, Debug, Default)]
pub struct DummyPdf;

/// The uniform density over all directions.
#[derive(Clone, Copy, Debug)]
pub struct SpherePdf;

impl SpherePdf {
    pub fn new() -> (p: SpherePdf)
        ensures
            p == SpherePdf,
    {
        SpherePdf
    }
}

impl Default for SpherePdf {
    fn default() -> (p: SpherePdf)
        ensures
            p == SpherePdf,
    {
        SpherePdf::new()
    }
}

} // verus!
