//! The material that does nothing.

use vstd::prelude::*;

verus! {

/// A material that neither scatters nor emits. It stands on shapes that
/// only serve as targets for light sampling.
#[derive(Clone, Copy, Debug, Default)]
pub struct DummyMaterial;

} // verus!
