use vstd::prelude::*;

verus! {

/// Position of a primitive in a scene's primitive list.
#[derive(Copy, Clone, Debug, PartialEq, Eq, Hash, Structural)]
pub struct PrimitiveRef(pub usize);

/// Density over points on the surface of one primitive.
pub struct PrimitiveSurfacePDF {
    primitive: PrimitiveRef,
}

impl PrimitiveSurfacePDF {
    pub closed spec fn spec_primitive(&self) -> PrimitiveRef {
        self.primitive
    }

    pub fn new(primitive: PrimitiveRef) -> (r: Self)
        ensures
            r.spec_primitive() == primitive,
    {
        PrimitiveSurfacePDF { primitive }
    }

    /// The primitive whose surface is sampled.
    pub fn primitive(&self) -> (r: PrimitiveRef)
        ensures
            r == self.spec_primitive(),
    {
        self.primitive
    }
}

} // verus!
