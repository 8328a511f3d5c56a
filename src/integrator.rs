use vstd::prelude::*;

use crate::primitive::PrimitiveRef;

verus! {

/// An integrator that shades each hit with its surface normal.
pub struct NormalIntegrator;

/// The primitives, in scene order, whose material emits light
/// (`emits[i]` says whether primitive `i` does).
pub open spec fn lights_of(emits: Seq<bool>) -> Seq<PrimitiveRef>
    decreases emits.len(),
{
    if emits.len() == 0 {
        Seq::empty()
    } else {
        let last = emits.len() - 1;
        let before = lights_of(emits.drop_last());
        if emits[last] {
            before.push(PrimitiveRef(last as usize))
        } else {
            before
        }
    }
}

/// The light list of a path tracer: every emitting primitive, in scene order.
pub fn collect_lights(emits: &Vec<bool>) -> (r: Vec<PrimitiveRef>)
    ensures
        r@ == lights_of(emits@),
{
    let mut lights: Vec<PrimitiveRef> = Vec::new();
    let mut i: usize = 0;
    while i < emits.len()
        invariant
            i <= emits.len(),
            lights@ == lights_of(emits@.take(i as int)),
        decreases emits.len() - i,
    {
        proof {
            assert(emits@.take(i + 1).drop_last() =~= emits@.take(i as int));
        }
        if emits[i] {
            lights.push(PrimitiveRef(i));
        }
        i = i + 1;
    }
    proof {
        assert(emits@.take(emits.len() as int) =~= emits@);
    }
    lights
}

} // verus!
