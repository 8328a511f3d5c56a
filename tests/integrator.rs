use reflection::integrator::collect_lights;
use reflection::primitive::{PrimitiveRef, PrimitiveSurfacePDF};
use reflection::render::row_to_y;

#[test]
fn lights_are_the_emitting_primitives_in_order() {
    let lights = collect_lights(&vec![false, true, false, true, true]);
    assert_eq!(lights, vec![PrimitiveRef(1), PrimitiveRef(3), PrimitiveRef(4)]);
}

#[test]
fn single_emitter_gives_one_light() {
    assert_eq!(collect_lights(&vec![true]), vec![PrimitiveRef(0)]);
}

#[test]
fn no_emitters_no_lights() {
    assert!(collect_lights(&vec![false, false]).is_empty());
    assert!(collect_lights(&Vec::new()).is_empty());
}

#[test]
fn rows_fill_from_the_bottom() {
    assert_eq!(row_to_y(64, 0), 63);
    assert_eq!(row_to_y(64, 63), 0);
    assert_eq!(row_to_y(1, 0), 0);
}

#[test]
fn surface_pdf_keeps_its_primitive() {
    assert_eq!(PrimitiveSurfacePDF::new(PrimitiveRef(7)).primitive(), PrimitiveRef(7));
}
