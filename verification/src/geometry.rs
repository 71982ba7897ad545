use vstd::prelude::*;

verus! {

/// glam's two-component vector, carried through the library unread.
#[verifier::external_type_specification]
#[verifier::external_body]
pub struct ExVec2(glam::Vec2);

/// glam's three-component vector, carried through the library unread.
#[verifier::external_type_specification]
#[verifier::external_body]
pub struct ExVec3(glam::Vec3);

} // verus!
