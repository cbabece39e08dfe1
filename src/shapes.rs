//! Composite shapes for the signed-distance renderer: the combinators hold
//! two shapes; what distance and colour mean for them is defined where the
//! shapes themselves are.
use vstd::prelude::*;

verus! {

/// Square root and inverse square root, for the number type the renderer
/// works in.
pub trait Sqrt {
    fn sqrt(self) -> Self;

    fn inv_sqrt(self) -> Self;
}

/// The union of two shapes: the nearer of the two.
pub struct Union<U, V> {
    u: U,
    v: V,
}

impl<U, V> Union<U, V> {
    /// The first of the two shapes.
    pub closed spec fn first_spec(&self) -> U {
        self.u
    }

    /// The second of the two shapes.
    pub closed spec fn second_spec(&self) -> V {
        self.v
    }

    pub fn new(u: U, v: V) -> (r: Self)
        ensures
            r.first_spec() == u,
            r.second_spec() == v,
    {
        Union { u, v }
    }

    pub fn first(&self) -> (r: &U)
        ensures
            *r == self.first_spec(),
    {
        &self.u
    }

    pub fn second(&self) -> (r: &V)
        ensures
            *r == self.second_spec(),
    {
        &self.v
    }
}

/// The first shape with the second carved out of it.
pub struct Substraction<U, V>(pub U, pub V);

/// The part common to both shapes.
pub struct Intersection<U, V>(pub U, pub V);

} // verus!
