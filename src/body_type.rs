use vstd::prelude::*;

verus! {

/// The kind of a rigid body, which decides whether forces apply to it and
/// whether it takes part in contact response.
#[derive(Debug, Clone, Copy, PartialEq, Eq, Structural)]
pub enum BodyType {
    /// Affected by forces (gravity included) and by contacts; moves.
    Dynamic,
    /// Never moves and takes no forces, but pushes dynamic bodies back.
    Static,
    /// Detected like any body, but neither moves nor takes part in contact response.
    Sensor,
}

impl Default for BodyType {
    /// A body is dynamic unless said otherwise.
    fn default() -> (r: Self)
        ensures
            r == BodyType::Dynamic,
    {
        BodyType::Dynamic
    }
}

/// Whether a pair of bodies of these kinds gets an impulse response when they touch:
/// a sensor never does, and two static bodies never do.
pub open spec fn responds(a: BodyType, b: BodyType) -> bool {
    a != BodyType::Sensor && b != BodyType::Sensor && !(a == BodyType::Static && b
        == BodyType::Static)
}

impl BodyType {
    /// Whether forces (gravity included) are applied to a body of this kind and
    /// its velocity is integrated: only dynamic bodies.
    pub fn is_affected_by_forces(&self) -> (r: bool)
        ensures
            r == (*self == BodyType::Dynamic),
    {
        match self {
            BodyType::Dynamic => true,
            _ => false,
        }
    }

    /// Whether two touching bodies of kinds `self` and `other` get an impulse response.
    pub fn has_contact_response(&self, other: &BodyType) -> (r: bool)
        ensures
            r == responds(*self, *other),
    {
        match (self, other) {
            (BodyType::Sensor, _) => false,
            (_, BodyType::Sensor) => false,
            (BodyType::Static, BodyType::Static) => false,
            _ => true,
        }
    }
}

} // verus!
