use vstd::prelude::*;

verus! {

/// A stable identifier of an entity of the host's entity system, as the
/// 64 bits that the host packs it into.
#[derive(Debug, Clone, Copy, PartialEq, Eq, Structural, Hash)]
pub struct EntityId {
    pub bits: u64,
}

impl EntityId {
    /// The identifier with the given bits.
    pub fn from_bits(bits: u64) -> (r: EntityId)
        ensures
            r.bits == bits,
    {
        EntityId { bits }
    }

    /// The bits of this identifier.
    pub fn to_bits(&self) -> (r: u64)
        ensures
            r == self.bits,
    {
        self.bits
    }
}

/// A change in the contact state of a pair of entities.
#[derive(Debug, Clone, Copy, PartialEq, Eq, Structural)]
pub enum CollisionEvent {
    /// The two entities started to collide.
    Started(EntityId, EntityId),
    /// The two entities no longer collide.
    Stopped(EntityId, EntityId),
}

impl CollisionEvent {
    /// The pair of entities that the event is about, in the order it names them.
    pub open spec fn pair(self) -> (EntityId, EntityId) {
        match self {
            CollisionEvent::Started(a, b) => (a, b),
            CollisionEvent::Stopped(a, b) => (a, b),
        }
    }

    /// The two entities of the event, in the order it names them.
    pub fn entities(&self) -> (r: (EntityId, EntityId))
        ensures
            r == self.pair(),
    {
        match self {
            CollisionEvent::Started(a, b) => (*a, *b),
            CollisionEvent::Stopped(a, b) => (*a, *b),
        }
    }

    /// Whether the event says that a contact began.
    pub fn is_started(&self) -> (r: bool)
        ensures
            r == (*self is Started),
    {
        match self {
            CollisionEvent::Started(..) => true,
            CollisionEvent::Stopped(..) => false,
        }
    }
}

} // verus!
