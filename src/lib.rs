//! Core data model of a rigid-body physics layer: body kinds, entity
//! identifiers, collision events and the collision pair tracker that emits
//! one event per change of a pair's contact state.

pub mod body_type;
pub mod event;
pub mod laws;
pub mod tracker;

pub use body_type::BodyType;
pub use event::{CollisionEvent, EntityId};
pub use tracker::CollisionPairTracker;
