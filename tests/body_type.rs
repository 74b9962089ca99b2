use heron_core::BodyType;
use heron_core::BodyType::{Dynamic, Sensor, Static};

#[test]
fn body_type_default_is_dynamic() {
    assert_eq!(BodyType::default(), BodyType::Dynamic);
}

#[test]
fn only_dynamic_bodies_take_forces() {
    assert!(BodyType::Dynamic.is_affected_by_forces());
    assert!(!BodyType::Static.is_affected_by_forces());
    assert!(!BodyType::Sensor.is_affected_by_forces());
}

#[test]
fn contact_response_by_kind() {
    assert!(Dynamic.has_contact_response(&Dynamic));
    assert!(Dynamic.has_contact_response(&Static));
    assert!(Static.has_contact_response(&Dynamic));
    assert!(!Static.has_contact_response(&Static));
    assert!(!Sensor.has_contact_response(&Sensor));
    assert!(!Sensor.has_contact_response(&Dynamic));
    assert!(!Dynamic.has_contact_response(&Sensor));
    assert!(!Static.has_contact_response(&Sensor));
}
