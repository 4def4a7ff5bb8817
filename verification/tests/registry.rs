use pixel_canvas::registry::IdentityRegistry;
use pixel_canvas::types::CanvasError;
use spacetimedb::Identity;

fn who(tag: u8) -> Identity {
    Identity::from_byte_array([tag; 32])
}

#[test]
fn unknown_connection_is_unauthenticated() {
    let registry = IdentityRegistry::new();
    assert_eq!(registry.resolve(1), Err(CanvasError::Unauthenticated));
}

#[test]
fn registered_connection_resolves() {
    let mut registry = IdentityRegistry::new();
    assert!(registry.connect(1, who(1)));
    assert!(registry.connect(2, who(2)));
    assert_eq!(registry.resolve(1), Ok(who(1)));
    assert_eq!(registry.resolve(2), Ok(who(2)));
    assert_eq!(registry.resolve(3), Err(CanvasError::Unauthenticated));
}

#[test]
fn identity_of_a_connection_is_stable() {
    let mut registry = IdentityRegistry::new();
    assert!(registry.connect(1, who(1)));
    assert!(!registry.connect(1, who(9)));
    assert_eq!(registry.resolve(1), Ok(who(1)));
}

#[test]
fn disconnect_removes_the_entry() {
    let mut registry = IdentityRegistry::new();
    registry.connect(1, who(1));
    registry.connect(2, who(2));
    assert!(registry.disconnect(1));
    assert_eq!(registry.resolve(1), Err(CanvasError::Unauthenticated));
    assert_eq!(registry.resolve(2), Ok(who(2)));
    assert!(!registry.disconnect(1));
    assert!(registry.connect(1, who(7)));
    assert_eq!(registry.resolve(1), Ok(who(7)));
}

#[test]
fn two_connections_may_share_an_identity() {
    let mut registry = IdentityRegistry::new();
    assert!(registry.connect(u128::MAX, who(1)));
    assert!(registry.connect(0, who(1)));
    assert_eq!(registry.resolve(u128::MAX), Ok(who(1)));
    assert_eq!(registry.resolve(0), Ok(who(1)));
}
