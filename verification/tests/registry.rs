use digraph::utility::idregistry::ExplicitIntegralIdentifierRegistry;
use digraph::utility::idregistry::IdentifierRegistry;
use digraph::utility::idregistry::IdentifierRegistryFailure;

#[test]
fn idregistry_make() {
    let _ = ExplicitIntegralIdentifierRegistry::new(10);
}

#[test]
#[should_panic(expected = "Explicit Integral Identifier Registry expects a positive initial size.")]
fn idregistry_bad_make() {
    let _ = ExplicitIntegralIdentifierRegistry::new(0);
}

#[test]
fn idregistry_acquire_id() {
    let mut registry = ExplicitIntegralIdentifierRegistry::new(2);
    let mut id1 = 1337;
    let mut id2 = 1337;
    assert_eq!(id1, 1337);
    assert_eq!(id2, 1337);
    id1 = registry
        .acquire_id()
        .expect("Failed to acquire an identifier when expected.");
    assert_eq!(id1, 0);
    id2 = registry
        .acquire_id()
        .expect("Failed to acquire an identifier when expected.");
    assert_eq!(id2, 1);
}

#[test]
fn idregistry_acquire_id_resize() {
    let mut registry = ExplicitIntegralIdentifierRegistry::new(2);
    let mut id1 = 1337;
    let mut id2 = 1337;
    assert_eq!(id1, 1337);
    assert_eq!(id2, 1337);
    id1 = registry
        .acquire_id()
        .expect("Failed to acquire an identifier when expected.");
    assert_eq!(id1, 0);
    id2 = registry
        .acquire_id()
        .expect("Failed to acquire an identifier when expected.");
    assert_eq!(id2, 1);
    id2 = registry
        .acquire_id()
        .expect("Failed to acquire an identifier when expected.");
    assert_eq!(id2, 2);
}

#[test]
fn idregistry_improper_release() {
    let mut registry = ExplicitIntegralIdentifierRegistry::new(2);
    let mut id1 = 1337;
    let old_id = id1;
    let id2 = 1337;
    id1 = registry
        .acquire_id()
        .expect("Failed to acquire an identifier when expected.");
    assert_ne!(id1, old_id);
    assert_eq!(id1, 0);
    registry
        .release_id(id2)
        .expect_err("Successfully freed an unallocated identifier when not expected.");
}

#[test]
fn idregistry_double_release() {
    let mut registry = ExplicitIntegralIdentifierRegistry::new(2);
    let id1;
    id1 = registry
        .acquire_id()
        .expect("Failed to acquire an identifier when expected.");
    assert_eq!(id1, 0);
    registry
        .release_id(id1)
        .expect("Failed to free an identifier that was allocated.");
    registry.release_id(id1).expect_err(
        "Successfully freed an identifier that was already freed when not expected.",
    );
}

fn acquire(registry: &mut ExplicitIntegralIdentifierRegistry) -> usize {
    registry.acquire_id().expect("the registry can still grow")
}

#[test]
fn idregistry_release_of_unminted_is_invalid() {
    let mut registry = ExplicitIntegralIdentifierRegistry::new(2);
    assert_eq!(acquire(&mut registry), 0);
    assert!(matches!(
        registry.release_id(2),
        Err(IdentifierRegistryFailure::InvalidIdentifier)
    ));
    assert!(matches!(
        registry.release_id(1337),
        Err(IdentifierRegistryFailure::InvalidIdentifier)
    ));
    // The failed releases changed nothing: the next identifier is still 1.
    assert_eq!(acquire(&mut registry), 1);
}

#[test]
fn idregistry_release_of_free_is_already_released() {
    let mut registry = ExplicitIntegralIdentifierRegistry::new(3);
    // Minted, but never acquired.
    assert!(matches!(
        registry.release_id(1),
        Err(IdentifierRegistryFailure::IdentiferAlreadyReleased)
    ));
    let id = acquire(&mut registry);
    assert_eq!(id, 0);
    assert!(matches!(registry.release_id(id), Ok(())));
    assert!(matches!(
        registry.release_id(id),
        Err(IdentifierRegistryFailure::IdentiferAlreadyReleased)
    ));
    // The failed releases changed nothing: 0 is handed out once, then 1, 2.
    assert_eq!(acquire(&mut registry), 0);
    assert_eq!(acquire(&mut registry), 1);
    assert_eq!(acquire(&mut registry), 2);
}

#[test]
fn idregistry_released_identifiers_come_back_last_in_first_out() {
    let mut registry = ExplicitIntegralIdentifierRegistry::new(4);
    assert_eq!(acquire(&mut registry), 0);
    assert_eq!(acquire(&mut registry), 1);
    assert_eq!(acquire(&mut registry), 2);
    registry.release_id(0).expect("0 is held");
    registry.release_id(2).expect("2 is held");
    // Released identifiers go to the front; 3 was never used and waits behind.
    assert_eq!(acquire(&mut registry), 2);
    assert_eq!(acquire(&mut registry), 0);
    assert_eq!(acquire(&mut registry), 3);
}

#[test]
fn idregistry_growth_doubles_the_capacity() {
    let mut registry = ExplicitIntegralIdentifierRegistry::new(2);
    let mut acquired = Vec::new();
    for _ in 0..9 {
        acquired.push(acquire(&mut registry));
    }
    assert_eq!(acquired, vec![0, 1, 2, 3, 4, 5, 6, 7, 8]);
    // After growth to 4, 8 and 16, the identifiers 9 .. 16 are minted and free.
    assert!(matches!(
        registry.release_id(15),
        Err(IdentifierRegistryFailure::IdentiferAlreadyReleased)
    ));
    assert!(matches!(
        registry.release_id(16),
        Err(IdentifierRegistryFailure::InvalidIdentifier)
    ));
}

#[test]
fn idregistry_growth_mints_exactly_the_doubled_range() {
    let mut registry = ExplicitIntegralIdentifierRegistry::new(3);
    for expected in 0..3 {
        assert_eq!(acquire(&mut registry), expected);
    }
    // No growth yet: 3 was never minted.
    assert!(matches!(
        registry.release_id(3),
        Err(IdentifierRegistryFailure::InvalidIdentifier)
    ));
    assert_eq!(acquire(&mut registry), 3);
    // One growth, from 3 to 6: 5 is minted, 6 is not.
    assert!(matches!(
        registry.release_id(5),
        Err(IdentifierRegistryFailure::IdentiferAlreadyReleased)
    ));
    assert!(matches!(
        registry.release_id(6),
        Err(IdentifierRegistryFailure::InvalidIdentifier)
    ));
}

#[test]
fn idregistry_null_registry_grows_from_nothing() {
    let mut registry = ExplicitIntegralIdentifierRegistry::null_registry();
    assert!(matches!(
        registry.release_id(0),
        Err(IdentifierRegistryFailure::InvalidIdentifier)
    ));
    assert_eq!(acquire(&mut registry), 0);
    assert_eq!(acquire(&mut registry), 1);
    assert_eq!(acquire(&mut registry), 2);
    assert_eq!(acquire(&mut registry), 3);
    assert_eq!(acquire(&mut registry), 4);
}

#[test]
fn idregistry_held_identifiers_are_unique() {
    let mut registry = ExplicitIntegralIdentifierRegistry::new(2);
    let mut held: Vec<usize> = Vec::new();
    for round in 0..40usize {
        let id = acquire(&mut registry);
        assert!(!held.contains(&id), "{} was handed out twice", id);
        held.push(id);
        if round % 3 == 2 {
            let back = held.remove(round % held.len());
            registry.release_id(back).expect("the identifier is held");
        }
    }
}

#[test]
fn idregistry_clone_is_independent() {
    let mut registry = ExplicitIntegralIdentifierRegistry::new(2);
    assert_eq!(acquire(&mut registry), 0);
    let mut copy = registry.clone();
    assert_eq!(acquire(&mut registry), 1);
    assert_eq!(acquire(&mut copy), 1);
    assert_eq!(acquire(&mut copy), 2);
    assert_eq!(acquire(&mut registry), 2);
    assert!(matches!(copy.release_id(0), Ok(())));
    assert!(matches!(registry.release_id(0), Ok(())));
}
