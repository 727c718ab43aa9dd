use ecs_core::entity::EntityManager;

#[test]
fn create_entities_get_fresh_slots() {
    let mut manager = EntityManager::new();
    let a = manager.create_entity();
    let b = manager.create_entity();
    let c = manager.create_entity();
    assert_eq!(a.index, 0);
    assert_eq!(b.index, 1);
    assert_eq!(c.index, 2);
    assert_eq!(a.generation, 0);
    assert_eq!(b.generation, 0);
    assert!(manager.is_live(a));
    assert!(manager.is_live(b));
    assert!(manager.is_live(c));
}

#[test]
fn dispose_then_create_bumps_generation() {
    let mut manager = EntityManager::new();
    let a = manager.create_entity();
    let _b = manager.create_entity();
    manager.dispose_entity_id(a);
    assert!(!manager.is_live(a));
    let reused = manager.create_entity();
    assert_eq!(reused.index, a.index);
    assert!(reused.generation > a.generation);
    assert_eq!(reused.generation, a.generation + 1);
    assert!(manager.is_live(reused));
    assert!(!manager.is_live(a));
}

#[test]
fn stale_handle_is_rejected_by_every_operation() {
    let mut manager = EntityManager::new();
    let a = manager.create_entity();
    manager.dispose_entity_id(a);
    // A second dispose of the stale handle changes nothing.
    manager.dispose_entity_id(a);
    assert!(!manager.is_live(a));
    let reused = manager.create_entity();
    // The stale handle still refers to nothing, even though its slot is
    // occupied again.
    assert!(!manager.is_live(a));
    assert!(manager.is_live(reused));
    // Disposing the stale handle must not dispose the new entity.
    manager.dispose_entity_id(a);
    assert!(manager.is_live(reused));
}

#[test]
fn active_entities_lists_exactly_the_live_handles() {
    let mut manager = EntityManager::new();
    let a = manager.create_entity();
    let b = manager.create_entity();
    let c = manager.create_entity();
    manager.dispose_entity_id(b);
    let active = manager.get_active_entities();
    assert_eq!(active.len(), 2);
    assert!(active.contains(&a));
    assert!(active.contains(&c));
    assert!(!active.contains(&b));
}

#[test]
fn entity_bits_distinguish_generations() {
    let mut manager = EntityManager::new();
    let a = manager.create_entity();
    manager.dispose_entity_id(a);
    let reused = manager.create_entity();
    assert_eq!(a.index, reused.index);
    assert_ne!(a.to_bits(), reused.to_bits());
}
