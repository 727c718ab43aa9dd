use ecs_core::component::{Component, ComponentHandler, EcsManager};
use ecs_core::component_manager::ComponentManager;
use ecs_core::component_system::{ComponentSystem, TestComponent, TestSystemHandler};
use ecs_core::entity::EntityManager;

struct Position {
    x: i32,
    y: i32,
}

impl Component for Position {
    fn get_name() -> String {
        "Position".to_owned()
    }
}

struct PositionHandler;

impl ComponentHandler<Position> for PositionHandler {
    fn new() -> Self {
        PositionHandler
    }
}

#[test]
fn attach_then_borrow_returns_the_attached_value() {
    let mut store = ComponentSystem::<Position>::new::<PositionHandler>();
    store.add_component_to_entity(7, Position { x: 3, y: 4 });
    assert!(store.has_component(7));
    let p = store.borrow_component(7);
    assert_eq!(p.x, 3);
    assert_eq!(p.y, 4);
}

#[test]
fn detach_then_has_returns_false() {
    let mut store = ComponentSystem::<Position>::new::<PositionHandler>();
    store.add_component_to_entity(1, Position { x: 1, y: 1 });
    store.remove_component_from_entity(1);
    assert!(!store.has_component(1));
}

#[test]
fn swap_removal_repairs_the_lookup() {
    let mut store = ComponentSystem::<Position>::new::<PositionHandler>();
    store.add_component_to_entity(10, Position { x: 10, y: 0 });
    store.add_component_to_entity(11, Position { x: 11, y: 0 });
    store.add_component_to_entity(12, Position { x: 12, y: 0 });
    // Removing the middle entry moves the last into its place; the lookup
    // must keep agreeing with the dense arrays.
    store.remove_component_from_entity(11);
    assert!(!store.has_component(11));
    assert!(store.has_component(10));
    assert!(store.has_component(12));
    assert_eq!(store.borrow_component(10).x, 10);
    assert_eq!(store.borrow_component(12).x, 12);
}

#[test]
fn duplicate_attach_is_a_no_op() {
    let mut store = ComponentSystem::<Position>::new::<PositionHandler>();
    store.add_component_to_entity(5, Position { x: 1, y: 1 });
    store.add_component_to_entity(5, Position { x: 9, y: 9 });
    assert_eq!(store.borrow_component(5).x, 1);
}

#[test]
fn borrow_mut_updates_the_stored_value() {
    let mut store = ComponentSystem::<TestComponent>::new::<TestSystemHandler>();
    store.add_component_to_entity(2, TestComponent { i: 40 });
    {
        let c = store.borrow_component_mut(2);
        c.i += 2;
    }
    assert_eq!(store.borrow_component(2).i, 42);
}

#[test]
fn manager_guards_allow_shared_reads_and_exclusive_writes() {
    let mut allocator = EntityManager::new();
    let e = allocator.create_entity();
    let mut manager = ComponentManager::<Position>::make();
    manager.add_component_to_entity(e, Position { x: 8, y: 9 });

    let r1 = manager.borrow_component(e).expect("first read guard");
    let r2 = manager.borrow_component(e).expect("second read guard");
    // A write guard cannot coexist with read guards on the same entity.
    assert!(manager.borrow_component_mut(e).is_none());
    manager.release_component(r1);
    assert!(manager.borrow_component_mut(e).is_none());
    manager.release_component(r2);

    let w = manager.borrow_component_mut(e).expect("write guard");
    // No further guard of either kind while the write guard is held.
    assert!(manager.borrow_component(e).is_none());
    assert!(manager.borrow_component_mut(e).is_none());
    manager.write_component(&w, Position { x: 100, y: 9 });
    assert_eq!(manager.read_component_mut(&w).x, 100);
    manager.release_component_mut(w);

    let r3 = manager.borrow_component(e).expect("read after release");
    assert_eq!(manager.read_component(&r3).x, 100);
    manager.release_component(r3);
}

#[test]
fn manager_borrow_all_is_all_or_nothing() {
    let mut allocator = EntityManager::new();
    let a = allocator.create_entity();
    let b = allocator.create_entity();
    let mut manager = ComponentManager::<Position>::make();
    manager.add_component_to_entity(a, Position { x: 1, y: 0 });
    manager.add_component_to_entity(b, Position { x: 2, y: 0 });

    let all = manager.borrow_all_components().expect("all read guards");
    assert_eq!(all.len(), 2);
    // A write guard on one entity blocks the bulk write acquisition.
    assert!(manager.borrow_all_components_mut().is_none());
    for handle in all {
        manager.release_component(handle);
    }
    let all_mut = manager.borrow_all_components_mut().expect("all write guards");
    assert_eq!(all_mut.len(), 2);
    // While any write guard is held, even a bulk read acquisition fails.
    assert!(manager.borrow_all_components().is_none());
    for handle in all_mut {
        manager.release_component_mut(handle);
    }
}

#[test]
fn manager_removal_and_entity_listing() {
    let mut allocator = EntityManager::new();
    let a = allocator.create_entity();
    let b = allocator.create_entity();
    let c = allocator.create_entity();
    let mut manager = ComponentManager::<Position>::make();
    manager.add_component_to_entity(a, Position { x: 1, y: 0 });
    manager.add_component_to_entity(b, Position { x: 2, y: 0 });
    manager.add_component_to_entity(c, Position { x: 3, y: 0 });

    manager.remove_component_from_entity(b);
    assert!(!manager.has_component(b));
    assert!(manager.has_component(a));
    assert!(manager.has_component(c));
    // The swap-with-last repair must leave every other entity's value
    // untouched.
    let ra = manager.borrow_component(a).expect("read guard on a");
    assert_eq!(manager.read_component(&ra).x, 1);
    manager.release_component(ra);
    let rc = manager.borrow_component(c).expect("read guard on c");
    assert_eq!(manager.read_component(&rc).x, 3);
    manager.release_component(rc);
    let owners = manager.get_entities();
    assert_eq!(owners.len(), 2);
    assert!(owners.contains(&a));
    assert!(owners.contains(&c));

    // Removing an absent component is a no-op.
    manager.remove_component_from_entity(b);
    assert_eq!(manager.get_entities().len(), 2);
}

#[test]
fn stale_generation_owns_a_separate_component_key() {
    let mut allocator = EntityManager::new();
    let a = allocator.create_entity();
    let mut manager = ComponentManager::<Position>::make();
    manager.add_component_to_entity(a, Position { x: 1, y: 1 });
    allocator.dispose_entity_id(a);
    let reused = allocator.create_entity();
    assert_eq!(reused.index, a.index);
    // The recycled handle carries a new generation, so it does not see the
    // old handle's component.
    assert!(!manager.has_component_of(reused));
    assert!(manager.has_component_of(a));
}

#[test]
fn collider_sample_reports_contact() {
    let left = ecs_core::component_system::Collider { member: 1 };
    let right = ecs_core::component_system::Collider { member: 2 };
    assert!(left.check_collision(&right));
}

#[test]
fn store_identities_distinguish_component_types() {
    let store_a = ComponentSystem::<Position>::new::<PositionHandler>();
    let store_b = ComponentSystem::<TestComponent>::new::<TestSystemHandler>();
    assert_eq!(store_a.get_system_id(), store_a.get_system_id());
    assert_ne!(store_a.get_system_id(), store_b.get_system_id());
    assert_ne!(
        ComponentSystem::<Position>::get_component_id(),
        ComponentSystem::<TestComponent>::get_component_id()
    );
}
