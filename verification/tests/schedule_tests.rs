use ecs_core::component::{Component, EcsManager};
use ecs_core::component_manager::ComponentManager;
use ecs_core::entity::EntityManager;
use ecs_core::query::{distinct_index_pairs, entities_with_components};
use ecs_core::resource::ResourceFetchResult;
use ecs_core::schedule::{classify_bind, BindOutcome, ScheduleHolder, ScheduleHolderFrequency};

struct Tag;

impl Component for Tag {
    fn get_name() -> String {
        "Tag".to_owned()
    }
}

#[test]
fn once_holder_runs_only_the_first_cycle() {
    let mut holder = ScheduleHolder::new(ScheduleHolderFrequency::Once);
    assert!(holder.run_if_due());
    assert!(!holder.run_if_due());
    assert!(!holder.run_if_due());
}

#[test]
fn always_holder_runs_every_cycle() {
    let mut holder = ScheduleHolder::new(ScheduleHolderFrequency::Always);
    for _ in 0..4 {
        assert!(holder.run_if_due());
    }
}

#[test]
fn alternate_holder_runs_every_second_cycle() {
    let mut holder = ScheduleHolder::new(ScheduleHolderFrequency::Alternate);
    let fired: Vec<bool> = (0..6).map(|_| holder.run_if_due()).collect();
    assert_eq!(fired, vec![true, false, true, false, true, false]);
}

#[test]
fn bind_classification_follows_the_error_taxonomy() {
    let all_good = vec![ResourceFetchResult::Success, ResourceFetchResult::Success];
    assert_eq!(classify_bind(&all_good), BindOutcome::Proceed);
    assert_eq!(classify_bind(&Vec::new()), BindOutcome::Proceed);

    let missing = vec![ResourceFetchResult::Success, ResourceFetchResult::DoesNotExist];
    assert_eq!(classify_bind(&missing), BindOutcome::Skip);

    let occupied = vec![ResourceFetchResult::Occupied, ResourceFetchResult::Success];
    assert_eq!(classify_bind(&occupied), BindOutcome::Fatal);

    // An unexpected Occupied outranks a missing store.
    let both = vec![ResourceFetchResult::DoesNotExist, ResourceFetchResult::Occupied];
    assert_eq!(classify_bind(&both), BindOutcome::Fatal);
}

#[test]
fn entities_with_component_set_returns_exactly_the_owners() {
    let mut allocator = EntityManager::new();
    let e1 = allocator.create_entity();
    let e2 = allocator.create_entity();
    let e3 = allocator.create_entity();
    let mut tags = ComponentManager::<Tag>::make();
    tags.add_component_to_entity(e1, Tag);
    tags.add_component_to_entity(e3, Tag);

    let active = allocator.get_active_entities();
    let result = entities_with_components(&active, &vec![tags.get_entities()]);
    assert_eq!(result.len(), 2);
    assert!(result.contains(&e1));
    assert!(result.contains(&e3));
    assert!(!result.contains(&e2));
}

#[test]
fn intersection_over_two_component_types() {
    let mut allocator = EntityManager::new();
    let e1 = allocator.create_entity();
    let e2 = allocator.create_entity();
    let e3 = allocator.create_entity();
    let first = vec![e1, e2];
    let second = vec![e2, e3];
    let active = allocator.get_active_entities();
    let result = entities_with_components(&active, &vec![first, second]);
    assert_eq!(result, vec![e2]);
}

#[test]
fn cross_component_pairs_visit_each_unordered_pair_once() {
    // Each unordered pair appears exactly once, lower index first, in the
    // order the nested pass visits them.
    let pairs = distinct_index_pairs(3);
    assert_eq!(pairs, vec![(0, 1), (0, 2), (1, 2)]);
    let pairs4 = distinct_index_pairs(4);
    assert_eq!(pairs4.len(), 6);
    assert!(pairs4.iter().all(|&(a, b)| a < b));
    assert!(distinct_index_pairs(0).is_empty());
    assert!(distinct_index_pairs(1).is_empty());
}
