use ecs_core::resource::{Resource, ResourceFetchResult, ResourceStore};

struct Settings {
    volume: i32,
}

impl Resource for Settings {}

#[test]
fn acquisition_on_an_empty_slot_reports_does_not_exist() {
    let mut store = ResourceStore::<Settings>::new();
    assert_eq!(store.acquire_read(), ResourceFetchResult::DoesNotExist);
    assert_eq!(store.acquire_write(), ResourceFetchResult::DoesNotExist);
}

#[test]
fn write_guard_excludes_other_writers_until_released() {
    let mut store = ResourceStore::<Settings>::new();
    store.add_resource(Settings { volume: 10 });
    assert_eq!(store.acquire_write(), ResourceFetchResult::Success);
    // A concurrent write request while the guard is held returns Occupied.
    assert_eq!(store.acquire_write(), ResourceFetchResult::Occupied);
    assert_eq!(store.acquire_read(), ResourceFetchResult::Occupied);
    store.release_write();
    // After release a new request succeeds.
    assert_eq!(store.acquire_write(), ResourceFetchResult::Success);
    store.release_write();
}

#[test]
fn read_guards_share_but_block_writers() {
    let mut store = ResourceStore::<Settings>::new();
    store.add_resource(Settings { volume: 3 });
    assert_eq!(store.acquire_read(), ResourceFetchResult::Success);
    assert_eq!(store.acquire_read(), ResourceFetchResult::Success);
    assert_eq!(store.acquire_write(), ResourceFetchResult::Occupied);
    assert_eq!(store.borrow_value().volume, 3);
    store.release_read();
    assert_eq!(store.acquire_write(), ResourceFetchResult::Occupied);
    store.release_read();
    assert_eq!(store.acquire_write(), ResourceFetchResult::Success);
    store.replace_value(Settings { volume: 11 });
    assert_eq!(store.borrow_value().volume, 11);
    store.release_write();
}

#[test]
fn duplicate_registration_keeps_the_first_instance() {
    let mut store = ResourceStore::<Settings>::new();
    store.add_resource(Settings { volume: 1 });
    store.add_resource(Settings { volume: 2 });
    assert_eq!(store.acquire_read(), ResourceFetchResult::Success);
    assert_eq!(store.borrow_value().volume, 1);
    store.release_read();
}

#[test]
fn removal_empties_the_slot() {
    let mut store = ResourceStore::<Settings>::new();
    store.add_resource(Settings { volume: 5 });
    let removed = store.remove_resource();
    assert_eq!(removed.map(|s| s.volume), Some(5));
    assert_eq!(store.acquire_read(), ResourceFetchResult::DoesNotExist);
    assert!(store.remove_resource().is_none());
}
