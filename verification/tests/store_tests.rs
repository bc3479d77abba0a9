use simple_tasks::state::AppState;
use simple_tasks::store::load_or_default;

#[test]
fn default_is_empty() {
    let s = AppState::default();
    assert_eq!(s.tasks.len(), 0);
    assert_eq!(s.next_task_id, 0);
}

#[test]
fn add_assigns_sequential_ids() {
    let mut s = AppState::new();
    let descriptions = ["a", "b", "c", "d", "e"];
    for (k, d) in descriptions.iter().enumerate() {
        let t = s.add_task(d);
        assert_eq!(t.id, k as i32);
        assert_eq!(t.description, d.to_string());
    }
    assert_eq!(s.tasks.len(), 5);
    assert_eq!(s.next_task_id, 5);
    for (k, d) in descriptions.iter().enumerate() {
        assert_eq!(s.tasks[k].id, k as i32);
        assert_eq!(s.tasks[k].description, d.to_string());
    }
    // every id is distinct
    for k in 0..s.tasks.len() {
        for l in 0..k {
            assert_ne!(s.tasks[k].id, s.tasks[l].id);
        }
    }
}

#[test]
fn remove_present_keeps_order_of_rest() {
    let mut s = AppState::new();
    s.add_task("first");
    s.add_task("second");
    s.add_task("third");
    s.remove_task(1);
    assert_eq!(s.tasks.len(), 2);
    assert_eq!(s.tasks[0].id, 0);
    assert_eq!(s.tasks[0].description, "first");
    assert_eq!(s.tasks[1].id, 2);
    assert_eq!(s.tasks[1].description, "third");
    assert_eq!(s.next_task_id, 3);
}

#[test]
fn remove_absent_is_a_noop() {
    let mut s = AppState::new();
    s.add_task("only");
    s.remove_task(7);
    s.remove_task(-1);
    assert_eq!(s.tasks.len(), 1);
    assert_eq!(s.tasks[0].id, 0);
    assert_eq!(s.tasks[0].description, "only");
    assert_eq!(s.next_task_id, 1);
}

#[test]
fn ids_are_never_reused_after_removal() {
    let mut s = AppState::new();
    s.add_task("a");
    s.add_task("b");
    s.remove_task(0);
    s.remove_task(1);
    let t = s.add_task("c");
    assert_eq!(t.id, 2);
    assert_eq!(s.next_task_id, 3);
}

#[test]
fn scenario_grocery_list() {
    let mut s = AppState::new();

    let t0 = s.add_task("buy milk");
    assert_eq!(t0.id, 0);
    assert_eq!(t0.description, "buy milk");
    assert_eq!(s.tasks.len(), 1);
    assert_eq!(s.tasks[0].id, 0);
    assert_eq!(s.tasks[0].description, "buy milk");
    assert_eq!(s.next_task_id, 1);

    let t1 = s.add_task("walk dog");
    assert_eq!(t1.id, 1);

    s.remove_task(0);
    assert_eq!(s.tasks.len(), 1);
    assert_eq!(s.tasks[0].id, 1);
    assert_eq!(s.tasks[0].description, "walk dog");
    assert_eq!(s.next_task_id, 2);

    // removing the same id again changes nothing and is no error
    s.remove_task(0);
    assert_eq!(s.tasks.len(), 1);
    assert_eq!(s.next_task_id, 2);

    // a restart restores the same state from the persisted text
    let persisted = s.serialize();
    let mut fresh = AppState::new();
    let returned = fresh.restore(Some(persisted.as_str()));
    assert_eq!(fresh.tasks.len(), 1);
    assert_eq!(fresh.tasks[0].id, 1);
    assert_eq!(fresh.tasks[0].description, "walk dog");
    assert_eq!(fresh.next_task_id, 2);
    assert_eq!(returned.tasks.len(), 1);
    assert_eq!(returned.tasks[0].id, 1);
    assert_eq!(returned.next_task_id, 2);
}

#[test]
fn restore_is_idempotent() {
    let mut origin = AppState::new();
    origin.add_task("keep");
    origin.add_task("me");
    let persisted = origin.serialize();

    let mut s = AppState::new();
    s.add_task("stale");
    let first = s.restore(Some(persisted.as_str()));
    let second = s.restore(Some(persisted.as_str()));
    assert_eq!(first.tasks.len(), second.tasks.len());
    assert_eq!(first.next_task_id, second.next_task_id);
    for k in 0..first.tasks.len() {
        assert_eq!(first.tasks[k].id, second.tasks[k].id);
        assert_eq!(first.tasks[k].description, second.tasks[k].description);
    }
    assert_eq!(s.tasks.len(), 2);
    assert_eq!(s.tasks[0].description, "keep");
    assert_eq!(s.tasks[1].description, "me");
}

#[test]
fn restore_of_missing_file_resets_to_empty() {
    let mut s = AppState::new();
    s.add_task("soon gone");
    let returned = s.restore(None);
    assert_eq!(s.tasks.len(), 0);
    assert_eq!(s.next_task_id, 0);
    assert_eq!(returned.tasks.len(), 0);
    assert_eq!(returned.next_task_id, 0);
}

#[test]
fn load_checks_the_store_invariant() {
    // structurally valid text whose identifiers break the invariant
    let dup = "{\"tasks\":[{\"id\":3,\"description\":\"x\"},{\"id\":3,\"description\":\"y\"}],\"next_task_id\":9}";
    let s = load_or_default(Some(dup));
    assert_eq!(s.tasks.len(), 0);
    assert_eq!(s.next_task_id, 0);

    let high = "{\"tasks\":[{\"id\":5,\"description\":\"x\"}],\"next_task_id\":3}";
    let s2 = load_or_default(Some(high));
    assert_eq!(s2.tasks.len(), 0);
    assert_eq!(s2.next_task_id, 0);
}
