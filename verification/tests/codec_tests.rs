use simple_tasks::state::AppState;
use simple_tasks::store::load_or_default;

fn round_trip(state: &AppState) -> AppState {
    let text = state.serialize();
    load_or_default(Some(text.as_str()))
}

#[test]
fn serialized_text_is_exact() {
    let mut s = AppState::new();
    s.add_task("buy milk");
    assert_eq!(
        s.serialize(),
        "{\"tasks\":[{\"id\":0,\"description\":\"buy milk\"}],\"next_task_id\":1}"
    );
}

#[test]
fn serialized_empty_store_is_exact() {
    let s = AppState::new();
    assert_eq!(s.serialize(), "{\"tasks\":[],\"next_task_id\":0}");
}

#[test]
fn round_trip_empty() {
    let s = AppState::new();
    let back = round_trip(&s);
    assert_eq!(back.tasks.len(), 0);
    assert_eq!(back.next_task_id, 0);
}

#[test]
fn round_trip_many_tasks() {
    let mut s = AppState::new();
    for k in 0..25 {
        s.add_task(&format!("task number {k}"));
    }
    s.remove_task(10);
    let back = round_trip(&s);
    assert_eq!(back.tasks.len(), s.tasks.len());
    assert_eq!(back.next_task_id, s.next_task_id);
    for k in 0..s.tasks.len() {
        assert_eq!(back.tasks[k].id, s.tasks[k].id);
        assert_eq!(back.tasks[k].description, s.tasks[k].description);
    }
}

#[test]
fn round_trip_special_characters() {
    let mut s = AppState::new();
    s.add_task("");
    s.add_task("say \"hello\"");
    s.add_task("C:\\temp\\file");
    s.add_task("\\\"mixed\\\"");
    s.add_task("caf\u{e9} \u{1f600}");
    let back = round_trip(&s);
    assert_eq!(back.tasks.len(), 5);
    assert_eq!(back.tasks[0].description, "");
    assert_eq!(back.tasks[1].description, "say \"hello\"");
    assert_eq!(back.tasks[2].description, "C:\\temp\\file");
    assert_eq!(back.tasks[3].description, "\\\"mixed\\\"");
    assert_eq!(back.tasks[4].description, "caf\u{e9} \u{1f600}");
    assert_eq!(back.next_task_id, 5);
}

#[test]
fn load_fails_open_on_missing_or_corrupt_text() {
    let cases: [Option<&str>; 7] = [
        None,
        Some(""),
        Some("not json at all"),
        Some("{\"tasks\":[],\"next_task_id\":}"),
        Some("{\"tasks\":[],\"next_task_id\":0} "),
        Some("{\"tasks\":[{\"id\":0,\"description\":\"x\"]}],\"next_task_id\":1}"),
        Some("{\"tasks\":[],\"next_task_id\":-1}"),
    ];
    for data in cases {
        let s = load_or_default(data);
        assert_eq!(s.tasks.len(), 0);
        assert_eq!(s.next_task_id, 0);
    }
}

#[test]
fn load_rejects_numbers_that_do_not_fit() {
    let s = load_or_default(Some("{\"tasks\":[],\"next_task_id\":2147483648}"));
    assert_eq!(s.next_task_id, 0);

    let max = load_or_default(Some("{\"tasks\":[],\"next_task_id\":2147483647}"));
    assert_eq!(max.next_task_id, 2147483647);
    assert_eq!(max.tasks.len(), 0);
}

#[test]
fn to_json_refuses_a_mangled_store() {
    let mut s = AppState::new();
    s.add_task("fine");
    assert!(s.to_json().is_some());
    // hand-editing the public fields can break the invariant; to_json sees it
    s.next_task_id = 0;
    assert!(s.to_json().is_none());
}

#[test]
fn serialized_text_is_real_json() {
    let mut s = AppState::new();
    s.add_task("buy milk");
    s.add_task("say \"hi\" to C:\\everyone");
    let text = s.serialize();

    let value: serde_json::Value = serde_json::from_str(&text).expect("well-formed JSON");
    let tasks = value.get("tasks").and_then(|t| t.as_array()).expect("tasks array");
    assert_eq!(tasks.len(), 2);
    assert_eq!(tasks[0].get("id").and_then(|v| v.as_i64()), Some(0));
    assert_eq!(
        tasks[0].get("description").and_then(|v| v.as_str()),
        Some("buy milk")
    );
    assert_eq!(tasks[1].get("id").and_then(|v| v.as_i64()), Some(1));
    assert_eq!(
        tasks[1].get("description").and_then(|v| v.as_str()),
        Some("say \"hi\" to C:\\everyone")
    );
    assert_eq!(value.get("next_task_id").and_then(|v| v.as_i64()), Some(2));
}
