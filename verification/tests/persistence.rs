use todo_cli::codec::{load_store, parse_store, save_store};
use todo_cli::store::{add_todo, add_todo_at, empty_store, mark_done, Priority};

#[test]
fn save_and_load_round_trip() {
    let mut store = empty_store();
    add_todo(
        &mut store,
        "Persist me".into(),
        Priority::High,
        Some("2026-12-31".into()),
    );
    mark_done(&mut store, 1);

    let text = save_store(&store);
    let loaded = load_store(Some(text.as_str()));

    assert_eq!(loaded.next_id, 2);
    assert_eq!(loaded.todos.len(), 1);
    assert_eq!(loaded.todos[0].title, "Persist me");
    assert_eq!(loaded.todos[0].priority, Priority::High);
    assert!(loaded.todos[0].completed);
    assert_eq!(loaded.todos[0].due_date.as_deref(), Some("2026-12-31"));
}

#[test]
fn load_nonexistent_returns_empty_store() {
    let store = load_store(None);
    assert_eq!(store.next_id, 1);
    assert!(store.todos.is_empty());
}

#[test]
fn load_unparsable_content_returns_empty_store() {
    let store = load_store(Some("not a store at all"));
    assert_eq!(store.next_id, 1);
    assert!(store.todos.is_empty());
}

#[test]
fn save_empty_store_exact_text() {
    let store = empty_store();
    let text = save_store(&store);
    assert_eq!(text, "{\n  \"next_id\": 1,\n  \"tasks\": []\n}");
}

#[test]
fn save_one_task_exact_text() {
    let mut store = empty_store();
    add_todo_at(
        &mut store,
        "Buy milk".into(),
        Priority::High,
        Some("2026-03-01".into()),
        "2026-02-27".into(),
    );
    let text = save_store(&store);
    let expected = "{\n  \"next_id\": 2,\n  \"tasks\": [\n    {\n      \"id\": 1,\n      \"title\": \"Buy milk\",\n      \"completed\": false,\n      \"priority\": \"high\",\n      \"due_date\": \"2026-03-01\",\n      \"created_at\": \"2026-02-27\"\n    }\n  ]\n}";
    assert_eq!(text, expected);
}

#[test]
fn round_trip_with_escaped_title() {
    let mut store = empty_store();
    add_todo_at(
        &mut store,
        "say \"hi\" \\ twice\n\tok\r".into(),
        Priority::Low,
        None,
        "2026-02-27".into(),
    );
    let text = save_store(&store);
    let loaded = load_store(Some(text.as_str()));
    assert_eq!(loaded.next_id, 2);
    assert_eq!(loaded.todos.len(), 1);
    assert_eq!(loaded.todos[0].title, "say \"hi\" \\ twice\n\tok\r");
    assert_eq!(loaded.todos[0].due_date, None);
}

#[test]
fn round_trip_many_tasks_all_priorities() {
    let mut store = empty_store();
    add_todo_at(&mut store, "a".into(), Priority::High, None, "2026-01-01".into());
    add_todo_at(
        &mut store,
        "b".into(),
        Priority::Medium,
        Some("2027-05-06".into()),
        "2026-01-02".into(),
    );
    add_todo_at(&mut store, "".into(), Priority::Low, None, "2026-01-03".into());
    mark_done(&mut store, 2);
    let text = save_store(&store);
    let loaded = load_store(Some(text.as_str()));
    assert_eq!(loaded.next_id, 4);
    assert_eq!(loaded.todos.len(), 3);
    assert_eq!(loaded.todos[0].priority, Priority::High);
    assert_eq!(loaded.todos[1].priority, Priority::Medium);
    assert_eq!(loaded.todos[2].priority, Priority::Low);
    assert_eq!(loaded.todos[0].title, "a");
    assert_eq!(loaded.todos[1].title, "b");
    assert_eq!(loaded.todos[2].title, "");
    assert!(!loaded.todos[0].completed);
    assert!(loaded.todos[1].completed);
    assert_eq!(loaded.todos[1].due_date.as_deref(), Some("2027-05-06"));
    assert_eq!(loaded.todos[2].due_date, None);
}

#[test]
fn parse_store_rejects_trailing_text() {
    let store = empty_store();
    let mut text = save_store(&store);
    assert!(parse_store(text.as_str()).is_some());
    text.push('x');
    assert!(parse_store(text.as_str()).is_none());
}

#[test]
fn saved_text_is_wellformed_json() {
    let mut store = empty_store();
    add_todo_at(
        &mut store,
        "Persist me".into(),
        Priority::Medium,
        Some("2026-12-31".into()),
        "2026-02-27".into(),
    );
    mark_done(&mut store, 1);
    let text = save_store(&store);
    let v: serde_json::Value = serde_json::from_str(&text).unwrap();
    assert_eq!(v["next_id"].as_u64(), Some(2));
    let tasks = v["tasks"].as_array().unwrap();
    assert_eq!(tasks.len(), 1);
    assert_eq!(tasks[0]["id"].as_u64(), Some(1));
    assert_eq!(tasks[0]["title"].as_str(), Some("Persist me"));
    assert_eq!(tasks[0]["completed"].as_bool(), Some(true));
    assert_eq!(tasks[0]["priority"].as_str(), Some("medium"));
    assert_eq!(tasks[0]["due_date"].as_str(), Some("2026-12-31"));
    assert_eq!(tasks[0]["created_at"].as_str(), Some("2026-02-27"));
}

#[test]
fn large_ids_round_trip() {
    let mut store = empty_store();
    store.next_id = 4294967290;
    add_todo_at(&mut store, "big".into(), Priority::Low, None, "2026-01-01".into());
    let text = save_store(&store);
    let loaded = load_store(Some(text.as_str()));
    assert_eq!(loaded.next_id, 4294967291);
    assert_eq!(loaded.todos[0].id, 4294967290);
}
