use todo_cli::store::{
    add_todo, add_todo_at, empty_store, filter_todos, mark_done, remove_todo, ListFilter, Priority,
};

// -- add_todo tests --

#[test]
fn add_todo_assigns_incrementing_ids() {
    let mut store = empty_store();
    let id1 = add_todo(&mut store, "First".into(), Priority::Low, None);
    let id2 = add_todo(&mut store, "Second".into(), Priority::High, None);
    assert_eq!(id1, 1);
    assert_eq!(id2, 2);
    assert_eq!(store.next_id, 3);
}

#[test]
fn add_todo_stores_fields_correctly() {
    let mut store = empty_store();
    add_todo(
        &mut store,
        "Buy milk".into(),
        Priority::High,
        Some("2026-03-01".into()),
    );
    assert_eq!(store.todos.len(), 1);
    let todo = &store.todos[0];
    assert_eq!(todo.title, "Buy milk");
    assert_eq!(todo.priority, Priority::High);
    assert_eq!(todo.due_date.as_deref(), Some("2026-03-01"));
    assert!(!todo.completed);
}

#[test]
fn add_todo_defaults_to_not_completed() {
    let mut store = empty_store();
    add_todo(&mut store, "Task".into(), Priority::Medium, None);
    assert!(!store.todos[0].completed);
}

#[test]
fn add_todo_sets_creation_date_to_today() {
    let before = chrono::Local::now().format("%Y-%m-%d").to_string();
    let mut store = empty_store();
    let id = add_todo(
        &mut store,
        "Buy milk".into(),
        Priority::High,
        Some("2026-03-01".into()),
    );
    let after = chrono::Local::now().format("%Y-%m-%d").to_string();
    assert_eq!(id, 1);
    assert_eq!(store.todos.len(), 1);
    assert!(!store.todos[0].completed);
    let created = &store.todos[0].created_at;
    assert!(*created == before || *created == after);
}

#[test]
fn add_todo_at_uses_given_date() {
    let mut store = empty_store();
    let id = add_todo_at(
        &mut store,
        "Dated".into(),
        Priority::Low,
        None,
        "2026-01-31".into(),
    );
    assert_eq!(id, 1);
    assert_eq!(store.todos[0].created_at, "2026-01-31");
}

// -- mark_done tests --

#[test]
fn mark_done_existing_todo() {
    let mut store = empty_store();
    add_todo(&mut store, "Task".into(), Priority::Medium, None);
    assert!(mark_done(&mut store, 1));
    assert!(store.todos[0].completed);
}

#[test]
fn mark_done_nonexistent_returns_false() {
    let mut store = empty_store();
    assert!(!mark_done(&mut store, 99));
}

#[test]
fn mark_done_idempotent() {
    let mut store = empty_store();
    add_todo(&mut store, "Task".into(), Priority::Low, None);
    assert!(mark_done(&mut store, 1));
    assert!(mark_done(&mut store, 1));
    assert!(store.todos[0].completed);
}

#[test]
fn mark_done_missing_id_leaves_store_unchanged() {
    let mut store = empty_store();
    add_todo(&mut store, "Task".into(), Priority::Low, Some("2026-06-01".into()));
    assert!(!mark_done(&mut store, 7));
    assert_eq!(store.next_id, 2);
    assert_eq!(store.todos.len(), 1);
    assert_eq!(store.todos[0].id, 1);
    assert_eq!(store.todos[0].title, "Task");
    assert!(!store.todos[0].completed);
    assert_eq!(store.todos[0].due_date.as_deref(), Some("2026-06-01"));
}

// -- remove_todo tests --

#[test]
fn remove_existing_todo() {
    let mut store = empty_store();
    add_todo(&mut store, "Task".into(), Priority::Medium, None);
    assert!(remove_todo(&mut store, 1));
    assert!(store.todos.is_empty());
}

#[test]
fn remove_nonexistent_returns_false() {
    let mut store = empty_store();
    assert!(!remove_todo(&mut store, 99));
}

#[test]
fn remove_only_target_todo() {
    let mut store = empty_store();
    add_todo(&mut store, "Keep".into(), Priority::Low, None);
    add_todo(&mut store, "Remove".into(), Priority::High, None);
    assert!(remove_todo(&mut store, 2));
    assert_eq!(store.todos.len(), 1);
    assert_eq!(store.todos[0].title, "Keep");
}

#[test]
fn remove_keeps_relative_order() {
    let mut store = empty_store();
    add_todo(&mut store, "A".into(), Priority::Low, None);
    add_todo(&mut store, "B".into(), Priority::Low, None);
    add_todo(&mut store, "C".into(), Priority::Low, None);
    assert!(remove_todo(&mut store, 2));
    assert_eq!(store.todos.len(), 2);
    assert_eq!(store.todos[0].title, "A");
    assert_eq!(store.todos[1].title, "C");
}

#[test]
fn remove_on_empty_store_returns_false() {
    let mut store = empty_store();
    assert!(!remove_todo(&mut store, 99));
    assert!(store.todos.is_empty());
    assert_eq!(store.next_id, 1);
}

// -- filter_todos tests --

#[test]
fn filter_pending_excludes_done() {
    let mut store = empty_store();
    add_todo(&mut store, "Pending".into(), Priority::Low, None);
    add_todo(&mut store, "Done".into(), Priority::Low, None);
    mark_done(&mut store, 2);
    let result = filter_todos(&store, &ListFilter::Pending);
    assert_eq!(result.len(), 1);
    assert_eq!(result[0].title, "Pending");
}

#[test]
fn filter_done_excludes_pending() {
    let mut store = empty_store();
    add_todo(&mut store, "Pending".into(), Priority::Low, None);
    add_todo(&mut store, "Done".into(), Priority::Low, None);
    mark_done(&mut store, 2);
    let result = filter_todos(&store, &ListFilter::Done);
    assert_eq!(result.len(), 1);
    assert_eq!(result[0].title, "Done");
}

#[test]
fn filter_all_returns_everything() {
    let mut store = empty_store();
    add_todo(&mut store, "A".into(), Priority::Low, None);
    add_todo(&mut store, "B".into(), Priority::High, None);
    mark_done(&mut store, 2);
    let result = filter_todos(&store, &ListFilter::All);
    assert_eq!(result.len(), 2);
}

#[test]
fn filter_scenario_after_completing_second_task() {
    let mut store = empty_store();
    add_todo(&mut store, "first".into(), Priority::Medium, None);
    add_todo(&mut store, "second".into(), Priority::Medium, None);
    assert!(mark_done(&mut store, 2));
    let pending = filter_todos(&store, &ListFilter::Pending);
    assert_eq!(pending.len(), 1);
    assert_eq!(pending[0].id, 1);
    let done = filter_todos(&store, &ListFilter::Done);
    assert_eq!(done.len(), 1);
    assert_eq!(done[0].id, 2);
    let all = filter_todos(&store, &ListFilter::All);
    assert_eq!(all.len(), 2);
    assert_eq!(all[0].id, 1);
    assert_eq!(all[1].id, 2);
}

#[test]
fn add_then_filter_pending_includes_new_task() {
    let mut store = empty_store();
    add_todo(&mut store, "old".into(), Priority::Low, None);
    mark_done(&mut store, 1);
    let id = add_todo(&mut store, "new".into(), Priority::Medium, None);
    let pending = filter_todos(&store, &ListFilter::Pending);
    assert_eq!(pending.len(), 1);
    assert_eq!(pending[0].id, id);
    assert!(!pending[0].completed);
}

#[test]
fn remove_missing_id_leaves_store_unchanged() {
    let mut store = empty_store();
    add_todo(&mut store, "Task".into(), Priority::High, Some("2026-06-01".into()));
    assert!(!remove_todo(&mut store, 42));
    assert_eq!(store.next_id, 2);
    assert_eq!(store.todos.len(), 1);
    assert_eq!(store.todos[0].id, 1);
    assert_eq!(store.todos[0].title, "Task");
    assert_eq!(store.todos[0].priority, Priority::High);
    assert_eq!(store.todos[0].due_date.as_deref(), Some("2026-06-01"));
    assert!(!store.todos[0].completed);
}

// -- Priority text tests --

#[test]
fn priority_display() {
    assert_eq!(Priority::High.text(), "high");
    assert_eq!(Priority::Medium.text(), "medium");
    assert_eq!(Priority::Low.text(), "low");
}
