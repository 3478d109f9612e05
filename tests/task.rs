use todolist::mutation::{check_parent, find_task, plan_create, plan_toggle, plan_update};
use todolist::task::{Column, SelectTask, Task, TaskError, Timestamp, UpdateTask};

fn select(date: &str) -> SelectTask {
    SelectTask {
        id: 7,
        parent_id: Some(3),
        name: "Cleaning".to_string(),
        completed: true,
        description: Some("kitchen".to_string()),
        creation_date: date.to_string(),
    }
}

fn task(id: u32, completed: bool) -> Task {
    Task {
        id,
        parent_id: None,
        name: format!("t{}", id),
        completed,
        description: None,
        creation_date: Timestamp { year: 2023, month: 1, day: 2, hour: 3, minute: 4, second: 5 },
    }
}

#[test]
fn stored_record_reads_into_task() {
    let t = Task::from_select(select("2024-03-05 14:07:09")).expect("date parses");
    assert_eq!(t.id, 7);
    assert_eq!(t.parent_id, Some(3));
    assert_eq!(t.name, "Cleaning");
    assert!(t.completed);
    assert_eq!(t.description.as_deref(), Some("kitchen"));
    assert_eq!(
        t.creation_date,
        Timestamp { year: 2024, month: 3, day: 5, hour: 14, minute: 7, second: 9 }
    );
}

#[test]
fn unreadable_date_is_malformed() {
    assert_eq!(Task::from_select(select("yesterday")).err(), Some(TaskError::MalformedRecord));
    assert_eq!(
        Task::from_select(select("2024-03-05 24:00:00")).err(),
        Some(TaskError::MalformedRecord)
    );
}

#[test]
fn snapshot_copies_every_field() {
    let t = task(9, true);
    let c = t.snapshot();
    assert_eq!(c.id, 9);
    assert!(c.completed);
    assert_eq!(c.name, "t9");
    assert_eq!(c.creation_date, t.creation_date);
}

#[test]
fn create_needs_a_name() {
    assert_eq!(plan_create(String::new(), None, None).err(), Some(TaskError::Validation));
    let c = plan_create("Cleaning".to_string(), Some(2), Some("d".to_string())).unwrap();
    assert_eq!(c.name, "Cleaning");
    assert_eq!(c.parent_id, Some(2));
    assert_eq!(c.description.as_deref(), Some("d"));
}

#[test]
fn update_without_fields_writes_nothing() {
    assert!(matches!(plan_update(9, None, None, None, None), Ok(None)));
}

#[test]
fn update_with_empty_name_is_refused() {
    assert_eq!(
        plan_update(9, Some(String::new()), None, None, None).err(),
        Some(TaskError::Validation)
    );
}

#[test]
fn update_keeps_given_fields() {
    let u = plan_update(9, None, Some("New description".to_string()), None, None)
        .unwrap()
        .expect("a field was given");
    assert_eq!(u.id, 9);
    assert!(u.name.is_none());
    assert_eq!(u.description.as_deref(), Some("New description"));
    assert!(u.updated());
    assert_eq!(u.changed_columns(), vec![Column::Description]);
}

#[test]
fn changed_columns_in_statement_order() {
    let u = UpdateTask {
        id: 1,
        name: Some("n".to_string()),
        parent_id: Some(4),
        description: Some("d".to_string()),
        completed: Some(true),
    };
    assert_eq!(
        u.changed_columns(),
        vec![Column::Name, Column::Description, Column::ParentId, Column::Completed]
    );
    let none = UpdateTask { id: 1, name: None, parent_id: None, description: None, completed: None };
    assert!(!none.updated());
    assert!(none.changed_columns().is_empty());
}

#[test]
fn toggle_flips_completion() {
    let tasks = vec![task(1, false), task(2, true)];
    let u = plan_toggle(&tasks, 2).unwrap();
    assert_eq!(u.id, 2);
    assert_eq!(u.completed, Some(false));
    assert!(u.name.is_none() && u.description.is_none() && u.parent_id.is_none());
    assert_eq!(plan_toggle(&tasks, 1).unwrap().completed, Some(true));
}

#[test]
fn toggle_of_missing_task_is_not_found() {
    let tasks = vec![task(1, false)];
    assert_eq!(plan_toggle(&tasks, 14).err(), Some(TaskError::NotFound));
    assert_eq!(find_task(&tasks, 14).err(), Some(TaskError::NotFound));
    assert_eq!(find_task(&tasks, 1).unwrap().id, 1);
}

fn child(id: u32, parent_id: Option<u32>) -> Task {
    let mut t = task(id, false);
    t.parent_id = parent_id;
    t
}

#[test]
fn reparenting_below_a_descendant_is_refused() {
    let tasks = vec![child(1, None), child(2, Some(1)), child(3, Some(2)), child(4, None)];
    assert_eq!(check_parent(&tasks, 1, Some(3)), Err(TaskError::Cycle));
    assert_eq!(check_parent(&tasks, 2, Some(2)), Err(TaskError::Cycle));
    assert_eq!(check_parent(&tasks, 3, Some(4)), Ok(()));
    assert_eq!(check_parent(&tasks, 2, Some(1)), Ok(()));
    assert_eq!(check_parent(&tasks, 1, None), Ok(()));
    assert_eq!(check_parent(&tasks, 1, Some(9)), Err(TaskError::NotFound));
}

#[test]
fn reparenting_onto_a_looping_chain_is_refused() {
    let tasks = vec![child(1, None), child(5, Some(6)), child(6, Some(5))];
    assert_eq!(check_parent(&tasks, 1, Some(5)), Err(TaskError::Cycle));
}
