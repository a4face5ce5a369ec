use trackr::commands::{add_task, delete_task, mark_task, next_id, shown, update_task, Commands};
use trackr::storage::Storage;
use trackr::task::{Task, TaskStatus};

fn three() -> Vec<Task> {
    vec![
        Task::new(1, "Task 1".to_string()),
        Task::with_status(5, "Task 2".to_string(), TaskStatus::Done),
        Task::with_status(3, "Task 3".to_string(), TaskStatus::InProgress),
    ]
}

#[test]
fn commands_keep_their_storage() {
    let c = Commands::new(Storage::new("x.json"));
    assert_eq!(c.storage_ref().file_path, "x.json");
}

#[test]
fn next_id_is_one_past_the_largest() {
    assert_eq!(next_id(&Vec::new()), Some(1));
    assert_eq!(next_id(&three()), Some(6));
    assert_eq!(next_id(&vec![Task::new(4294967295, "x".to_string())]), None);
}

#[test]
fn add_appends_a_todo_task() {
    let mut tasks = three();
    assert_eq!(add_task(&mut tasks, "New".to_string()), Some(6));
    assert_eq!(tasks.len(), 4);
    assert_eq!(tasks[3].id, 6);
    assert_eq!(tasks[3].description, "New");
    assert_eq!(tasks[3].status, TaskStatus::Todo);
}

#[test]
fn add_after_delete_takes_next_free_id() {
    let mut tasks = three();
    assert!(delete_task(&mut tasks, 5));
    assert_eq!(add_task(&mut tasks, "Task 4".to_string()), Some(4));
}

#[test]
fn update_changes_only_the_description() {
    let mut tasks = three();
    assert_eq!(update_task(&mut tasks, 5, "Updated".to_string()), Some(1));
    assert_eq!(tasks[1].description, "Updated");
    assert_eq!(tasks[1].status, TaskStatus::Done);
    assert_eq!(update_task(&mut tasks, 999, "no".to_string()), None);
    assert_eq!(tasks[0].description, "Task 1");
}

#[test]
fn mark_changes_only_the_status() {
    let mut tasks = three();
    assert_eq!(mark_task(&mut tasks, 1, TaskStatus::Done), Some(0));
    assert_eq!(tasks[0].status, TaskStatus::Done);
    assert_eq!(tasks[0].description, "Task 1");
    assert_eq!(mark_task(&mut tasks, 999, TaskStatus::Todo), None);
}

#[test]
fn delete_removes_every_task_with_the_id() {
    let mut tasks = three();
    tasks.push(Task::new(5, "again".to_string()));
    assert!(delete_task(&mut tasks, 5));
    assert_eq!(tasks.len(), 2);
    assert_eq!(tasks[0].id, 1);
    assert_eq!(tasks[1].id, 3);
    assert!(!delete_task(&mut tasks, 999));
    assert_eq!(tasks.len(), 2);
}

#[test]
fn shown_filters_by_status() {
    let tasks = three();
    assert_eq!(shown(&tasks, None), vec![0, 1, 2]);
    assert_eq!(shown(&tasks, Some(TaskStatus::Done)), vec![1]);
    assert_eq!(shown(&tasks, Some(TaskStatus::Todo)), vec![0]);
    assert_eq!(shown(&Vec::new(), Some(TaskStatus::Todo)), Vec::<usize>::new());
}
