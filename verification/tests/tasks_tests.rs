use todo_cli::codec::encode_tasks;
use todo_cli::listing::list_tasks;
use todo_cli::listing::to_decimal;
use todo_cli::tasks::Task;
use todo_cli::tasks::add_task;
use todo_cli::tasks::mark_done;
use todo_cli::tasks::remove_task;

fn descriptions(tasks: &Vec<Task>) -> Vec<String> {
    tasks.iter().map(|t| t.description.clone()).collect()
}

fn flags(tasks: &Vec<Task>) -> Vec<bool> {
    tasks.iter().map(|t| t.done).collect()
}

#[test]
fn adds_list_in_order() {
    let mut tasks: Vec<Task> = Vec::new();
    add_task(&mut tasks, String::from("Buy milk"));
    add_task(&mut tasks, String::from("Write report"));
    let lines = list_tasks(&tasks);
    assert_eq!(lines, vec!["1: [ ] Buy milk", "2: [ ] Write report"]);
}

#[test]
fn scenario_add_done_remove() {
    let mut tasks: Vec<Task> = Vec::new();
    add_task(&mut tasks, String::from("Buy milk"));
    add_task(&mut tasks, String::from("Write report"));
    let lines = list_tasks(&tasks);
    assert_eq!(lines, vec!["1: [ ] Buy milk", "2: [ ] Write report"]);
    assert!(mark_done(&mut tasks, 1));
    let lines = list_tasks(&tasks);
    assert_eq!(lines, vec!["1: [x] Buy milk", "2: [ ] Write report"]);
    assert!(remove_task(&mut tasks, 1));
    let lines = list_tasks(&tasks);
    assert_eq!(lines, vec!["1: [ ] Write report"]);
}

#[test]
fn mark_done_touches_only_its_task_and_is_idempotent() {
    let mut tasks: Vec<Task> = Vec::new();
    add_task(&mut tasks, String::from("a"));
    add_task(&mut tasks, String::from("b"));
    add_task(&mut tasks, String::from("c"));
    assert!(mark_done(&mut tasks, 2));
    assert_eq!(flags(&tasks), vec![false, true, false]);
    assert_eq!(descriptions(&tasks), vec!["a", "b", "c"]);
    assert!(mark_done(&mut tasks, 2));
    assert_eq!(flags(&tasks), vec![false, true, false]);
    assert_eq!(descriptions(&tasks), vec!["a", "b", "c"]);
}

#[test]
fn remove_deletes_one_and_shifts() {
    let mut tasks: Vec<Task> = Vec::new();
    add_task(&mut tasks, String::from("a"));
    add_task(&mut tasks, String::from("b"));
    add_task(&mut tasks, String::from("c"));
    assert!(remove_task(&mut tasks, 2));
    assert_eq!(tasks.len(), 2);
    assert_eq!(descriptions(&tasks), vec!["a", "c"]);
}

#[test]
fn invalid_indices_leave_store_unchanged() {
    let mut tasks: Vec<Task> = Vec::new();
    add_task(&mut tasks, String::from("a"));
    add_task(&mut tasks, String::from("b"));
    let before = encode_tasks(&tasks);
    assert!(!mark_done(&mut tasks, 0));
    assert!(!mark_done(&mut tasks, 3));
    assert!(!remove_task(&mut tasks, 0));
    assert!(!remove_task(&mut tasks, 3));
    assert_eq!(encode_tasks(&tasks), before);
}

#[test]
fn invalid_indices_on_empty_list() {
    let mut tasks: Vec<Task> = Vec::new();
    assert!(!mark_done(&mut tasks, 0));
    assert!(!mark_done(&mut tasks, 1));
    assert!(!remove_task(&mut tasks, 0));
    assert!(!remove_task(&mut tasks, 1));
    assert!(tasks.is_empty());
}

#[test]
fn empty_list_has_no_lines() {
    let tasks: Vec<Task> = Vec::new();
    assert!(list_tasks(&tasks).is_empty());
}

#[test]
fn positions_render_in_decimal() {
    let mut tasks: Vec<Task> = Vec::new();
    for i in 0..12 {
        add_task(&mut tasks, format!("task {}", i));
    }
    let lines = list_tasks(&tasks);
    assert_eq!(lines[9], "10: [ ] task 9");
    assert_eq!(lines[11], "12: [ ] task 11");
}

#[test]
fn decimal_rendering_exact() {
    assert_eq!(to_decimal(0), "0");
    assert_eq!(to_decimal(7), "7");
    assert_eq!(to_decimal(10), "10");
    assert_eq!(to_decimal(90210), "90210");
}

#[test]
fn empty_description_is_allowed() {
    let mut tasks: Vec<Task> = Vec::new();
    add_task(&mut tasks, String::new());
    let lines = list_tasks(&tasks);
    assert_eq!(lines, vec!["1: [ ] "]);
}
