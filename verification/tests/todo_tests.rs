use todo_list::todo::{Task, TaskStyle, Todo};

#[test]
fn new_task_feilds_are_correct() {
    let task = Task::new(&"Test".to_string(), 5);
    assert_eq!(task.name, "Test");
    assert_eq!(task.priority, 5);
    assert_eq!(task.done, false);
}

#[test]
fn display_style_matches_priority_bands() {
    assert_eq!(Task::new(&"Small".to_string(), 1).display_style(), TaskStyle::Plain);
    assert_eq!(Task::new(&"Normal".to_string(), 5).display_style(), TaskStyle::Highlighted);
    assert_eq!(Task::new(&"Highest".to_string(), 9).display_style(), TaskStyle::Strong);
    let mut done_task = Task::new(&"Done".to_string(), 9);
    done_task.done = true;
    assert_eq!(done_task.display_style(), TaskStyle::Struck);
}

#[test]
fn empty_list_len_is_zero() {
    let todo = Todo::new();
    assert_eq!(todo.list.len(), 0);
}

#[test]
fn add_task_increases_length() {
    let mut todo = Todo::new();
    todo.add(&"Task1".to_string(), 2);
    assert_eq!(todo.list.len(), 1);
}

#[test]
fn added_task_correct_info() {
    let mut todo = Todo::new();
    todo.add(&"Task1".to_string(), 2);
    assert_eq!(todo.list[0].name, "Task1".to_string());
    assert_eq!(todo.list[0].priority, 2);
    assert_eq!(todo.list[0].done, false);
}

#[test]
fn add_clamps_priority_to_ten() {
    let mut todo = Todo::new();
    todo.add(&"Urgent".to_string(), 15);
    assert_eq!(todo.list[0].priority, 10);
}

#[test]
fn rename_priority_and_done_updates() {
    let mut todo = Todo::new();
    todo.add(&"Task1".to_string(), 2);
    todo.rename(0, &"Task2".to_string());
    assert_eq!(todo.list[0].name, "Task2".to_string());
    todo.set_priority(0, 5);
    assert_eq!(todo.list[0].priority, 5);
    todo.done(0);
    assert_eq!(todo.list[0].done, true);
}

#[test]
fn remove_task() {
    let mut todo = Todo::new();
    todo.add(&"Task1".to_string(), 2);
    todo.add(&"Task2".to_string(), 2);
    assert_eq!(todo.remove(&vec![0]), Ok(()));
    assert_eq!(todo.list.len(), 1);
    assert_eq!(todo.list[0].name, "Task2".to_string());
}

#[test]
fn remove_task_out_of_bounds() {
    let mut todo = Todo::new();
    todo.add(&"Task1".to_string(), 2);
    todo.add(&"Task2".to_string(), 2);
    assert_eq!(todo.remove(&vec![0, 2]), Err(()));
}

#[test]
fn remove_out_of_bounds_changes_nothing() {
    let mut todo = Todo::new();
    todo.add(&"Task1".to_string(), 2);
    todo.add(&"Task2".to_string(), 5);
    assert_eq!(todo.remove(&vec![0, 2]), Err(()));
    assert_eq!(todo.list.len(), 2);
    assert_eq!(todo.list[0].name, "Task2".to_string());
    assert_eq!(todo.list[1].name, "Task1".to_string());
}

#[test]
fn remove_duplicates_are_harmless() {
    let mut todo = Todo::new();
    todo.add(&"Task1".to_string(), 2);
    todo.add(&"Task2".to_string(), 5);
    assert_eq!(todo.remove(&vec![1, 1]), Ok(()));
    assert_eq!(todo.list.len(), 1);
    assert_eq!(todo.list[0].name, "Task2".to_string());
}

#[test]
fn clear_list() {
    let mut todo = Todo::new();
    todo.add(&"Task1".to_string(), 2);
    todo.add(&"Task2".to_string(), 2);
    todo.clear();
    assert_eq!(todo.list.len(), 0);
}

#[test]
fn sort_list() {
    let mut todo = Todo::new();
    todo.add(&"Task1".to_string(), 2);
    todo.add(&"Task2".to_string(), 5);
    todo.add(&"Task3".to_string(), 1);
    todo.sort_list();
    assert_eq!(todo.list[0].name, "Task2".to_string());
    assert_eq!(todo.list[1].name, "Task1".to_string());
    assert_eq!(todo.list[2].name, "Task3".to_string());
}

#[test]
fn set_priority_out_of_bounds() {
    let mut todo = Todo::new();
    todo.add(&"Task1".to_string(), 2);
    todo.set_priority(1, 5);
    assert_eq!(todo.list[0].priority, 2);
}

#[test]
fn done_tasks_sort_after_open_tasks() {
    let mut todo = Todo::new();
    todo.add(&"A".to_string(), 9);
    todo.add(&"B".to_string(), 4);
    todo.add(&"C".to_string(), 7);
    todo.done(0);
    assert_eq!(todo.list[0].name, "C".to_string());
    assert_eq!(todo.list[1].name, "B".to_string());
    assert_eq!(todo.list[2].name, "A".to_string());
    assert_eq!(todo.list[2].done, true);
}
