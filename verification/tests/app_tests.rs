use todo_list::app::{App, Effect, KeyCode, KeyEvent};
use todo_list::todo::Todo;

fn press(code: KeyCode) -> KeyEvent {
    KeyEvent { code, pressed: true }
}

#[test]
fn select_next_test() {
    let mut app = App::new(Todo::new());
    app.list.add(&"Task1".to_string(), 2);
    app.list.add(&"Task2".to_string(), 2);
    app.list.add(&"Task3".to_string(), 2);

    app.select_none();
    assert_eq!(app.get_selected(), None);
    app.select_first();
    assert_eq!(app.get_selected(), Some(0));
    app.select_next();
    assert_eq!(app.get_selected(), Some(1));
    app.select_next();
    assert_eq!(app.get_selected(), Some(2));
    app.select_previous();
    assert_eq!(app.get_selected(), Some(1));
    app.select_last();
    assert_eq!(app.get_selected(), Some(2));
    app.select_none();
    assert_eq!(app.get_selected(), None);
}

#[test]
fn edit_task_test() {
    let mut app = App::new(Todo::new());
    app.list.add(&"Task1".to_string(), 2);

    app.select_first();
    app.toggle_edit_mode(false);
    app.erase_text();
    app.add_text('2');
    app.change_priority(true);
    app.toggle_edit_mode(false);
    assert_eq!(app.get_list().task(0).name, "Task2".to_string());
    assert_eq!(app.get_list().task(0).priority, 3);
}

#[test]
fn edit_task_cancel_test() {
    let mut app = App::new(Todo::new());
    app.list.add(&"Task1".to_string(), 2);

    app.select_first();
    app.toggle_edit_mode(false);
    app.erase_text();
    app.add_text('2');
    app.change_priority(true);
    app.toggle_edit_mode(true);
    assert_eq!(app.get_list().task(0).name, "Task1".to_string());
    assert_eq!(app.get_list().task(0).priority, 2);
}

#[test]
fn add_task_test() {
    let mut app = App::new(Todo::new());
    app.add_task();
    assert_eq!(app.get_list().task(0).name, "New".to_string());
    assert_eq!(app.is_edit_mode(), true);
    app.toggle_edit_mode(false);
    app.select_first();
    assert_eq!(app.get_selected(), Some(0));
    app.remove_task();
    app.remove_task();
    app.remove_task();
    assert_eq!(app.get_list().items().len(), 0);
    assert_eq!(app.get_selected(), None);
}

#[test]
fn add_event_selects_and_edits_new_task() {
    let mut app = App::new(Todo::new());
    let effect = app.handle_key(press(KeyCode::Char('a')));
    assert_eq!(effect, Effect::Nothing);
    assert_eq!(app.get_list().items().len(), 1);
    assert_eq!(app.get_list().task(0).name, "New".to_string());
    assert_eq!(app.get_list().task(0).priority, 0);
    assert_eq!(app.get_list().task(0).done, false);
    assert_eq!(app.get_selected(), Some(0));
    assert_eq!(app.is_edit_mode(), true);
    assert_eq!(app.get_edit_name(), "New");
    assert_eq!(app.get_edit_priority(), 0);
}

#[test]
fn removing_last_task_clears_selection() {
    let mut app = App::new(Todo::new());
    app.list.add(&"Only".to_string(), 4);
    app.select_first();
    app.handle_key(press(KeyCode::Char('r')));
    assert_eq!(app.get_list().items().len(), 0);
    assert_eq!(app.get_selected(), None);
}

#[test]
fn change_priority_clamps_at_bounds() {
    let mut app = App::new(Todo::new());
    app.list.add(&"Task1".to_string(), 0);
    app.select_first();
    app.toggle_edit_mode(false);
    app.change_priority(false);
    assert_eq!(app.get_edit_priority(), 0);
    for _ in 0..15 {
        app.change_priority(true);
    }
    assert_eq!(app.get_edit_priority(), 10);
    app.change_priority(true);
    assert_eq!(app.get_edit_priority(), 10);
}

#[test]
fn quit_key_asks_for_save_and_exits() {
    let mut app = App::new(Todo::new());
    assert_eq!(app.is_exit(), false);
    let effect = app.handle_key(press(KeyCode::Char('q')));
    assert_eq!(effect, Effect::Save);
    assert_eq!(app.is_exit(), true);
}

#[test]
fn key_release_is_ignored() {
    let mut app = App::new(Todo::new());
    let effect = app.handle_key(KeyEvent { code: KeyCode::Char('a'), pressed: false });
    assert_eq!(effect, Effect::Nothing);
    assert_eq!(app.get_list().items().len(), 0);
}

#[test]
fn toggle_done_via_key_moves_task_to_done_partition() {
    let mut app = App::new(Todo::new());
    app.list.add(&"A".to_string(), 9);
    app.list.add(&"B".to_string(), 4);
    app.select_first();
    app.handle_key(press(KeyCode::Right));
    assert_eq!(app.get_list().task(0).name, "B".to_string());
    assert_eq!(app.get_list().task(1).name, "A".to_string());
    assert_eq!(app.get_list().task(1).done, true);
}

#[test]
fn escape_while_editing_cancels_instead_of_quitting() {
    let mut app = App::new(Todo::new());
    app.list.add(&"Task1".to_string(), 2);
    app.select_first();
    app.handle_key(press(KeyCode::Enter));
    assert_eq!(app.is_edit_mode(), true);
    app.add_text('x');
    let effect = app.handle_key(press(KeyCode::Esc));
    assert_eq!(effect, Effect::Nothing);
    assert_eq!(app.is_edit_mode(), false);
    assert_eq!(app.is_exit(), false);
    assert_eq!(app.get_list().task(0).name, "Task1".to_string());
}

#[test]
fn enter_edit_without_selection_is_a_no_op() {
    let mut app = App::new(Todo::new());
    app.list.add(&"Task1".to_string(), 2);
    app.toggle_edit_mode(false);
    assert_eq!(app.is_edit_mode(), false);
}
