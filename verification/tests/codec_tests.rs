use todo_list::codec::{from_json, to_json};
use todo_list::todo::{Todo, TodoFileError};

#[test]
fn encoding_has_exact_canonical_form() {
    let mut todo = Todo::new();
    todo.add(&"Task1".to_string(), 2);
    let text = to_json(&todo);
    assert_eq!(text, "{\"list\":[{\"name\":\"Task1\",\"priority\":2,\"done\":false}]}");
}

#[test]
fn empty_list_encodes_and_decodes() {
    let todo = Todo::new();
    let text = to_json(&todo);
    assert_eq!(text, "{\"list\":[]}");
    let back = from_json(&text).unwrap();
    assert_eq!(back.list.len(), 0);
}

#[test]
fn json_round_trip_preserves_fields() {
    let mut todo = Todo::new();
    todo.add(&"Task1".to_string(), 2);
    todo.add(&"Task2".to_string(), 7);
    todo.add(&"Task3".to_string(), 0);
    todo.done(2);
    let text = to_json(&todo);
    let back = from_json(&text).unwrap();
    assert_eq!(back.list.len(), todo.list.len());
    for k in 0..todo.list.len() {
        assert_eq!(back.list[k].name, todo.list[k].name);
        assert_eq!(back.list[k].priority, todo.list[k].priority);
        assert_eq!(back.list[k].done, todo.list[k].done);
    }
}

#[test]
fn json_round_trip_keeps_order() {
    let mut todo = Todo::new();
    todo.add(&"High".to_string(), 9);
    todo.add(&"Mid".to_string(), 5);
    todo.add(&"Low".to_string(), 1);
    let text = to_json(&todo);
    let back = from_json(&text).unwrap();
    assert_eq!(back.list[0].name, "High");
    assert_eq!(back.list[1].name, "Mid");
    assert_eq!(back.list[2].name, "Low");
}

#[test]
fn json_round_trip_escapes_special_characters() {
    let mut todo = Todo::new();
    todo.add(&"say \"hi\"".to_string(), 1);
    todo.add(&"back\\slash".to_string(), 2);
    todo.add(&"tab\there".to_string(), 3);
    todo.add(&"line\nbreak".to_string(), 4);
    todo.add(&"bell\u{7}ring".to_string(), 5);
    todo.add(&"smile \u{1F600} wide".to_string(), 6);
    let text = to_json(&todo);
    let back = from_json(&text).unwrap();
    assert_eq!(back.list.len(), todo.list.len());
    for k in 0..todo.list.len() {
        assert_eq!(back.list[k].name, todo.list[k].name);
    }
}

#[test]
fn control_characters_are_stored_as_escapes() {
    let mut todo = Todo::new();
    todo.add(&"a\u{1}b".to_string(), 0);
    let text = to_json(&todo);
    assert_eq!(text, "{\"list\":[{\"name\":\"a\\u0001b\",\"priority\":0,\"done\":false}]}");
    let back = from_json(&text).unwrap();
    assert_eq!(back.list[0].name, "a\u{1}b");
}

#[test]
fn large_priorities_survive_the_round_trip() {
    let mut todo = Todo::new();
    todo.add(&"big".to_string(), 3);
    todo.set_priority(0, 255);
    let text = to_json(&todo);
    let back = from_json(&text).unwrap();
    assert_eq!(back.list[0].priority, 255);
}

#[test]
fn garbage_is_a_decode_error() {
    assert_eq!(from_json("not a list").unwrap_err(), TodoFileError::SerializationError);
}

#[test]
fn truncated_text_is_a_decode_error() {
    assert_eq!(
        from_json("{\"list\":[{\"name\":\"Task1\",\"priority\":2,").unwrap_err(),
        TodoFileError::SerializationError
    );
}

#[test]
fn trailing_text_is_a_decode_error() {
    assert_eq!(
        from_json("{\"list\":[]}trailing").unwrap_err(),
        TodoFileError::SerializationError
    );
}

#[test]
fn priority_above_one_byte_is_a_decode_error() {
    assert_eq!(
        from_json("{\"list\":[{\"name\":\"x\",\"priority\":256,\"done\":false}]}").unwrap_err(),
        TodoFileError::SerializationError
    );
}
