use todo_cli::todo_connector::TodoConnector;
use todo_cli::todo_list::{TodoEntry, TodoList};
use todo_cli::todo_planner::{TodoListElement, TodoPlanner};

fn connector() -> TodoConnector {
    TodoConnector::new("./todo_files", TodoPlanner::new())
}

#[test]
fn entry_line_has_four_fields() {
    let c = connector();
    let mut e = TodoEntry::new(3, "III".to_string(), "read".to_string());
    assert_eq!(c.serialize_todo_entry(&e), "3 III read false");
    e.done = true;
    assert_eq!(c.serialize_todo_entry(&e), "3 III read true");
    let n = TodoEntry::new(-12, "x".to_string(), "y".to_string());
    assert_eq!(c.serialize_todo_entry(&n), "-12 x y false");
}

#[test]
fn list_text_has_title_description_and_entries() {
    let c = connector();
    let mut list = TodoList::new("Work".to_string(), "desc".to_string());
    list.add_entry(0, "I".to_string(), "milk".to_string());
    list.add_entry(1, "II".to_string(), "bread".to_string());
    list.mark_done(1);
    let text = c.serialize_todo_list_element(&TodoListElement { todo_list: list });
    assert_eq!(text, "Work\ndesc\n0 I milk false\n1 II bread true\n");
}

#[test]
fn entry_line_is_read_back() {
    let c = connector();
    let e = c.deserialize_todo_entry("  7 VIII paint true ").unwrap();
    assert_eq!(e.id, 7);
    assert_eq!(e.title, "VIII");
    assert_eq!(e.description, "paint");
    assert!(e.done);
    let e = c.deserialize_todo_entry("+7 a b false").unwrap();
    assert_eq!(e.id, 7);
    assert!(!e.done);
    let e = c.deserialize_todo_entry("-3 a\tb  maybe so").unwrap();
    assert_eq!(e.id, -3);
    assert_eq!(e.description, "b");
    assert!(!e.done);
}

#[test]
fn bad_entry_lines_are_refused() {
    let c = connector();
    assert!(c.deserialize_todo_entry("1 I milk").is_none());
    assert!(c.deserialize_todo_entry("").is_none());
    assert!(c.deserialize_todo_entry("one I milk true").is_none());
    assert!(c.deserialize_todo_entry("99999999999 I milk true").is_none());
    assert!(c.deserialize_todo_entry("- I milk true").is_none());
}

#[test]
fn short_line_is_skipped_and_reading_goes_on() {
    let c = connector();
    let el = c
        .deserialize_todo_list_element("Work\ndesc\n0 I buy\nnot an entry line\n1 II milk false\n")
        .unwrap();
    let list = el.todo_list;
    assert_eq!(list.entries.len(), 1);
    assert_eq!(list.entries[0].id, 1);
    assert_eq!(list.entries[0].description, "milk");
}

#[test]
fn text_without_two_lines_gives_no_list() {
    let c = connector();
    assert!(c.deserialize_todo_list_element("").is_none());
    assert!(c.deserialize_todo_list_element("Work").is_none());
    assert!(c.deserialize_todo_list_element("Work\n").is_none());
    let el = c.deserialize_todo_list_element("Work\r\ndesc").unwrap();
    assert_eq!(el.todo_list.title, "Work");
    assert_eq!(el.todo_list.description, "desc");
    assert!(el.todo_list.entries.is_empty());
}

#[test]
fn later_line_replaces_entry_with_same_id() {
    let c = connector();
    let el = c
        .deserialize_todo_list_element("T\nD\n4 IV a true\n2 II b false\n4 V c false\n")
        .unwrap();
    let list = el.todo_list;
    assert_eq!(list.entries.len(), 2);
    assert_eq!(list.entries[0].id, 4);
    assert_eq!(list.entries[0].description, "c");
    assert!(!list.entries[0].done);
    assert_eq!(list.entries[1].id, 2);
}

#[test]
fn save_then_reload_keeps_two_entries() {
    let c = connector();
    let mut list = TodoList::new("Home".to_string(), "chores".to_string());
    list.add_entry(0, "I".to_string(), "dishes".to_string());
    list.add_entry(1, "II".to_string(), "laundry".to_string());
    list.mark_done(0);
    let text = c.serialize_todo_list_element(&TodoListElement { todo_list: list });
    let back = c.deserialize_todo_list_element(&text).unwrap().todo_list;
    assert_eq!(back.title, "Home");
    assert_eq!(back.description, "chores");
    assert_eq!(back.entries.len(), 2);
    let first = back.entries.iter().find(|e| e.id == 0).unwrap();
    assert_eq!(first.title, "I");
    assert_eq!(first.description, "dishes");
    assert!(first.done);
    let second = back.entries.iter().find(|e| e.id == 1).unwrap();
    assert_eq!(second.title, "II");
    assert_eq!(second.description, "laundry");
    assert!(!second.done);
}

#[test]
fn reencoding_decoded_text_gives_same_list() {
    let c = connector();
    let text = "Shop\nweekly\n 5  V  eggs  true\n2 II bread false extra\n";
    let first = c.deserialize_todo_list_element(text).unwrap();
    let again = c.serialize_todo_list_element(&first);
    assert_eq!(again, "Shop\nweekly\n5 V eggs true\n2 II bread false\n");
    let second = c.deserialize_todo_list_element(&again).unwrap();
    assert_eq!(c.serialize_todo_list_element(&second), again);
}

#[test]
fn loading_adds_only_readable_lists() {
    let mut c = connector();
    assert!(c.load_todo_list("A\nfirst\n0 I x false\n"));
    assert!(!c.load_todo_list("lonely line"));
    assert!(c.load_todo_list("B\nsecond\n"));
    assert_eq!(c.planner.todo_lists.len(), 2);
    let files = c.files_to_save();
    assert_eq!(files.len(), 2);
    assert_eq!(files[0].0, "A.txt");
    assert_eq!(files[0].1, "A\nfirst\n0 I x false\n");
    assert_eq!(files[1].0, "B.txt");
    assert_eq!(files[1].1, "B\nsecond\n");
}

#[test]
fn file_path_joins_directory_and_name() {
    let c = connector();
    assert_eq!(c.file_writer.get_file_path("Work.txt"), "./todo_files/Work.txt");
}
