use todo_cli::todo_list::TodoList;

#[test]
fn summary_line_joins_the_remaining_words() {
    let e = TodoList::parse_todo_entry("  12  buy   fresh\tmilk ").unwrap();
    assert_eq!(e.id, 12);
    assert_eq!(e.title, "");
    assert_eq!(e.description, "buy fresh milk");
    assert!(!e.done);
    let e = TodoList::parse_todo_entry("-4 x").unwrap();
    assert_eq!(e.id, -4);
    assert_eq!(e.description, "x");
}

#[test]
fn summary_line_needs_id_and_a_word() {
    assert!(TodoList::parse_todo_entry("12").is_none());
    assert!(TodoList::parse_todo_entry("   ").is_none());
    assert!(TodoList::parse_todo_entry("twelve eggs").is_none());
}

#[test]
fn summary_text_gives_a_list() {
    let list = TodoList::from_string("Groceries\nweekly\n1 eggs and ham\nbad\n2 tea\n1 bread\n")
        .unwrap();
    assert_eq!(list.title, "Groceries");
    assert_eq!(list.description, "weekly");
    assert_eq!(list.entries.len(), 2);
    assert_eq!(list.entries[0].id, 1);
    assert_eq!(list.entries[0].description, "bread");
    assert_eq!(list.entries[1].id, 2);
    assert_eq!(list.entries[1].description, "tea");
    assert!(TodoList::from_string("only a title").is_none());
}
