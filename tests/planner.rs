use todo_cli::todo_list::TodoList;
use todo_cli::todo_planner::{Command, MenuStep, Outcome, Request, TodoPlanner};

fn planner_with_work() -> TodoPlanner {
    let mut p = TodoPlanner::new();
    let r = p.handle_request(Request::AddTodoList {
        title: "Work".to_string(),
        description: "desc".to_string(),
    });
    assert!(matches!(r, Outcome::Done));
    p
}

#[test]
fn adding_entries_numbers_them_in_roman() {
    let mut p = planner_with_work();
    let r = p.handle_request(Request::AddTodoEntry { id: 0, description: "buy milk".to_string() });
    assert!(matches!(r, Outcome::Done));
    let list = &p.todo_lists[0].todo_list;
    assert_eq!(list.title, "Work");
    assert_eq!(list.description, "desc");
    assert_eq!(list.entries[0].id, 0);
    assert_eq!(list.entries[0].title, "I");
    assert_eq!(list.entries[0].description, "buy milk");
    assert!(!list.entries[0].done);
    assert!(p.add_todo_entry(0, "call".to_string()));
    let list = &p.todo_lists[0].todo_list;
    assert_eq!(list.entries[1].id, 1);
    assert_eq!(list.entries[1].title, "II");
}

#[test]
fn new_entry_after_deletion_gets_unused_id() {
    let mut p = planner_with_work();
    assert!(p.add_todo_entry(0, "a".to_string()));
    assert!(p.add_todo_entry(0, "b".to_string()));
    assert!(p.delete_todo_entry(0, 0));
    assert!(p.add_todo_entry(0, "c".to_string()));
    let list = &p.todo_lists[0].todo_list;
    assert_eq!(list.entries.len(), 2);
    assert_eq!(list.entries[0].id, 1);
    assert_eq!(list.entries[1].id, 2);
    assert_eq!(list.entries[1].title, "III");
}

#[test]
fn no_entry_when_ids_run_out() {
    let mut p = planner_with_work();
    p.todo_lists[0].todo_list.add_entry(i32::MAX - 1, "x".to_string(), "y".to_string());
    assert!(!p.add_todo_entry(0, "z".to_string()));
    assert_eq!(p.todo_lists[0].todo_list.entries.len(), 1);
    let mut q = planner_with_work();
    q.todo_lists[0].todo_list.add_entry(i32::MAX - 2, "x".to_string(), "y".to_string());
    assert!(q.add_todo_entry(0, "z".to_string()));
    assert_eq!(q.todo_lists[0].todo_list.entries[1].id, i32::MAX - 1);
}

#[test]
fn exit_command_ends_the_loop() {
    let mut p = planner_with_work();
    assert_eq!(p.menu_step(8), MenuStep::NoTarget);
    assert_eq!(TodoPlanner::new().menu_step(8), MenuStep::NoTarget);
    assert_eq!(TodoPlanner::parse_command_input(8), Some(Command::Exit));
    assert!(matches!(p.handle_request(Request::Exit), Outcome::Exit));
    assert_eq!(p.todo_lists.len(), 1);
}

#[test]
fn commands_needing_a_list_are_refused_without_one() {
    let empty = TodoPlanner::new();
    assert_eq!(empty.menu_step(2), MenuStep::InvalidCommand);
    assert_eq!(empty.menu_step(9), MenuStep::InvalidCommand);
    assert_eq!(empty.menu_step(1), MenuStep::NoTarget);
    assert_eq!(empty.menu_step(7), MenuStep::NoTarget);
    let p = planner_with_work();
    assert_eq!(p.menu_step(5), MenuStep::AskTarget);
    assert_eq!(p.menu_step(0), MenuStep::AskTarget);
}

#[test]
fn command_numbers_map_to_commands() {
    assert_eq!(TodoPlanner::parse_command_input(1), Some(Command::AddTodoList));
    assert_eq!(TodoPlanner::parse_command_input(2), Some(Command::DeleteTodoList));
    assert_eq!(TodoPlanner::parse_command_input(3), Some(Command::AddTodoEntry));
    assert_eq!(TodoPlanner::parse_command_input(4), Some(Command::DeleteTodoEntry));
    assert_eq!(TodoPlanner::parse_command_input(5), Some(Command::MarkTodoEntryAsDone));
    assert_eq!(TodoPlanner::parse_command_input(6), Some(Command::PrintAllTodoEntries));
    assert_eq!(TodoPlanner::parse_command_input(7), Some(Command::PrintAllTodoLists));
    assert_eq!(TodoPlanner::parse_command_input(0), None);
    assert_eq!(TodoPlanner::parse_command_input(9), None);
    assert_eq!(TodoPlanner::parse_command_input(-1), None);
}

#[test]
fn menu_hides_list_commands_without_lists() {
    let empty = TodoPlanner::new();
    let shown: Vec<usize> = (0..8).filter(|i| empty.command_visible(*i)).collect();
    assert_eq!(shown, vec![0, 7]);
    let p = planner_with_work();
    assert!((0..8).all(|i| p.command_visible(i)));
}

#[test]
fn unknown_list_id_is_invalid() {
    let mut p = planner_with_work();
    assert!(matches!(p.handle_request(Request::DeleteTodoList { id: 3 }), Outcome::InvalidId));
    assert!(matches!(
        p.handle_request(Request::AddTodoEntry { id: -1, description: "x".to_string() }),
        Outcome::InvalidId
    ));
    assert!(matches!(
        p.handle_request(Request::MarkTodoEntryAsDone { id: 1, entry_id: 0 }),
        Outcome::InvalidId
    ));
    assert!(matches!(p.handle_request(Request::PrintAllTodoEntries { id: 1 }), Outcome::InvalidId));
    assert!(p.find_todo_list_by_id(1).is_none());
    assert_eq!(p.todo_lists.len(), 1);
    assert!(p.todo_lists[0].todo_list.entries.is_empty());
}

#[test]
fn list_is_resolved_by_its_place_not_its_entry_count() {
    let mut p = planner_with_work();
    p.add_new_todo_list("Home".to_string(), "house".to_string());
    assert!(p.add_todo_entry(1, "sweep".to_string()));
    assert!(p.todo_lists[0].todo_list.entries.is_empty());
    assert_eq!(p.todo_lists[1].todo_list.entries.len(), 1);
    assert!(p.delete_todo_list(0));
    assert_eq!(p.todo_lists.len(), 1);
    assert_eq!(p.find_todo_list_by_id(0).unwrap().title, "Home");
}

#[test]
fn mark_done_on_missing_id_changes_nothing() {
    let mut list = TodoList::new("T".to_string(), "D".to_string());
    list.add_entry(0, "I".to_string(), "a".to_string());
    list.mark_done(5);
    assert_eq!(list.entries.len(), 1);
    assert!(!list.entries[0].done);
    assert_eq!(list.entries[0].description, "a");
    list.mark_done(0);
    assert!(list.entries[0].done);
}

#[test]
fn delete_entry_removes_only_that_id() {
    let mut list = TodoList::new("T".to_string(), "D".to_string());
    list.add_entry(0, "I".to_string(), "a".to_string());
    list.add_entry(1, "II".to_string(), "b".to_string());
    list.delete_entry(7);
    assert_eq!(list.entries.len(), 2);
    list.delete_entry(0);
    assert_eq!(list.entries.len(), 1);
    assert_eq!(list.entries[0].id, 1);
}

#[test]
fn add_entry_with_existing_id_overwrites() {
    let mut list = TodoList::new("T".to_string(), "D".to_string());
    list.add_entry(0, "I".to_string(), "a".to_string());
    list.mark_done(0);
    list.add_entry(0, "I".to_string(), "b".to_string());
    assert_eq!(list.entries.len(), 1);
    assert_eq!(list.entries[0].description, "b");
    assert!(!list.entries[0].done);
}

#[test]
fn lists_and_entries_are_shown() {
    let mut p = planner_with_work();
    assert!(p.add_todo_entry(0, "buy milk".to_string()));
    assert!(p.mark_todo_entry_as_done(0, 0));
    assert!(p.add_todo_entry(0, "call".to_string()));
    match p.handle_request(Request::PrintAllTodoEntries { id: 0 }) {
        Outcome::Show(lines) => assert_eq!(lines, vec!["I. [x] buy milk", "II. [ ] call"]),
        _ => panic!("expected lines"),
    }
    match p.handle_request(Request::PrintAllTodoLists) {
        Outcome::Show(lines) => {
            assert_eq!(lines, vec!["Work: desc", "I. [x] buy milk", "II. [ ] call"])
        }
        _ => panic!("expected lines"),
    }
    assert_eq!(p.todo_lists[0].todo_list.to_string(), "I buy milk\nII call\n");
}
