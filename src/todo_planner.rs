//! The planner: the lists of one run, and the decisions of its command loop.
use vstd::prelude::*;
use crate::todo_list::{
    entry_display, fresh_id, has_id, lemma_fresh_id, marked_done, roman, without, EntryModel, ListModel, TodoEntry,
    TodoList,
};

verus! {

/// A list as the planner holds it.
pub struct TodoListElement {
    pub todo_list: TodoList,
}

/// The commands of the menu, in the order of their numbers 1 to 8.
#[derive(PartialEq, Eq, Structural, Clone, Copy, Debug)]
pub enum Command {
    AddTodoList,
    DeleteTodoList,
    AddTodoEntry,
    DeleteTodoEntry,
    MarkTodoEntryAsDone,
    PrintAllTodoEntries,
    PrintAllTodoLists,
    Exit,
}

/// The command with number `input`, if there is one.
pub open spec fn command_of(input: int) -> Option<Command> {
    if input == 1 {
        Some(Command::AddTodoList)
    } else if input == 2 {
        Some(Command::DeleteTodoList)
    } else if input == 3 {
        Some(Command::AddTodoEntry)
    } else if input == 4 {
        Some(Command::DeleteTodoEntry)
    } else if input == 5 {
        Some(Command::MarkTodoEntryAsDone)
    } else if input == 6 {
        Some(Command::PrintAllTodoEntries)
    } else if input == 7 {
        Some(Command::PrintAllTodoLists)
    } else if input == 8 {
        Some(Command::Exit)
    } else {
        None
    }
}

/// What the menu does with the number that was typed at it.
#[derive(PartialEq, Eq, Structural, Clone, Copy, Debug)]
pub enum MenuStep {
    /// The number needs a list and there is none: the menu starts again.
    InvalidCommand,
    /// A list id is asked for before the command runs.
    AskTarget,
    /// The command runs as it is.
    NoTarget,
}

/// A command together with what was typed for it.
pub enum Request {
    AddTodoList { title: String, description: String },
    DeleteTodoList { id: i32 },
    AddTodoEntry { id: i32, description: String },
    DeleteTodoEntry { id: i32, entry_id: i32 },
    MarkTodoEntryAsDone { id: i32, entry_id: i32 },
    PrintAllTodoEntries { id: i32 },
    PrintAllTodoLists,
    Exit,
}

/// What a request came to.
pub enum Outcome {
    /// Done; the menu comes again.
    Done,
    /// No list has the id that was given; nothing changed.
    InvalidId,
    /// Lines to show; the menu comes again.
    Show(Vec<String>),
    /// The loop ends.
    Exit,
}

/// The lines that show every list: for each, in order, "<title>: <description>"
/// and then its entries.
pub open spec fn overview(lists: Seq<ListModel>) -> Seq<Seq<char>>
    decreases lists.len(),
{
    if lists.len() == 0 {
        seq![]
    } else {
        let l = lists.last();
        overview(lists.drop_last()) + seq![list_heading(l)] + l.entries.map_values(
            |e: EntryModel| entry_display(e),
        )
    }
}

pub open spec fn list_heading(l: ListModel) -> Seq<char> {
    l.title + seq![':', ' '] + l.description
}

/// The entry that the planner adds to a list: the next id, titled with the
/// Roman numeral of one more than that id.
pub open spec fn new_entry(l: ListModel, description: Seq<char>) -> EntryModel {
    let id = fresh_id(l.entries);
    EntryModel { id: id as i32, title: roman(id + 1), description, done: false }
}

/// A new entry can be numbered in `l`.
pub open spec fn can_add_entry(l: ListModel) -> bool {
    fresh_id(l.entries) < i32::MAX
}

/// The lists of one run, in the order in which they were added; a list's id
/// is its place in that order, from zero.
pub struct TodoPlanner {
    pub todo_lists: Vec<TodoListElement>,
}

impl View for TodoPlanner {
    type V = Seq<ListModel>;

    open spec fn view(&self) -> Seq<ListModel> {
        self.todo_lists@.map_values(|el: TodoListElement| el.todo_list@)
    }
}

impl TodoPlanner {
    pub open spec fn wf(&self) -> bool {
        forall|i: int| 0 <= i < self.todo_lists@.len() ==> (#[trigger] self.todo_lists@[i]).todo_list.wf()
    }

    pub fn new() -> (r: TodoPlanner)
        ensures
            r.wf(),
            r@ == Seq::<ListModel>::empty(),
    {
        let r = TodoPlanner { todo_lists: Vec::new() };
        assert(r@ =~= Seq::<ListModel>::empty());
        r
    }

    /// The command with number `input`: 1 to 8 in the order of `Command`.
    pub fn parse_command_input(input: i32) -> (r: Option<Command>)
        ensures
            r == command_of(input as int),
    {
        if input == 1 {
            Some(Command::AddTodoList)
        } else if input == 2 {
            Some(Command::DeleteTodoList)
        } else if input == 3 {
            Some(Command::AddTodoEntry)
        } else if input == 4 {
            Some(Command::DeleteTodoEntry)
        } else if input == 5 {
            Some(Command::MarkTodoEntryAsDone)
        } else if input == 6 {
            Some(Command::PrintAllTodoEntries)
        } else if input == 7 {
            Some(Command::PrintAllTodoLists)
        } else if input == 8 {
            Some(Command::Exit)
        } else {
            None
        }
    }

    /// Whether the menu shows its line with index `index` (from zero): the
    /// lines of the commands 2 to 7 are hidden while there is no list.
    pub fn command_visible(&self, index: usize) -> (r: bool)
        ensures
            r == !(1 <= index <= 6 && self.todo_lists.len() == 0),
    {
        !(1 <= index && index <= 6 && self.todo_lists.len() == 0)
    }

    /// What follows the number `input` typed at the menu: the numbers 1, 7
    /// and 8 run at once; any other needs a list id, and is refused while
    /// there is no list.
    pub fn menu_step(&self, input: i32) -> (r: MenuStep)
        ensures
            input == 1 || input == 7 || input == 8 ==> r == MenuStep::NoTarget,
            !(input == 1 || input == 7 || input == 8) ==> r == (if self.todo_lists.len() == 0 {
                MenuStep::InvalidCommand
            } else {
                MenuStep::AskTarget
            }),
    {
        if input == 1 || input == 7 || input == 8 {
            MenuStep::NoTarget
        } else if self.todo_lists.len() == 0 {
            MenuStep::InvalidCommand
        } else {
            MenuStep::AskTarget
        }
    }

    /// The list with id `id`, if there is one.
    pub fn find_todo_list_by_id(&self, id: i32) -> (r: Option<&TodoList>)
        ensures
            r is Some <==> 0 <= id < self@.len(),
            r matches Some(l) ==> l == &self.todo_lists@[id as int].todo_list,
    {
        if 0 <= id && (id as usize) < self.todo_lists.len() {
            Some(&self.todo_lists[id as usize].todo_list)
        } else {
            None
        }
    }

    /// Adds an empty list at the end.
    pub fn add_new_todo_list(&mut self, title: String, description: String)
        requires
            old(self).wf(),
        ensures
            final(self).wf(),
            final(self)@ == old(self)@.push(
                ListModel { title: title@, description: description@, entries: seq![] },
            ),
    {
        let todo_list = TodoList::new(title, description);
        self.todo_lists.push(TodoListElement { todo_list });
        assert(self@ =~= old(self)@.push(
            ListModel { title: title@, description: description@, entries: seq![] },
        ));
    }

    /// Removes the list with id `id`; false, with nothing changed, where
    /// there is none.
    pub fn delete_todo_list(&mut self, id: i32) -> (r: bool)
        requires
            old(self).wf(),
        ensures
            final(self).wf(),
            r == (0 <= id < old(self)@.len()),
            r ==> final(self)@ == old(self)@.remove(id as int),
            !r ==> final(self)@ == old(self)@,
    {
        if 0 <= id && (id as usize) < self.todo_lists.len() {
            let ghost before = self.todo_lists@;
            self.todo_lists.remove(id as usize);
            assert(self@ =~= old(self)@.remove(id as int));
            assert forall|i: int| 0 <= i < self.todo_lists@.len() implies (
            #[trigger] self.todo_lists@[i]).todo_list.wf() by {
                if i < id {
                    assert(self.todo_lists@[i] == before[i]);
                } else {
                    assert(self.todo_lists@[i] == before[i + 1]);
                }
            }
            true
        } else {
            false
        }
    }
}

impl TodoPlanner {
    /// Adds an entry with `description` to the list with id `id`, as
    /// `new_entry` says; false, with nothing changed, where there is no such
    /// list or no id is left for a new entry in it.
    pub fn add_todo_entry(&mut self, id: i32, description: String) -> (r: bool)
        requires
            old(self).wf(),
        ensures
            final(self).wf(),
            r == (0 <= id < old(self)@.len() && can_add_entry(old(self)@[id as int])),
            r ==> final(self)@ == old(self)@.update(
                id as int,
                ListModel {
                    entries: old(self)@[id as int].entries.push(
                        new_entry(old(self)@[id as int], description@),
                    ),
                    ..old(self)@[id as int]
                },
            ),
            !r ==> final(self)@ == old(self)@,
    {
        if !(0 <= id && (id as usize) < self.todo_lists.len()) {
            return false;
        }
        let i = id as usize;
        let next = self.todo_lists[i].todo_list.next_entry_id();
        if next >= i32::MAX as i64 {
            return false;
        }
        let entry_id = next as i32;
        let title = TodoEntry::id_to_roman_numeral(entry_id + 1);
        let ghost l = self@[id as int];
        proof {
            lemma_fresh_id(l.entries);
            assert(!has_id(l.entries, entry_id)) by {
                if has_id(l.entries, entry_id) {
                    let j = choose|j: int| 0 <= j < l.entries.len() && l.entries[j].id == entry_id;
                    assert(l.entries[j].id < fresh_id(l.entries));
                }
            }
        }
        self.todo_lists[i].todo_list.add_entry(entry_id, title, description);
        assert(self@ =~= old(self)@.update(
            id as int,
            ListModel { entries: l.entries.push(new_entry(l, description@)), ..l },
        ));
        true
    }

    /// Removes the entry `entry_id` of the list with id `id`; false, with
    /// nothing changed, where there is no such list. A list without that
    /// entry stays as it was.
    pub fn delete_todo_entry(&mut self, id: i32, entry_id: i32) -> (r: bool)
        requires
            old(self).wf(),
        ensures
            final(self).wf(),
            r == (0 <= id < old(self)@.len()),
            r ==> final(self)@ == old(self)@.update(
                id as int,
                ListModel {
                    entries: without(old(self)@[id as int].entries, entry_id),
                    ..old(self)@[id as int]
                },
            ),
            !r ==> final(self)@ == old(self)@,
    {
        if !(0 <= id && (id as usize) < self.todo_lists.len()) {
            return false;
        }
        let i = id as usize;
        let ghost l = self@[id as int];
        self.todo_lists[i].todo_list.delete_entry(entry_id);
        assert(self@ =~= old(self)@.update(
            id as int,
            ListModel { entries: without(l.entries, entry_id), ..l },
        ));
        true
    }

    /// Marks the entry `entry_id` of the list with id `id` done; false, with
    /// nothing changed, where there is no such list. A list without that
    /// entry stays as it was.
    pub fn mark_todo_entry_as_done(&mut self, id: i32, entry_id: i32) -> (r: bool)
        requires
            old(self).wf(),
        ensures
            final(self).wf(),
            r == (0 <= id < old(self)@.len()),
            r ==> final(self)@ == old(self)@.update(
                id as int,
                ListModel {
                    entries: marked_done(old(self)@[id as int].entries, entry_id),
                    ..old(self)@[id as int]
                },
            ),
            !r ==> final(self)@ == old(self)@,
    {
        if !(0 <= id && (id as usize) < self.todo_lists.len()) {
            return false;
        }
        let i = id as usize;
        let ghost l = self@[id as int];
        self.todo_lists[i].todo_list.mark_done(entry_id);
        assert(self@ =~= old(self)@.update(
            id as int,
            ListModel { entries: marked_done(l.entries, entry_id), ..l },
        ));
        true
    }

    /// The lines that show every list, as `overview` says.
    pub fn overview_lines(&self) -> (r: Vec<String>)
        ensures
            r@.map_values(|l: String| l@) == overview(self@),
    {
        let mut r: Vec<String> = Vec::new();
        let mut i: usize = 0;
        while i < self.todo_lists.len()
            invariant
                i <= self.todo_lists.len(),
                r@.map_values(|l: String| l@) == overview(self@.take(i as int)),
            decreases self.todo_lists.len() - i,
        {
            let list = &self.todo_lists[i].todo_list;
            let mut heading = list.title.clone();
            heading.append(": ");
            heading.append(list.description.as_str());
            let mut lines = list.display_lines();
            let ghost before = r@;
            let ghost shown = lines@;
            r.push(heading);
            r.append(&mut lines);
            proof {
                reveal_strlit(": ");
                let f = |l: String| l@;
                let t = self@.take(i + 1);
                assert(t.drop_last() =~= self@.take(i as int));
                assert(t.last() == list@);
                assert(heading@ =~= list_heading(list@));
                assert(r@ =~= before.push(heading) + shown);
                assert(r@.map_values(f) =~= before.map_values(f) + seq![heading@]
                    + shown.map_values(f));
            }
            i = i + 1;
        }
        assert(self@.take(i as int) =~= self@);
        r
    }

    /// Carries out one request.
    pub fn handle_request(&mut self, request: Request) -> (r: Outcome)
        requires
            old(self).wf(),
        ensures
            final(self).wf(),
            match request {
                Request::AddTodoList { title, description } => r is Done && final(self)@
                    == old(self)@.push(
                    ListModel { title: title@, description: description@, entries: seq![] },
                ),
                Request::DeleteTodoList { id } => if 0 <= id < old(self)@.len() {
                    r is Done && final(self)@ == old(self)@.remove(id as int)
                } else {
                    r is InvalidId && final(self)@ == old(self)@
                },
                Request::AddTodoEntry { id, description } => if 0 <= id < old(self)@.len()
                    && can_add_entry(old(self)@[id as int]) {
                    r is Done && final(self)@ == old(self)@.update(
                        id as int,
                        ListModel {
                            entries: old(self)@[id as int].entries.push(
                                new_entry(old(self)@[id as int], description@),
                            ),
                            ..old(self)@[id as int]
                        },
                    )
                } else {
                    r is InvalidId && final(self)@ == old(self)@
                },
                Request::DeleteTodoEntry { id, entry_id } => if 0 <= id < old(self)@.len() {
                    r is Done && final(self)@ == old(self)@.update(
                        id as int,
                        ListModel {
                            entries: without(old(self)@[id as int].entries, entry_id),
                            ..old(self)@[id as int]
                        },
                    )
                } else {
                    r is InvalidId && final(self)@ == old(self)@
                },
                Request::MarkTodoEntryAsDone { id, entry_id } => if 0 <= id < old(self)@.len() {
                    r is Done && final(self)@ == old(self)@.update(
                        id as int,
                        ListModel {
                            entries: marked_done(old(self)@[id as int].entries, entry_id),
                            ..old(self)@[id as int]
                        },
                    )
                } else {
                    r is InvalidId && final(self)@ == old(self)@
                },
                Request::PrintAllTodoEntries { id } => final(self)@ == old(self)@ && if 0 <= id
                    < old(self)@.len() {
                    (r matches Outcome::Show(lines) && lines@.map_values(|l: String| l@)
                        == old(self)@[id as int].entries.map_values(
                        |e: EntryModel| entry_display(e),
                    ))
                } else {
                    r is InvalidId
                },
                Request::PrintAllTodoLists => final(self)@ == old(self)@ && (r matches Outcome::Show(
                    lines,
                ) && lines@.map_values(|l: String| l@) == overview(old(self)@)),
                Request::Exit => r is Exit && final(self)@ == old(self)@,
            },
    {
        match request {
            Request::AddTodoList { title, description } => {
                self.add_new_todo_list(title, description);
                Outcome::Done
            },
            Request::DeleteTodoList { id } => {
                if self.delete_todo_list(id) {
                    Outcome::Done
                } else {
                    Outcome::InvalidId
                }
            },
            Request::AddTodoEntry { id, description } => {
                if self.add_todo_entry(id, description) {
                    Outcome::Done
                } else {
                    Outcome::InvalidId
                }
            },
            Request::DeleteTodoEntry { id, entry_id } => {
                if self.delete_todo_entry(id, entry_id) {
                    Outcome::Done
                } else {
                    Outcome::InvalidId
                }
            },
            Request::MarkTodoEntryAsDone { id, entry_id } => {
                if self.mark_todo_entry_as_done(id, entry_id) {
                    Outcome::Done
                } else {
                    Outcome::InvalidId
                }
            },
            Request::PrintAllTodoEntries { id } => {
                match self.find_todo_list_by_id(id) {
                    Some(list) => Outcome::Show(list.display_lines()),
                    None => Outcome::InvalidId,
                }
            },
            Request::PrintAllTodoLists => Outcome::Show(self.overview_lines()),
            Request::Exit => Outcome::Exit,
        }
    }
}

} // verus!
