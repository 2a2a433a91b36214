//! The flat text format of a list, and what the program does with the
//! lists between the files and the planner.
use vstd::prelude::*;
use crate::file_writer::FileWriter;
use crate::text::{
    decimal, fields, i32_text, is_space, lemma_fields_last, lemma_fields_word, lemma_fields_words, lemma_lines_cons,
    lemma_lines_no_newline,
    lemma_lines_empty, lemma_no_newline_concat, lemma_no_space_no_newline, lemma_parse_decimal,
    lines, no_newline, no_space, parse_i32, parse_i32_text, split_fields, split_lines,
};
use crate::todo_list::{has_id, index_of, put, unique_ids, EntryModel, ListModel, TodoEntry, TodoList};
use crate::todo_planner::{TodoListElement, TodoPlanner};

verus! {

/// "true" or "false".
pub open spec fn bool_text(b: bool) -> Seq<char> {
    if b {
        seq!['t', 'r', 'u', 'e']
    } else {
        seq!['f', 'a', 'l', 's', 'e']
    }
}

/// An entry's line: "<id> <title> <description> <done>".
pub open spec fn entry_line(e: EntryModel) -> Seq<char> {
    decimal(e.id as int) + seq![' '] + e.title + seq![' '] + e.description + seq![' ']
        + bool_text(e.done)
}

/// The lines of the entries of `s`, in order, each ended by '\n'.
pub open spec fn entry_lines(s: Seq<EntryModel>) -> Seq<char>
    decreases s.len(),
{
    if s.len() == 0 {
        seq![]
    } else {
        entry_line(s[0]) + seq!['\n'] + entry_lines(s.drop_first())
    }
}

proof fn lemma_entry_lines_push(s: Seq<EntryModel>, e: EntryModel)
    ensures
        entry_lines(s.push(e)) == entry_lines(s) + entry_line(e) + seq!['\n'],
    decreases s.len(),
{
    if s.len() == 0 {
        assert(s.push(e).drop_first() =~= s);
        assert(entry_lines(s.push(e)) =~= entry_lines(s) + entry_line(e) + seq!['\n']);
    } else {
        assert(s.push(e).drop_first() =~= s.drop_first().push(e));
        lemma_entry_lines_push(s.drop_first(), e);
        assert(entry_lines(s.push(e)) =~= entry_lines(s) + entry_line(e) + seq!['\n']);
    }
}

/// The text of a list: its title line, its description line, then a line
/// per entry.
pub open spec fn encode(l: ListModel) -> Seq<char> {
    l.title + seq!['\n'] + l.description + seq!['\n'] + entry_lines(l.entries)
}

/// The entry that a line describes: four whitespace-separated fields, the
/// first an `i32`; the entry is done where the last field is "true".
pub open spec fn parse_entry(line: Seq<char>) -> Option<EntryModel> {
    let f = fields(line, 4);
    if f.len() == 4 {
        match parse_i32(f[0]) {
            Some(id) => Some(
                EntryModel { id, title: f[1], description: f[2], done: f[3] == bool_text(true) },
            ),
            None => None,
        }
    } else {
        None
    }
}

/// The entries that the lines `ls` describe, in order: a line that
/// describes none is passed over, and a later entry replaces an earlier one
/// with its id.
pub open spec fn decode_entries(ls: Seq<Seq<char>>) -> Seq<EntryModel>
    decreases ls.len(),
{
    if ls.len() == 0 {
        seq![]
    } else {
        let s = decode_entries(ls.drop_last());
        match parse_entry(ls.last()) {
            Some(e) => put(s, e),
            None => s,
        }
    }
}

/// The list that a text describes: none where it has fewer than two lines.
pub open spec fn decode(text: Seq<char>) -> Option<ListModel> {
    let ls = lines(text);
    if ls.len() < 2 {
        None
    } else {
        Some(ListModel { title: ls[0], description: ls[1], entries: decode_entries(ls.skip(2)) })
    }
}

/// Holds the planner of one run, and the directory where its lists are kept.
pub struct TodoConnector {
    pub file_writer: FileWriter,
    pub planner: TodoPlanner,
}

impl TodoConnector {
    pub fn new(base_directory: &str, planner: TodoPlanner) -> (r: TodoConnector)
        ensures
            r.file_writer.base_directory@ == base_directory@,
            r.planner == planner,
    {
        let file_writer = FileWriter::new(base_directory);
        TodoConnector { file_writer, planner }
    }

    /// The line of one entry.
    pub fn serialize_todo_entry(&self, todo_entry: &TodoEntry) -> (r: String)
        ensures
            r@ == entry_line(todo_entry@),
    {
        let mut r = i32_text(todo_entry.id);
        r.append(" ");
        r.append(todo_entry.title.as_str());
        r.append(" ");
        r.append(todo_entry.description.as_str());
        r.append(" ");
        if todo_entry.done {
            r.append("true");
        } else {
            r.append("false");
        }
        proof {
            reveal_strlit(" ");
            reveal_strlit("true");
            reveal_strlit("false");
            assert(r@ =~= entry_line(todo_entry@));
        }
        r
    }

    /// The text of a list.
    pub fn serialize_todo_list_element(&self, todo_list_element: &TodoListElement) -> (r: String)
        ensures
            r@ == encode(todo_list_element.todo_list@),
    {
        let list = &todo_list_element.todo_list;
        let mut content = list.title.clone();
        content.append("\n");
        content.append(list.description.as_str());
        content.append("\n");
        proof {
            reveal_strlit("\n");
            assert(entry_lines(list@.entries.take(0)) =~= seq![]);
            assert(content@ =~= list@.title + seq!['\n'] + list@.description + seq!['\n']
                + entry_lines(list@.entries.take(0)));
        }
        let mut i: usize = 0;
        while i < list.entries.len()
            invariant
                i <= list.entries.len(),
                content@ == list@.title + seq!['\n'] + list@.description + seq!['\n']
                    + entry_lines(list@.entries.take(i as int)),
            decreases list.entries.len() - i,
        {
            let line = self.serialize_todo_entry(&list.entries[i]);
            content.append(line.as_str());
            content.append("\n");
            proof {
                reveal_strlit("\n");
                let t = list@.entries.take(i + 1);
                assert(t =~= list@.entries.take(i as int).push(list.entries@[i as int]@));
                lemma_entry_lines_push(list@.entries.take(i as int), list.entries@[i as int]@);
                assert(content@ =~= list@.title + seq!['\n'] + list@.description + seq!['\n']
                    + entry_lines(t));
            }
            i = i + 1;
        }
        assert(list@.entries.take(i as int) =~= list@.entries);
        content
    }

    /// The entry that one line describes, if it describes one.
    pub fn deserialize_todo_entry(&self, content: &str) -> (r: Option<TodoEntry>)
        ensures
            match r {
                Some(e) => parse_entry(content@) == Some(e@),
                None => parse_entry(content@) is None,
            },
    {
        let parts = split_fields(content, 4);
        proof {
            assert(parts@.map_values(|f: String| f@).len() == parts@.len());
        }
        if parts.len() != 4 {
            return None;
        }
        proof {
            let f = fields(content@, 4);
            assert(f[0] == parts@[0]@);
            assert(f[1] == parts@[1]@);
            assert(f[2] == parts@[2]@);
            assert(f[3] == parts@[3]@);
        }
        match parse_i32_text(parts[0].as_str()) {
            Some(id) => {
                let truth = String::from_str("true");
                proof {
                    reveal_strlit("true");
                    assert(truth@ =~= bool_text(true));
                }
                let done = parts[3] == truth;
                Some(
                    TodoEntry {
                        id,
                        title: parts[1].clone(),
                        description: parts[2].clone(),
                        done,
                    },
                )
            },
            None => None,
        }
    }

    /// The list that a text describes, if any.
    pub fn deserialize_todo_list_element(&self, content: &str) -> (r: Option<TodoListElement>)
        ensures
            match r {
                Some(el) => el.todo_list.wf() && decode(content@) == Some(el.todo_list@),
                None => decode(content@) is None,
            },
    {
        let ls = split_lines(content);
        let ghost lv = ls@.map_values(|l: String| l@);
        assert(lv.len() == ls@.len());
        if ls.len() < 2 {
            return None;
        }
        assert(lv[0] == ls@[0]@);
        assert(lv[1] == ls@[1]@);
        let mut todo_list = TodoList::new(ls[0].clone(), ls[1].clone());
        let mut i: usize = 2;
        assert(lv.skip(2).take(0) =~= seq![]);
        while i < ls.len()
            invariant
                lv == ls@.map_values(|l: String| l@),
                lv == lines(content@),
                2 <= i <= ls.len(),
                todo_list.wf(),
                todo_list@.title == lv[0],
                todo_list@.description == lv[1],
                todo_list@.entries == decode_entries(lv.skip(2).take(i - 2)),
            decreases ls.len() - i,
        {
            let parsed = self.deserialize_todo_entry(ls[i].as_str());
            proof {
                let t = lv.skip(2).take(i - 1);
                assert(t.drop_last() =~= lv.skip(2).take(i - 2));
                assert(t.last() == ls@[i as int]@);
            }
            match parsed {
                Some(e) => {
                    todo_list.put_entry(e);
                },
                None => {},
            }
            i = i + 1;
        }
        assert(lv.skip(2).take(i - 2) =~= lv.skip(2));
        Some(TodoListElement { todo_list })
    }
}

/// The name of the file that holds a list: its title and ".txt".
pub open spec fn file_name_of(l: ListModel) -> Seq<char> {
    l.title + seq!['.', 't', 'x', 't']
}

impl TodoConnector {
    /// Adds to the planner the list that the text of one file describes;
    /// false, with nothing changed, where it describes none.
    pub fn load_todo_list(&mut self, content: &str) -> (r: bool)
        requires
            old(self).planner.wf(),
        ensures
            final(self).planner.wf(),
            final(self).file_writer == old(self).file_writer,
            r == decode(content@) is Some,
            r ==> final(self).planner@ == old(self).planner@.push(decode(content@)->0),
            !r ==> final(self).planner@ == old(self).planner@,
    {
        match self.deserialize_todo_list_element(content) {
            Some(el) => {
                let ghost before = self.planner.todo_lists@;
                self.planner.todo_lists.push(el);
                proof {
                    assert(self.planner@ =~= old(self).planner@.push(decode(content@)->0));
                    assert forall|i: int| 0 <= i < self.planner.todo_lists@.len() implies (
                    #[trigger] self.planner.todo_lists@[i]).todo_list.wf() by {
                        if i < before.len() {
                            assert(self.planner.todo_lists@[i] == before[i]);
                        }
                    }
                }
                true
            },
            None => false,
        }
    }

    /// For each list, in order, the name of its file and the text to write
    /// there.
    pub fn files_to_save(&self) -> (r: Vec<(String, String)>)
        ensures
            r@.len() == self.planner@.len(),
            forall|i: int|
                0 <= i < r@.len() ==> (#[trigger] r@[i]).0@ == file_name_of(self.planner@[i])
                    && r@[i].1@ == encode(self.planner@[i]),
    {
        let mut r: Vec<(String, String)> = Vec::new();
        let mut i: usize = 0;
        while i < self.planner.todo_lists.len()
            invariant
                i <= self.planner.todo_lists.len(),
                r@.len() == i,
                forall|j: int|
                    0 <= j < i ==> (#[trigger] r@[j]).0@ == file_name_of(self.planner@[j])
                        && r@[j].1@ == encode(self.planner@[j]),
            decreases self.planner.todo_lists.len() - i,
        {
            let el = &self.planner.todo_lists[i];
            let content = self.serialize_todo_list_element(el);
            let mut name = el.todo_list.title.clone();
            name.append(".txt");
            proof {
                reveal_strlit(".txt");
                assert(name@ =~= file_name_of(self.planner@[i as int]));
            }
            r.push((name, content));
            i = i + 1;
        }
        r
    }
}

/// A title or description line that the format carries: no line break in
/// it, and no '\r' at its end.
pub open spec fn carriable_line(s: Seq<char>) -> bool {
    no_newline(s) && (s.len() == 0 || s.last() != '\r')
}

/// An entry field that the format carries: a single word.
pub open spec fn carriable_field(s: Seq<char>) -> bool {
    s.len() > 0 && no_space(s)
}

/// A list that the format carries unchanged.
pub open spec fn carriable(l: ListModel) -> bool {
    &&& carriable_line(l.title)
    &&& carriable_line(l.description)
    &&& unique_ids(l.entries)
    &&& forall|i: int|
        0 <= i < l.entries.len() ==> carriable_field(#[trigger] l.entries[i].title)
            && carriable_field(l.entries[i].description)
}

proof fn lemma_bool_text(b: bool)
    ensures
        bool_text(b).len() > 0,
        !is_space(bool_text(b)[0]),
        !is_space(bool_text(b).last()),
        no_space(bool_text(b)),
        bool_text(b).last() != '\r',
        (bool_text(b) == bool_text(true)) == b,
{
    let t = bool_text(b);
    assert(bool_text(true).len() != bool_text(false).len());
    assert forall|i: int| 0 <= i < t.len() implies !is_space(#[trigger] t[i]) by {
        if b {
            assert(t[i] == 't' || t[i] == 'r' || t[i] == 'u' || t[i] == 'e');
        } else {
            assert(t[i] == 'f' || t[i] == 'a' || t[i] == 'l' || t[i] == 's' || t[i] == 'e');
        }
    }
}

/// The line of an entry whose title and description are single words
/// reads back as that entry; it holds no line break and does not end in '\r'.
pub proof fn lemma_parse_entry_line(e: EntryModel)
    requires
        carriable_field(e.title),
        carriable_field(e.description),
    ensures
        parse_entry(entry_line(e)) == Some(e),
        no_newline(entry_line(e)),
        entry_line(e).last() != '\r',
{
    let d = decimal(e.id as int);
    let b = bool_text(e.done);
    lemma_parse_decimal(e.id);
    lemma_bool_text(e.done);
    assert(no_space(d));
    let r3 = b;
    let r2 = e.description + seq![' '] + r3;
    let r1 = e.title + seq![' '] + r2;
    assert(entry_line(e) =~= d + seq![' '] + r1);
    lemma_fields_word(d, r1, 4);
    lemma_fields_word(e.title, r2, 3);
    lemma_fields_word(e.description, r3, 2);
    lemma_fields_last(b);
    let f = fields(entry_line(e), 4);
    assert(f =~= seq![d, e.title, e.description, b]);
    let sp = seq![' '];
    assert(no_newline(sp));
    lemma_no_space_no_newline(d);
    lemma_no_space_no_newline(e.title);
    lemma_no_space_no_newline(e.description);
    lemma_no_space_no_newline(b);
    lemma_no_newline_concat(e.description, sp);
    lemma_no_newline_concat(e.description + sp, r3);
    lemma_no_newline_concat(e.title, sp);
    lemma_no_newline_concat(e.title + sp, r2);
    lemma_no_newline_concat(d, sp);
    lemma_no_newline_concat(d + sp, r1);
    assert(entry_line(e).last() == b.last());
}

proof fn lemma_lines_entry_lines(s: Seq<EntryModel>)
    requires
        forall|i: int|
            0 <= i < s.len() ==> carriable_field(#[trigger] s[i].title) && carriable_field(
                s[i].description,
            ),
    ensures
        lines(entry_lines(s)) == s.map_values(|e: EntryModel| entry_line(e)),
    decreases s.len(),
{
    if s.len() == 0 {
        lemma_lines_empty();
        assert(s.map_values(|e: EntryModel| entry_line(e)) =~= seq![]);
    } else {
        let rest = s.drop_first();
        assert forall|i: int| 0 <= i < rest.len() implies carriable_field(
            #[trigger] rest[i].title,
        ) && carriable_field(rest[i].description) by {
            assert(rest[i] == s[i + 1]);
        }
        lemma_lines_entry_lines(rest);
        assert(carriable_field(s[0].title));
        lemma_parse_entry_line(s[0]);
        lemma_lines_cons(entry_line(s[0]), entry_lines(rest));
        assert(s.map_values(|e: EntryModel| entry_line(e)) =~= seq![entry_line(s[0])]
            + rest.map_values(|e: EntryModel| entry_line(e)));
    }
}

proof fn lemma_decode_entry_lines(s: Seq<EntryModel>)
    requires
        unique_ids(s),
        forall|i: int|
            0 <= i < s.len() ==> carriable_field(#[trigger] s[i].title) && carriable_field(
                s[i].description,
            ),
    ensures
        decode_entries(s.map_values(|e: EntryModel| entry_line(e))) == s,
    decreases s.len(),
{
    let ls = s.map_values(|e: EntryModel| entry_line(e));
    if s.len() > 0 {
        let init = s.drop_last();
        assert(ls.drop_last() =~= init.map_values(|e: EntryModel| entry_line(e)));
        lemma_decode_entry_lines(init);
        lemma_parse_entry_line(s.last());
        assert(!has_id(init, s.last().id)) by {
            if has_id(init, s.last().id) {
                let j = choose|j: int| 0 <= j < init.len() && init[j].id == s.last().id;
                assert(s[j].id == s[s.len() - 1].id);
            }
        }
        assert(init.push(s.last()) =~= s);
    } else {
        assert(ls =~= seq![]);
    }
}

/// A list that the format carries reads back from its own text as it was:
/// same title, same description, same entries in the same order.
pub proof fn lemma_decode_encode(l: ListModel)
    requires
        carriable(l),
    ensures
        decode(encode(l)) == Some(l),
{
    let el = entry_lines(l.entries);
    assert(encode(l) =~= l.title + seq!['\n'] + (l.description + seq!['\n'] + el));
    lemma_lines_cons(l.title, l.description + seq!['\n'] + el);
    lemma_lines_cons(l.description, el);
    lemma_lines_entry_lines(l.entries);
    lemma_decode_entry_lines(l.entries);
    let ls = lines(encode(l));
    assert(ls.skip(2) =~= l.entries.map_values(|e: EntryModel| entry_line(e)));
}

proof fn lemma_put_keeps(s: Seq<EntryModel>, e: EntryModel)
    requires
        unique_ids(s),
        forall|i: int|
            0 <= i < s.len() ==> carriable_field(#[trigger] s[i].title) && carriable_field(
                s[i].description,
            ),
        carriable_field(e.title),
        carriable_field(e.description),
    ensures
        unique_ids(put(s, e)),
        forall|i: int|
            0 <= i < put(s, e).len() ==> carriable_field(#[trigger] put(s, e)[i].title)
                && carriable_field(put(s, e)[i].description),
{
    let p = put(s, e);
    if has_id(s, e.id) {
        let k = index_of(s, e.id);
        assert forall|i: int, j: int| 0 <= i < j < p.len() implies p[i].id != p[j].id by {
            assert(p[i].id == s[i].id);
            assert(p[j].id == s[j].id);
        }
        assert forall|i: int| 0 <= i < p.len() implies carriable_field(#[trigger] p[i].title)
            && carriable_field(p[i].description) by {
            if i != k {
                assert(p[i] == s[i]);
            }
        }
    } else {
        assert forall|i: int, j: int| 0 <= i < j < p.len() implies p[i].id != p[j].id by {
            if j == s.len() {
                assert(p[i] == s[i]);
            } else {
                assert(p[i] == s[i]);
                assert(p[j] == s[j]);
            }
        }
        assert forall|i: int| 0 <= i < p.len() implies carriable_field(#[trigger] p[i].title)
            && carriable_field(p[i].description) by {
            if i < s.len() {
                assert(p[i] == s[i]);
            }
        }
    }
}

proof fn lemma_decode_entries_carriable(ls: Seq<Seq<char>>)
    ensures
        unique_ids(decode_entries(ls)),
        forall|i: int|
            0 <= i < decode_entries(ls).len() ==> carriable_field(
                #[trigger] decode_entries(ls)[i].title,
            ) && carriable_field(decode_entries(ls)[i].description),
    decreases ls.len(),
{
    if ls.len() > 0 {
        lemma_decode_entries_carriable(ls.drop_last());
        let line = ls.last();
        match parse_entry(line) {
            Some(e) => {
                lemma_fields_words(line, 4);
                let f = fields(line, 4);
                assert(f[1].len() > 0 && no_space(f[1]));
                assert(f[2].len() > 0 && no_space(f[2]));
                lemma_put_keeps(decode_entries(ls.drop_last()), e);
            },
            None => {},
        }
    }
}

/// Any text that describes a list, and whose title and description lines do
/// not end in '\r', describes the same list once more after the list is
/// written back out: same title, description and entries.
pub proof fn lemma_round_trip(text: Seq<char>)
    requires
        decode(text) is Some,
        decode(text)->0.title.len() == 0 || decode(text)->0.title.last() != '\r',
        decode(text)->0.description.len() == 0 || decode(text)->0.description.last() != '\r',
    ensures
        decode(encode(decode(text)->0)) == decode(text),
{
    let l = decode(text)->0;
    let ls = lines(text);
    lemma_lines_no_newline(text, 0, 0);
    assert(no_newline(ls[0]));
    assert(no_newline(ls[1]));
    lemma_decode_entries_carriable(ls.skip(2));
    assert(carriable_line(l.title));
    assert(carriable_line(l.description));
    assert(unique_ids(l.entries));
    lemma_decode_encode(l);
}

/// A line with fewer than four fields describes no entry, and the lines
/// after it are read as if it were not there.
pub proof fn lemma_short_line_skipped(before: Seq<Seq<char>>, line: Seq<char>, after: Seq<Seq<char>>)
    requires
        fields(line, 4).len() < 4,
    ensures
        parse_entry(line) is None,
        decode_entries(before.push(line) + after) == decode_entries(before + after),
    decreases after.len(),
{
    if after.len() == 0 {
        assert(before.push(line) + after =~= before.push(line));
        assert(before + after =~= before);
        assert(before.push(line).drop_last() =~= before);
    } else {
        let a = after.drop_last();
        lemma_short_line_skipped(before, line, a);
        assert((before.push(line) + after).drop_last() =~= before.push(line) + a);
        assert((before + after).drop_last() =~= before + a);
        assert((before.push(line) + after).last() == after.last());
        assert((before + after).last() == after.last());
    }
}

} // verus!
