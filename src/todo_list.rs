//! Lists of numbered to-do entries, and the Roman numerals that title them.
use vstd::prelude::*;
use crate::text::{fields, lines, parse_i32, parse_i32_text, split_fields, split_lines};

verus! {

/// What an entry holds.
pub struct EntryModel {
    pub id: i32,
    pub title: Seq<char>,
    pub description: Seq<char>,
    pub done: bool,
}

/// What a list holds: its entries in the order in which they were first added.
pub struct ListModel {
    pub title: Seq<char>,
    pub description: Seq<char>,
    pub entries: Seq<EntryModel>,
}

pub struct TodoEntry {
    pub id: i32,
    pub description: String,
    pub title: String,
    pub done: bool,
}

impl View for TodoEntry {
    type V = EntryModel;

    open spec fn view(&self) -> EntryModel {
        EntryModel {
            id: self.id,
            title: self.title@,
            description: self.description@,
            done: self.done,
        }
    }
}

/// The value of the `k`-th numeral, largest first.
pub open spec fn numeral_value(k: nat) -> int {
    if k == 0 {
        1000
    } else if k == 1 {
        900
    } else if k == 2 {
        500
    } else if k == 3 {
        400
    } else if k == 4 {
        100
    } else if k == 5 {
        90
    } else if k == 6 {
        50
    } else if k == 7 {
        40
    } else if k == 8 {
        10
    } else if k == 9 {
        9
    } else if k == 10 {
        5
    } else if k == 11 {
        4
    } else {
        1
    }
}

/// The letters of the `k`-th numeral: the subtractive pairs stand between
/// the single letters.
pub open spec fn numeral_symbol(k: nat) -> Seq<char> {
    if k == 0 {
        seq!['M']
    } else if k == 1 {
        seq!['C', 'M']
    } else if k == 2 {
        seq!['D']
    } else if k == 3 {
        seq!['C', 'D']
    } else if k == 4 {
        seq!['C']
    } else if k == 5 {
        seq!['X', 'C']
    } else if k == 6 {
        seq!['L']
    } else if k == 7 {
        seq!['X', 'L']
    } else if k == 8 {
        seq!['X']
    } else if k == 9 {
        seq!['I', 'X']
    } else if k == 10 {
        seq!['V']
    } else if k == 11 {
        seq!['I', 'V']
    } else {
        seq!['I']
    }
}

pub const NUMERAL_COUNT: usize = 13;

/// `n` in Roman numerals using the numerals from the `k`-th on: each
/// numeral as many times as it fits, largest first.
pub open spec fn roman_from(n: nat, k: nat) -> Seq<char>
    decreases 13 - k, n,
{
    if k >= 13 || n == 0 {
        seq![]
    } else if n >= numeral_value(k) {
        numeral_symbol(k) + roman_from((n - numeral_value(k)) as nat, k)
    } else {
        roman_from(n, k + 1)
    }
}

/// The Roman numeral of `id`; "Invalid" for an id that is not positive.
pub open spec fn roman(id: int) -> Seq<char> {
    if id <= 0 {
        seq!['I', 'n', 'v', 'a', 'l', 'i', 'd']
    } else {
        roman_from(id as nat, 0)
    }
}

fn numeral(k: usize) -> (r: (&'static str, i32))
    requires
        k < NUMERAL_COUNT,
    ensures
        r.0@ == numeral_symbol(k as nat),
        r.1 == numeral_value(k as nat),
{
    let r = if k == 0 {
        ("M", 1000)
    } else if k == 1 {
        ("CM", 900)
    } else if k == 2 {
        ("D", 500)
    } else if k == 3 {
        ("CD", 400)
    } else if k == 4 {
        ("C", 100)
    } else if k == 5 {
        ("XC", 90)
    } else if k == 6 {
        ("L", 50)
    } else if k == 7 {
        ("XL", 40)
    } else if k == 8 {
        ("X", 10)
    } else if k == 9 {
        ("IX", 9)
    } else if k == 10 {
        ("V", 5)
    } else if k == 11 {
        ("IV", 4)
    } else {
        ("I", 1)
    };
    proof {
        reveal_strlit("M");
        reveal_strlit("CM");
        reveal_strlit("D");
        reveal_strlit("CD");
        reveal_strlit("C");
        reveal_strlit("XC");
        reveal_strlit("L");
        reveal_strlit("XL");
        reveal_strlit("X");
        reveal_strlit("IX");
        reveal_strlit("V");
        reveal_strlit("IV");
        reveal_strlit("I");
        assert(r.0@ =~= numeral_symbol(k as nat));
    }
    r
}

impl TodoEntry {
    pub fn new(id: i32, title: String, description: String) -> (r: TodoEntry)
        ensures
            r@ == (EntryModel { id, title: title@, description: description@, done: false }),
    {
        TodoEntry { id, title, description, done: false }
    }

    /// The Roman numeral of `id`, or "Invalid" where `id` is not positive.
    pub fn id_to_roman_numeral(id: i32) -> (r: String)
        ensures
            r@ == roman(id as int),
    {
        if id <= 0 {
            let r = String::from_str("Invalid");
            proof {
                reveal_strlit("Invalid");
                assert(r@ =~= roman(id as int));
            }
            return r;
        }
        let mut result = String::new();
        let mut remaining: i32 = id;
        let mut k: usize = 0;
        assert(result@ + roman_from(id as nat, 0) =~= roman_from(id as nat, 0));
        while k < NUMERAL_COUNT
            invariant
                k <= NUMERAL_COUNT,
                0 <= remaining,
                id > 0,
                result@ + roman_from(remaining as nat, k as nat) == roman_from(id as nat, 0),
            decreases NUMERAL_COUNT - k,
        {
            let (symbol, value) = numeral(k);
            while remaining >= value
                invariant
                    symbol@ == numeral_symbol(k as nat),
                    k < NUMERAL_COUNT,
                    value == numeral_value(k as nat),
                    0 <= remaining,
                    id > 0,
                    result@ + roman_from(remaining as nat, k as nat) == roman_from(id as nat, 0),
                decreases remaining,
            {
                let ghost before = result@;
                assert(roman_from(remaining as nat, k as nat) == numeral_symbol(k as nat)
                    + roman_from((remaining - value) as nat, k as nat));
                result.append(symbol);
                assert(result@ == before + numeral_symbol(k as nat));
                assert(before + roman_from(remaining as nat, k as nat) =~= result@ + roman_from(
                    (remaining - value) as nat,
                    k as nat,
                ));
                remaining = remaining - value;
            }
            k = k + 1;
        }
        assert(result@ + seq![] =~= result@);
        result
    }

    /// The line that shows this entry: its title, a box marked 'x' when
    /// done, then its description.
    pub fn display_line(&self) -> (r: String)
        ensures
            r@ == entry_display(self@),
    {
        let mut r = self.title.clone();
        if self.done {
            r.append(". [x] ");
        } else {
            r.append(". [ ] ");
        }
        r.append(self.description.as_str());
        proof {
            reveal_strlit(". [x] ");
            reveal_strlit(". [ ] ");
            assert(r@ =~= entry_display(self@));
        }
        r
    }
}

/// How an entry is shown: "<title>. [x] <description>", with a blank box
/// when the entry is not done.
pub open spec fn entry_display(e: EntryModel) -> Seq<char> {
    e.title + seq!['.', ' ', '[', if e.done {
        'x'
    } else {
        ' '
    }, ']', ' '] + e.description
}

/// No two entries share an id.
pub open spec fn unique_ids(s: Seq<EntryModel>) -> bool {
    forall|i: int, j: int| 0 <= i < j < s.len() ==> s[i].id != s[j].id
}

pub open spec fn has_id(s: Seq<EntryModel>, id: i32) -> bool {
    exists|i: int| 0 <= i < s.len() && s[i].id == id
}

/// Where the entry with `id` stands (meaningful where `has_id(s, id)`).
pub open spec fn index_of(s: Seq<EntryModel>, id: i32) -> int {
    choose|i: int| 0 <= i < s.len() && s[i].id == id
}

/// `s` with `e` stored under its id: in place of the entry with that id,
/// or at the end where there is none.
pub open spec fn put(s: Seq<EntryModel>, e: EntryModel) -> Seq<EntryModel> {
    if has_id(s, e.id) {
        s.update(index_of(s, e.id), e)
    } else {
        s.push(e)
    }
}

/// `s` without the entry with `id`, if there is one.
pub open spec fn without(s: Seq<EntryModel>, id: i32) -> Seq<EntryModel> {
    if has_id(s, id) {
        s.remove(index_of(s, id))
    } else {
        s
    }
}

/// `s` with the entry with `id`, if there is one, marked done.
pub open spec fn marked_done(s: Seq<EntryModel>, id: i32) -> Seq<EntryModel> {
    if has_id(s, id) {
        let i = index_of(s, id);
        s.update(i, EntryModel { done: true, ..s[i] })
    } else {
        s
    }
}

/// An id above every id of `s`, and not below zero.
pub open spec fn fresh_id(s: Seq<EntryModel>) -> int
    decreases s.len(),
{
    if s.len() == 0 {
        0
    } else {
        let m = fresh_id(s.drop_last());
        if s.last().id + 1 > m {
            s.last().id + 1
        } else {
            m
        }
    }
}

pub proof fn lemma_index_of(s: Seq<EntryModel>, i: int)
    requires
        unique_ids(s),
        0 <= i < s.len(),
    ensures
        has_id(s, s[i].id),
        index_of(s, s[i].id) == i,
{
    assert(0 <= i < s.len() && s[i].id == s[i].id);
}

pub proof fn lemma_fresh_id(s: Seq<EntryModel>)
    ensures
        fresh_id(s) >= 0,
        forall|i: int| 0 <= i < s.len() ==> #[trigger] s[i].id < fresh_id(s),
    decreases s.len(),
{
    if s.len() > 0 {
        lemma_fresh_id(s.drop_last());
        assert forall|i: int| 0 <= i < s.len() implies #[trigger] s[i].id < fresh_id(s) by {
            if i < s.len() - 1 {
                assert(s[i] == s.drop_last()[i]);
            }
        }
    }
}

pub struct TodoList {
    pub title: String,
    pub description: String,
    pub entries: Vec<TodoEntry>,
}

impl View for TodoList {
    type V = ListModel;

    open spec fn view(&self) -> ListModel {
        ListModel {
            title: self.title@,
            description: self.description@,
            entries: self.entries@.map_values(|e: TodoEntry| e@),
        }
    }
}

impl TodoList {
    /// The entries' ids are distinct.
    pub open spec fn wf(&self) -> bool {
        unique_ids(self@.entries)
    }

    pub fn new(title: String, description: String) -> (r: TodoList)
        ensures
            r.wf(),
            r@ == (ListModel { title: title@, description: description@, entries: seq![] }),
    {
        let r = TodoList { entries: Vec::new(), title: title, description: description };
        assert(r@.entries =~= seq![]);
        r
    }

    /// Where the entry with `id` stands, if there is one.
    pub fn position_of(&self, id: i32) -> (r: Option<usize>)
        requires
            self.wf(),
        ensures
            r is None <==> !has_id(self@.entries, id),
            r matches Some(i) ==> i < self.entries.len() && index_of(self@.entries, id) == i
                && self.entries@[i as int].id == id,
    {
        let mut i: usize = 0;
        while i < self.entries.len()
            invariant
                self.wf(),
                i <= self.entries.len(),
                forall|j: int| 0 <= j < i ==> #[trigger] self.entries@[j].id != id,
            decreases self.entries.len() - i,
        {
            if self.entries[i].id == id {
                proof {
                    assert(self@.entries[i as int] == self.entries@[i as int]@);
                    lemma_index_of(self@.entries, i as int);
                }
                return Some(i);
            }
            i = i + 1;
        }
        proof {
            if has_id(self@.entries, id) {
                let j = choose|j: int| 0 <= j < self@.entries.len() && self@.entries[j].id == id;
                assert(self.entries@[j].id == id);
            }
        }
        None
    }

    /// Stores `e` under its id, in place of the entry that had that id, if any.
    pub fn put_entry(&mut self, e: TodoEntry)
        requires
            old(self).wf(),
        ensures
            final(self).wf(),
            final(self)@ == (ListModel { entries: put(old(self)@.entries, e@), ..old(self)@ }),
    {
        let ghost s = self@.entries;
        match self.position_of(e.id) {
            Some(i) => {
                self.entries.set(i, e);
                assert(self@.entries =~= s.update(i as int, e@));
            },
            None => {
                self.entries.push(e);
                assert(self@.entries =~= s.push(e@));
            },
        }
    }

    /// Stores a new, not yet done entry under `id`, in place of the entry
    /// that had that id, if any.
    pub fn add_entry(&mut self, id: i32, title: String, description: String)
        requires
            old(self).wf(),
        ensures
            final(self).wf(),
            final(self)@ == (ListModel {
                entries: put(
                    old(self)@.entries,
                    EntryModel { id, title: title@, description: description@, done: false },
                ),
                ..old(self)@
            }),
    {
        self.put_entry(TodoEntry::new(id, title, description));
    }

    /// Removes the entry with `id`; the list stays as it was where there is none.
    pub fn delete_entry(&mut self, id: i32)
        requires
            old(self).wf(),
        ensures
            final(self).wf(),
            final(self)@ == (ListModel { entries: without(old(self)@.entries, id), ..old(self)@ }),
    {
        let ghost s = self@.entries;
        match self.position_of(id) {
            Some(i) => {
                self.entries.remove(i);
                assert(self@.entries =~= s.remove(i as int));
                assert forall|a: int, b: int|
                    0 <= a < b < self@.entries.len() implies self@.entries[a].id
                    != self@.entries[b].id by {
                    let a0 = if a < i { a } else { a + 1 };
                    let b0 = if b < i { b } else { b + 1 };
                    assert(self@.entries[a] == s[a0]);
                    assert(self@.entries[b] == s[b0]);
                }
            },
            None => {},
        }
    }

    /// Marks the entry with `id` done; the list stays as it was where there is none.
    pub fn mark_done(&mut self, id: i32)
        requires
            old(self).wf(),
        ensures
            final(self).wf(),
            final(self)@ == (ListModel { entries: marked_done(old(self)@.entries, id), ..old(self)@ }),
            !has_id(old(self)@.entries, id) ==> final(self)@ == old(self)@,
    {
        let ghost s = self@.entries;
        match self.position_of(id) {
            Some(i) => {
                self.entries[i].done = true;
                assert(self@.entries =~= s.update(i as int, EntryModel { done: true, ..s[i as int] }));
            },
            None => {},
        }
    }

    /// One line per entry, in order: its title, a space, its description.
    pub fn to_string(&self) -> (r: String)
        ensures
            r@ == summary(self@.entries),
    {
        let mut r = String::new();
        let mut i: usize = 0;
        while i < self.entries.len()
            invariant
                i <= self.entries.len(),
                r@ == summary(self@.entries.take(i as int)),
            decreases self.entries.len() - i,
        {
            let ghost before = r@;
            r.append(self.entries[i].title.as_str());
            r.append(" ");
            r.append(self.entries[i].description.as_str());
            r.append("\n");
            proof {
                reveal_strlit(" ");
                reveal_strlit("\n");
                let t = self@.entries.take(i + 1);
                assert(t.drop_last() =~= self@.entries.take(i as int));
                assert(r@ =~= summary(t));
            }
            i = i + 1;
        }
        assert(self@.entries.take(i as int) =~= self@.entries);
        r
    }
}

/// The lines of `s`, each "<title> <description>" and a '\n'.
pub open spec fn summary(s: Seq<EntryModel>) -> Seq<char>
    decreases s.len(),
{
    if s.len() == 0 {
        seq![]
    } else {
        summary(s.drop_last()) + s.last().title + seq![' '] + s.last().description + seq!['\n']
    }
}

impl TodoList {
    /// An id for a new entry: one above the largest id, and not below zero.
    pub fn next_entry_id(&self) -> (r: i64)
        ensures
            r == fresh_id(self@.entries),
    {
        let mut r: i64 = 0;
        let mut i: usize = 0;
        while i < self.entries.len()
            invariant
                i <= self.entries.len(),
                r == fresh_id(self@.entries.take(i as int)),
                0 <= r <= i32::MAX as i64 + 1,
            decreases self.entries.len() - i,
        {
            proof {
                let t = self@.entries.take(i + 1);
                assert(t.drop_last() =~= self@.entries.take(i as int));
                lemma_fresh_id(self@.entries.take(i as int));
            }
            let candidate = self.entries[i].id as i64 + 1;
            if candidate > r {
                r = candidate;
            }
            i = i + 1;
        }
        assert(self@.entries.take(i as int) =~= self@.entries);
        r
    }

    /// One line per entry, in order, as `entry_display` shows it.
    pub fn display_lines(&self) -> (r: Vec<String>)
        ensures
            r@.map_values(|l: String| l@) == self@.entries.map_values(|e: EntryModel| entry_display(e)),
    {
        let mut r: Vec<String> = Vec::new();
        let mut i: usize = 0;
        while i < self.entries.len()
            invariant
                i <= self.entries.len(),
                r@.map_values(|l: String| l@) == self@.entries.take(i as int).map_values(
                    |e: EntryModel| entry_display(e),
                ),
            decreases self.entries.len() - i,
        {
            let line = self.entries[i].display_line();
            let ghost before = r@;
            r.push(line);
            proof {
                let f = |l: String| l@;
                let g = |e: EntryModel| entry_display(e);
                assert(r@.map_values(f) =~= before.map_values(f).push(line@));
                assert(self@.entries.take(i + 1).map_values(g) =~= self@.entries.take(
                    i as int,
                ).map_values(g).push(g(self@.entries[i as int])));
            }
            i = i + 1;
        }
        assert(self@.entries.take(i as int) =~= self@.entries);
        r
    }
}

/// The first numeral that `roman_from(n, j)` writes.
pub open spec fn first_numeral(n: nat, j: nat) -> nat
    decreases 13 - j,
{
    if j >= 12 || n >= numeral_value(j) {
        j
    } else {
        first_numeral(n, j + 1)
    }
}

proof fn lemma_roman_first(n: nat, j: nat)
    requires
        n > 0,
        j < 13,
    ensures
        j <= first_numeral(n, j) < 13,
        numeral_value(first_numeral(n, j)) <= n,
        roman_from(n, j) == numeral_symbol(first_numeral(n, j)) + roman_from(
            (n - numeral_value(first_numeral(n, j))) as nat,
            first_numeral(n, j),
        ),
    decreases 13 - j,
{
    if !(j >= 12 || n >= numeral_value(j)) {
        lemma_roman_first(n, j + 1);
    }
}

/// What `roman_from(b, k + 1)` writes, for `b` below the `k`-th value,
/// does not start with the `k`-th numeral.
proof fn lemma_no_symbol_after(b: nat, k: nat)
    requires
        k < 13,
        b < numeral_value(k),
    ensures
        !(numeral_symbol(k).len() <= roman_from(b, k + 1).len() && roman_from(b, k + 1).take(
            numeral_symbol(k).len() as int,
        ) == numeral_symbol(k)),
{
    let s = roman_from(b, k + 1);
    let p = numeral_symbol(k);
    if b > 0 && k < 12 {
        lemma_roman_first(b, k + 1);
        let f = first_numeral(b, k + 1);
        let rest = roman_from((b - numeral_value(f)) as nat, f);
        assert(s[0] == numeral_symbol(f)[0]);
        if p.len() <= s.len() && s.take(p.len() as int) == p {
            assert(s[0] == p[0]);
            if p.len() == 2 {
                assert(s[1] == p[1]);
                if numeral_symbol(f).len() == 1 {
                    assert(s[1] == rest[0]);
                    let n2 = (b - numeral_value(f)) as nat;
                    if n2 == 0 {
                        assert(rest.len() == 0);
                    } else {
                        lemma_roman_first(n2, f);
                        let f2 = first_numeral(n2, f);
                        assert(rest[0] == numeral_symbol(f2)[0]);
                    }
                } else {
                    assert(s[1] == numeral_symbol(f)[1]);
                }
            }
        }
    }
}

proof fn lemma_roman_from_injective(a: nat, b: nat, k: nat)
    requires
        k <= 13,
        roman_from(a, k) == roman_from(b, k),
        k > 0 ==> a < numeral_value((k - 1) as nat) && b < numeral_value((k - 1) as nat),
    ensures
        a == b,
    decreases 13 - k, a + b,
{
    if a == 0 && b == 0 {
    } else if k == 13 {
    } else {
        let v = numeral_value(k);
        let p = numeral_symbol(k);
        if a >= v && b >= v {
            let ra = roman_from((a - v) as nat, k);
            let rb = roman_from((b - v) as nat, k);
            assert((p + ra).skip(p.len() as int) =~= ra);
            assert((p + rb).skip(p.len() as int) =~= rb);
            lemma_roman_from_injective((a - v) as nat, (b - v) as nat, k);
        } else if a < v && b < v {
            lemma_roman_from_injective(a, b, k + 1);
        } else if a >= v {
            lemma_no_symbol_after(b, k);
            assert((p + roman_from((a - v) as nat, k)).take(p.len() as int) =~= p);
        } else {
            lemma_no_symbol_after(a, k);
            assert((p + roman_from((b - v) as nat, k)).take(p.len() as int) =~= p);
        }
    }
}

/// Distinct positive ids have distinct Roman numerals.
pub proof fn lemma_roman_unique(a: int, b: int)
    requires
        a > 0,
        b > 0,
        roman(a) == roman(b),
    ensures
        a == b,
{
    lemma_roman_from_injective(a as nat, b as nat, 0);
}

/// All whitespace-separated words of `s`.
pub open spec fn words(s: Seq<char>) -> Seq<Seq<char>> {
    fields(s, s.len())
}

/// The words of `ws` with one space between each two.
pub open spec fn join_words(ws: Seq<Seq<char>>) -> Seq<char>
    decreases ws.len(),
{
    if ws.len() == 0 {
        seq![]
    } else if ws.len() == 1 {
        ws[0]
    } else {
        join_words(ws.drop_last()) + seq![' '] + ws.last()
    }
}

/// The entry of a summary line: an `i32` id and at least one more word,
/// which make up the description; no title, not done.
pub open spec fn parse_summary_entry(line: Seq<char>) -> Option<EntryModel> {
    let w = words(line);
    if w.len() >= 2 {
        match parse_i32(w[0]) {
            Some(id) => Some(
                EntryModel { id, title: seq![], description: join_words(w.skip(1)), done: false },
            ),
            None => None,
        }
    } else {
        None
    }
}

/// The entries that summary lines describe, as `decode_entries` reads entry lines.
pub open spec fn summary_entries(ls: Seq<Seq<char>>) -> Seq<EntryModel>
    decreases ls.len(),
{
    if ls.len() == 0 {
        seq![]
    } else {
        let s = summary_entries(ls.drop_last());
        match parse_summary_entry(ls.last()) {
            Some(e) => put(s, e),
            None => s,
        }
    }
}

/// The list of a summary text: a title line, a description line, then
/// summary lines.
pub open spec fn summary_list(text: Seq<char>) -> Option<ListModel> {
    let ls = lines(text);
    if ls.len() < 2 {
        None
    } else {
        Some(ListModel { title: ls[0], description: ls[1], entries: summary_entries(ls.skip(2)) })
    }
}

impl TodoList {
    /// The entry of one summary line, if it describes one.
    pub fn parse_todo_entry(line: &str) -> (r: Option<TodoEntry>)
        ensures
            match r {
                Some(e) => parse_summary_entry(line@) == Some(e@),
                None => parse_summary_entry(line@) is None,
            },
    {
        let n = line.unicode_len();
        let parts = split_fields(line, n);
        let ghost w = parts@.map_values(|f: String| f@);
        assert(w == words(line@));
        assert(w.len() == parts@.len());
        if parts.len() < 2 {
            return None;
        }
        assert(w[0] == parts@[0]@);
        match parse_i32_text(parts[0].as_str()) {
            Some(id) => {
                let mut description = parts[1].clone();
                let mut i: usize = 2;
                assert(w.subrange(1, 2) =~= seq![w[1]]);
                while i < parts.len()
                    invariant
                        w == parts@.map_values(|f: String| f@),
                        2 <= i <= parts.len(),
                        description@ == join_words(w.subrange(1, i as int)),
                    decreases parts.len() - i,
                {
                    description.append(" ");
                    description.append(parts[i].as_str());
                    proof {
                        reveal_strlit(" ");
                        let t = w.subrange(1, i + 1);
                        assert(t.drop_last() =~= w.subrange(1, i as int));
                        assert(t.last() == parts@[i as int]@);
                    }
                    i = i + 1;
                }
                assert(w.subrange(1, i as int) =~= w.skip(1));
                let title = String::new();
                Some(TodoEntry { id, description, title, done: false })
            },
            None => None,
        }
    }

    /// The list of a summary text, if it has a title and a description line.
    pub fn from_string(content: &str) -> (r: Option<TodoList>)
        ensures
            match r {
                Some(l) => l.wf() && summary_list(content@) == Some(l@),
                None => summary_list(content@) is None,
            },
    {
        let ls = split_lines(content);
        let ghost lv = ls@.map_values(|l: String| l@);
        assert(lv.len() == ls@.len());
        if ls.len() < 2 {
            return None;
        }
        assert(lv[0] == ls@[0]@);
        assert(lv[1] == ls@[1]@);
        let mut todo_list = TodoList::new(ls[0].clone(), ls[1].clone());
        let mut i: usize = 2;
        assert(lv.skip(2).take(0) =~= seq![]);
        while i < ls.len()
            invariant
                lv == ls@.map_values(|l: String| l@),
                lv == lines(content@),
                2 <= i <= ls.len(),
                todo_list.wf(),
                todo_list@.title == lv[0],
                todo_list@.description == lv[1],
                todo_list@.entries == summary_entries(lv.skip(2).take(i - 2)),
            decreases ls.len() - i,
        {
            let parsed = TodoList::parse_todo_entry(ls[i].as_str());
            proof {
                let t = lv.skip(2).take(i - 1);
                assert(t.drop_last() =~= lv.skip(2).take(i - 2));
                assert(t.last() == ls@[i as int]@);
            }
            match parsed {
                Some(e) => {
                    todo_list.put_entry(e);
                },
                None => {},
            }
            i = i + 1;
        }
        assert(lv.skip(2).take(i - 2) =~= lv.skip(2));
        Some(todo_list)
    }
}

} // verus!
