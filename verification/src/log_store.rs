//! The log of one process: rows in arrival order, an index of the rows by
//! level, and a table that gives every class text one stable handle.

use crate::chars::to_chars;
use crate::clock::{now_utc, Timestamp};
use crate::line_grammar::{line_parts, parse_line, LineParts};
use vstd::prelude::*;
use vstd::string::*;

verus! {

/// Severity of a log entry.
#[derive(Copy, Clone, Hash, Eq, PartialEq, Debug, Structural)]
pub enum Level {
    Unknown,
    Trace,
    Debug,
    Info,
    Warning,
    Error,
    Critical,
}

impl Default for Level {
    fn default() -> (l: Level)
        ensures
            l == Level::Unknown,
    {
        Level::Unknown
    }
}

/// The level that a level word of a log line names. The lookup is case
/// sensitive, and every other word means `Unknown`.
pub open spec fn level_of_word(word: Seq<char>) -> Level {
    if word == "Trace"@ {
        Level::Trace
    } else if word == "Debug"@ {
        Level::Debug
    } else if word == "Info"@ {
        Level::Info
    } else if word == "Warning"@ {
        Level::Warning
    } else if word == "Error"@ {
        Level::Error
    } else if word == "Critical"@ {
        Level::Critical
    } else {
        Level::Unknown
    }
}

/// Whether the characters of `v` spell `word`.
fn spells(v: &Vec<char>, word: &str) -> (b: bool)
    ensures
        b == (v@ == word@),
{
    let n = word.unicode_len();
    if v.len() != n {
        return false;
    }
    let mut k: usize = 0;
    while k < n
        invariant
            k <= n == v.len() == word@.len(),
            forall|a: int| 0 <= a < k ==> v[a] == word@[a],
        decreases n - k,
    {
        if v[k] != word.get_char(k) {
            return false;
        }
        k += 1;
    }
    assert(v@ =~= word@);
    true
}

impl Level {
    /// The position of the level in declaration order.
    pub open spec fn rank(self) -> int {
        match self {
            Level::Unknown => 0,
            Level::Trace => 1,
            Level::Debug => 2,
            Level::Info => 3,
            Level::Warning => 4,
            Level::Error => 5,
            Level::Critical => 6,
        }
    }

    /// The number of levels.
    pub open spec fn count() -> int {
        7
    }

    /// Looks a level word up.
    pub fn from_word(word: &str) -> (l: Level)
        ensures
            l == level_of_word(word@),
    {
        let v = to_chars(word);
        if spells(&v, "Trace") {
            Level::Trace
        } else if spells(&v, "Debug") {
            Level::Debug
        } else if spells(&v, "Info") {
            Level::Info
        } else if spells(&v, "Warning") {
            Level::Warning
        } else if spells(&v, "Error") {
            Level::Error
        } else if spells(&v, "Critical") {
            Level::Critical
        } else {
            Level::Unknown
        }
    }

    /// The name of the level, as its level word spells it.
    pub fn as_str(&self) -> (s: &'static str)
        ensures
            s@ == self.name(),
    {
        match self {
            Level::Unknown => "Unknown",
            Level::Trace => "Trace",
            Level::Debug => "Debug",
            Level::Info => "Info",
            Level::Warning => "Warning",
            Level::Error => "Error",
            Level::Critical => "Critical",
        }
    }

    /// The text of [`Level::as_str`].
    pub open spec fn name(self) -> Seq<char> {
        match self {
            Level::Unknown => "Unknown"@,
            Level::Trace => "Trace"@,
            Level::Debug => "Debug"@,
            Level::Info => "Info"@,
            Level::Warning => "Warning"@,
            Level::Error => "Error"@,
            Level::Critical => "Critical"@,
        }
    }

    fn slot(self) -> (k: usize)
        ensures
            k == self.rank(),
    {
        match self {
            Level::Unknown => 0,
            Level::Trace => 1,
            Level::Debug => 2,
            Level::Info => 3,
            Level::Warning => 4,
            Level::Error => 5,
            Level::Critical => 6,
        }
    }
}

/// Identifies one row of a log. Rows are numbered from 0 in arrival order.
pub type RowId = u32;

/// Handle of a class text in the table of the log that issued it.
pub type ClassId = usize;

/// One stored log entry.
#[derive(Clone, Debug, PartialEq, Eq)]
pub struct Entry {
    pub time: Timestamp,
    pub level: Level,
    pub class: ClassId,
    pub message: String,
}

/// An [`Entry`] as a mathematical value.
pub struct EntryView {
    pub time: Timestamp,
    pub level: Level,
    pub class: ClassId,
    pub message: Seq<char>,
}

impl View for Entry {
    type V = EntryView;

    open spec fn view(&self) -> EntryView {
        EntryView { time: self.time, level: self.level, class: self.class, message: self.message@ }
    }
}

/// One row as observers see it: the entry with its row number, and its class
/// by name.
#[derive(Clone, Debug, PartialEq, Eq)]
pub struct LogEntry {
    pub row_id: RowId,
    pub time: Timestamp,
    pub level: Level,
    pub class: String,
    pub message: String,
}

/// A [`LogEntry`] as a mathematical value.
pub struct LogEntryView {
    pub row_id: RowId,
    pub time: Timestamp,
    pub level: Level,
    pub class: Seq<char>,
    pub message: Seq<char>,
}

impl View for LogEntry {
    type V = LogEntryView;

    open spec fn view(&self) -> LogEntryView {
        LogEntryView {
            row_id: self.row_id,
            time: self.time,
            level: self.level,
            class: self.class@,
            message: self.message@,
        }
    }
}

/// A log as a mathematical value.
pub struct LogView {
    /// The stored entries; the row number of an entry is its position.
    pub rows: Seq<EntryView>,
    /// The class table; the handle of a class text is its position.
    pub classes: Seq<Seq<char>>,
    /// For each class, whether a parsed line has introduced it yet.
    pub seen: Seq<bool>,
}

/// The rows of `rows` that have level `level`, in ascending order.
pub open spec fn rows_at_level(rows: Seq<EntryView>, level: Level) -> Seq<RowId>
    decreases rows.len(),
{
    if rows.len() == 0 {
        Seq::empty()
    } else {
        let before = rows_at_level(rows.drop_last(), level);
        if rows.last().level == level {
            before.push((rows.len() - 1) as RowId)
        } else {
            before
        }
    }
}

impl LogView {
    /// The class text of lines that do not fit the line grammar.
    pub open spec fn unk() -> Seq<char> {
        "UNK"@
    }

    /// The class text of lines from the error stream.
    pub open spec fn stderr() -> Seq<char> {
        "STDERR"@
    }

    /// What holds of every log: the two fixed classes lead the table, no
    /// class text has two handles, and every row names a class of the table.
    pub open spec fn wf(self) -> bool {
        &&& self.rows.len() <= u32::MAX
        &&& self.classes.len() == self.seen.len()
        &&& self.classes.len() >= 2
        &&& self.classes[0] == Self::unk()
        &&& self.classes[1] == Self::stderr()
        &&& self.classes.no_duplicates()
        &&& forall|i: int| 0 <= i < self.rows.len() ==> (#[trigger] self.rows[i]).class < self.classes.len()
    }

    /// Whether the table holds `text`.
    pub open spec fn knows(self, text: Seq<char>) -> bool {
        self.classes.contains(text)
    }

    /// The handle of `text`, for a text that the table holds.
    pub open spec fn handle(self, text: Seq<char>) -> int {
        self.classes.index_of(text)
    }

    /// Whether `id` is the handle of the class `text`.
    pub open spec fn names(self, id: ClassId, text: Seq<char>) -> bool {
        id < self.classes.len() && self.classes[id as int] == text
    }

    /// Whether a parsed line has introduced `text` already.
    pub open spec fn announced(self, text: Seq<char>) -> bool {
        self.knows(text) && self.seen[self.handle(text)]
    }

    /// The log after a parsed line has named the class `text`: the text has a
    /// handle, the one it had before if it had one, and counts as introduced.
    pub open spec fn intern(self, text: Seq<char>) -> LogView {
        if self.knows(text) {
            LogView { seen: self.seen.update(self.handle(text), true), ..self }
        } else {
            LogView { classes: self.classes.push(text), seen: self.seen.push(true), ..self }
        }
    }

    /// The log after `entry` was stored.
    pub open spec fn append(self, entry: EntryView) -> LogView {
        LogView { rows: self.rows.push(entry), ..self }
    }

    /// The row `id` as observers see it.
    pub open spec fn row(self, id: int) -> LogEntryView {
        LogEntryView {
            row_id: id as RowId,
            time: self.rows[id].time,
            level: self.rows[id].level,
            class: self.classes[self.rows[id].class as int],
            message: self.rows[id].message,
        }
    }
}

/// The level with the given rank.
pub open spec fn level_of_rank(k: int) -> Level {
    if k == 1 {
        Level::Trace
    } else if k == 2 {
        Level::Debug
    } else if k == 3 {
        Level::Info
    } else if k == 4 {
        Level::Warning
    } else if k == 5 {
        Level::Error
    } else if k == 6 {
        Level::Critical
    } else {
        Level::Unknown
    }
}

/// The log of one process.
pub struct LogData {
    rows: Vec<Entry>,
    by_level: Vec<Vec<RowId>>,
    classes: Vec<String>,
    seen: Vec<bool>,
}

impl View for LogData {
    type V = LogView;

    closed spec fn view(&self) -> LogView {
        LogView {
            rows: self.rows@.map_values(|e: Entry| e@),
            classes: self.classes@.map_values(|s: String| s@),
            seen: self.seen@,
        }
    }
}

impl LogData {
    /// Handle of the class `UNK`, in every log.
    pub const UNK: ClassId = 0;

    /// Handle of the class `STDERR`, in every log.
    pub const STDERR: ClassId = 1;

    /// The invariant of the store: its value is well formed, its handles
    /// fit the machine, and the index agrees with the rows.
    pub open spec fn wf(&self) -> bool {
        self@.wf() && self@.classes.len() <= usize::MAX && self.indexed()
    }

    /// The index lists for each level exactly the rows of that level, in
    /// ascending order.
    pub closed spec fn indexed(&self) -> bool {
        &&& self.by_level@.len() == Level::count()
        &&& forall|k: int|
            0 <= k < Level::count() ==> (#[trigger] self.by_level@[k])@ == rows_at_level(
                self@.rows,
                level_of_rank(k),
            )
    }

    /// The rows that the index lists under `level`.
    pub closed spec fn index(&self, level: Level) -> Seq<RowId> {
        self.by_level@[level.rank()]@
    }

    /// An empty log, which knows the two fixed classes and has seen neither.
    pub fn new() -> (log: LogData)
        ensures
            log.wf(),
            log@.rows.len() == 0,
            log@.classes == seq![LogView::unk(), LogView::stderr()],
            log@.seen == seq![false, false],
    {
        let mut by_level: Vec<Vec<RowId>> = Vec::new();
        let mut k: usize = 0;
        while k < 7
            invariant
                k <= 7,
                by_level@.len() == k,
                forall|a: int| 0 <= a < k ==> (#[trigger] by_level@[a])@.len() == 0,
            decreases 7 - k,
        {
            by_level.push(Vec::new());
            k += 1;
        }
        let mut classes: Vec<String> = Vec::new();
        classes.push("UNK".to_owned());
        classes.push("STDERR".to_owned());
        let mut seen: Vec<bool> = Vec::new();
        seen.push(false);
        seen.push(false);
        let log = LogData { rows: Vec::new(), by_level, classes, seen };
        proof {
            reveal_strlit("UNK");
            reveal_strlit("STDERR");
            assert(log@.classes =~= seq![LogView::unk(), LogView::stderr()]);
            assert(log@.seen =~= seq![false, false]);
            assert(LogView::unk().len() != LogView::stderr().len());
            assert forall|a: int| 0 <= a < Level::count() implies (#[trigger] log.by_level@[a])@
                == rows_at_level(log@.rows, level_of_rank(a)) by {
                assert(log.by_level@[a]@ =~= Seq::<RowId>::empty());
            }
        }
        log
    }

    /// The number of rows stored.
    pub fn len(&self) -> (n: usize)
        requires
            self.wf(),
        ensures
            n == self@.rows.len(),
            n <= u32::MAX,
    {
        self.rows.len()
    }

    /// The number of classes in the table.
    pub fn class_count(&self) -> (n: usize)
        ensures
            n == self@.classes.len(),
    {
        self.classes.len()
    }

    /// The text of the class with handle `id`, if the table issued it.
    pub fn class_name(&self, id: ClassId) -> (name: Option<&str>)
        ensures
            match name {
                Some(text) => id < self@.classes.len() && text@ == self@.classes[id as int],
                None => id >= self@.classes.len(),
            },
    {
        if id < self.classes.len() {
            Some(self.classes[id].as_str())
        } else {
            None
        }
    }

    /// The entry stored as row `id`, if there is one.
    pub fn get(&self, id: RowId) -> (entry: Option<&Entry>)
        ensures
            match entry {
                Some(e) => id < self@.rows.len() && e@ == self@.rows[id as int],
                None => id >= self@.rows.len(),
            },
    {
        let at = id as usize;
        if at < self.rows.len() {
            Some(&self.rows[at])
        } else {
            None
        }
    }

    /// The row `id` as observers see it, if there is such a row.
    pub fn log_entry(&self, id: RowId) -> (row: Option<LogEntry>)
        requires
            self.wf(),
        ensures
            match row {
                Some(r) => id < self@.rows.len() && r@ == self@.row(id as int),
                None => id >= self@.rows.len(),
            },
    {
        let at = id as usize;
        if at < self.rows.len() {
            let entry = &self.rows[at];
            assert(self@.rows[at as int] == entry@);
            Some(
                LogEntry {
                    row_id: id,
                    time: entry.time,
                    level: entry.level,
                    class: self.classes[entry.class].clone(),
                    message: entry.message.clone(),
                },
            )
        } else {
            None
        }
    }

    /// The rows of level `level`, in ascending order, read off the index.
    pub fn rows_with_level(&self, level: Level) -> (ids: &Vec<RowId>)
        requires
            self.wf(),
        ensures
            ids@ == rows_at_level(self@.rows, level),
            ids@ == self.index(level),
    {
        &self.by_level[level.slot()]
    }

    /// Stores `entry` as the next row and lists it in the index under its
    /// level. The row gets the number of rows stored before, so numbers rise by
    /// one with every entry and none is given twice.
    pub fn add_entry(&mut self, entry: Entry) -> (stored: (RowId, &Entry))
        requires
            old(self).wf(),
            old(self)@.rows.len() < u32::MAX,
            entry.class < old(self)@.classes.len(),
        ensures
            final(self).wf(),
            final(self)@ == old(self)@.append(entry@),
            stored.0 == old(self)@.rows.len(),
            stored.1@ == entry@,
    {
        let id = self.rows.len() as RowId;
        let slot = entry.level.slot();
        let ghost before = self@;
        let ghost added = entry@;
        self.rows.push(entry);
        self.by_level[slot].push(id);
        proof {
            assert(self@.rows =~= before.rows.push(added));
            assert(self@.rows.drop_last() =~= before.rows);
            assert(self@.classes == before.classes);
            assert forall|k: int| 0 <= k < Level::count() implies (#[trigger] self.by_level@[k])@
                == rows_at_level(self@.rows, level_of_rank(k)) by {
                assert(level_of_rank(slot as int) == added.level);
            }
        }
        (id, &self.rows[id as usize])
    }

    /// Gives `text` its handle and marks it as introduced: the handle it had,
    /// or a new one at the end of the table. Says whether this call
    /// introduced it.
    fn intern(&mut self, text: &str) -> (r: (ClassId, bool))
        requires
            old(self).wf(),
        ensures
            final(self).wf(),
            final(self)@ == old(self)@.intern(text@),
            final(self)@.knows(text@),
            r.0 == final(self)@.handle(text@),
            r.1 == !old(self)@.announced(text@),
    {
        let chars = to_chars(text);
        let n = self.classes.len();
        let ghost before = self@;
        let mut k: usize = 0;
        while k < n
            invariant
                k <= n == self.classes.len(),
                self.wf(),
                self@ == before,
                before == old(self)@,
                chars@ == text@,
                forall|a: int| 0 <= a < k ==> before.classes[a] != text@,
            decreases n - k,
        {
            if spells(&chars, self.classes[k].as_str()) {
                let fresh = !self.seen[k];
                self.seen.set(k, true);
                proof {
                    assert(before.classes[k as int] == text@);
                    assert(before.knows(text@));
                    assert(before.handle(text@) == k);
                    assert(self@.seen =~= before.seen.update(k as int, true));
                    assert(self@.classes == before.classes);
                    assert(self@.rows == before.rows);
                }
                return (k, fresh);
            }
            k += 1;
        }
        self.classes.push(text.to_owned());
        self.seen.push(true);
        proof {
            assert(self.classes@.len() == self.classes.len());
            assert(!before.knows(text@));
            assert(self@.classes =~= before.classes.push(text@));
            assert(self@.seen =~= before.seen.push(true));
            assert(self@.rows == before.rows);
            assert(self@.classes[n as int] == text@);
            assert(self@.knows(text@));
            assert(self@.handle(text@) == n);
        }
        (n, true)
    }

    /// Reads `line` by the line grammar and builds its entry, stamped `time`.
    /// A line that does not fit gives `None` and leaves the log as it was. One
    /// that fits gives the entry and says whether its class is new, that is,
    /// whether no line parsed before had the same class text. The entry is
    /// not stored.
    pub fn parse_entry_at(&mut self, line: &str, time: Timestamp) -> (r: Option<(Entry, bool)>)
        requires
            old(self).wf(),
        ensures
            final(self).wf(),
            parsed(old(self)@, line@, time, final(self)@, entry_outcome(r)),
            r matches Some(found) ==> final(self)@.names(found.0.class, line_parts(line@)->0.class),
    {
        match parse_line(line) {
            None => None,
            Some(parts) => {
                let (class, fresh) = self.intern(parts.class.as_str());
                let level = Level::from_word(parts.level_word.as_str());
                proof {
                    lemma_handle_in_table(self@, parts.class@);
                }
                Some((Entry { time, level, class, message: parts.message }, fresh))
            },
        }
    }

    /// Reads `line` as [`LogData::parse_entry_at`] does, stamped with the
    /// current time.
    pub fn parse_entry(&mut self, line: &str) -> (r: Option<(Entry, bool)>)
        requires
            old(self).wf(),
        ensures
            final(self).wf(),
            exists|time: Timestamp|
                time.wf() && #[trigger] parsed(
                    old(self)@,
                    line@,
                    time,
                    final(self)@,
                    entry_outcome(r),
                ),
            r matches Some(found) ==> final(self)@.names(found.0.class, line_parts(line@)->0.class),
    {
        let time = now_utc();
        let r = self.parse_entry_at(line, time);
        assert(parsed(old(self)@, line@, time, self@, entry_outcome(r)));
        r
    }
}

/// The outcome of parsing as a mathematical value.
pub open spec fn entry_outcome(r: Option<(Entry, bool)>) -> Option<(EntryView, bool)> {
    match r {
        Some((entry, fresh)) => Some((entry@, fresh)),
        None => None,
    }
}

/// Parsing `line` at `time` takes the log from `before` to `after` and gives
/// `outcome`.
pub open spec fn parsed(
    before: LogView,
    line: Seq<char>,
    time: Timestamp,
    after: LogView,
    outcome: Option<(EntryView, bool)>,
) -> bool {
    match line_parts(line) {
        None => outcome is None && after == before,
        Some(parts) => {
            &&& after == before.intern(parts.class)
            &&& outcome == Some(
                (
                    EntryView {
                        time,
                        level: level_of_word(parts.level_word),
                        class: after.handle(parts.class) as ClassId,
                        message: parts.message,
                    },
                    !before.announced(parts.class),
                ),
            )
        },
    }
}

impl LogView {
    /// The number that the next stored entry gets.
    pub open spec fn next_id(self) -> int {
        self.rows.len() as int
    }

    /// The log after the entries of `entries` were stored, first to last.
    pub open spec fn append_all(self, entries: Seq<EntryView>) -> LogView
        decreases entries.len(),
    {
        if entries.len() == 0 {
            self
        } else {
            self.append_all(entries.drop_last()).append(entries.last())
        }
    }
}

/// Row numbers rise by exactly one with every stored entry, and none is used
/// twice: storing a sequence of entries gives the entry at position `k` the
/// number that was next before, plus `k`, and leaves every row stored earlier
/// in its place.
pub proof fn lemma_row_ids_rise_by_one(log: LogView, entries: Seq<EntryView>)
    ensures
        log.append_all(entries).rows == log.rows + entries,
        forall|k: int|
            0 <= k <= entries.len() ==> #[trigger] log.append_all(entries.take(k)).next_id()
                == log.next_id() + k,
    decreases entries.len(),
{
    if entries.len() == 0 {
        assert(log.rows + entries =~= log.rows);
        assert forall|k: int| 0 <= k <= entries.len() implies #[trigger] log.append_all(
            entries.take(k),
        ).next_id() == log.next_id() + k by {
            assert(entries.take(k) =~= entries);
        }
    } else {
        let init = entries.drop_last();
        lemma_row_ids_rise_by_one(log, init);
        assert(log.append_all(entries).rows =~= log.rows + entries);
        assert forall|k: int| 0 <= k <= entries.len() implies #[trigger] log.append_all(
            entries.take(k),
        ).next_id() == log.next_id() + k by {
            if k == entries.len() {
                assert(entries.take(k) =~= entries);
            } else {
                assert(entries.take(k) =~= init.take(k));
            }
        }
    }
}

/// What [`rows_at_level`] lists: a row number stands in the list exactly if
/// the row exists and has the level, and the list is strictly ascending.
pub proof fn lemma_rows_at_level(rows: Seq<EntryView>, level: Level)
    requires
        rows.len() <= u32::MAX,
    ensures
        forall|id: RowId| #[trigger]
            rows_at_level(rows, level).contains(id) <==> id < rows.len() && rows[id as int].level
                == level,
        forall|a: int, b: int|
            0 <= a < b < rows_at_level(rows, level).len() ==> rows_at_level(rows, level)[a]
                < rows_at_level(rows, level)[b],
    decreases rows.len(),
{
    let listed = rows_at_level(rows, level);
    if rows.len() > 0 {
        let init = rows.drop_last();
        let before = rows_at_level(init, level);
        let last = (rows.len() - 1) as RowId;
        lemma_rows_at_level(init, level);
        assert forall|id: RowId| #[trigger]
            listed.contains(id) <==> id < rows.len() && rows[id as int].level == level by {
            if id < init.len() {
                assert(init[id as int] == rows[id as int]);
            }
            if rows.last().level == level {
                assert(listed == before.push(last));
                if before.contains(id) {
                    let at = choose|at: int| 0 <= at < before.len() && before[at] == id;
                    assert(listed[at] == id);
                }
                if id == last {
                    assert(listed[before.len() as int] == id);
                }
            }
        }
        assert forall|a: int, b: int| 0 <= a < b < listed.len() implies listed[a] < listed[b] by {
            if rows.last().level == level && b == before.len() {
                assert(before.contains(before[a]));
            }
        }
    }
}

/// The index agrees with a scan of the rows: for every level, the set of row
/// numbers that the index lists under it is the set of rows with that level,
/// and the index lists them in ascending order.
pub proof fn lemma_index_is_scan(log: &LogData, level: Level)
    requires
        log.wf(),
    ensures
        log.index(level) == rows_at_level(log@.rows, level),
        log.index(level).to_set() == Set::new(
            |id: RowId| id < log@.rows.len() && log@.rows[id as int].level == level,
        ),
        forall|a: int, b: int|
            0 <= a < b < log.index(level).len() ==> log.index(level)[a] < log.index(level)[b],
{
    assert(level_of_rank(level.rank()) == level);
    assert(log.index(level) == log.by_level@[level.rank()]@);
    lemma_rows_at_level(log@.rows, level);
    assert(log.index(level).to_set() =~= Set::new(
        |id: RowId| id < log@.rows.len() && log@.rows[id as int].level == level,
    ));
}

/// The handle of a class that the table holds is a position of the table, and
/// the text at that position is the class.
pub proof fn lemma_handle_in_table(log: LogView, text: Seq<char>)
    requires
        log.knows(text),
    ensures
        0 <= log.handle(text) < log.classes.len(),
        log.classes[log.handle(text)] == text,
{
}

/// A class text keeps its handle: naming any class leaves the handle of every
/// class that the table held, and a class counts as introduced afterwards
/// exactly if it did before or is the one named.
pub proof fn lemma_intern_keeps_handles(log: LogView, named: Seq<char>, other: Seq<char>)
    requires
        log.wf(),
    ensures
        log.intern(named).wf(),
        log.intern(named).knows(named),
        log.intern(named).announced(named),
        log.knows(other) ==> log.intern(named).knows(other) && log.intern(named).handle(other)
            == log.handle(other),
        log.intern(named).announced(other) <==> log.announced(other) || other == named,
{
    let after = log.intern(named);
    if log.knows(named) {
        assert(after.classes == log.classes);
    } else {
        assert(after.classes[log.classes.len() as int] == named);
        assert(after.classes.drop_last() =~= log.classes);
        if log.knows(other) {
            let at = log.handle(other);
            assert(after.classes[at] == other);
        }
        if after.knows(other) && other != named {
            let at = after.handle(other);
            assert(log.classes[at] == other);
        }
    }
}

/// Two lines with the same class text: only the first can be told to carry a
/// new class, and both entries carry the same handle.
pub proof fn lemma_class_is_new_once(
    log: LogView,
    first: Seq<char>,
    t1: Timestamp,
    mid: LogView,
    out1: (EntryView, bool),
    second: Seq<char>,
    t2: Timestamp,
    after: LogView,
    out2: (EntryView, bool),
)
    requires
        log.wf(),
        parsed(log, first, t1, mid, Some(out1)),
        parsed(mid, second, t2, after, Some(out2)),
        line_parts(first) is Some,
        line_parts(second) is Some,
        line_parts(first)->0.class == line_parts(second)->0.class,
    ensures
        !out2.1,
        out1.0.class == out2.0.class,
        out1.1 == !log.announced(line_parts(first)->0.class),
{
    let class = line_parts(first)->0.class;
    lemma_intern_keeps_handles(log, class, class);
    lemma_intern_keeps_handles(mid, class, class);
}

} // verus!
