//! Queries over the log of a process: rows picked by level, by class name and
//! by row number, in ascending order of row number.

use crate::clock::clock_text;
use crate::log_store::{Level, LogData, LogEntry, LogEntryView, LogView, RowId};
use vstd::prelude::*;
use vstd::string::*;

verus! {

/// Which rows a query asks for. Each part that is absent admits every row, and
/// so does an empty list.
#[derive(Clone, Debug, PartialEq, Eq)]
pub struct LogFilter {
    /// The levels to keep.
    pub level: Option<Vec<Level>>,
    /// The names of the classes to keep.
    pub log_class: Option<Vec<String>>,
    /// The first and the last row number to keep.
    pub range: Option<(RowId, RowId)>,
}

/// A [`LogFilter`] as a mathematical value.
pub struct LogFilterView {
    pub level: Option<Seq<Level>>,
    pub log_class: Option<Seq<Seq<char>>>,
    pub range: Option<(RowId, RowId)>,
}

impl View for LogFilter {
    type V = LogFilterView;

    open spec fn view(&self) -> LogFilterView {
        LogFilterView {
            level: match self.level {
                Some(levels) => Some(levels@),
                None => None,
            },
            log_class: match self.log_class {
                Some(names) => Some(names@.map_values(|name: String| name@)),
                None => None,
            },
            range: self.range,
        }
    }
}

/// Whether a list of wanted values admits `value`.
pub open spec fn admits<T>(wanted: Option<Seq<T>>, value: T) -> bool {
    match wanted {
        None => true,
        Some(list) => list.len() == 0 || list.contains(value),
    }
}

/// Whether a range of row numbers, both ends included, admits `id`.
pub open spec fn in_range(range: Option<(RowId, RowId)>, id: int) -> bool {
    match range {
        None => true,
        Some((begin, end)) => begin <= id <= end,
    }
}

/// Whether `filter` keeps the row `id` of `log`.
pub open spec fn selects(log: LogView, filter: LogFilterView, id: int) -> bool {
    &&& admits(filter.level, log.rows[id].level)
    &&& admits(filter.log_class, log.classes[log.rows[id].class as int])
    &&& in_range(filter.range, id)
}

/// The rows among the first `n` of `log` that `filter` keeps, in ascending
/// order.
pub open spec fn selected(log: LogView, filter: LogFilterView, n: nat) -> Seq<LogEntryView>
    decreases n,
{
    if n == 0 {
        Seq::empty()
    } else {
        let before = selected(log, filter, (n - 1) as nat);
        if selects(log, filter, n - 1) {
            before.push(log.row(n - 1))
        } else {
            before
        }
    }
}

/// What a query lists: every row that the filter keeps, once, and no other,
/// in strictly ascending order of row number.
pub proof fn lemma_selected(log: LogView, filter: LogFilterView, n: nat)
    requires
        n <= log.rows.len() <= u32::MAX,
    ensures
        forall|k: int|
            0 <= k < selected(log, filter, n).len() ==> {
                let id = (#[trigger] selected(log, filter, n)[k]).row_id;
                id < n && selects(log, filter, id as int) && selected(log, filter, n)[k] == log.row(
                    id as int,
                )
            },
        forall|a: int, b: int|
            0 <= a < b < selected(log, filter, n).len() ==> selected(log, filter, n)[a].row_id
                < selected(log, filter, n)[b].row_id,
        forall|id: int|
            0 <= id < n && selects(log, filter, id) ==> selected(log, filter, n).contains(
                #[trigger] log.row(id),
            ),
    decreases n,
{
    if n > 0 {
        let before = selected(log, filter, (n - 1) as nat);
        let all = selected(log, filter, n);
        lemma_selected(log, filter, (n - 1) as nat);
        assert forall|id: int| 0 <= id < n && selects(log, filter, id) implies all.contains(
            #[trigger] log.row(id),
        ) by {
            if id < n - 1 {
                let at = choose|at: int| 0 <= at < before.len() && before[at] == log.row(id);
                assert(all[at] == log.row(id));
            } else {
                assert(all[all.len() - 1] == log.row(id));
            }
        }
    }
}

/// A query by range alone lists the rows of the range: with rows up to `end`
/// stored, it gives the rows `begin` to `end`, each once, in order.
pub proof fn lemma_range_query(log: LogView, begin: RowId, end: RowId, n: nat)
    requires
        begin <= end,
        n <= log.rows.len() <= u32::MAX,
    ensures
        selected(log, LogFilterView { level: None, log_class: None, range: Some((begin, end)) }, n)
            == Seq::new(
            if n <= begin {
                0nat
            } else if n <= end {
                (n - begin) as nat
            } else {
                (end - begin + 1) as nat
            },
            |k: int| log.row(begin + k),
        ),
    decreases n,
{
    let filter = LogFilterView { level: None, log_class: None, range: Some((begin, end)) };
    if n > 0 {
        lemma_range_query(log, begin, end, (n - 1) as nat);
    }
    let len = if n <= begin {
        0nat
    } else if n <= end {
        (n - begin) as nat
    } else {
        (end - begin + 1) as nat
    };
    assert(selected(log, filter, n) =~= Seq::new(len, |k: int| log.row(begin + k)));
}

fn has_level(levels: &Vec<Level>, level: Level) -> (b: bool)
    ensures
        b == levels@.contains(level),
{
    let n = levels.len();
    let mut k: usize = 0;
    while k < n
        invariant
            k <= n == levels.len(),
            forall|a: int| 0 <= a < k ==> levels@[a] != level,
        decreases n - k,
    {
        if levels[k] == level {
            assert(levels@[k as int] == level);
            return true;
        }
        k += 1;
    }
    false
}

fn has_name(names: &Vec<String>, name: &String) -> (b: bool)
    ensures
        b == names@.map_values(|name: String| name@).contains(name@),
{
    let n = names.len();
    let ghost texts = names@.map_values(|name: String| name@);
    let mut k: usize = 0;
    while k < n
        invariant
            k <= n == names.len(),
            texts == names@.map_values(|name: String| name@),
            forall|a: int| 0 <= a < k ==> texts[a] != name@,
        decreases n - k,
    {
        if names[k] == *name {
            assert(texts[k as int] == name@);
            return true;
        }
        k += 1;
    }
    false
}

fn level_admitted(wanted: &Option<Vec<Level>>, level: Level) -> (b: bool)
    ensures
        b == admits(
            match wanted {
                Some(levels) => Some(levels@),
                None => None,
            },
            level,
        ),
{
    match wanted {
        None => true,
        Some(levels) => levels.len() == 0 || has_level(levels, level),
    }
}

fn class_admitted(wanted: &Option<Vec<String>>, class: &String) -> (b: bool)
    ensures
        b == admits(
            match wanted {
                Some(names) => Some(names@.map_values(|name: String| name@)),
                None => None,
            },
            class@,
        ),
{
    match wanted {
        None => true,
        Some(names) => names.len() == 0 || has_name(names, class),
    }
}

/// The rows of `rows` as mathematical values.
pub open spec fn rows_view(rows: Seq<LogEntry>) -> Seq<LogEntryView> {
    rows.map_values(|row: LogEntry| row@)
}

/// Lists the rows of `log` that `filter` keeps, in ascending order of row
/// number. Without a filter these are all rows.
pub fn get_log(log: &LogData, filter: &LogFilter) -> (rows: Vec<LogEntry>)
    requires
        log.wf(),
    ensures
        rows_view(rows@) == selected(log@, filter@, log@.rows.len()),
{
    let n = log.len();
    let mut rows: Vec<LogEntry> = Vec::new();
    let mut id: usize = 0;
    assert(rows_view(rows@) =~= selected(log@, filter@, 0));
    while id < n
        invariant
            id <= n == log@.rows.len(),
            n <= u32::MAX,
            log.wf(),
            rows_view(rows@) == selected(log@, filter@, id as nat),
        decreases n - id,
    {
        let in_range = match filter.range {
            None => true,
            Some((begin, end)) => begin as usize <= id && id <= end as usize,
        };
        match log.log_entry(id as RowId) {
            Some(row) => {
                if in_range && level_admitted(&filter.level, row.level) && class_admitted(
                    &filter.log_class,
                    &row.class,
                ) {
                    rows.push(row);
                    assert(rows_view(rows@) =~= selected(log@, filter@, (id + 1) as nat));
                }
            },
            None => {},
        }
        id += 1;
    }
    rows
}

/// The line that a saved log holds for a row: the time of day, the class in
/// square brackets, the level in angle brackets, the message, a line feed.
pub open spec fn log_line(row: LogEntryView) -> Seq<char> {
    clock_text(row.time) + " ["@ + row.class + "] <"@ + row.level.name() + "> "@ + row.message
        + "\n"@
}

/// Writes `row` out as a line of a saved log.
pub fn format_log_line(row: &LogEntry) -> (line: String)
    ensures
        line@ == log_line(row@),
{
    let mut line = row.time.clock_text();
    line.append(" [");
    line.append(row.class.as_str());
    line.append("] <");
    line.append(row.level.as_str());
    line.append("> ");
    line.append(row.message.as_str());
    line.append("\n");
    line
}

} // verus!
