//! The decisions of the event loop that supervises one child process.
//!
//! The loop itself waits on the child's output streams, its exit, the command
//! queue and the kill request, and does the I/O. Whatever becomes ready first
//! it hands to [`Multiplexer::handle`] as a [`Signal`]; the [`Reaction`] says
//! which events to pass on to the observer and what to do next. When told to
//! shut down it kills the child, waits for it, and reports the exit status to
//! [`Multiplexer::finish`].

use crate::clock::{now_utc, Timestamp};
use crate::line_grammar::line_parts;
use crate::log_store::{
    level_of_word, ClassId, Entry, EntryView, Level, LogData, LogEntry, LogEntryView, LogView,
};
use vstd::prelude::*;
use vstd::string::*;

verus! {

/// What an observer of a process is told.
#[derive(Clone, Debug, PartialEq, Eq)]
pub enum GameEvent {
    /// A row was stored in the log.
    Log(LogEntry),
    /// A line introduced a class that no line had before.
    AddLogClass { value: String },
    /// The child is gone; nothing follows.
    GameExit { status: i32 },
    /// Reading from or writing to the child failed.
    IOError { err: String },
    /// The child sent a line of its own protocol on the error stream.
    IpcLine { value: String },
}

/// A [`GameEvent`] as a mathematical value.
pub enum GameEventView {
    Log(LogEntryView),
    AddLogClass { value: Seq<char> },
    GameExit { status: i32 },
    IOError { err: Seq<char> },
    IpcLine { value: Seq<char> },
}

impl View for GameEvent {
    type V = GameEventView;

    open spec fn view(&self) -> GameEventView {
        match self {
            GameEvent::Log(row) => GameEventView::Log(row@),
            GameEvent::AddLogClass { value } => GameEventView::AddLogClass { value: value@ },
            GameEvent::GameExit { status } => GameEventView::GameExit { status: *status },
            GameEvent::IOError { err } => GameEventView::IOError { err: err@ },
            GameEvent::IpcLine { value } => GameEventView::IpcLine { value: value@ },
        }
    }
}

/// What the loop has seen: the one source that became ready.
#[derive(Clone, Debug, PartialEq, Eq)]
pub enum Signal {
    /// The output stream gave a line.
    StdoutLine(String),
    /// The output stream ended.
    StdoutClosed,
    /// Reading the output stream failed.
    StdoutFailed,
    /// The error stream gave a line.
    StderrLine(String),
    /// The error stream ended.
    StderrClosed,
    /// Reading the error stream failed.
    StderrFailed,
    /// The child has exited.
    ChildExited,
    /// A caller queued a line for the child's input.
    Command(String),
    /// Writing the last command to the child's input failed.
    WriteFailed,
    /// Flushing the child's input after the last command failed.
    FlushFailed,
    /// A caller asked for the child to be killed.
    Kill,
}

/// A [`Signal`] as a mathematical value.
pub enum SignalView {
    StdoutLine(Seq<char>),
    StdoutClosed,
    StdoutFailed,
    StderrLine(Seq<char>),
    StderrClosed,
    StderrFailed,
    ChildExited,
    Command(Seq<char>),
    WriteFailed,
    FlushFailed,
    Kill,
}

impl View for Signal {
    type V = SignalView;

    open spec fn view(&self) -> SignalView {
        match self {
            Signal::StdoutLine(line) => SignalView::StdoutLine(line@),
            Signal::StdoutClosed => SignalView::StdoutClosed,
            Signal::StdoutFailed => SignalView::StdoutFailed,
            Signal::StderrLine(line) => SignalView::StderrLine(line@),
            Signal::StderrClosed => SignalView::StderrClosed,
            Signal::StderrFailed => SignalView::StderrFailed,
            Signal::ChildExited => SignalView::ChildExited,
            Signal::Command(text) => SignalView::Command(text@),
            Signal::WriteFailed => SignalView::WriteFailed,
            Signal::FlushFailed => SignalView::FlushFailed,
            Signal::Kill => SignalView::Kill,
        }
    }
}

/// What the loop is to do after a signal.
#[derive(Clone, Debug, PartialEq, Eq)]
pub enum Action {
    /// Wait for the next signal.
    Continue,
    /// Write `text` and then [`LINE_TERMINATOR`] to the child's input and
    /// flush it, then wait for the next signal. A failure to write `text` is
    /// the signal `WriteFailed`, a failure to flush is `FlushFailed`.
    Write { text: String },
    /// Leave the loop: kill the child, wait for its exit status and hand it
    /// to [`Multiplexer::finish`].
    Shutdown,
}

/// An [`Action`] as a mathematical value.
pub enum ActionView {
    Continue,
    Write { text: Seq<char> },
    Shutdown,
}

impl View for Action {
    type V = ActionView;

    open spec fn view(&self) -> ActionView {
        match self {
            Action::Continue => ActionView::Continue,
            Action::Write { text } => ActionView::Write { text: text@ },
            Action::Shutdown => ActionView::Shutdown,
        }
    }
}

/// The byte that ends every command written to the child: a line feed.
pub const LINE_TERMINATOR: u8 = 10;

/// The character that marks a line of the error stream as one of the child's
/// own protocol.
pub const IPC_MARKER: char = ';';

/// The exit status reported when the child left none.
pub const NO_EXIT_STATUS: i32 = -1;

/// The answer to one signal.
#[derive(Debug, PartialEq, Eq)]
pub struct Reaction {
    /// The events to pass on, in this order.
    pub events: Vec<GameEvent>,
    /// What to do next.
    pub action: Action,
}

/// The events of `events` as mathematical values.
pub open spec fn events_view(events: Seq<GameEvent>) -> Seq<GameEventView> {
    events.map_values(|e: GameEvent| e@)
}

/// What a signal leads to: the log afterwards, the events to pass on, and what
/// to do next.
pub struct Step {
    pub log: LogView,
    pub events: Seq<GameEventView>,
    pub action: ActionView,
}

/// Storing `entry`: the observer is told of the new row.
pub open spec fn store_step(log: LogView, entry: EntryView) -> Step {
    let after = log.append(entry);
    Step {
        log: after,
        events: seq![GameEventView::Log(after.row(log.next_id()))],
        action: ActionView::Continue,
    }
}

/// A line of the output stream is classified and stored. One that fits the
/// line grammar is stored with its class and level, and the observer learns
/// of the class first if no line had it before. Any other line is stored
/// whole, at level `Info` under the class `UNK`.
pub open spec fn stdout_step(log: LogView, line: Seq<char>, time: Timestamp) -> Step {
    match line_parts(line) {
        Some(parts) => {
            let named = log.intern(parts.class);
            let entry = EntryView {
                time,
                level: level_of_word(parts.level_word),
                class: named.handle(parts.class) as ClassId,
                message: parts.message,
            };
            let stored = store_step(named, entry);
            if log.announced(parts.class) {
                stored
            } else {
                Step {
                    events: seq![GameEventView::AddLogClass { value: parts.class }] + stored.events,
                    ..stored
                }
            }
        },
        None => store_step(
            log,
            EntryView { time, level: Level::Info, class: LogData::UNK, message: line },
        ),
    }
}

/// A line of the error stream that starts with the marker is passed on
/// without it and not stored. Any other line is stored whole, at level
/// `Error` under the class `STDERR`.
pub open spec fn stderr_step(log: LogView, line: Seq<char>, time: Timestamp) -> Step {
    if line.len() > 0 && line[0] == IPC_MARKER {
        Step {
            log,
            events: seq![GameEventView::IpcLine { value: line.subrange(1, line.len() as int) }],
            action: ActionView::Continue,
        }
    } else {
        store_step(
            log,
            EntryView { time, level: Level::Error, class: LogData::STDERR, message: line },
        )
    }
}

/// The loop ends without an error.
pub open spec fn stop_step(log: LogView) -> Step {
    Step { log, events: Seq::empty(), action: ActionView::Shutdown }
}

/// The loop ends on an I/O error, and the observer is told which.
pub open spec fn fail_step(log: LogView, err: Seq<char>) -> Step {
    Step { log, events: seq![GameEventView::IOError { err }], action: ActionView::Shutdown }
}

/// What the running loop does on `signal`, seen at `time`.
pub open spec fn step(log: LogView, signal: SignalView, time: Timestamp) -> Step {
    match signal {
        SignalView::StdoutLine(line) => stdout_step(log, line, time),
        SignalView::StdoutClosed => stop_step(log),
        SignalView::StdoutFailed => fail_step(log, "failed to read stdout"@),
        SignalView::StderrLine(line) => stderr_step(log, line, time),
        SignalView::StderrClosed => stop_step(log),
        SignalView::StderrFailed => fail_step(log, "failed to read stderr"@),
        SignalView::ChildExited => stop_step(log),
        SignalView::Command(text) => Step {
            log,
            events: Seq::empty(),
            action: ActionView::Write { text },
        },
        SignalView::WriteFailed => fail_step(log, "failed to write to stdin"@),
        SignalView::FlushFailed => fail_step(log, "failed to flush stdin"@),
        SignalView::Kill => stop_step(log),
    }
}

/// Whether `signal` makes the loop store a row.
pub open spec fn stores_row(signal: SignalView) -> bool {
    match signal {
        SignalView::StdoutLine(_) => true,
        SignalView::StderrLine(line) => !(line.len() > 0 && line[0] == IPC_MARKER),
        _ => false,
    }
}

impl Signal {
    /// Whether the signal makes the loop store a row, for which the log must
    /// have room.
    pub fn stores_row(&self) -> (b: bool)
        ensures
            b == stores_row(self@),
    {
        match self {
            Signal::StdoutLine(_) => true,
            Signal::StderrLine(line) => {
                let n = line.as_str().unicode_len();
                !(n > 0 && line.as_str().get_char(0) == IPC_MARKER)
            },
            _ => false,
        }
    }
}

/// How far the loop has come.
#[derive(Clone, Copy, Debug, PartialEq, Eq, Structural)]
pub enum Phase {
    /// The loop waits for signals.
    Running,
    /// The loop has ended; the child is being killed and waited for.
    Stopping,
    /// The exit was reported; nothing follows.
    Finished,
}

/// Whether `event` belongs to the end of a process.
pub open spec fn is_closing(event: GameEventView) -> bool {
    event is IOError || event is GameExit
}

/// No event of `events` belongs to the end of a process.
pub open spec fn quiet(events: Seq<GameEventView>) -> bool {
    forall|i: int| 0 <= i < events.len() ==> !is_closing(#[trigger] events[i])
}

/// The events of a loop that has ended: at most one I/O error, and that one
/// last.
pub open spec fn stopped(events: Seq<GameEventView>) -> bool {
    quiet(events) || (events.len() > 0 && events.last() is IOError && quiet(events.drop_last()))
}

/// The events of a process whose exit was reported: the exit comes last and
/// once, after the events of a loop that has ended.
pub open spec fn finished(events: Seq<GameEventView>) -> bool {
    events.len() > 0 && events.last() is GameExit && stopped(events.drop_last())
}

/// The status that the exit event carries.
pub open spec fn exit_status(status: Option<i32>) -> i32 {
    match status {
        Some(code) => code,
        None => NO_EXIT_STATUS,
    }
}

/// The control state of the loop of one process.
pub struct Multiplexer {
    phase: Phase,
    emitted: Ghost<Seq<GameEventView>>,
}

impl Multiplexer {
    /// How far the loop has come.
    pub closed spec fn phase(&self) -> Phase {
        self.phase
    }

    /// Every event handed out so far, in order.
    pub closed spec fn emitted(&self) -> Seq<GameEventView> {
        self.emitted@
    }

    /// The events handed out so far fit the phase.
    pub open spec fn wf(&self) -> bool {
        match self.phase() {
            Phase::Running => quiet(self.emitted()),
            Phase::Stopping => stopped(self.emitted()),
            Phase::Finished => finished(self.emitted()),
        }
    }

    /// This state and `log` and `r` are what follows from the state `before`
    /// and the log `log_before` on `signal`, seen at `time`: the running loop
    /// does what [`step`] says, hands out its events and goes on or stops as
    /// it says; a loop that has ended changes nothing, hands out nothing, and
    /// asks once more to be left.
    pub open spec fn follows(
        &self,
        before: &Multiplexer,
        log_before: LogView,
        signal: SignalView,
        time: Timestamp,
        log: LogView,
        r: Reaction,
    ) -> bool {
        let want = step(log_before, signal, time);
        if before.phase() == Phase::Running {
            &&& log == want.log
            &&& events_view(r.events@) == want.events
            &&& r.action@ == want.action
            &&& self.emitted() == before.emitted() + want.events
            &&& self.phase() == if want.action is Shutdown {
                Phase::Stopping
            } else {
                Phase::Running
            }
        } else {
            &&& log == log_before
            &&& r.events@.len() == 0
            &&& r.action@ is Shutdown
            &&& self.emitted() == before.emitted()
            &&& self.phase() == before.phase()
        }
    }

    /// The state of a loop that is about to start.
    pub fn new() -> (m: Multiplexer)
        ensures
            m.wf(),
            m.phase() == Phase::Running,
            m.emitted().len() == 0,
    {
        Multiplexer { phase: Phase::Running, emitted: Ghost(Seq::empty()) }
    }

    /// Whether the loop still waits for signals.
    pub fn is_running(&self) -> (b: bool)
        ensures
            b == (self.phase() == Phase::Running),
    {
        self.phase == Phase::Running
    }

    /// Whether the exit was reported.
    pub fn is_finished(&self) -> (b: bool)
        ensures
            b == (self.phase() == Phase::Finished),
    {
        self.phase == Phase::Finished
    }

    /// Decides what the loop does on `signal`, seen at `time`, as
    /// [`Multiplexer::follows`] says. A signal that stores a row needs room
    /// for one in the log.
    pub fn handle_at(&mut self, log: &mut LogData, signal: Signal, time: Timestamp) -> (r: Reaction)
        requires
            old(self).wf(),
            old(log).wf(),
            stores_row(signal@) ==> old(log)@.rows.len() < u32::MAX,
        ensures
            final(self).wf(),
            final(log).wf(),
            final(self).follows(old(self), old(log)@, signal@, time, final(log)@, r),
    {
        if self.phase != Phase::Running {
            return Reaction { events: Vec::new(), action: Action::Shutdown };
        }
        let ghost want = step(log@, signal@, time);
        let r = match signal {
            Signal::StdoutLine(line) => on_stdout_line(log, line, time),
            Signal::StderrLine(line) => on_stderr_line(log, line, time),
            Signal::StdoutClosed => stop(Ghost(log@)),
            Signal::StderrClosed => stop(Ghost(log@)),
            Signal::ChildExited => stop(Ghost(log@)),
            Signal::Kill => stop(Ghost(log@)),
            Signal::StdoutFailed => fail(Ghost(log@), "failed to read stdout"),
            Signal::StderrFailed => fail(Ghost(log@), "failed to read stderr"),
            Signal::WriteFailed => fail(Ghost(log@), "failed to write to stdin"),
            Signal::FlushFailed => fail(Ghost(log@), "failed to flush stdin"),
            Signal::Command(text) => {
                let r = Reaction { events: Vec::new(), action: Action::Write { text } };
                assert(events_view(r.events@) =~= Seq::empty());
                r
            },
        };
        proof {
            lemma_step_events(old(log)@, signal@, time);
            let before = self.emitted@;
            let after = before + want.events;
            if want.action is Shutdown && want.events.len() == 1 {
                assert(after.last() == want.events[0]);
                assert(after.drop_last() =~= before);
            } else {
                assert forall|i: int| 0 <= i < after.len() implies !is_closing(
                    #[trigger] after[i],
                ) by {
                    if i >= before.len() {
                        assert(after[i] == want.events[i - before.len()]);
                    }
                }
            }
        }
        self.emitted = Ghost(self.emitted@ + want.events);
        match r.action {
            Action::Shutdown => {
                self.phase = Phase::Stopping;
            },
            _ => {},
        }
        r
    }

    /// Decides what the loop does on `signal`, seen now.
    pub fn handle(&mut self, log: &mut LogData, signal: Signal) -> (r: Reaction)
        requires
            old(self).wf(),
            old(log).wf(),
            stores_row(signal@) ==> old(log)@.rows.len() < u32::MAX,
        ensures
            final(self).wf(),
            final(log).wf(),
            exists|time: Timestamp|
                time.wf() && #[trigger] final(self).follows(
                    old(self),
                    old(log)@,
                    signal@,
                    time,
                    final(log)@,
                    r,
                ),
    {
        let time = now_utc();
        let ghost seen = signal@;
        let r = self.handle_at(log, signal, time);
        assert(self.follows(old(self), old(log)@, seen, time, log@, r));
        r
    }

    /// Reports the exit of the child, once: the loop is over, and the
    /// observer is told the exit status, or [`NO_EXIT_STATUS`] where the
    /// child left none. The process is then to be taken off the registry.
    /// After the first call nothing more is reported.
    pub fn finish(&mut self, status: Option<i32>) -> (event: Option<GameEvent>)
        requires
            old(self).wf(),
        ensures
            final(self).wf(),
            final(self).phase() == Phase::Finished,
            old(self).phase() == Phase::Finished ==> event is None && final(self).emitted() == old(
                self,
            ).emitted(),
            old(self).phase() != Phase::Finished ==> {
                &&& event matches Some(e)
                &&& e@ == (GameEventView::GameExit { status: exit_status(status) })
                &&& final(self).emitted() == old(self).emitted().push(e@)
            },
    {
        if self.phase == Phase::Finished {
            return None;
        }
        let code = match status {
            Some(code) => code,
            None => NO_EXIT_STATUS,
        };
        let event = GameEvent::GameExit { status: code };
        proof {
            let before = self.emitted@;
            assert(before.push(event@).drop_last() =~= before);
        }
        self.emitted = Ghost(self.emitted@.push(event@));
        self.phase = Phase::Finished;
        Some(event)
    }
}

/// The events of a step are of the loop's run, but for the one I/O error with
/// which a step may end the loop.
pub proof fn lemma_step_events(log: LogView, signal: SignalView, time: Timestamp)
    ensures
        quiet(step(log, signal, time).events) || (step(log, signal, time).action is Shutdown
            && step(log, signal, time).events.len() == 1 && step(log, signal, time).events[0]
            is IOError),
        !(step(log, signal, time).action is Shutdown) ==> quiet(step(log, signal, time).events),
{
}

/// However a process ends, its observer is told in one order: the exit is the
/// last event and the only one of its kind, and an I/O error, of which there
/// is at most one, is the event just before it.
pub proof fn lemma_shutdown_order(m: &Multiplexer)
    requires
        m.wf(),
        m.phase() == Phase::Finished,
    ensures
        m.emitted().len() >= 1,
        m.emitted().last() is GameExit,
        forall|i: int| 0 <= i < m.emitted().len() - 1 ==> !(m.emitted()[i] is GameExit),
        forall|i: int| 0 <= i < m.emitted().len() - 2 ==> !(m.emitted()[i] is IOError),
{
    let all = m.emitted();
    let run = all.drop_last();
    assert forall|i: int| 0 <= i < all.len() - 1 implies !(all[i] is GameExit) by {
        assert(all[i] == run[i]);
        if !quiet(run) {
            if i < run.len() - 1 {
                assert(run[i] == run.drop_last()[i]);
            }
        }
    }
    assert forall|i: int| 0 <= i < all.len() - 2 implies !(all[i] is IOError) by {
        assert(all[i] == run[i]);
        if !quiet(run) {
            assert(run[i] == run.drop_last()[i]);
        }
    }
}

fn stop(Ghost(log): Ghost<LogView>) -> (r: Reaction)
    ensures
        events_view(r.events@) == stop_step(log).events,
        r.action@ == stop_step(log).action,
{
    let r = Reaction { events: Vec::new(), action: Action::Shutdown };
    assert(events_view(r.events@) =~= Seq::empty());
    r
}

fn fail(Ghost(log): Ghost<LogView>, err: &str) -> (r: Reaction)
    ensures
        events_view(r.events@) == fail_step(log, err@).events,
        r.action@ == fail_step(log, err@).action,
{
    let mut events: Vec<GameEvent> = Vec::new();
    events.push(GameEvent::IOError { err: err.to_owned() });
    let r = Reaction { events, action: Action::Shutdown };
    assert(events_view(r.events@) =~= fail_step(log, err@).events);
    r
}

fn store(log: &mut LogData, entry: Entry, events: Vec<GameEvent>) -> (r: Reaction)
    requires
        old(log).wf(),
        old(log)@.rows.len() < u32::MAX,
        entry.class < old(log)@.classes.len(),
    ensures
        final(log).wf(),
        final(log)@ == store_step(old(log)@, entry@).log,
        events_view(r.events@) == events_view(events@) + store_step(old(log)@, entry@).events,
        r.action@ == store_step(old(log)@, entry@).action,
{
    let mut events = events;
    let ghost told = events_view(events@);
    let id = log.add_entry(entry).0;
    match log.log_entry(id) {
        Some(row) => {
            events.push(GameEvent::Log(row));
        },
        None => {},
    }
    let r = Reaction { events, action: Action::Continue };
    assert(events_view(r.events@) =~= told + store_step(old(log)@, entry@).events);
    r
}

fn on_stdout_line(log: &mut LogData, line: String, time: Timestamp) -> (r: Reaction)
    requires
        old(log).wf(),
        old(log)@.rows.len() < u32::MAX,
    ensures
        final(log).wf(),
        final(log)@ == stdout_step(old(log)@, line@, time).log,
        events_view(r.events@) == stdout_step(old(log)@, line@, time).events,
        r.action@ == stdout_step(old(log)@, line@, time).action,
{
    let mut events: Vec<GameEvent> = Vec::new();
    let parsed = log.parse_entry_at(line.as_str(), time);
    let entry = match parsed {
        Some((entry, fresh)) => {
            if fresh {
                match log.class_name(entry.class) {
                    Some(name) => {
                        events.push(GameEvent::AddLogClass { value: name.to_owned() });
                    },
                    None => {},
                }
            }
            entry
        },
        None => Entry { time, level: Level::Info, class: LogData::UNK, message: line },
    };
    proof {
        let want = stdout_step(old(log)@, line@, time);
        if line_parts(line@) is Some && !old(log)@.announced(line_parts(line@)->0.class) {
            assert(events_view(events@) =~= seq![
                GameEventView::AddLogClass { value: line_parts(line@)->0.class },
            ]);
        } else {
            assert(events_view(events@) =~= Seq::empty());
        }
    }
    let r = store(log, entry, events);
    proof {
        let want = stdout_step(old(log)@, line@, time);
        assert(events_view(r.events@) =~= want.events);
    }
    r
}

fn on_stderr_line(log: &mut LogData, line: String, time: Timestamp) -> (r: Reaction)
    requires
        old(log).wf(),
        stores_row(SignalView::StderrLine(line@)) ==> old(log)@.rows.len() < u32::MAX,
    ensures
        final(log).wf(),
        final(log)@ == stderr_step(old(log)@, line@, time).log,
        events_view(r.events@) == stderr_step(old(log)@, line@, time).events,
        r.action@ == stderr_step(old(log)@, line@, time).action,
{
    let n = line.as_str().unicode_len();
    if n > 0 && line.as_str().get_char(0) == IPC_MARKER {
        let mut events: Vec<GameEvent> = Vec::new();
        events.push(GameEvent::IpcLine { value: line.as_str().substring_char(1, n).to_owned() });
        let r = Reaction { events, action: Action::Continue };
        assert(events_view(r.events@) =~= stderr_step(old(log)@, line@, time).events);
        r
    } else {
        let entry = Entry { time, level: Level::Error, class: LogData::STDERR, message: line };
        let r = store(log, entry, Vec::new());
        assert(events_view(r.events@) =~= stderr_step(old(log)@, line@, time).events);
        r
    }
}

} // verus!
