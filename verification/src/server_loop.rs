//! What a load testing server does with its connections.
//!
//! The operations on the network are performed elsewhere. Here stands what is to be done next,
//! given how the last operation went, and what the statistics say of it.

use vstd::prelude::*;

use crate::addr::SocketAddr;
use crate::cli_args::TcpServerOptions;
use crate::duration::Duration;
use crate::failure::Failure;
use crate::snapshot;
use crate::stats;
use crate::stats::Counts;
use crate::stats::TcpServerStats;

verus! {

/// What one connection of the server does next.
#[derive(Debug, Clone, Copy, PartialEq, Eq, Structural)]
pub enum SocketAction {
    /// Read what comes in, for no longer than the timeout.
    Read,
    /// Write one zero byte.
    Write,
    /// Shut the connection down.
    Shutdown,
    /// Warn of the error of the last operation, and end without an error.
    Warn,
    /// End without an error.
    Finish,
    /// End with the error of the last operation.
    Fail,
}

/// How the last operation of one connection went.
#[derive(Debug, Clone, Copy, PartialEq, Eq, Structural)]
pub enum SocketEvent {
    /// So many bytes came in; none at the end of the data.
    Read(usize),
    /// Nothing came in before the timeout.
    ReadElapsed,
    ReadFailed(Failure),
    Written,
    WriteFailed(Failure),
    ShutDown,
    ShutdownFailed(Failure),
}

/// Whether a connection that failed this way was closed by the other side.
pub open spec fn is_closed(failure: Failure) -> bool {
    ||| failure == Failure::ConnectionReset
    ||| failure == Failure::ConnectionAborted
    ||| failure == Failure::BrokenPipe
    ||| failure == Failure::WriteZero
}

/// What one connection does after an event.
pub open spec fn socket_action(event: SocketEvent) -> SocketAction {
    match event {
        SocketEvent::Read(bytes) => if bytes == 0 {
            SocketAction::Shutdown
        } else {
            SocketAction::Write
        },
        SocketEvent::ReadElapsed => SocketAction::Shutdown,
        SocketEvent::ReadFailed(failure) => if is_closed(failure) {
            SocketAction::Finish
        } else if failure == Failure::WouldBlock {
            SocketAction::Read
        } else {
            SocketAction::Warn
        },
        SocketEvent::Written => SocketAction::Read,
        SocketEvent::WriteFailed(failure) => if failure == Failure::WouldBlock {
            SocketAction::Write
        } else {
            SocketAction::Warn
        },
        SocketEvent::ShutDown => SocketAction::Finish,
        SocketEvent::ShutdownFailed(failure) => if is_closed(failure) {
            SocketAction::Finish
        } else if failure == Failure::WouldBlock {
            SocketAction::Shutdown
        } else {
            SocketAction::Fail
        },
    }
}

/// Whether an event can be the outcome of an action.
pub open spec fn answers(event: SocketEvent, action: SocketAction) -> bool {
    match event {
        SocketEvent::Read(_)
        | SocketEvent::ReadElapsed
        | SocketEvent::ReadFailed(_) => action == SocketAction::Read,
        SocketEvent::Written | SocketEvent::WriteFailed(_) => action == SocketAction::Write,
        SocketEvent::ShutDown
        | SocketEvent::ShutdownFailed(_) => action == SocketAction::Shutdown,
    }
}

/// Whether a connection that is to do this is counted as an open one.
pub open spec fn is_open(action: SocketAction) -> bool {
    action == SocketAction::Read || action == SocketAction::Write
}

/// The counts after an event of one connection.
///
/// Bytes are counted when they come in. The connection is counted until it stops to read and
/// write; a shutdown does not change the counts.
pub open spec fn counts_after(counts: Counts, event: SocketEvent) -> Counts {
    match event {
        SocketEvent::Read(bytes) => if bytes == 0 {
            counts.disconnected()
        } else {
            counts.received(bytes)
        },
        SocketEvent::ReadElapsed => counts.disconnected(),
        SocketEvent::ReadFailed(failure) | SocketEvent::WriteFailed(failure) => if failure
            == Failure::WouldBlock {
            counts
        } else {
            counts.disconnected()
        },
        _ => counts,
    }
}

/// Counts a new connection, and says what it does first.
pub fn socket_start(stats: &mut TcpServerStats) -> (action: SocketAction)
    ensures
        action == SocketAction::Read,
        action == action_after(Seq::empty()),
        final(stats)@ == old(stats)@.connected(),
        final(stats)@ == counts_of_run(old(stats)@, Seq::empty()),
{
    stats.add_connection();
    SocketAction::Read
}

/// What one connection does after an event, and what the statistics count of it.
pub fn socket_handler(stats: &mut TcpServerStats, event: SocketEvent) -> (action: SocketAction)
    ensures
        action == socket_action(event),
        final(stats)@ == counts_after(old(stats)@, event),
{
    match event {
        SocketEvent::Read(bytes) => {
            if bytes == 0 {
                stats.remove_connection();
                SocketAction::Shutdown
            } else {
                stats.push_received_bytes(bytes);
                SocketAction::Write
            }
        },
        SocketEvent::ReadElapsed => {
            stats.remove_connection();
            SocketAction::Shutdown
        },
        SocketEvent::ReadFailed(failure) => match failure {
            Failure::ConnectionReset
            | Failure::ConnectionAborted
            | Failure::BrokenPipe
            | Failure::WriteZero => {
                stats.remove_connection();
                SocketAction::Finish
            },
            Failure::WouldBlock => SocketAction::Read,
            _ => {
                stats.remove_connection();
                SocketAction::Warn
            },
        },
        SocketEvent::Written => SocketAction::Read,
        SocketEvent::WriteFailed(failure) => match failure {
            Failure::WouldBlock => SocketAction::Write,
            _ => {
                stats.remove_connection();
                SocketAction::Warn
            },
        },
        SocketEvent::ShutDown => SocketAction::Finish,
        SocketEvent::ShutdownFailed(failure) => match failure {
            Failure::ConnectionReset
            | Failure::ConnectionAborted
            | Failure::BrokenPipe
            | Failure::WriteZero => SocketAction::Finish,
            Failure::WouldBlock => SocketAction::Shutdown,
            _ => SocketAction::Fail,
        },
    }
}

/// How many of the connections are open, given what each does next.
pub open spec fn open_count(actions: Seq<SocketAction>) -> nat
    decreases actions.len(),
{
    if actions.len() == 0 {
        0
    } else if is_open(actions.last()) {
        open_count(actions.drop_last()) + 1
    } else {
        open_count(actions.drop_last())
    }
}

proof fn lemma_open_count_update(actions: Seq<SocketAction>, i: int, action: SocketAction)
    requires
        0 <= i < actions.len(),
    ensures
        open_count(actions.update(i, action)) - open_count(actions) == (if is_open(action) {
            1int
        } else {
            0
        }) - (if is_open(actions[i]) {
            1int
        } else {
            0
        }),
    decreases actions.len(),
{
    let last = actions.len() - 1;
    let updated = actions.update(i, action);
    if i == last {
        assert(updated.drop_last() =~= actions.drop_last());
    } else {
        assert(updated.drop_last() =~= actions.drop_last().update(i, action));
        lemma_open_count_update(actions.drop_last(), i, action);
    }
}

/// However the events of the connections follow each other, the statistics count the open ones:
/// a new connection keeps the count right.
pub proof fn lemma_new_connection_counted(counts: Counts, actions: Seq<SocketAction>)
    requires
        counts.conns == open_count(actions),
        open_count(actions) < usize::MAX,
    ensures
        counts.connected().conns == open_count(actions.push(SocketAction::Read)),
{
    assert(actions.push(SocketAction::Read).drop_last() =~= actions);
}

/// However the events of the connections follow each other, the statistics count the open ones:
/// an event of the connection with the number `i` keeps the count right.
pub proof fn lemma_open_connections_counted(
    counts: Counts,
    actions: Seq<SocketAction>,
    i: int,
    event: SocketEvent,
)
    requires
        counts.conns == open_count(actions),
        0 <= i < actions.len(),
        answers(event, actions[i]),
    ensures
        counts_after(counts, event).conns == open_count(actions.update(i, socket_action(event))),
{
    lemma_open_count_update(actions, i, socket_action(event));
}

/// What one connection does after the events so far. The first thing it does is to read.
pub open spec fn action_after(events: Seq<SocketEvent>) -> SocketAction {
    if events.len() == 0 {
        SocketAction::Read
    } else {
        socket_action(events.last())
    }
}

/// Whether each event is the outcome of the action that the events before it lead to.
pub open spec fn is_run(events: Seq<SocketEvent>) -> bool
    decreases events.len(),
{
    events.len() == 0 || (is_run(events.drop_last()) && answers(
        events.last(),
        action_after(events.drop_last()),
    ))
}

/// The counts after the events of one connection, which is counted first.
pub open spec fn counts_of_run(counts: Counts, events: Seq<SocketEvent>) -> Counts
    decreases events.len(),
{
    if events.len() == 0 {
        counts.connected()
    } else {
        counts_after(counts_of_run(counts, events.drop_last()), events.last())
    }
}

/// The bytes that came in, modulo the number of `usize` values.
pub open spec fn bytes_of_run(events: Seq<SocketEvent>) -> usize
    decreases events.len(),
{
    if events.len() == 0 {
        0
    } else {
        let before = bytes_of_run(events.drop_last());
        match events.last() {
            SocketEvent::Read(bytes) => stats::wrapping_sum(before, bytes),
            _ => before,
        }
    }
}

/// Every run of a connection counts all the bytes that came in, and the connection itself
/// exactly as long as it reads and writes.
pub proof fn lemma_run_counted(counts: Counts, events: Seq<SocketEvent>)
    requires
        is_run(events),
    ensures
        counts_of_run(counts, events) == (if is_open(action_after(events)) {
            counts.connected().received(bytes_of_run(events))
        } else {
            counts.received(bytes_of_run(events))
        }),
    decreases events.len(),
{
    if events.len() > 0 {
        lemma_run_counted(counts, events.drop_last());
    }
}

/// In every run each read but the first stands behind a byte that was written back, or behind a
/// read that would have blocked.
pub proof fn lemma_reply_between_reads(events: Seq<SocketEvent>)
    requires
        is_run(events),
        events.len() > 0,
        action_after(events) == SocketAction::Read,
    ensures
        events.last() == SocketEvent::Written || events.last() == SocketEvent::ReadFailed(
            Failure::WouldBlock,
        ),
{
}

/// A connection ends with an error only where it cannot be shut down, and nothing happens
/// behind its end.
pub proof fn lemma_ends(events: Seq<SocketEvent>)
    requires
        is_run(events),
    ensures
        action_after(events) == SocketAction::Fail ==> events.len() > 0 && events.last()
            is ShutdownFailed,
        action_after(events) == SocketAction::Fail || action_after(events) == SocketAction::Finish
            || action_after(events) == SocketAction::Warn ==> forall|event: SocketEvent|
            !#[trigger] is_run(events.push(event)),
{
    assert forall|event: SocketEvent| action_after(events) == SocketAction::Fail || action_after(
        events,
    ) == SocketAction::Finish || action_after(events) == SocketAction::Warn implies !#[trigger] is_run(
        events.push(event),
    ) by {
        assert(events.push(event).drop_last() == events);
    }
}

/// What follows an attempt to accept a connection.
#[derive(Debug, Clone, Copy, PartialEq, Eq, Structural)]
pub enum AcceptAction {
    /// Serve the connection that was accepted.
    Serve,
    /// Try again.
    Accept,
    /// Give up with the error of the attempt.
    Fail,
}

/// Whether an attempt to accept a connection that failed this way is made again.
pub open spec fn accepts_again(failure: Failure) -> bool {
    ||| failure == Failure::ConnectionReset
    ||| failure == Failure::ConnectionAborted
    ||| failure == Failure::WouldBlock
}

/// What follows an attempt to accept a connection.
pub open spec fn accept_action(outcome: Result<(), Failure>) -> AcceptAction {
    match outcome {
        Ok(_) => AcceptAction::Serve,
        Err(failure) => if accepts_again(failure) {
            AcceptAction::Accept
        } else {
            AcceptAction::Fail
        },
    }
}

/// What follows an attempt to accept a connection.
pub fn accept_once(outcome: Result<(), Failure>) -> (action: AcceptAction)
    ensures
        action == accept_action(outcome),
{
    match outcome {
        Ok(_) => AcceptAction::Serve,
        Err(failure) => match failure {
            Failure::ConnectionReset => AcceptAction::Accept,
            Failure::ConnectionAborted => AcceptAction::Accept,
            Failure::WouldBlock => AcceptAction::Accept,
            _ => AcceptAction::Fail,
        },
    }
}

/// The reports of a server on its statistics.
#[derive(Debug, Clone, Copy)]
pub struct Reporter {
    reference: Duration,
}

impl View for Reporter {
    type V = nat;

    /// The time up to which was reported, in nanoseconds.
    closed spec fn view(&self) -> nat {
        self.reference@
    }
}

/// The time from `from` to `to`, or none where `to` is earlier.
pub open spec fn elapsed(from: nat, to: nat) -> nat {
    if from <= to {
        (to - from) as nat
    } else {
        0
    }
}

impl Reporter {
    /// Reports that start at a time.
    pub fn new(now: Duration) -> (reporter: Reporter)
        ensures
            reporter@ == now@,
    {
        Reporter { reference: now }
    }

    /// The report at a time, on what came in since the last one.
    ///
    /// There is none where less than a millisecond has passed. The next report then covers this
    /// time too.
    pub fn tick(&mut self, stats: &mut TcpServerStats, now: Duration) -> (report: Option<String>)
        ensures
            ({
                let made = Seq::<Covered>::empty();
                let before = Reports { reference: old(self)@, counts: old(stats)@, made };
                let after = before.stepped(ReportStep::Tick(now@));
                &&& final(self)@ == after.reference
                &&& final(stats)@ == after.counts
                &&& report is Some <==> after.made.len() > 0
                &&& match stats::report(old(stats)@, elapsed(old(self)@, now@)) {
                    Some(text) => report matches Some(s) && s@ == text,
                    None => report is None,
                }
                &&& report matches Some(s) ==> s@ == stats::snapshot_text(
                    old(stats)@.conns as nat,
                    stats::rate(old(stats)@.recv as nat, elapsed(old(self)@, now@)),
                )
            }),
    {
        let duration = now.saturating_since(&self.reference);
        let snapshot = stats.get_snapshot(duration);
        if snapshot.is_some() {
            self.reference = now;
        }
        snapshot
    }
}

/// Bytes that come in, or a tick of the timer at a time in nanoseconds.
pub enum ReportStep {
    Received(usize),
    Tick(nat),
}

/// What one report covers: bytes, and the span in which they came in.
pub struct Covered {
    pub bytes: usize,
    pub from: nat,
    pub to: nat,
}

/// The state of the reports, and what each report so far covers.
pub struct Reports {
    pub reference: nat,
    pub counts: Counts,
    pub made: Seq<Covered>,
}

impl Reports {
    /// The reports that start at a time, with nothing received.
    pub open spec fn start(now: nat) -> Reports {
        Reports { reference: now, counts: Counts { conns: 0, recv: 0 }, made: Seq::empty() }
    }

    /// The reports after one more step.
    pub open spec fn stepped(self, step: ReportStep) -> Reports {
        match step {
            ReportStep::Received(bytes) => Reports { counts: self.counts.received(bytes), ..self },
            ReportStep::Tick(now) => if elapsed(self.reference, now) < 1_000_000 {
                self
            } else {
                Reports {
                    reference: now,
                    counts: self.counts.reported(),
                    made: self.made.push(
                        Covered { bytes: self.counts.recv, from: self.reference, to: now },
                    ),
                }
            },
        }
    }

    /// The reports after some steps.
    pub open spec fn after(self, steps: Seq<ReportStep>) -> Reports
        decreases steps.len(),
    {
        if steps.len() == 0 {
            self
        } else {
            self.after(steps.drop_last()).stepped(steps.last())
        }
    }
}

/// The bytes that came in with some steps, modulo the number of `usize` values.
pub open spec fn bytes_received(steps: Seq<ReportStep>) -> usize
    decreases steps.len(),
{
    if steps.len() == 0 {
        0
    } else {
        let before = bytes_received(steps.drop_last());
        match steps.last() {
            ReportStep::Received(bytes) => stats::wrapping_sum(before, bytes),
            ReportStep::Tick(_) => before,
        }
    }
}

/// The bytes that some reports cover, modulo the number of `usize` values.
pub open spec fn bytes_covered(made: Seq<Covered>) -> usize
    decreases made.len(),
{
    if made.len() == 0 {
        0
    } else {
        stats::wrapping_sum(bytes_covered(made.drop_last()), made.last().bytes)
    }
}

/// Whether the spans of some reports follow each other without a gap, from `start` to `end`.
pub open spec fn is_covered(made: Seq<Covered>, start: nat, end: nat) -> bool
    decreases made.len(),
{
    if made.len() == 0 {
        start == end
    } else {
        &&& made.last().to == end
        &&& made.last().from < end
        &&& is_covered(made.drop_last(), start, made.last().from)
    }
}

/// Each byte that came in is covered by exactly one report, or waits for the next one; the spans
/// of the reports follow each other without a gap up to the time at which the next one starts.
pub proof fn lemma_bytes_reported_once(start: nat, steps: Seq<ReportStep>)
    ensures
        ({
            let r = Reports::start(start).after(steps);
            &&& bytes_received(steps) == stats::wrapping_sum(bytes_covered(r.made), r.counts.recv)
            &&& is_covered(r.made, start, r.reference)
        }),
    decreases steps.len(),
{
    if steps.len() > 0 {
        let before = Reports::start(start).after(steps.drop_last());
        lemma_bytes_reported_once(start, steps.drop_last());
        match steps.last() {
            ReportStep::Received(_) => {},
            ReportStep::Tick(now) => {
                let r = before.stepped(steps.last());
                if elapsed(before.reference, now) >= 1_000_000 {
                    assert(r.made.drop_last() =~= before.made);
                }
            },
        }
    }
}

/// How often the statistics are reported.
pub fn report_period() -> (period: Duration)
    ensures
        period@ == 1_000_000_000,
{
    Duration::from_secs(1)
}

/// What the server does next.
#[derive(Debug, Clone, Copy, PartialEq, Eq)]
pub enum ServerAction {
    /// Listen at this location.
    Bind(SocketAddr),
    /// Start the reports on the statistics.
    Report,
    /// Accept a connection.
    Accept,
    /// Start to serve the connection that was accepted, with this timeout for its reads.
    Serve(Duration),
    /// End with the error of the last operation.
    Fail,
}

/// How the last operation of the server went.
#[derive(Debug, Clone, Copy, PartialEq, Eq, Structural)]
pub enum ServerEvent {
    Bound,
    BindFailed,
    Reporting,
    Accepted,
    AcceptFailed(Failure),
    Serving,
}

/// What the server does after an event.
pub open spec fn server_action(options: TcpServerOptions, event: ServerEvent) -> ServerAction {
    match event {
        ServerEvent::Bound => ServerAction::Report,
        ServerEvent::BindFailed => ServerAction::Fail,
        ServerEvent::Reporting => ServerAction::Accept,
        ServerEvent::Accepted => ServerAction::Serve(options.conn_timeout),
        ServerEvent::AcceptFailed(failure) => if accepts_again(failure) {
            ServerAction::Accept
        } else {
            ServerAction::Fail
        },
        ServerEvent::Serving => ServerAction::Accept,
    }
}

/// What the server does first.
pub fn server_start(options: &TcpServerOptions) -> (action: ServerAction)
    ensures
        action == ServerAction::Bind(options.location),
        action == server_action_after(*options, Seq::empty()),
{
    ServerAction::Bind(options.location)
}

/// What the server does after an event.
pub fn server_loop(options: &TcpServerOptions, event: ServerEvent) -> (action: ServerAction)
    ensures
        action == server_action(*options, event),
{
    match event {
        ServerEvent::Bound => ServerAction::Report,
        ServerEvent::BindFailed => ServerAction::Fail,
        ServerEvent::Reporting => ServerAction::Accept,
        ServerEvent::Accepted => ServerAction::Serve(options.conn_timeout),
        ServerEvent::AcceptFailed(failure) => match accept_once(Err(failure)) {
            AcceptAction::Fail => ServerAction::Fail,
            _ => ServerAction::Accept,
        },
        ServerEvent::Serving => ServerAction::Accept,
    }
}

/// Whether an event can be the outcome of an action of the server.
pub open spec fn server_answers(event: ServerEvent, action: ServerAction) -> bool {
    match event {
        ServerEvent::Bound | ServerEvent::BindFailed => action is Bind,
        ServerEvent::Reporting => action is Report,
        ServerEvent::Accepted | ServerEvent::AcceptFailed(_) => action is Accept,
        ServerEvent::Serving => action is Serve,
    }
}

/// What the server does after the events so far.
pub open spec fn server_action_after(
    options: TcpServerOptions,
    events: Seq<ServerEvent>,
) -> ServerAction {
    if events.len() == 0 {
        ServerAction::Bind(options.location)
    } else {
        server_action(options, events.last())
    }
}

/// Whether each event is the outcome of the action that the events before it lead to.
pub open spec fn is_server_run(options: TcpServerOptions, events: Seq<ServerEvent>) -> bool
    decreases events.len(),
{
    events.len() == 0 || (is_server_run(options, events.drop_last()) && server_answers(
        events.last(),
        server_action_after(options, events.drop_last()),
    ))
}

/// Whether the event at `i` is in its place: binding is the first and reporting the second thing
/// that happens, and serving is what happens behind accepting.
pub open spec fn in_place(events: Seq<ServerEvent>, i: int) -> bool {
    let event = events[i];
    &&& i == 0 <==> event == ServerEvent::Bound || event == ServerEvent::BindFailed
    &&& i == 1 <==> event == ServerEvent::Reporting
    &&& event == ServerEvent::Serving <==> i > 0 && events[i - 1] == ServerEvent::Accepted
}

/// In every run the server binds once, before all else, and starts the reports once, before it
/// accepts a connection; each connection that it accepts is served before the next is accepted.
pub proof fn lemma_server_run(options: TcpServerOptions, events: Seq<ServerEvent>)
    requires
        is_server_run(options, events),
    ensures
        forall|i: int| 0 <= i < events.len() ==> #[trigger] in_place(events, i),
    decreases events.len(),
{
    if events.len() > 0 {
        let before = events.drop_last();
        let last = before.len() as int;
        lemma_server_run(options, before);
        assert forall|i: int| 0 <= i < events.len() implies #[trigger] in_place(events, i) by {
            if i < last {
                assert(in_place(before, i));
                assert(before[i] == events[i]);
                assert(i > 0 ==> before[i - 1] == events[i - 1]);
            } else if last > 0 {
                assert(in_place(before, last - 1));
                assert(before.last() == events[last - 1]);
            }
        }
    }
}

/// What stands before each action of a connection. The first thing it does is to read. It is shut
/// down only at the end of the data, after a silence as long as the timeout, or where the shutdown
/// would have blocked; a byte is written back behind every read that brought data, however much.
pub proof fn lemma_what_follows(events: Seq<SocketEvent>, event: SocketEvent)
    ensures
        action_after(Seq::empty()) == SocketAction::Read,
        action_after(events.push(event)) == socket_action(event),
        socket_action(event) == SocketAction::Shutdown <==> event == SocketEvent::Read(0) || event
            == SocketEvent::ReadElapsed || event == SocketEvent::ShutdownFailed(
            Failure::WouldBlock,
        ),
        socket_action(event) == SocketAction::Write <==> (event matches SocketEvent::Read(n) && n
            > 0) || event == SocketEvent::WriteFailed(Failure::WouldBlock),
        socket_action(event) == SocketAction::Read <==> event == SocketEvent::Written || event
            == SocketEvent::ReadFailed(Failure::WouldBlock),
        socket_action(event) == SocketAction::Finish <==> event == SocketEvent::ShutDown || event
            == SocketEvent::ReadFailed(Failure::ConnectionReset) || event
            == SocketEvent::ReadFailed(Failure::ConnectionAborted) || event
            == SocketEvent::ReadFailed(Failure::BrokenPipe) || event == SocketEvent::ReadFailed(
            Failure::WriteZero,
        ) || event == SocketEvent::ShutdownFailed(Failure::ConnectionReset) || event
            == SocketEvent::ShutdownFailed(Failure::ConnectionAborted) || event
            == SocketEvent::ShutdownFailed(Failure::BrokenPipe) || event
            == SocketEvent::ShutdownFailed(Failure::WriteZero),
        socket_action(event) == SocketAction::Fail <==> (event matches SocketEvent::ShutdownFailed(
            f,
        ) && f != Failure::ConnectionReset && f != Failure::ConnectionAborted && f
            != Failure::BrokenPipe && f != Failure::WriteZero && f != Failure::WouldBlock),
        event matches SocketEvent::WriteFailed(f) ==> f != Failure::WouldBlock ==> socket_action(
            event,
        ) == SocketAction::Warn,
{
}

/// What an event does to the counts: bytes that came in are added, and the connection is taken
/// away exactly where it stops to read and write.
pub proof fn lemma_event_counted(counts: Counts, event: SocketEvent)
    ensures
        counts_after(counts, event).recv == (counts.recv + match event {
            SocketEvent::Read(n) => n as int,
            _ => 0,
        }) % (usize::MAX + 1),
        counts_after(counts, event).conns == (counts.conns - match event {
            SocketEvent::Read(n) => if n == 0 {
                1int
            } else {
                0
            },
            SocketEvent::ReadElapsed => 1,
            SocketEvent::ReadFailed(f) => if f == Failure::WouldBlock {
                0
            } else {
                1
            },
            SocketEvent::WriteFailed(f) => if f == Failure::WouldBlock {
                0
            } else {
                1
            },
            _ => 0,
        }) % (usize::MAX + 1),
{
    let bytes = match event {
        SocketEvent::Read(n) => n,
        _ => 0,
    };
    snapshot::lemma_counts(counts, bytes);
    snapshot::lemma_counts(counts, 0);
    let n = usize::MAX + 1;
    assert(counts.conns < n && counts.recv < n);
    vstd::arithmetic::div_mod::lemma_small_mod(counts.conns as nat, n as nat);
    vstd::arithmetic::div_mod::lemma_small_mod(counts.recv as nat, n as nat);
}

/// In every run, behind a read of one or more bytes a byte is written back next, and the
/// connection is counted still, with its bytes.
pub proof fn lemma_data_is_answered(counts: Counts, events: Seq<SocketEvent>, bytes: usize)
    requires
        is_run(events.push(SocketEvent::Read(bytes))),
        bytes > 0,
    ensures
        action_after(events.push(SocketEvent::Read(bytes))) == SocketAction::Write,
        counts_of_run(counts, events.push(SocketEvent::Read(bytes))).conns == (counts.conns + 1) % (
        usize::MAX + 1),
        counts_of_run(counts, events.push(SocketEvent::Read(bytes))).recv == (counts_of_run(
            counts,
            events,
        ).recv + bytes) % (usize::MAX + 1),
{
    let more = events.push(SocketEvent::Read(bytes));
    assert(more.drop_last() == events);
    lemma_run_counted(counts, events);
    lemma_event_counted(counts_of_run(counts, events), SocketEvent::Read(bytes));
    let b = bytes_of_run(events);
    snapshot::lemma_counts(counts, b);
    snapshot::lemma_counts(counts.connected(), b);
    vstd::arithmetic::div_mod::lemma_small_mod(
        counts.connected().conns as nat,
        (usize::MAX + 1) as nat,
    );
}

/// A connection that could not be accepted is tried again exactly where it was reset or aborted
/// by the other side, or would have blocked; one that was accepted is served.
pub proof fn lemma_accepting(failure: Failure)
    ensures
        accept_action(Ok(())) == AcceptAction::Serve,
        accept_action(Err(failure)) == AcceptAction::Accept <==> failure
            == Failure::ConnectionReset || failure == Failure::ConnectionAborted || failure
            == Failure::WouldBlock,
        accept_action(Err(failure)) != AcceptAction::Serve,
{
}

/// What the server does behind each event: it listens at the location of its options before it
/// reports, reports before it accepts, serves what it accepts with the timeout of its options, and
/// ends only where it cannot listen or accept.
pub proof fn lemma_serving(
    options: TcpServerOptions,
    events: Seq<ServerEvent>,
    event: ServerEvent,
)
    ensures
        server_action_after(options, Seq::empty()) == ServerAction::Bind(options.location),
        server_action_after(options, events.push(event)) == server_action(options, event),
        server_action(options, event) == ServerAction::Report <==> event == ServerEvent::Bound,
        server_action(options, event) == ServerAction::Accept <==> event == ServerEvent::Reporting
            || event == ServerEvent::Serving || event == ServerEvent::AcceptFailed(
            Failure::ConnectionReset,
        ) || event == ServerEvent::AcceptFailed(Failure::ConnectionAborted) || event
            == ServerEvent::AcceptFailed(Failure::WouldBlock),
        event == ServerEvent::Accepted ==> server_action(options, event) == ServerAction::Serve(
            options.conn_timeout,
        ),
        server_action(options, event) is Serve ==> event == ServerEvent::Accepted,
        !(server_action(options, event) is Bind),
{
}

/// A tick makes a report exactly where a millisecond or more has passed since the last one: on all
/// bytes since then, and up to now. Bytes that come in do not change what was reported.
pub proof fn lemma_tick(reports: Reports, bytes: usize, now: nat)
    ensures
        now >= reports.reference + 1_000_000 ==> reports.stepped(ReportStep::Tick(now)) == (
        Reports {
            reference: now,
            counts: Counts { conns: reports.counts.conns, recv: 0 },
            made: reports.made.push(
                Covered { bytes: reports.counts.recv, from: reports.reference, to: now },
            ),
        }),
        now < reports.reference + 1_000_000 ==> reports.stepped(ReportStep::Tick(now)) == reports,
        reports.stepped(ReportStep::Received(bytes)) == (Reports {
            counts: Counts {
                conns: reports.counts.conns,
                recv: ((reports.counts.recv + bytes) % (usize::MAX + 1)) as usize,
            },
            ..reports
        }),
        now >= reports.reference ==> elapsed(reports.reference, now) == now - reports.reference,
        now < reports.reference ==> elapsed(reports.reference, now) == 0,
{
    snapshot::lemma_counts(reports.counts, bytes);
}

} // verus!
