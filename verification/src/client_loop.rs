//! What a load testing client does with its connections.
//!
//! The operations on the network are performed elsewhere. Here stands what is to be done next,
//! given how the last operation went.

use vstd::prelude::*;

use crate::addr::SocketAddr;
use crate::cli_args::TcpClientOptions;
use crate::duration::Duration;
use crate::failure::Failure;

verus! {

/// What one connection of the client does next.
#[derive(Debug, Clone, Copy, PartialEq, Eq, Structural)]
pub enum SocketAction {
    /// Connect to the target.
    Connect,
    /// Send zeroes for as long as the connection takes them.
    Copy,
    /// Wait before the next attempt to connect.
    Wait,
    /// End without an error.
    Finish,
    /// End with the error of the last operation.
    Fail,
}

/// How the last operation of one connection went.
#[derive(Debug, Clone, Copy, PartialEq, Eq, Structural)]
pub enum SocketEvent {
    Connected,
    ConnectFailed(Failure),
    Copied,
    CopyFailed(Failure),
    Waited,
}

/// Whether an attempt to connect that failed this way is made again.
pub open spec fn connects_again(failure: Failure) -> bool {
    ||| failure == Failure::BrokenPipe
    ||| failure == Failure::ConnectionAborted
    ||| failure == Failure::TimedOut
    ||| failure == Failure::WouldBlock
    ||| failure == Failure::NotConnected
    ||| failure == Failure::AlreadyExists
}

/// Whether a connection that failed this way is replaced by a new one.
pub open spec fn is_replaced(failure: Failure) -> bool {
    ||| failure == Failure::ConnectionRefused
    ||| failure == Failure::BrokenPipe
    ||| failure == Failure::ConnectionAborted
    ||| failure == Failure::TimedOut
    ||| failure == Failure::NotConnected
}

/// What one connection does after an event.
pub open spec fn socket_action(event: SocketEvent) -> SocketAction {
    match event {
        SocketEvent::Connected => SocketAction::Copy,
        SocketEvent::ConnectFailed(failure) => if connects_again(failure) {
            SocketAction::Wait
        } else {
            SocketAction::Fail
        },
        SocketEvent::Copied => SocketAction::Copy,
        SocketEvent::CopyFailed(failure) => if failure == Failure::ConnectionReset {
            SocketAction::Finish
        } else if failure == Failure::WouldBlock {
            SocketAction::Copy
        } else if is_replaced(failure) {
            SocketAction::Wait
        } else {
            SocketAction::Fail
        },
        SocketEvent::Waited => SocketAction::Connect,
    }
}

/// Whether an event can be the outcome of an action.
pub open spec fn answers(event: SocketEvent, action: SocketAction) -> bool {
    match event {
        SocketEvent::Connected | SocketEvent::ConnectFailed(_) => action == SocketAction::Connect,
        SocketEvent::Copied | SocketEvent::CopyFailed(_) => action == SocketAction::Copy,
        SocketEvent::Waited => action == SocketAction::Wait,
    }
}

/// What a connection does after the events so far. The first thing it does is to connect.
pub open spec fn action_after(events: Seq<SocketEvent>) -> SocketAction {
    if events.len() == 0 {
        SocketAction::Connect
    } else {
        socket_action(events.last())
    }
}

/// Whether each event is the outcome of the action that the events before it lead to.
pub open spec fn is_run(events: Seq<SocketEvent>) -> bool
    decreases events.len(),
{
    events.len() == 0 || (is_run(events.drop_last()) && answers(
        events.last(),
        action_after(events.drop_last()),
    ))
}

/// What one connection does first.
pub fn client_socket_start() -> (action: SocketAction)
    ensures
        action == action_after(Seq::empty()),
{
    SocketAction::Connect
}

/// What one connection does after an event.
pub fn client_socket_loop(event: SocketEvent) -> (action: SocketAction)
    ensures
        action == socket_action(event),
{
    match event {
        SocketEvent::Connected => SocketAction::Copy,
        SocketEvent::ConnectFailed(failure) => match failure {
            Failure::BrokenPipe => SocketAction::Wait,
            Failure::ConnectionAborted => SocketAction::Wait,
            Failure::TimedOut => SocketAction::Wait,
            Failure::WouldBlock => SocketAction::Wait,
            Failure::NotConnected => SocketAction::Wait,
            Failure::AlreadyExists => SocketAction::Wait,
            _ => SocketAction::Fail,
        },
        SocketEvent::Copied => SocketAction::Copy,
        SocketEvent::CopyFailed(failure) => match failure {
            Failure::ConnectionReset => SocketAction::Finish,
            Failure::ConnectionRefused => SocketAction::Wait,
            Failure::BrokenPipe => SocketAction::Wait,
            Failure::ConnectionAborted => SocketAction::Wait,
            Failure::TimedOut => SocketAction::Wait,
            Failure::WouldBlock => SocketAction::Copy,
            Failure::NotConnected => SocketAction::Wait,
            _ => SocketAction::Fail,
        },
        SocketEvent::Waited => SocketAction::Connect,
    }
}

/// How long a connection waits before it is attempted again.
pub fn reconnect_delay() -> (delay: Duration)
    ensures
        delay@ == 250_000_000,
{
    Duration::from_millis(250)
}

/// In every run there is a wait before each attempt to connect but the first.
pub proof fn lemma_waits_before_connecting_again(events: Seq<SocketEvent>)
    requires
        is_run(events),
        events.len() > 0,
        action_after(events) == SocketAction::Connect,
    ensures
        action_after(events.drop_last()) == SocketAction::Wait,
{
}

/// Whether the event at `i` is a successful attempt to connect, with nothing but sending behind
/// it.
pub open spec fn connected_since(events: Seq<SocketEvent>, i: int) -> bool {
    &&& 0 <= i < events.len()
    &&& events[i] == SocketEvent::Connected
    &&& forall|j: int| i < j < events.len() ==> answers(#[trigger] events[j], SocketAction::Copy)
}

/// In every run zeroes are sent only on a connection.
pub proof fn lemma_sends_only_when_connected(events: Seq<SocketEvent>)
    requires
        is_run(events),
        action_after(events) == SocketAction::Copy,
    ensures
        exists|i: int| connected_since(events, i),
    decreases events.len(),
{
    let last = events.len() - 1;
    let before = events.drop_last();
    if events[last] == SocketEvent::Connected {
        assert(connected_since(events, last));
    } else {
        lemma_sends_only_when_connected(before);
        let i = choose|i: int| connected_since(before, i);
        assert(before[i] == events[i]);
        assert forall|j: int| i < j < events.len() implies answers(
            #[trigger] events[j],
            SocketAction::Copy,
        ) by {
            if j < last {
                assert(before[j] == events[j]);
            }
        }
        assert(connected_since(events, i));
    }
}

/// A connection ends without an error exactly where the other side resets it, and nothing
/// happens behind its end.
pub proof fn lemma_ends(events: Seq<SocketEvent>)
    requires
        is_run(events),
    ensures
        action_after(events) == SocketAction::Finish <==> events.len() > 0 && events.last()
            == SocketEvent::CopyFailed(Failure::ConnectionReset),
        action_after(events) == SocketAction::Finish || action_after(events) == SocketAction::Fail
            ==> forall|event: SocketEvent| !#[trigger] is_run(events.push(event)),
{
    if action_after(events) == SocketAction::Finish || action_after(events) == SocketAction::Fail {
        assert forall|event: SocketEvent| !#[trigger] is_run(events.push(event)) by {
            assert(events.push(event).drop_last() == events);
        }
    }
}

/// What the client does next with all its connections.
#[derive(Debug, Clone, Copy, PartialEq, Eq)]
pub enum ClientAction {
    /// Start one more connection to this target.
    Spawn(SocketAddr),
    /// Wait for the end of the connection with this number.
    Join(u32),
    /// End without an error.
    Finish,
    /// End with the error of the connection that was waited for last.
    Fail,
}

/// A client that starts all its connections and then waits for the end of each.
#[derive(Debug, Clone, Copy)]
pub struct ClientLoop {
    target: SocketAddr,
    connections: u32,
    spawned: u32,
    joined: u32,
    failed: bool,
}

/// How far a client is.
pub struct ClientProgress {
    pub options: TcpClientOptions,
    /// How many connections were started.
    pub spawned: nat,
    /// How many connections have ended without an error, one behind the other.
    pub joined: nat,
    /// Whether the next connection has ended with an error.
    pub failed: bool,
}

impl ClientProgress {
    /// The start of a client.
    pub open spec fn start(options: TcpClientOptions) -> ClientProgress {
        ClientProgress { options, spawned: 0, joined: 0, failed: false }
    }

    /// What the client does next.
    pub open spec fn action(self) -> ClientAction {
        if self.failed {
            ClientAction::Fail
        } else if self.spawned < self.options.connections {
            ClientAction::Spawn(self.options.target)
        } else if self.joined < self.options.connections {
            ClientAction::Join(self.joined as u32)
        } else {
            ClientAction::Finish
        }
    }

    /// The progress behind the next action, which went well or not.
    pub open spec fn advanced(self, ok: bool) -> ClientProgress {
        match self.action() {
            ClientAction::Spawn(_) => ClientProgress { spawned: self.spawned + 1, ..self },
            ClientAction::Join(_) => if ok {
                ClientProgress { joined: self.joined + 1, ..self }
            } else {
                ClientProgress { failed: true, ..self }
            },
            _ => self,
        }
    }

    /// The progress behind one action for each outcome.
    pub open spec fn after(self, outcomes: Seq<bool>) -> ClientProgress
        decreases outcomes.len(),
    {
        if outcomes.len() == 0 {
            self
        } else {
            self.after(outcomes.drop_last()).advanced(outcomes.last())
        }
    }
}

impl View for ClientLoop {
    type V = ClientProgress;

    closed spec fn view(&self) -> ClientProgress {
        ClientProgress {
            options: TcpClientOptions { target: self.target, connections: self.connections },
            spawned: self.spawned as nat,
            joined: self.joined as nat,
            failed: self.failed,
        }
    }
}

impl ClientLoop {
    /// A client at its start.
    pub fn new(options: TcpClientOptions) -> (client: ClientLoop)
        ensures
            client@ == ClientProgress::start(options),
    {
        ClientLoop {
            target: options.target,
            connections: options.connections,
            spawned: 0,
            joined: 0,
            failed: false,
        }
    }

    /// What the client does next.
    pub fn action(&self) -> (action: ClientAction)
        ensures
            action == self@.action(),
    {
        if self.failed {
            ClientAction::Fail
        } else if self.spawned < self.connections {
            ClientAction::Spawn(self.target)
        } else if self.joined < self.connections {
            ClientAction::Join(self.joined)
        } else {
            ClientAction::Finish
        }
    }

    /// Goes on behind an action that went well, or not.
    pub fn advance(&mut self, ok: bool)
        ensures
            final(self)@ == old(self)@.advanced(ok),
    {
        match self.action() {
            ClientAction::Spawn(_) => {
                self.spawned = self.spawned + 1;
            },
            ClientAction::Join(_) => {
                if ok {
                    self.joined = self.joined + 1;
                } else {
                    self.failed = true;
                }
            },
            _ => {},
        }
    }
}

/// Whether one of the first `n` outcomes is a failure.
pub open spec fn one_fails(outcomes: Seq<bool>, n: nat) -> bool {
    exists|i: int| 0 <= i < outcomes.len() && i < n && !#[trigger] outcomes[i]
}

/// Every connection is started before one is waited for; the connections are waited for in
/// order, each once; the client fails with the first that fails, and ends without an error
/// exactly where all have ended without one.
pub proof fn lemma_client_run(options: TcpClientOptions, outcomes: Seq<bool>)
    ensures
        ({
            let n = options.connections as nat;
            let p = ClientProgress::start(options).after(outcomes);
            let joins = outcomes.skip(n as int);
            if outcomes.len() <= n {
                p == ClientProgress { options, spawned: outcomes.len(), joined: 0, failed: false }
            } else {
                &&& p.options == options
                &&& p.spawned == n
                &&& p.failed == one_fails(joins, n)
                &&& p.failed ==> p.joined < n && p.joined < joins.len() && !joins[p.joined as int]
                &&& !p.failed ==> p.joined == if joins.len() <= n {
                    joins.len()
                } else {
                    n
                }
                &&& forall|i: int| 0 <= i < p.joined ==> #[trigger] joins[i]
                &&& p.action() == ClientAction::Finish <==> joins.len() >= n && !one_fails(joins, n)
            }
        }),
    decreases outcomes.len(),
{
    let n = options.connections as nat;
    let joins = outcomes.skip(n as int);
    if outcomes.len() > 0 {
        let fewer = outcomes.drop_last();
        lemma_client_run(options, fewer);
        let before = fewer.skip(n as int);
        let p = ClientProgress::start(options).after(fewer);
        let q = ClientProgress::start(options).after(outcomes);
        assert(q == p.advanced(outcomes.last()));
        if fewer.len() >= n {
            assert(joins =~= before.push(outcomes.last()));
            assert forall|i: int| 0 <= i < before.len() implies #[trigger] joins[i]
                == before[i] by {}
            assert(!one_fails(before, n) || one_fails(joins, n)) by {
                if one_fails(before, n) {
                    let i = choose|i: int| 0 <= i < before.len() && i < n && !#[trigger] before[i];
                    assert(!joins[i]);
                }
            }
            assert(joins[before.len() as int] == outcomes.last());
            if one_fails(joins, n) && !one_fails(before, n) {
                let i = choose|i: int| 0 <= i < joins.len() && i < n && !#[trigger] joins[i];
                if i < before.len() {
                    assert(!before[i]);
                }
            }
        }
    }
}

/// What stands before each action of a connection: zeroes are sent on a connection that was made or
/// goes on, and a new one is attempted only behind a wait, or at the start.
pub proof fn lemma_what_follows(events: Seq<SocketEvent>, event: SocketEvent)
    ensures
        action_after(Seq::empty()) == SocketAction::Connect,
        action_after(events.push(event)) == socket_action(event),
        socket_action(event) == SocketAction::Connect <==> event == SocketEvent::Waited,
        socket_action(event) == SocketAction::Copy <==> event == SocketEvent::Connected || event
            == SocketEvent::Copied || event == SocketEvent::CopyFailed(Failure::WouldBlock),
        socket_action(event) == SocketAction::Finish <==> event == SocketEvent::CopyFailed(
            Failure::ConnectionReset,
        ),
        socket_action(event) == SocketAction::Wait <==> event == SocketEvent::ConnectFailed(
            Failure::BrokenPipe,
        ) || event == SocketEvent::ConnectFailed(Failure::ConnectionAborted) || event
            == SocketEvent::ConnectFailed(Failure::TimedOut) || event
            == SocketEvent::ConnectFailed(Failure::WouldBlock) || event
            == SocketEvent::ConnectFailed(Failure::NotConnected) || event
            == SocketEvent::ConnectFailed(Failure::AlreadyExists) || event
            == SocketEvent::CopyFailed(Failure::ConnectionRefused) || event
            == SocketEvent::CopyFailed(Failure::BrokenPipe) || event == SocketEvent::CopyFailed(
            Failure::ConnectionAborted,
        ) || event == SocketEvent::CopyFailed(Failure::TimedOut) || event
            == SocketEvent::CopyFailed(Failure::NotConnected),
{
}

/// Every connection that the client starts is started to the target of its options, as many as
/// are asked for; and behind them each is waited for by its number, in order.
pub proof fn lemma_client_actions(options: TcpClientOptions, outcomes: Seq<bool>)
    ensures
        ({
            let n = options.connections as nat;
            let action = ClientProgress::start(options).after(outcomes).action();
            &&& outcomes.len() < n ==> action == ClientAction::Spawn(options.target)
            &&& action matches ClientAction::Spawn(a) ==> a == options.target && outcomes.len() < n
            &&& action matches ClientAction::Join(i) ==> i < n && i + n == outcomes.len()
            &&& n <= outcomes.len() < 2 * n && !one_fails(outcomes.skip(n as int), n) ==> action
                == ClientAction::Join((outcomes.len() - n) as u32)
            &&& outcomes.len() >= 2 * n && !one_fails(outcomes.skip(n as int), n) ==> action
                == ClientAction::Finish
            &&& outcomes.len() > n && one_fails(outcomes.skip(n as int), n) ==> action
                == ClientAction::Fail
        }),
{
    lemma_client_run(options, outcomes);
    let n = options.connections as nat;
    let joins = outcomes.skip(n as int);
    if outcomes.len() == n {
        assert(!one_fails(joins, n));
    }
}

} // verus!
