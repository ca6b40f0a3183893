use loadtest::addr::SocketAddr;
use loadtest::cli_args::TcpServerOptions;
use loadtest::duration::Duration;
use loadtest::failure::Failure;
use loadtest::server_loop::{
    accept_once, report_period, server_loop, server_start, socket_handler, socket_start,
    AcceptAction, Reporter, ServerAction, ServerEvent, SocketAction, SocketEvent,
};
use loadtest::stats::TcpServerStats;
use std::cell::{RefCell, RefMut};
use std::collections::VecDeque;
use std::io;
use std::rc::Rc;

fn failure(kind: io::ErrorKind) -> Failure {
    match kind {
        io::ErrorKind::AlreadyExists => Failure::AlreadyExists,
        io::ErrorKind::BrokenPipe => Failure::BrokenPipe,
        io::ErrorKind::ConnectionAborted => Failure::ConnectionAborted,
        io::ErrorKind::ConnectionRefused => Failure::ConnectionRefused,
        io::ErrorKind::ConnectionReset => Failure::ConnectionReset,
        io::ErrorKind::NotConnected => Failure::NotConnected,
        io::ErrorKind::TimedOut => Failure::TimedOut,
        io::ErrorKind::WouldBlock => Failure::WouldBlock,
        io::ErrorKind::WriteZero => Failure::WriteZero,
        _ => Failure::Other,
    }
}

struct CallSpy<T> {
    queue: RefCell<VecDeque<T>>,
    error_message: &'static str,
}

impl<T> CallSpy<T> {
    fn new(error_message: &'static str) -> CallSpy<T> {
        CallSpy {
            queue: RefCell::new(VecDeque::new()),
            error_message,
        }
    }

    fn remaining(&self) -> usize {
        self.queue.borrow().len()
    }

    fn push(&self, value: T) {
        self.queue.borrow_mut().push_back(value);
    }

    fn invoke(&self) -> T {
        let value = self.queue.borrow_mut().pop_front();
        value.expect(self.error_message)
    }
}

struct FakeHooksInner {
    stats: RefCell<TcpServerStats>,
    read: CallSpy<Result<io::Result<usize>, ()>>,
    write: CallSpy<io::Result<()>>,
    shutdown: CallSpy<io::Result<()>>,
    accept: CallSpy<io::Result<()>>,
    snapshots: RefCell<Vec<String>>,
    warnings: RefCell<Vec<io::ErrorKind>>,
}

impl FakeHooksInner {
    fn new() -> FakeHooksInner {
        FakeHooksInner {
            stats: RefCell::new(TcpServerStats::new()),
            accept: CallSpy::new("unexpected `accept`"),
            read: CallSpy::new("unexpected `read`"),
            write: CallSpy::new("unexpected `write`"),
            shutdown: CallSpy::new("unexpected `shutdown`"),
            snapshots: RefCell::new(Vec::new()),
            warnings: RefCell::new(Vec::new()),
        }
    }

    fn push_snapshot(&self) {
        let snapshot = self
            .stats
            .borrow_mut()
            .get_snapshot(Duration::from_secs(1))
            .unwrap_or_default();
        self.snapshots.borrow_mut().push(snapshot);
    }
}

trait FakeHooksMethods {
    fn inner(&self) -> &FakeHooksInner;

    fn snapshots(&self) -> Vec<String> {
        self.inner().snapshots.borrow().clone()
    }

    fn warnings(&self) -> Vec<io::ErrorKind> {
        self.inner().warnings.borrow().clone()
    }

    fn stats(&self) -> RefMut<'_, TcpServerStats> {
        self.inner().stats.borrow_mut()
    }

    fn push_accept(&self, result: io::Result<()>) {
        self.inner().accept.push(result);
    }

    fn push_read(&self, result: Result<io::Result<usize>, ()>) {
        self.inner().read.push(result);
    }

    fn push_write(&self, result: io::Result<()>) {
        self.inner().write.push(result);
    }

    fn push_shutdown(&self, result: io::Result<()>) {
        self.inner().shutdown.push(result);
    }

    fn assert_empty(&self) {
        let inner = self.inner();
        assert_eq!(inner.accept.remaining(), 0, "`accept` queue is not empty.");
        assert_eq!(inner.read.remaining(), 0, "`read` queue is not empty.");
        assert_eq!(inner.write.remaining(), 0, "`write` queue is not empty.");
        assert_eq!(
            inner.shutdown.remaining(),
            0,
            "`shutdown` queue is not empty."
        );
    }
}

struct FakeSocketHooks {
    inner: Rc<FakeHooksInner>,
}

impl FakeSocketHooks {
    fn new() -> FakeSocketHooks {
        FakeSocketHooks {
            inner: Rc::new(FakeHooksInner::new()),
        }
    }

    fn read(&self) -> Result<io::Result<usize>, ()> {
        let value = self.inner.read.invoke();
        self.inner.push_snapshot();
        value
    }

    fn write(&self) -> io::Result<()> {
        let value = self.inner.write.invoke();
        self.inner.push_snapshot();
        value
    }

    fn shutdown(&self) -> io::Result<()> {
        let value = self.inner.shutdown.invoke();
        self.inner.push_snapshot();
        value
    }

    fn emit_warning(&self, e: io::Error) {
        self.inner.warnings.borrow_mut().push(e.kind());
    }
}

impl FakeHooksMethods for FakeSocketHooks {
    fn inner(&self) -> &FakeHooksInner {
        &self.inner
    }
}

struct FakeServerHooks {
    inner: Rc<FakeHooksInner>,
}

impl FakeServerHooks {
    fn new() -> FakeServerHooks {
        FakeServerHooks {
            inner: Rc::new(FakeHooksInner::new()),
        }
    }

    fn accept(&self) -> io::Result<FakeSocketHooks> {
        self.inner.accept.invoke().map(|_| FakeSocketHooks {
            inner: self.inner.clone(),
        })
    }
}

impl FakeHooksMethods for FakeServerHooks {
    fn inner(&self) -> &FakeHooksInner {
        &self.inner
    }
}

// Performs what the handler of a connection asks for.
fn run_socket(hooks: &FakeSocketHooks) -> io::Result<()> {
    let mut error = None;
    let mut action = socket_start(&mut hooks.stats());
    loop {
        let event = match action {
            SocketAction::Read => match hooks.read() {
                Ok(Ok(bytes)) => SocketEvent::Read(bytes),
                Ok(Err(e)) => {
                    let kind = failure(e.kind());
                    error = Some(e);
                    SocketEvent::ReadFailed(kind)
                }
                Err(()) => SocketEvent::ReadElapsed,
            },
            SocketAction::Write => match hooks.write() {
                Ok(()) => SocketEvent::Written,
                Err(e) => {
                    let kind = failure(e.kind());
                    error = Some(e);
                    SocketEvent::WriteFailed(kind)
                }
            },
            SocketAction::Shutdown => match hooks.shutdown() {
                Ok(()) => SocketEvent::ShutDown,
                Err(e) => {
                    let kind = failure(e.kind());
                    error = Some(e);
                    SocketEvent::ShutdownFailed(kind)
                }
            },
            SocketAction::Warn => {
                hooks.emit_warning(error.unwrap());
                return Ok(());
            }
            SocketAction::Finish => return Ok(()),
            SocketAction::Fail => return Err(error.unwrap()),
        };
        action = socket_handler(&mut hooks.stats(), event);
    }
}

// Accepts until a connection is there or the attempt is given up.
fn run_accept(hooks: &FakeServerHooks) -> io::Result<FakeSocketHooks> {
    loop {
        let result = hooks.accept();
        let outcome = match &result {
            Ok(_) => Ok(()),
            Err(e) => Err(failure(e.kind())),
        };
        match accept_once(outcome) {
            AcceptAction::Accept => {}
            AcceptAction::Serve | AcceptAction::Fail => return result,
        }
    }
}

#[test]
fn fake_socket_hooks_starts_with_empty_queues() {
    let socket_hooks = FakeSocketHooks::new();
    socket_hooks.assert_empty();
}

#[test]
#[should_panic]
fn fake_socket_assert_empty_hooks_fails_with_non_empty_read() {
    let socket_hooks = FakeSocketHooks::new();
    socket_hooks.push_read(Ok(Ok(0)));
    socket_hooks.assert_empty();
}

#[test]
#[should_panic]
fn fake_socket_assert_empty_hooks_fails_with_non_empty_write() {
    let socket_hooks = FakeSocketHooks::new();
    socket_hooks.push_write(Ok(()));
    socket_hooks.assert_empty();
}

#[test]
#[should_panic]
fn fake_socket_assert_empty_hooks_fails_with_non_empty_shutdown() {
    let socket_hooks = FakeSocketHooks::new();
    socket_hooks.push_shutdown(Ok(()));
    socket_hooks.assert_empty();
}

#[test]
#[should_panic = "unexpected `read`"]
fn fake_socket_hooks_requires_queued_read_to_invoke_read() {
    let _ = FakeSocketHooks::new().read();
}

#[test]
#[should_panic = "unexpected `write`"]
fn fake_socket_hooks_requires_queued_write_to_invoke_write() {
    let _ = FakeSocketHooks::new().write();
}

#[test]
#[should_panic = "unexpected `shutdown`"]
fn fake_socket_hooks_requires_queued_shutdown_to_invoke_shutdown() {
    let _ = FakeSocketHooks::new().shutdown();
}

#[test]
fn fake_socket_hooks_runs_hooks_correctly() {
    let socket_hooks = FakeSocketHooks::new();

    socket_hooks.push_read(Ok(Ok(0)));
    socket_hooks.push_read(Ok(Ok(123)));
    socket_hooks.stats().add_connection();
    socket_hooks.stats().push_received_bytes(1000);
    assert!(matches!(socket_hooks.read(), Ok(Ok(0))));

    socket_hooks.push_write(Ok(()));
    socket_hooks.push_write(Ok(()));
    socket_hooks.stats().push_received_bytes(1000);
    assert!(matches!(socket_hooks.write(), Ok(())));

    socket_hooks.emit_warning(io::ErrorKind::InvalidInput.into());

    socket_hooks.push_shutdown(Ok(()));
    socket_hooks.push_shutdown(Ok(()));
    socket_hooks.stats().push_received_bytes(1000);
    socket_hooks.stats().remove_connection();
    assert!(matches!(socket_hooks.shutdown(), Ok(())));

    socket_hooks.stats().add_connection();
    socket_hooks.stats().push_received_bytes(1000);
    assert!(matches!(socket_hooks.read(), Ok(Ok(123))));
    assert!(matches!(socket_hooks.write(), Ok(())));
    socket_hooks.stats().push_received_bytes(1000);
    socket_hooks.stats().remove_connection();
    assert!(matches!(socket_hooks.shutdown(), Ok(())));
    socket_hooks.emit_warning(io::ErrorKind::Other.into());

    assert_eq!(
        socket_hooks.snapshots(),
        vec![
            String::from("1 conns, 8 Kb/s in"),
            String::from("1 conns, 8 Kb/s in"),
            String::from("0 conns, 8 Kb/s in"),
            String::from("1 conns, 8 Kb/s in"),
            String::from("1 conns, 0 Kb/s in"),
            String::from("0 conns, 8 Kb/s in"),
        ],
    );

    assert_eq!(
        socket_hooks.warnings(),
        vec![io::ErrorKind::InvalidInput, io::ErrorKind::Other]
    );

    socket_hooks.assert_empty();
}

#[test]
fn fake_server_hooks_starts_with_empty_queues() {
    let server_hooks = FakeServerHooks::new();
    server_hooks.assert_empty();
}

#[test]
#[should_panic]
fn fake_server_assert_empty_hooks_fails_with_non_empty_accept() {
    let server_hooks = FakeServerHooks::new();
    server_hooks.push_accept(Ok(()));
    server_hooks.assert_empty();
}

#[test]
#[should_panic]
fn fake_server_assert_empty_hooks_fails_with_non_empty_read() {
    let server_hooks = FakeServerHooks::new();
    server_hooks.push_read(Ok(Ok(0)));
    server_hooks.assert_empty();
}

#[test]
#[should_panic]
fn fake_server_assert_empty_hooks_fails_with_non_empty_write() {
    let server_hooks = FakeServerHooks::new();
    server_hooks.push_write(Ok(()));
    server_hooks.assert_empty();
}

#[test]
#[should_panic]
fn fake_server_assert_empty_hooks_fails_with_non_empty_shutdown() {
    let server_hooks = FakeServerHooks::new();
    server_hooks.push_shutdown(Ok(()));
    server_hooks.assert_empty();
}

#[test]
#[should_panic = "unexpected `accept`"]
fn fake_server_hooks_requires_queued_accept_to_invoke_accept() {
    let _ = FakeServerHooks::new().accept();
}

#[test]
#[should_panic = "unexpected `read`"]
fn fake_server_hooks_requires_queued_read_to_invoke_read() {
    let server_hooks = FakeServerHooks::new();
    server_hooks.push_accept(Ok(()));
    let _ = server_hooks.accept().unwrap().read();
}

#[test]
#[should_panic = "unexpected `write`"]
fn fake_server_hooks_requires_queued_write_to_invoke_write() {
    let server_hooks = FakeServerHooks::new();
    server_hooks.push_accept(Ok(()));
    let _ = server_hooks.accept().unwrap().write();
}

#[test]
#[should_panic = "unexpected `shutdown`"]
fn fake_server_hooks_requires_queued_shutdown_to_invoke_shutdown() {
    let server_hooks = FakeServerHooks::new();
    server_hooks.push_accept(Ok(()));
    let _ = server_hooks.accept().unwrap().shutdown();
}

#[test]
fn fake_server_hooks_runs_hooks_correctly() {
    // Now, unwrap so I can use it a bit more easily.
    let server_hooks = FakeServerHooks::new();
    server_hooks.push_accept(Ok(()));

    {
        let socket_hooks = server_hooks.accept().unwrap();

        socket_hooks.push_read(Ok(Ok(0)));
        socket_hooks.push_read(Ok(Ok(123)));
        socket_hooks.stats().add_connection();
        socket_hooks.stats().push_received_bytes(1000);
        assert!(matches!(socket_hooks.read(), Ok(Ok(0))));

        socket_hooks.push_write(Ok(()));
        socket_hooks.push_write(Ok(()));
        socket_hooks.stats().push_received_bytes(1000);
        assert!(matches!(socket_hooks.write(), Ok(())));

        socket_hooks.emit_warning(io::ErrorKind::InvalidInput.into());

        socket_hooks.push_shutdown(Ok(()));
        socket_hooks.push_shutdown(Ok(()));
        socket_hooks.stats().push_received_bytes(1000);
        socket_hooks.stats().remove_connection();
        assert!(matches!(socket_hooks.shutdown(), Ok(())));

        socket_hooks.stats().add_connection();
        socket_hooks.stats().push_received_bytes(1000);
        assert!(matches!(socket_hooks.read(), Ok(Ok(123))));
        assert!(matches!(socket_hooks.write(), Ok(())));
        socket_hooks.stats().push_received_bytes(1000);
        socket_hooks.stats().remove_connection();
        assert!(matches!(socket_hooks.shutdown(), Ok(())));
        socket_hooks.emit_warning(io::ErrorKind::Other.into());
    }

    assert_eq!(
        server_hooks.snapshots(),
        vec![
            String::from("1 conns, 8 Kb/s in"),
            String::from("1 conns, 8 Kb/s in"),
            String::from("0 conns, 8 Kb/s in"),
            String::from("1 conns, 8 Kb/s in"),
            String::from("1 conns, 0 Kb/s in"),
            String::from("0 conns, 8 Kb/s in"),
        ],
    );

    assert_eq!(
        server_hooks.warnings(),
        vec![io::ErrorKind::InvalidInput, io::ErrorKind::Other]
    );

    server_hooks.assert_empty();
}

#[test]
fn socket_handler_handles_immediate_end() {
    let socket_hooks = FakeSocketHooks::new();

    socket_hooks.push_read(Ok(Ok(0)));
    socket_hooks.push_shutdown(Ok(()));
    assert!(matches!(run_socket(&socket_hooks), Ok(())));

    assert_eq!(
        socket_hooks.snapshots(),
        vec![
            String::from("1 conns, 0 Kb/s in"),
            String::from("0 conns, 0 Kb/s in"),
        ]
    );

    assert_eq!(socket_hooks.warnings(), vec![]);
    socket_hooks.assert_empty();
}

#[test]
fn socket_handler_handles_some_bytes_pushed() {
    let socket_hooks = FakeSocketHooks::new();

    socket_hooks.push_read(Ok(Ok(1234)));
    socket_hooks.push_write(Ok(()));
    socket_hooks.push_read(Ok(Ok(0)));
    socket_hooks.push_shutdown(Ok(()));
    assert!(matches!(run_socket(&socket_hooks), Ok(())));

    assert_eq!(
        socket_hooks.snapshots(),
        vec![
            String::from("1 conns, 0 Kb/s in"),
            String::from("1 conns, 9 Kb/s in"),
            String::from("1 conns, 0 Kb/s in"),
            String::from("0 conns, 0 Kb/s in"),
        ],
    );

    assert_eq!(socket_hooks.warnings(), vec![]);
    socket_hooks.assert_empty();
}

#[test]
fn socket_handler_handles_tolerable_read_errors() {
    let tolerable_error_kinds = [
        io::ErrorKind::ConnectionReset,
        io::ErrorKind::ConnectionAborted,
        io::ErrorKind::BrokenPipe,
        io::ErrorKind::WriteZero,
    ];

    for kind in tolerable_error_kinds {
        let socket_hooks = FakeSocketHooks::new();

        socket_hooks.push_read(Ok(Ok(1234)));
        socket_hooks.push_write(Ok(()));
        socket_hooks.push_read(Ok(Err(kind.into())));
        assert!(matches!(run_socket(&socket_hooks), Ok(())));

        assert_eq!(
            socket_hooks.snapshots(),
            vec![
                String::from("1 conns, 0 Kb/s in"),
                String::from("1 conns, 9 Kb/s in"),
                String::from("1 conns, 0 Kb/s in"),
            ],
        );

        assert_eq!(socket_hooks.warnings(), vec![]);
        socket_hooks.assert_empty();
    }
}

#[test]
fn socket_handler_handles_timeout() {
    let socket_hooks = FakeSocketHooks::new();

    socket_hooks.push_read(Ok(Ok(1234)));
    socket_hooks.push_write(Ok(()));
    socket_hooks.push_read(Err(()));
    socket_hooks.push_shutdown(Ok(()));
    assert!(matches!(run_socket(&socket_hooks), Ok(())));

    assert_eq!(
        socket_hooks.snapshots(),
        vec![
            String::from("1 conns, 0 Kb/s in"),
            String::from("1 conns, 9 Kb/s in"),
            String::from("1 conns, 0 Kb/s in"),
            String::from("0 conns, 0 Kb/s in"),
        ],
    );

    assert_eq!(socket_hooks.warnings(), vec![]);
    socket_hooks.assert_empty();
}

#[test]
fn socket_handler_retries_read_on_would_block() {
    let socket_hooks = FakeSocketHooks::new();

    socket_hooks.push_read(Ok(Err(io::ErrorKind::WouldBlock.into())));
    socket_hooks.push_read(Ok(Err(io::ErrorKind::WouldBlock.into())));
    socket_hooks.push_read(Ok(Ok(1234)));
    socket_hooks.push_write(Ok(()));
    socket_hooks.push_read(Ok(Err(io::ErrorKind::WouldBlock.into())));
    socket_hooks.push_read(Ok(Err(io::ErrorKind::WouldBlock.into())));
    socket_hooks.push_read(Ok(Ok(0)));
    socket_hooks.push_shutdown(Ok(()));
    assert!(matches!(run_socket(&socket_hooks), Ok(())));

    assert_eq!(
        socket_hooks.snapshots(),
        vec![
            String::from("1 conns, 0 Kb/s in"),
            String::from("1 conns, 0 Kb/s in"),
            String::from("1 conns, 0 Kb/s in"),
            String::from("1 conns, 9 Kb/s in"),
            String::from("1 conns, 0 Kb/s in"),
            String::from("1 conns, 0 Kb/s in"),
            String::from("1 conns, 0 Kb/s in"),
            String::from("0 conns, 0 Kb/s in"),
        ],
    );

    assert_eq!(socket_hooks.warnings(), vec![]);
    socket_hooks.assert_empty();
}

#[test]
fn socket_handler_retries_write_on_would_block() {
    let socket_hooks = FakeSocketHooks::new();

    socket_hooks.push_read(Ok(Ok(1234)));
    socket_hooks.push_write(Err(io::ErrorKind::WouldBlock.into()));
    socket_hooks.push_write(Err(io::ErrorKind::WouldBlock.into()));
    socket_hooks.push_write(Ok(()));
    socket_hooks.push_read(Ok(Ok(0)));
    socket_hooks.push_shutdown(Ok(()));
    assert!(matches!(run_socket(&socket_hooks), Ok(())));

    assert_eq!(
        socket_hooks.snapshots(),
        vec![
            String::from("1 conns, 0 Kb/s in"),
            String::from("1 conns, 9 Kb/s in"),
            String::from("1 conns, 0 Kb/s in"),
            String::from("1 conns, 0 Kb/s in"),
            String::from("1 conns, 0 Kb/s in"),
            String::from("0 conns, 0 Kb/s in"),
        ],
    );

    assert_eq!(socket_hooks.warnings(), vec![]);
    socket_hooks.assert_empty();
}

#[test]
fn socket_handler_handles_fatal_read_errors() {
    let socket_hooks = FakeSocketHooks::new();

    socket_hooks.push_read(Ok(Ok(1234)));
    socket_hooks.push_write(Ok(()));
    socket_hooks.push_read(Ok(Err(io::ErrorKind::Other.into())));
    assert!(matches!(run_socket(&socket_hooks), Ok(())));

    assert_eq!(
        socket_hooks.snapshots(),
        vec![
            String::from("1 conns, 0 Kb/s in"),
            String::from("1 conns, 9 Kb/s in"),
            String::from("1 conns, 0 Kb/s in"),
        ],
    );

    assert_eq!(socket_hooks.warnings(), vec![io::ErrorKind::Other]);
    socket_hooks.assert_empty();
}

#[test]
fn socket_handler_handles_fatal_write_errors() {
    let socket_hooks = FakeSocketHooks::new();

    socket_hooks.push_read(Ok(Ok(1234)));
    socket_hooks.push_write(Err(io::ErrorKind::Other.into()));
    assert!(matches!(run_socket(&socket_hooks), Ok(())));

    assert_eq!(
        socket_hooks.snapshots(),
        vec![
            String::from("1 conns, 0 Kb/s in"),
            String::from("1 conns, 9 Kb/s in"),
        ],
    );

    assert_eq!(socket_hooks.warnings(), vec![io::ErrorKind::Other]);
    socket_hooks.assert_empty();
}

#[test]
fn socket_handler_ignores_closedish_shutdown_errors() {
    let tolerable_error_kinds = [
        io::ErrorKind::ConnectionReset,
        io::ErrorKind::ConnectionAborted,
        io::ErrorKind::BrokenPipe,
        io::ErrorKind::WriteZero,
    ];

    for kind in tolerable_error_kinds {
        let socket_hooks = FakeSocketHooks::new();

        socket_hooks.push_read(Ok(Ok(1234)));
        socket_hooks.push_write(Ok(()));
        socket_hooks.push_read(Ok(Ok(0)));
        socket_hooks.push_shutdown(Err(kind.into()));
        assert!(matches!(run_socket(&socket_hooks), Ok(())));

        assert_eq!(
            socket_hooks.snapshots(),
            vec![
                String::from("1 conns, 0 Kb/s in"),
                String::from("1 conns, 9 Kb/s in"),
                String::from("1 conns, 0 Kb/s in"),
                String::from("0 conns, 0 Kb/s in"),
            ],
        );

        assert_eq!(socket_hooks.warnings(), vec![]);
        socket_hooks.assert_empty();
    }
}

#[test]
fn socket_handler_retries_shutdown_on_would_block() {
    let socket_hooks = FakeSocketHooks::new();

    socket_hooks.push_read(Ok(Ok(1234)));
    socket_hooks.push_write(Ok(()));
    socket_hooks.push_read(Ok(Ok(0)));
    socket_hooks.push_shutdown(Err(io::ErrorKind::WouldBlock.into()));
    socket_hooks.push_shutdown(Err(io::ErrorKind::WouldBlock.into()));
    socket_hooks.push_shutdown(Ok(()));
    assert!(matches!(run_socket(&socket_hooks), Ok(())));

    assert_eq!(
        socket_hooks.snapshots(),
        vec![
            String::from("1 conns, 0 Kb/s in"),
            String::from("1 conns, 9 Kb/s in"),
            String::from("1 conns, 0 Kb/s in"),
            String::from("0 conns, 0 Kb/s in"),
            String::from("0 conns, 0 Kb/s in"),
            String::from("0 conns, 0 Kb/s in"),
        ],
    );

    assert_eq!(socket_hooks.warnings(), vec![]);
    socket_hooks.assert_empty();
}

#[test]
fn socket_handler_crashes_on_fatal_shutdown_errors() {
    let socket_hooks = FakeSocketHooks::new();

    socket_hooks.push_read(Ok(Ok(1234)));
    socket_hooks.push_write(Ok(()));
    socket_hooks.push_read(Ok(Ok(0)));
    socket_hooks.push_shutdown(Err(io::ErrorKind::Other.into()));
    assert!(matches!(run_socket(&socket_hooks),
        Err(e) if e.kind() == io::ErrorKind::Other
    ));

    assert_eq!(
        socket_hooks.snapshots(),
        vec![
            String::from("1 conns, 0 Kb/s in"),
            String::from("1 conns, 9 Kb/s in"),
            String::from("1 conns, 0 Kb/s in"),
            String::from("0 conns, 0 Kb/s in"),
        ],
    );

    assert_eq!(socket_hooks.warnings(), vec![]);
    socket_hooks.assert_empty();
}

#[test]
fn assert_once_accepts_a_request_successfully() {
    let server_hooks = FakeServerHooks::new();

    server_hooks.push_accept(Ok(()));
    assert!(matches!(run_accept(&server_hooks), Ok(_)));

    assert_eq!(server_hooks.snapshots(), vec![] as Vec<String>);
    assert_eq!(server_hooks.warnings(), vec![]);
    assert_eq!(
        server_hooks.stats().get_snapshot(Duration::from_millis(1)),
        Some(String::from("0 conns, 0 Kb/s in"))
    );
}

#[test]
fn assert_once_retries_on_tolerable_error() {
    let server_hooks = FakeServerHooks::new();

    server_hooks.push_accept(Err(io::ErrorKind::ConnectionReset.into()));
    server_hooks.push_accept(Err(io::ErrorKind::ConnectionAborted.into()));
    server_hooks.push_accept(Err(io::ErrorKind::WouldBlock.into()));
    server_hooks.push_accept(Ok(()));
    assert!(matches!(run_accept(&server_hooks), Ok(_)));

    assert_eq!(server_hooks.snapshots(), vec![] as Vec<String>);
    assert_eq!(server_hooks.warnings(), vec![]);
    assert_eq!(
        server_hooks.stats().get_snapshot(Duration::from_millis(1)),
        Some(String::from("0 conns, 0 Kb/s in"))
    );
    server_hooks.assert_empty();
}

#[test]
fn assert_once_propagates_fatal_errors() {
    let server_hooks = FakeServerHooks::new();

    server_hooks.push_accept(Err(io::ErrorKind::Other.into()));
    assert!(matches!(run_accept(&server_hooks), Err(e) if e.kind() == io::ErrorKind::Other));

    assert_eq!(server_hooks.snapshots(), vec![] as Vec<String>);
    assert_eq!(server_hooks.warnings(), vec![]);
    assert_eq!(
        server_hooks.stats().get_snapshot(Duration::from_millis(1)),
        Some(String::from("0 conns, 0 Kb/s in"))
    );
    server_hooks.assert_empty();
}

// The instants are those at which a timer with a period of 100 milliseconds ticks.
fn ticks(hooks: &FakeServerHooks, reporter: &mut Reporter, from: u64, to: u64) {
    for i in from..to {
        let report = reporter.tick(&mut hooks.stats(), Duration::from_millis(100 * i));
        if let Some(report) = report {
            hooks.inner.snapshots.borrow_mut().push(report);
        }
    }
}

#[test]
fn timer_loop_prints_continuous_zeroes() {
    let server_hooks = FakeServerHooks::new();
    let mut reporter = Reporter::new(Duration::from_millis(0));

    ticks(&server_hooks, &mut reporter, 0, 6);

    assert_eq!(
        server_hooks.snapshots(),
        vec![
            String::from("0 conns, 0 Kb/s in"),
            String::from("0 conns, 0 Kb/s in"),
            String::from("0 conns, 0 Kb/s in"),
            String::from("0 conns, 0 Kb/s in"),
            String::from("0 conns, 0 Kb/s in"),
        ]
    );
    assert_eq!(server_hooks.warnings(), vec![]);
    assert_eq!(
        server_hooks.stats().get_snapshot(Duration::from_millis(1)),
        Some(String::from("0 conns, 0 Kb/s in"))
    );
}

#[test]
fn timer_loop_reacts_to_connection_changes() {
    fn bps(n: usize) -> usize {
        n * 100 / 1000
    }

    let server_hooks = FakeServerHooks::new();
    let mut reporter = Reporter::new(Duration::from_millis(0));

    ticks(&server_hooks, &mut reporter, 0, 2);
    server_hooks.stats().add_connection();
    ticks(&server_hooks, &mut reporter, 2, 3);
    server_hooks.stats().push_received_bytes(bps(2222));
    ticks(&server_hooks, &mut reporter, 3, 4);
    server_hooks.stats().push_received_bytes(bps(1111));
    server_hooks.stats().remove_connection();
    ticks(&server_hooks, &mut reporter, 4, 6);

    assert_eq!(
        server_hooks.snapshots(),
        vec![
            String::from("0 conns, 0 Kb/s in"),
            String::from("1 conns, 0 Kb/s in"),
            String::from("1 conns, 17 Kb/s in"),
            String::from("0 conns, 8 Kb/s in"),
            String::from("0 conns, 0 Kb/s in"),
        ]
    );
    assert_eq!(server_hooks.warnings(), vec![]);
    assert_eq!(
        server_hooks.stats().get_snapshot(Duration::from_millis(1)),
        Some(String::from("0 conns, 0 Kb/s in"))
    );
}

#[test]
fn reporter_keeps_what_it_does_not_report() {
    let mut stats = TcpServerStats::new();
    let mut reporter = Reporter::new(Duration::from_millis(1000));
    stats.push_received_bytes(1000);

    // Too early, and even before the start.
    assert_eq!(reporter.tick(&mut stats, Duration::from_micros(1_000_999)), None);
    assert_eq!(reporter.tick(&mut stats, Duration::from_millis(500)), None);

    // The span goes back to the start.
    assert_eq!(
        reporter.tick(&mut stats, Duration::from_millis(1002)),
        Some(String::from("0 conns, 4 000 Kb/s in"))
    );

    // The next span starts where the last one ended.
    stats.push_received_bytes(1000);
    assert_eq!(reporter.tick(&mut stats, Duration::from_micros(1_002_999)), None);
    assert_eq!(
        reporter.tick(&mut stats, Duration::from_millis(1006)),
        Some(String::from("0 conns, 2 000 Kb/s in"))
    );
    assert_eq!(report_period(), Duration::from_secs(1));
}

#[test]
fn connections_are_counted_while_they_read_and_write() {
    let mut stats = TcpServerStats::new();
    let first = socket_start(&mut stats);
    let second = socket_start(&mut stats);
    assert_eq!((first, second), (SocketAction::Read, SocketAction::Read));
    assert_eq!(conns(&mut stats), "2 conns, 0 Kb/s in");

    assert_eq!(
        socket_handler(&mut stats, SocketEvent::Read(125)),
        SocketAction::Write
    );
    assert_eq!(conns(&mut stats), "2 conns, 1 Kb/s in");
    assert_eq!(
        socket_handler(&mut stats, SocketEvent::WriteFailed(Failure::ConnectionReset)),
        SocketAction::Warn
    );
    assert_eq!(conns(&mut stats), "1 conns, 0 Kb/s in");

    assert_eq!(
        socket_handler(&mut stats, SocketEvent::ReadElapsed),
        SocketAction::Shutdown
    );
    assert_eq!(conns(&mut stats), "0 conns, 0 Kb/s in");
    assert_eq!(
        socket_handler(&mut stats, SocketEvent::ShutdownFailed(Failure::TimedOut)),
        SocketAction::Fail
    );
    assert_eq!(conns(&mut stats), "0 conns, 0 Kb/s in");
}

fn conns(stats: &mut TcpServerStats) -> String {
    stats.get_snapshot(Duration::from_secs(1)).unwrap()
}

#[test]
fn server_binds_reports_and_serves() {
    let location = SocketAddr::V4 {
        octets: [127, 0, 0, 1],
        port: 80,
    };
    let options = TcpServerOptions {
        location,
        conn_timeout: Duration::from_secs(3),
    };
    assert_eq!(server_start(&options), ServerAction::Bind(location));
    assert_eq!(server_loop(&options, ServerEvent::BindFailed), ServerAction::Fail);
    assert_eq!(server_loop(&options, ServerEvent::Bound), ServerAction::Report);
    assert_eq!(server_loop(&options, ServerEvent::Reporting), ServerAction::Accept);
    assert_eq!(
        server_loop(&options, ServerEvent::AcceptFailed(Failure::ConnectionReset)),
        ServerAction::Accept
    );
    assert_eq!(
        server_loop(&options, ServerEvent::AcceptFailed(Failure::Other)),
        ServerAction::Fail
    );
    assert_eq!(
        server_loop(&options, ServerEvent::Accepted),
        ServerAction::Serve(Duration::from_secs(3))
    );
    assert_eq!(server_loop(&options, ServerEvent::Serving), ServerAction::Accept);
}
