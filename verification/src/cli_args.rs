//! The arguments of the command line.

use vstd::arithmetic::div_mod::*;
use vstd::arithmetic::power::*;
use vstd::arithmetic::power2::*;
use vstd::prelude::*;
use vstd::slice::*;
use vstd::string::*;

use crate::addr;
use crate::addr::Address;
use crate::addr::SocketAddr;
use crate::binary64;
use crate::command;
use crate::command::CliError;
use crate::command::Line;
use crate::command::Matched;
use crate::command::Setting;
use crate::command::SettingText;
use crate::command::SettingValue;
use crate::duration;
use crate::duration::Duration;
use crate::number;
use crate::number::IntError;
use crate::number::Literal;
use crate::number::Magnitude;
use crate::number::Unsigned;
use crate::text;

verus! {

/// What a client is asked to do.
#[derive(Debug, Clone, Copy, PartialEq, Eq)]
pub struct TcpClientOptions {
    pub target: SocketAddr,
    /// The number of connections, which is not zero.
    pub connections: u32,
}

/// What a server is asked to do.
#[derive(Debug, Clone, Copy, PartialEq, Eq)]
pub struct TcpServerOptions {
    pub location: SocketAddr,
    pub conn_timeout: Duration,
}

/// What the program is asked to do.
#[derive(Debug, Clone, Copy, PartialEq, Eq)]
pub enum CliAction {
    TcpClient(TcpClientOptions),
    TcpServer(TcpServerOptions),
}

/// Where to connect to, or where to listen.
#[derive(Debug, Clone, Copy, PartialEq, Eq)]
pub enum ClapLocation {
    Tcp(SocketAddr),
}

/// Why a text is no location.
#[derive(Debug)]
pub enum LocationError {
    /// It has no protocol.
    InvalidUri,
    /// It has another protocol than TCP.
    UnknownProtocol(String),
    /// The port of `localhost` is no port number.
    InvalidPort(IntError),
    /// It has no socket address.
    InvalidAddress,
    /// The port is zero.
    ZeroPort,
}

/// What an error in a location holds.
#[verifier::ext_equal]
pub enum LocationFault {
    InvalidUri,
    UnknownProtocol(Seq<char>),
    InvalidPort(IntError),
    InvalidAddress,
    ZeroPort,
}

impl View for LocationError {
    type V = LocationFault;

    open spec fn view(&self) -> LocationFault {
        match *self {
            LocationError::InvalidUri => LocationFault::InvalidUri,
            LocationError::UnknownProtocol(protocol) => LocationFault::UnknownProtocol(protocol@),
            LocationError::InvalidPort(e) => LocationFault::InvalidPort(e),
            LocationError::InvalidAddress => LocationFault::InvalidAddress,
            LocationError::ZeroPort => LocationFault::ZeroPort,
        }
    }
}

/// The wording of an error in a location.
pub open spec fn location_fault_text(fault: LocationFault) -> Seq<char> {
    match fault {
        LocationFault::InvalidUri => "invalid URI"@,
        LocationFault::UnknownProtocol(protocol) => "unknown protocol '"@ + protocol + ":'"@,
        LocationFault::InvalidPort(e) => number::int_error_text(e),
        LocationFault::InvalidAddress => "invalid socket address syntax"@,
        LocationFault::ZeroPort => "port cannot be zero"@,
    }
}

impl LocationError {
    /// The wording of the error.
    pub fn message(&self) -> (s: String)
        ensures
            s@ == location_fault_text(self@),
    {
        match self {
            LocationError::InvalidUri => String::from_str("invalid URI"),
            LocationError::UnknownProtocol(protocol) => {
                let mut s = String::from_str("unknown protocol '");
                s.append(protocol.as_str());
                s.append(":'");
                s
            },
            LocationError::InvalidPort(e) => String::from_str(e.message()),
            LocationError::InvalidAddress => String::from_str("invalid socket address syntax"),
            LocationError::ZeroPort => String::from_str("port cannot be zero"),
        }
    }
}

/// The address that `s` writes, where `localhost` stands for 127.0.0.1; the port is not zero.
pub open spec fn named_socket_addr(s: Seq<char>) -> Result<Address, LocationFault> {
    let found = if text::starts_with(s, "localhost:"@) {
        match number::unsigned_value(s.skip("localhost:"@.len() as int), u16::MAX as nat) {
            Ok(port) => Ok(Address::V4 { octets: seq![127, 0, 0, 1], port: port as u16 }),
            Err(e) => Err(LocationFault::InvalidPort(e)),
        }
    } else {
        match addr::socket_addr(s) {
            Some(a) => Ok(a),
            None => Err(LocationFault::InvalidAddress),
        }
    };
    match found {
        Ok(a) => if a.port() == 0 {
            Err(LocationFault::ZeroPort)
        } else {
            Ok(a)
        },
        Err(fault) => Err(fault),
    }
}

/// The address that a location `tcp://<address>:<port>` has.
pub open spec fn location(s: Seq<char>) -> Result<Address, LocationFault> {
    if text::starts_with(s, "tcp://"@) {
        named_socket_addr(s.skip("tcp://"@.len() as int))
    } else if text::find(s, ':') < s.len() {
        Err(LocationFault::UnknownProtocol(s.take(text::find(s, ':') as int)))
    } else {
        Err(LocationFault::InvalidUri)
    }
}

/// The address that `s` writes, where `localhost` stands for 127.0.0.1; the port is not zero.
pub fn get_socket_addr(s: &[char]) -> (r: Result<SocketAddr, LocationError>)
    ensures
        match named_socket_addr(s@) {
            Ok(a) => r matches Ok(found) && found@ == a,
            Err(fault) => r matches Err(e) && e@ == fault,
        },
{
    let found: SocketAddr = match text::strip_prefix(s, "localhost:") {
        None => match addr::parse_socket_addr(s) {
            Some(found) => found,
            None => return Err(LocationError::InvalidAddress),
        },
        Some(port) => match number::parse_unsigned(port, 0xffff) {
            Ok(port) => {
                let octets: [u8; 4] = [127, 0, 0, 1];
                assert(octets@ =~= seq![127, 0, 0, 1]);
                SocketAddr::V4 { octets, port: port as u16 }
            },
            Err(e) => return Err(LocationError::InvalidPort(e)),
        },
    };
    if found.port() != 0 {
        Ok(found)
    } else {
        Err(LocationError::ZeroPort)
    }
}

impl ClapLocation {
    /// The location that a text writes.
    pub fn from_str(arg: &str) -> (r: Result<ClapLocation, LocationError>)
        ensures
            match location(arg@) {
                Ok(a) => r matches Ok(ClapLocation::Tcp(found)) && found@ == a,
                Err(fault) => r matches Err(e) && e@ == fault,
            },
    {
        let s = text::characters(arg);
        match text::strip_prefix(s.as_slice(), "tcp://") {
            None => {
                let k: usize = text::position(s.as_slice(), ':');
                if k == s.len() {
                    Err(LocationError::InvalidUri)
                } else {
                    let protocol = arg.substring_char(0, k);
                    assert(protocol@ == arg@.take(k as int));
                    Err(LocationError::UnknownProtocol(String::from_str(protocol)))
                }
            },
            Some(rest) => match get_socket_addr(rest) {
                Ok(found) => Ok(ClapLocation::Tcp(found)),
                Err(e) => Err(e),
            },
        }
    }
}

/// Why a text is no number of connections.
#[derive(Debug, Clone, Copy, PartialEq, Eq, Structural)]
pub enum ConnectionsError {
    Invalid(IntError),
    Zero,
}

/// The wording of an error in a number of connections.
pub open spec fn connections_error_text(e: ConnectionsError) -> Seq<char> {
    match e {
        ConnectionsError::Invalid(e) => number::int_error_text(e),
        ConnectionsError::Zero => "cannot be zero"@,
    }
}

impl ConnectionsError {
    /// The wording of the error.
    pub fn message(&self) -> (s: &'static str)
        ensures
            s@ == connections_error_text(*self),
    {
        match self {
            ConnectionsError::Invalid(e) => e.message(),
            ConnectionsError::Zero => "cannot be zero",
        }
    }
}

/// The number of connections that `s` writes, which is not zero.
pub open spec fn connections(s: Seq<char>) -> Result<nat, ConnectionsError> {
    match number::unsigned_value(s, u32::MAX as nat) {
        Ok(n) => if n == 0 {
            Err(ConnectionsError::Zero)
        } else {
            Ok(n)
        },
        Err(e) => Err(ConnectionsError::Invalid(e)),
    }
}

/// The number of connections that a text writes.
pub fn parse_connections(s: &str) -> (r: Result<u32, ConnectionsError>)
    ensures
        match connections(s@) {
            Ok(n) => r matches Ok(found) && found == n,
            Err(e) => r == Err::<u32, ConnectionsError>(e),
        },
{
    let s = text::characters(s);
    match number::parse_unsigned(s.as_slice(), u32::MAX) {
        Ok(n) => {
            if n == 0 {
                Err(ConnectionsError::Zero)
            } else {
                Ok(n)
            }
        },
        Err(e) => Err(ConnectionsError::Invalid(e)),
    }
}

/// How long a connection of the server may be silent.
#[derive(Debug, Clone, Copy, PartialEq, Eq)]
pub struct ServerConnTimeout(pub Duration);

/// Why a text is no timeout.
#[derive(Debug, Clone, Copy, PartialEq, Eq, Structural)]
pub enum TimeoutError {
    Empty,
    Invalid,
    Negative,
    Zero,
    TooLarge,
}

/// The wording of an error in a timeout.
pub open spec fn timeout_error_text(e: TimeoutError) -> Seq<char> {
    match e {
        TimeoutError::Empty => "cannot parse float from empty string"@,
        TimeoutError::Invalid => "invalid float literal"@,
        TimeoutError::Negative => "cannot be negative"@,
        TimeoutError::Zero => "cannot be zero"@,
        TimeoutError::TooLarge => "cannot convert float seconds to Duration: value is either too big or NaN"@,
    }
}

impl TimeoutError {
    /// The wording of the error.
    pub fn message(&self) -> (s: &'static str)
        ensures
            s@ == timeout_error_text(*self),
    {
        match self {
            TimeoutError::Empty => "cannot parse float from empty string",
            TimeoutError::Invalid => "invalid float literal",
            TimeoutError::Negative => "cannot be negative",
            TimeoutError::Zero => "cannot be zero",
            TimeoutError::TooLarge => "cannot convert float seconds to Duration: value is either too big or NaN",
        }
    }
}

/// The text behind an optional sign.
pub open spec fn unsigned_part(s: Seq<char>) -> Seq<char> {
    if s.len() > 0 && (s[0] == '+' || s[0] == '-') {
        s.skip(1)
    } else {
        s
    }
}

/// The timeout in nanoseconds that `s` writes as a decimal number of seconds.
///
/// The number is rounded to a binary64 number, and that to whole nanoseconds. What is no number
/// counts as zero.
pub open spec fn timeout(s: Seq<char>) -> Result<nat, TimeoutError> {
    if s.len() == 0 {
        Err(TimeoutError::Empty)
    } else {
        match number::literal(unsigned_part(s)) {
            None => Err(TimeoutError::Invalid),
            Some(Literal::NotANumber) => Err(TimeoutError::Zero),
            Some(Literal::Infinite) => if s[0] == '-' {
                Err(TimeoutError::Negative)
            } else {
                Err(TimeoutError::TooLarge)
            },
            Some(Literal::Finite { digits, exponent }) => {
                let seconds = number::nearest_decimal(digits, exponent);
                if seconds.0 == 0 {
                    Err(TimeoutError::Zero)
                } else if s[0] == '-' {
                    Err(TimeoutError::Negative)
                } else if binary64::whole(seconds) >= 0x1_0000_0000_0000_0000 {
                    Err(TimeoutError::TooLarge)
                } else {
                    Ok(duration::nearest_nanos(seconds))
                }
            },
        }
    }
}

impl ServerConnTimeout {
    /// The timeout that a text writes.
    pub fn from_str(s: &str) -> (r: Result<ServerConnTimeout, TimeoutError>)
        ensures
            match timeout(s@) {
                Ok(nanos) => r matches Ok(found) && found.0@ == nanos,
                Err(e) => r == Err::<ServerConnTimeout, TimeoutError>(e),
            },
    {
        let s = text::characters(s);
        if s.len() == 0 {
            return Err(TimeoutError::Empty);
        }
        let negative: bool = s[0] == '-';
        let body: &[char] = if negative || s[0] == '+' {
            slice_subrange(s.as_slice(), 1, s.len())
        } else {
            s.as_slice()
        };
        assert(body@ == unsigned_part(s@));
        match number::parse_literal(body) {
            None => Err(TimeoutError::Invalid),
            Some(Unsigned::NotANumber) => Err(TimeoutError::Zero),
            Some(Unsigned::Infinite) => {
                if negative {
                    Err(TimeoutError::Negative)
                } else {
                    Err(TimeoutError::TooLarge)
                }
            },
            Some(Unsigned::Finite(magnitude)) => match magnitude {
                Magnitude::Zero => Err(TimeoutError::Zero),
                Magnitude::TooLarge => {
                    if negative {
                        Err(TimeoutError::Negative)
                    } else {
                        Err(TimeoutError::TooLarge)
                    }
                },
                Magnitude::Value(seconds) => {
                    if negative {
                        Err(TimeoutError::Negative)
                    } else {
                        match Duration::from_seconds(&seconds) {
                            Some(d) => Ok(ServerConnTimeout(d)),
                            None => Err(TimeoutError::TooLarge),
                        }
                    }
                },
            },
        }
    }
}

/// Whether an action is what an endpoint and a setting ask for.
pub open spec fn asked_for(action: CliAction, endpoint: Address, setting: SettingValue) -> bool {
    match setting {
        SettingValue::Connections(n) => action matches CliAction::TcpClient(options)
            && options.target@ == endpoint && options.connections == n,
        SettingValue::Timeout(nanos) => action matches CliAction::TcpServer(options)
            && options.location@ == endpoint && options.conn_timeout@ == nanos,
    }
}

/// What an endpoint and a setting ask for.
pub fn action_for(matched: Matched) -> (action: CliAction)
    ensures
        asked_for(action, matched.endpoint@, matched.setting@),
{
    match matched.setting {
        Setting::Connections(connections) => CliAction::TcpClient(
            TcpClientOptions { target: matched.endpoint, connections },
        ),
        Setting::Timeout(conn_timeout) => CliAction::TcpServer(
            TcpServerOptions { location: matched.endpoint, conn_timeout },
        ),
    }
}

/// Whether the outcome is that of a line of the command line: the action where both its values
/// are right, and else the refusal of the first that is not.
pub open spec fn is_outcome(line: Line, r: Result<CliAction, CliError>) -> bool {
    match command::line_values(command::cli(), line) {
        Ok((endpoint, setting)) => r matches Ok(action) && asked_for(action, endpoint, setting),
        Err(message) => r matches Err(e) && e.message@ == message && e.use_stderr,
    }
}

/// What the program is asked to do by the words of the command line, its own name first.
pub fn parse_cli_clap(args: Vec<String>) -> (r: Result<CliAction, CliError>)
    ensures
        match command::taken(command::cli(), command::words(args@)) {
            Some(line) => is_outcome(line, r),
            None => r matches Err(e) && command::is_answer(command::words(args@), e),
        },
{
    match command::parse_line(args) {
        Ok(matched) => Ok(action_for(matched)),
        Err(e) => Err(e),
    }
}

/// What is asked for can be done: a port is not zero, nor is a number of connections, and the
/// client is asked for exactly by its own subcommand.
pub proof fn lemma_action_can_be_done(line: Line, action: CliAction)
    requires
        is_outcome(line, Ok(action)),
    ensures
        line.first == (action is TcpClient),
        match action {
            CliAction::TcpClient(options) => options.target@.port() != 0 && options.connections > 0,
            CliAction::TcpServer(options) => options.location@.port() != 0,
        },
{
}

/// The words of a command line for the client or the server, with the option before the endpoint
/// or behind it.
pub open spec fn line_words(
    program: Seq<char>,
    client: bool,
    endpoint: Seq<char>,
    option: Seq<Seq<char>>,
    option_first: bool,
) -> Seq<Seq<char>> {
    let name = if client {
        command::CLIENT@
    } else {
        command::SERVER@
    };
    if option_first {
        seq![program, name] + option + seq![endpoint]
    } else {
        seq![program, name, endpoint] + option
    }
}

/// The option of the client or the server.
pub open spec fn line_setting(client: bool) -> SettingText {
    if client {
        command::cli().first.setting
    } else {
        command::cli().second.setting
    }
}

proof fn lemma_plain_line(
    program: Seq<char>,
    client: bool,
    endpoint: Seq<char>,
    option: Seq<Seq<char>>,
    option_first: bool,
    value: Seq<char>,
)
    requires
        command::is_plain(endpoint),
        command::gives(line_setting(client), option, value),
    ensures
        command::plain_line(
            command::cli(),
            line_words(program, client, endpoint, option, option_first),
        ) == Some(Line { first: client, endpoint, setting: value, setting_first: option_first }),
{
    reveal_strlit("client");
    reveal_strlit("server");
    reveal_strlit("concurrency");
    reveal_strlit("connection-timeout");
    assert(command::CLIENT@[0] != command::SERVER@[0]);
    let setting = line_setting(client);
    let args = line_words(program, client, endpoint, option, option_first);
    let rest = args.skip(2);
    if option_first {
        assert(rest.drop_last() =~= option);
        let word = option[0];
        assert(word.len() > 0 && word[0] == '-') by {
            let long = seq!['-', '-'] + setting.long + seq!['='];
            if option.len() == 1 {
                if text::starts_with(word, long) {
                    assert(word.take(long.len() as int)[0] == long[0]);
                } else if text::starts_with(word, seq!['-', setting.short, '=']) {
                    assert(word.take(3)[0] == seq!['-', setting.short, '='][0]);
                } else {
                    assert(word.take(2)[0] == seq!['-', setting.short][0]);
                }
            }
        }
        assert(rest[0] == word);
    } else {
        assert(rest.skip(1) =~= option);
    }
}

/// What is wrong with the text of the option of the client or the server.
pub open spec fn setting_error(client: bool, value: Seq<char>) -> Option<Seq<char>> {
    if client {
        match connections(value) {
            Ok(_) => None,
            Err(e) => Some(connections_error_text(e)),
        }
    } else {
        match timeout(value) {
            Ok(_) => None,
            Err(e) => Some(timeout_error_text(e)),
        }
    }
}

/// The refusal of an endpoint that is not right.
pub open spec fn endpoint_refusal(client: bool, endpoint: Seq<char>) -> Seq<char> {
    let name = if client {
        command::TARGET@
    } else {
        command::LOCATION@
    };
    command::refusal_text(
        endpoint,
        "<"@ + name + ">"@,
        location_fault_text(location(endpoint)->Err_0),
    )
}

/// The refusal of a setting that is not right.
pub open spec fn setting_refusal(client: bool, value: Seq<char>) -> Seq<char> {
    let (long, name) = if client {
        (command::CONCURRENCY_LONG@, command::CONCURRENCY@)
    } else {
        (command::TIMEOUT_LONG@, command::TIMEOUT@)
    };
    command::refusal_text(
        value,
        "--"@ + long + " <"@ + name + ">"@,
        setting_error(client, value).unwrap(),
    )
}

/// A client with a target and a number, and a server with a location and a number of seconds, is
/// asked for exactly where both values are right, and then with these values. It is the same
/// for every way to write the option, before the endpoint or behind it. Where both values are
/// wrong, the one that stands first is refused.
pub proof fn lemma_line_outcome(
    program: Seq<char>,
    client: bool,
    endpoint: Seq<char>,
    option: Seq<Seq<char>>,
    option_first: bool,
    value: Seq<char>,
    r: Result<CliAction, CliError>,
)
    requires
        command::is_plain(endpoint),
        command::gives(line_setting(client), option, value),
        command::plain_line(
            command::cli(),
            line_words(program, client, endpoint, option, option_first),
        ) matches Some(line) ==> is_outcome(line, r),
    ensures
        command::plain_line(
            command::cli(),
            line_words(program, client, endpoint, option, option_first),
        ) is Some,
        client ==> (r is Ok <==> location(endpoint) is Ok && connections(value) is Ok),
        client ==> (r matches Ok(action) ==> action matches CliAction::TcpClient(options)
            && location(endpoint) == Ok::<Address, LocationFault>(options.target@) && connections(
            value,
        ) == Ok::<nat, ConnectionsError>(options.connections as nat)),
        !client ==> (r is Ok <==> location(endpoint) is Ok && timeout(value) is Ok),
        !client ==> (r matches Ok(action) ==> action matches CliAction::TcpServer(options)
            && location(endpoint) == Ok::<Address, LocationFault>(options.location@) && timeout(
            value,
        ) == Ok::<nat, TimeoutError>(options.conn_timeout@)),
        location(endpoint) is Err && !option_first ==> (r matches Err(e) && e.message@
            == endpoint_refusal(client, endpoint)),
        setting_error(client, value) is Some && option_first ==> (r matches Err(e) && e.message@
            == setting_refusal(client, value)),
{
    lemma_plain_line(program, client, endpoint, option, option_first, value);
}

/// The ways to write an option with a value: in two words where the value does not start with a
/// hyphen, and in one word behind an equals sign or, for a short name, without one.
pub proof fn lemma_option_forms(client: bool, value: Seq<char>)
    ensures
        ({
            let setting = line_setting(client);
            let short = seq!['-', setting.short];
            let long = seq!['-', '-'] + setting.long;
            &&& command::is_plain(value) ==> command::gives(setting, seq![short, value], value)
            &&& command::is_plain(value) ==> command::gives(setting, seq![long, value], value)
            &&& command::gives(setting, seq![long + seq!['='] + value], value)
            &&& command::gives(setting, seq![short + seq!['='] + value], value)
            &&& value.len() > 0 && value[0] != '=' ==> command::gives(
                setting,
                seq![short + value],
                value,
            )
        }),
{
    reveal_strlit("concurrency");
    reveal_strlit("connection-timeout");
    let setting = line_setting(client);
    let short = seq!['-', setting.short];
    let long = seq!['-', '-'] + setting.long;
    let one = long + seq!['='];
    assert((one + value).take(one.len() as int) =~= one);
    assert((one + value).skip(one.len() as int) =~= value);
    let two = seq!['-', setting.short, '='];
    let w2 = short + seq!['='] + value;
    assert(w2.take(3) =~= two);
    assert(w2.skip(3) =~= value);
    if text::starts_with(w2, one) {
        assert(w2.take(one.len() as int)[1] == one[1]);
    }
    let w3 = short + value;
    if value.len() > 0 && value[0] != '=' {
        assert(w3.take(2) =~= short);
        assert(w3.skip(2) =~= value);
        if text::starts_with(w3, one) {
            assert(w3.take(one.len() as int)[1] == one[1]);
        }
        if text::starts_with(w3, two) {
            assert(w3.take(3)[2] == two[2]);
        }
    }
}

/// A timeout in whole seconds is exact, where it is below 2^53.
pub proof fn lemma_whole_seconds(s: Seq<char>)
    requires
        s.len() > 0,
        text::all_digits(s, 10),
        0 < text::digits_value(s, 10) < 0x20_0000_0000_0000,
    ensures
        timeout(s) == Ok::<nat, TimeoutError>(text::digits_value(s, 10) * 1_000_000_000),
{
    let v = text::digits_value(s, 10);
    reveal_strlit("inf");
    reveal_strlit("infinity");
    reveal_strlit("nan");
    assert(text::digit_value(s[0]) < 10);
    assert(unsigned_part(s) == s);
    text::lemma_leading_digits(s);
    let k = text::leading_digits(s) as int;
    assert(s.skip(k).len() == 0);
    assert(s.take(k) + number::fraction(s.skip(k)) =~= s);
    assert(number::literal(s) == Some(Literal::Finite { digits: s, exponent: 0 }));
    let seconds = number::nearest_decimal(s, 0);
    lemma_pow0(10);
    assert(v * pow(10, 0) as nat == v * 1);
    binary64::lemma_nearest_exact(v, 1, v);
    let e = (-seconds.1) as nat;
    let p = pow2(e);
    lemma_pow2_pos(e);
    assert(seconds.0 == v * p);
    assert(seconds.0 > 0) by (nonlinear_arith)
        requires
            seconds.0 == v * p,
            v > 0,
            p > 0,
    ;
    assert((v * 1_000_000_000) * p == (v * p) * 1_000_000_000) by (nonlinear_arith);
    lemma_fundamental_div_mod_converse((v * p) as int, p as int, v as int, 0);
    lemma_fundamental_div_mod_converse(
        ((v * p) * 1_000_000_000) as int,
        p as int,
        (v * 1_000_000_000) as int,
        0,
    );
    if e == 0 {
        lemma2_to64();
        assert(v * pow2(0) == v);
        assert(v * pow2(0) * pow2(0) == v);
    }
}

/// A client that is given no more than its target makes one connection, and a server that is
/// given no more than its location waits for one second.
pub proof fn lemma_defaults(program: Seq<char>, endpoint: Seq<char>)
    requires
        location(endpoint) is Ok,
    ensures
        ({
            let a = location(endpoint)->Ok_0;
            let client = command::plain_line(
                command::cli(),
                seq![program, command::CLIENT@, endpoint],
            );
            let server = command::plain_line(
                command::cli(),
                seq![program, command::SERVER@, endpoint],
            );
            &&& client matches Some(line) && command::line_values(command::cli(), line) == Ok::<
                (Address, SettingValue),
                Seq<char>,
            >((a, SettingValue::Connections(1)))
            &&& server matches Some(line) && command::line_values(command::cli(), line) == Ok::<
                (Address, SettingValue),
                Seq<char>,
            >((a, SettingValue::Timeout(1_000_000_000)))
        }),
{
    reveal_strlit("tcp://");
    reveal_strlit("1");
    reveal_strlit("client");
    reveal_strlit("server");
    assert(endpoint[0] == endpoint.take(6)[0]);
    assert(command::CLIENT@[0] != command::SERVER@[0]);
    let one = "1"@;
    assert(one.drop_last() =~= Seq::<char>::empty());
    assert(text::digits_value(one.drop_last(), 10) == 0);
    assert(text::digits_value(one, 10) == 1);
    assert(text::all_digits(one, 10));
    text::lemma_leading_digits(one);
    assert(one.take(1) =~= one);
    lemma_whole_seconds(one);
}

/// A number of connections is digits behind an optional plus sign, with a value from 1 to 2^32 - 1.
pub proof fn lemma_connections(plus: bool, digits: Seq<char>, rest: Seq<char>)
    requires
        forall|i: int| 0 <= i < digits.len() ==> '0' <= #[trigger] digits[i] <= '9',
        rest.len() > 0 ==> !('0' <= rest[0] <= '9'),
        !plus && digits.len() == 0 && rest.len() > 0 ==> rest[0] != '+',
    ensures
        ({
            let v = text::digits_value(digits, 10);
            let r = connections(number::plus_text(plus) + digits + rest);
            if !plus && digits.len() == 0 && rest.len() == 0 {
                r == Err::<nat, ConnectionsError>(ConnectionsError::Invalid(IntError::Empty))
            } else if v > 4_294_967_295 {
                r == Err::<nat, ConnectionsError>(ConnectionsError::Invalid(IntError::TooLarge))
            } else if digits.len() == 0 || rest.len() > 0 {
                r == Err::<nat, ConnectionsError>(ConnectionsError::Invalid(IntError::InvalidDigit))
            } else if v == 0 {
                r == Err::<nat, ConnectionsError>(ConnectionsError::Zero)
            } else {
                r == Ok::<nat, ConnectionsError>(v)
            }
        }),
{
    number::lemma_unsigned(plus, digits, rest, 4_294_967_295);
}

/// How what is wrong with a value is worded: an unknown protocol is named, and the other wordings
/// do not depend on the value.
pub proof fn lemma_wordings(protocol: Seq<char>, e: IntError)
    ensures
        location_fault_text(LocationFault::UnknownProtocol(protocol)) == "unknown protocol '"@
            + protocol + ":'"@,
        location_fault_text(LocationFault::InvalidUri) == "invalid URI"@,
        location_fault_text(LocationFault::InvalidAddress) == "invalid socket address syntax"@,
        location_fault_text(LocationFault::ZeroPort) == "port cannot be zero"@,
        location_fault_text(LocationFault::InvalidPort(e)) == connections_error_text(
            ConnectionsError::Invalid(e),
        ),
        connections_error_text(ConnectionsError::Invalid(IntError::Empty))
            == "cannot parse integer from empty string"@,
        connections_error_text(ConnectionsError::Invalid(IntError::InvalidDigit))
            == "invalid digit found in string"@,
        connections_error_text(ConnectionsError::Invalid(IntError::TooLarge))
            == "number too large to fit in target type"@,
        connections_error_text(ConnectionsError::Zero) == timeout_error_text(TimeoutError::Zero),
        timeout_error_text(TimeoutError::Zero) == "cannot be zero"@,
        timeout_error_text(TimeoutError::Negative) == "cannot be negative"@,
        timeout_error_text(TimeoutError::Empty) == "cannot parse float from empty string"@,
        timeout_error_text(TimeoutError::Invalid) == "invalid float literal"@,
        timeout_error_text(TimeoutError::TooLarge)
            == "cannot convert float seconds to Duration: value is either too big or NaN"@,
{
}

/// A number of connections asks for a client that makes so many to the endpoint, and a timeout for
/// a server that listens there with this timeout; nothing else is asked for.
pub proof fn lemma_asked_for(action: CliAction, endpoint: Address, n: nat)
    ensures
        asked_for(action, endpoint, SettingValue::Connections(n)) <==> (
        action matches CliAction::TcpClient(options) && options.target@ == endpoint
            && options.connections == n),
        asked_for(action, endpoint, SettingValue::Timeout(n)) <==> (
        action matches CliAction::TcpServer(options) && options.location@ == endpoint
            && options.conn_timeout@ == n),
{
}

/// The refusal of a value names the value, the argument and the reason.
pub proof fn lemma_refusal(value: Seq<char>, arg: Seq<char>, reason: Seq<char>)
    ensures
        ({
            let s = command::refusal_text(value, arg, reason);
            let start = "error: Invalid value '"@ + value + "' for '"@ + arg + "': "@;
            let end = "\n\nFor more information try '--help'\n"@;
            &&& s.len() == start.len() + reason.len() + end.len()
            &&& s.take(start.len() as int) == start
            &&& s.skip(start.len() as int) == reason + end
        }),
{
    let s = command::refusal_text(value, arg, reason);
    let start = "error: Invalid value '"@ + value + "' for '"@ + arg + "': "@;
    let end = "\n\nFor more information try '--help'\n"@;
    assert(s =~= start + (reason + end));
    assert(s.take(start.len() as int) =~= start);
    assert(s.skip(start.len() as int) =~= reason + end);
}

/// The value of an argument alone: the endpoint is the location that it writes, and the setting is
/// the number of connections or the timeout; else the reason is what is wrong with it.
pub proof fn lemma_argument_values(s: Seq<char>)
    ensures
        location(s) matches Ok(a) ==> command::endpoint_value(s) == Ok::<Address, Seq<char>>(a),
        location(s) matches Err(fault) ==> command::endpoint_value(s) == Err::<Address, Seq<char>>(
            location_fault_text(fault),
        ),
        connections(s) matches Ok(n) ==> command::setting_value(
            command::SettingKind::Connections,
            s,
        ) == Ok::<SettingValue, Seq<char>>(SettingValue::Connections(n)),
        connections(s) matches Err(e) ==> command::setting_value(
            command::SettingKind::Connections,
            s,
        ) == Err::<SettingValue, Seq<char>>(connections_error_text(e)),
        timeout(s) matches Ok(nanos) ==> command::setting_value(command::SettingKind::Timeout, s)
            == Ok::<SettingValue, Seq<char>>(SettingValue::Timeout(nanos)),
        timeout(s) matches Err(e) ==> command::setting_value(command::SettingKind::Timeout, s)
            == Err::<SettingValue, Seq<char>>(timeout_error_text(e)),
{
}

/// Every line is carried out with its own values where both are right. Where one is not, that one
/// is refused, and where both are not, the one that is read first.
pub proof fn lemma_every_line(line: Line, r: Result<CliAction, CliError>)
    requires
        is_outcome(line, r),
    ensures
        ({
            let endpoint_right = location(line.endpoint) is Ok;
            let setting_right = setting_error(line.first, line.setting) is None;
            &&& r is Ok <==> endpoint_right && setting_right
            &&& r matches Ok(CliAction::TcpClient(options)) ==> line.first && location(
                line.endpoint,
            ) == Ok::<Address, LocationFault>(options.target@) && connections(line.setting) == Ok::<
                nat,
                ConnectionsError,
            >(options.connections as nat)
            &&& r matches Ok(CliAction::TcpServer(options)) ==> !line.first && location(
                line.endpoint,
            ) == Ok::<Address, LocationFault>(options.location@) && timeout(line.setting) == Ok::<
                nat,
                TimeoutError,
            >(options.conn_timeout@)
            &&& r matches Err(e) ==> e.use_stderr && e.message@ == if setting_right || (
            !endpoint_right && !line.setting_first) {
                endpoint_refusal(line.first, line.endpoint)
            } else {
                setting_refusal(line.first, line.setting)
            }
        }),
{
}

/// What is understood of a line has the values of the line, and leads to the outcome of the line.
pub proof fn lemma_understood(line: Line, m: Matched, action: CliAction)
    ensures
        command::understood(command::cli(), line, Ok(m)) <==> (location(line.endpoint) == Ok::<
            Address,
            LocationFault,
        >(m.endpoint@) && match m.setting {
            Setting::Connections(n) => line.first && connections(line.setting) == Ok::<
                nat,
                ConnectionsError,
            >(n as nat),
            Setting::Timeout(d) => !line.first && timeout(line.setting) == Ok::<nat, TimeoutError>(
                d@,
            ),
        }),
        command::understood(command::cli(), line, Ok(m)) && asked_for(
            action,
            m.endpoint@,
            m.setting@,
        ) ==> is_outcome(line, Ok(action)),
{
}

/// What is refused of a line is the outcome of the line.
pub proof fn lemma_refused(line: Line, e: CliError)
    ensures
        command::understood(command::cli(), line, Err(e)) <==> is_outcome(line, Err(e)),
{
}

/// What an error in a location holds, and how it is worded: an unknown protocol by its own name.
pub proof fn lemma_location_error(protocol: String, e: IntError)
    ensures
        LocationError::InvalidUri@ == LocationFault::InvalidUri,
        LocationError::UnknownProtocol(protocol)@ == LocationFault::UnknownProtocol(protocol@),
        LocationError::InvalidPort(e)@ == LocationFault::InvalidPort(e),
        LocationError::InvalidAddress@ == LocationFault::InvalidAddress,
        LocationError::ZeroPort@ == LocationFault::ZeroPort,
{
}

/// The words of a command line are its arguments, each as it stands and in order.
pub proof fn lemma_words(args: Seq<String>)
    ensures
        command::words(args).len() == args.len(),
        forall|i: int| 0 <= i < args.len() ==> #[trigger] command::words(args)[i] == args[i]@,
{
}

/// Where nothing is taken from a command line, the answer goes to stderr exactly where it is a
/// refusal, and its wording is that of clap where the program is named without a backslash, without
/// a colon and without two slashes at the start.
pub proof fn lemma_answer(args: Seq<Seq<char>>, e: CliError)
    requires
        command::is_answer(args, e),
    ensures
        e.use_stderr == command::answer_is_refusal(command::cli(), args),
        args.len() == 0 || (text::lacks(args[0], '\\') && text::lacks(args[0], ':') && !(
        args[0].len() >= 2 && args[0][0] == '/' && args[0][1] == '/')) ==> e.message@
            == command::answer_of(command::cli(), args),
{
}

/// What is taken from a command line: a plain one as it stands, whatever clap makes of others.
pub proof fn lemma_taken(args: Seq<Seq<char>>)
    ensures
        command::plain_line(command::cli(), args) is Some ==> command::taken(command::cli(), args)
            == command::plain_line(command::cli(), args),
        command::plain_line(command::cli(), args) is None ==> command::taken(command::cli(), args)
            == command::line_of(command::cli(), args),
{
}

/// The pieces of the address that `localhost` stands for.
proof fn lemma_loopback()
    ensures
        addr::ipv4("127.0.0.1"@) == Some(seq![127u8, 0, 0, 1]),
{
    reveal_strlit("127.0.0.1");
    let s = "127.0.0.1"@;
    text::lemma_find_is(s, '.', 3);
    let s1 = s.skip(4);
    text::lemma_find_is(s1, '.', 1);
    let s2 = s1.skip(2);
    text::lemma_find_is(s2, '.', 1);
    let s3 = s2.skip(2);
    text::lemma_find_is(s3, '.', 1);
    assert(text::split(s3, '.') =~= seq![s3]);
    assert(text::split(s2, '.') =~= seq![s2.take(1), s3]);
    assert(text::split(s1, '.') =~= seq![s1.take(1), s2.take(1), s3]);
    assert(text::split(s, '.') =~= seq![s.take(3), s1.take(1), s2.take(1), s3]);
    let a = s.take(3);
    assert(text::digits_value(a, 10) == 127) by {
        let b = a.drop_last();
        let c = b.drop_last();
        assert(c.drop_last() =~= Seq::<char>::empty());
        assert(text::digits_value(c.drop_last(), 10) == 0);
        assert(text::digits_value(c, 10) == 1);
        assert(text::digits_value(b, 10) == 12);
    }
    assert forall|t: Seq<char>| t.len() == 1 implies #[trigger] text::digits_value(t, 10)
        == text::digit_value(t[0]) by {
        assert(t.drop_last() =~= Seq::<char>::empty());
        assert(text::digits_value(t.drop_last(), 10) == 0);
    }
    assert(addr::is_octet(a));
    assert(addr::is_octet(s1.take(1)));
    assert(addr::is_octet(s2.take(1)));
    assert(addr::is_octet(s3));
    assert(addr::ipv4(s).unwrap() =~= seq![127u8, 0, 0, 1]);
}

/// With a port in digits, `localhost` stands for 127.0.0.1: both are the same address, or no
/// address.
pub proof fn lemma_localhost(port: Seq<char>)
    requires
        text::all_digits(port, 10),
    ensures
        match named_socket_addr("127.0.0.1:"@ + port) {
            Ok(a) => named_socket_addr("localhost:"@ + port) == Ok::<Address, LocationFault>(a),
            Err(_) => named_socket_addr("localhost:"@ + port) is Err,
        },
{
    reveal_strlit("127.0.0.1:");
    reveal_strlit("127.0.0.1");
    reveal_strlit("localhost:");
    let s = "127.0.0.1:"@ + port;
    let t = "localhost:"@ + port;
    assert(t.take(10) =~= "localhost:"@);
    assert(t.skip(10) =~= port);
    assert(s.take(10)[0] == '1');
    assert(s.take(10) != "localhost:"@);
    text::lemma_find_is(s, ':', 9);
    assert(s.take(9) =~= "127.0.0.1"@);
    assert(s.skip(10) =~= port);
    lemma_loopback();
    text::lemma_leading_digits(port);
    assert(port.take(port.len() as int) =~= port);
    if port.len() > 0 {
        assert(text::digit_value(port[0]) < 10);
    }
}

} // verus!
