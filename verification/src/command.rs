//! The command line as clap sees it.

use vstd::prelude::*;
use vstd::string::*;

use crate::addr::Address;
use crate::addr::SocketAddr;
use crate::cli_args;
use crate::cli_args::ClapLocation;
use crate::cli_args::ServerConnTimeout;
use crate::duration::Duration;
use crate::text;

verus! {

/// What the option of a command sets.
#[derive(Debug, Clone, Copy, PartialEq, Eq, Structural)]
pub enum SettingKind {
    /// The number of connections of a client.
    Connections,
    /// The timeout of a server.
    Timeout,
}

/// What the option of a command is set to.
#[derive(Debug, Clone, Copy, PartialEq, Eq)]
pub enum Setting {
    Connections(u32),
    Timeout(Duration),
}

/// What a setting holds: a number of connections, or nanoseconds.
pub enum SettingValue {
    Connections(nat),
    Timeout(nat),
}

impl View for Setting {
    type V = SettingValue;

    open spec fn view(&self) -> SettingValue {
        match *self {
            Setting::Connections(n) => SettingValue::Connections(n as nat),
            Setting::Timeout(d) => SettingValue::Timeout(d@),
        }
    }
}

/// The address that the text of an argument has, or the wording of what is wrong with it.
pub open spec fn endpoint_value(s: Seq<char>) -> Result<Address, Seq<char>> {
    match cli_args::location(s) {
        Ok(a) => Ok(a),
        Err(fault) => Err(cli_args::location_fault_text(fault)),
    }
}

/// The setting that the text of an option has, or the wording of what is wrong with it.
pub open spec fn setting_value(kind: SettingKind, s: Seq<char>) -> Result<SettingValue, Seq<char>> {
    match kind {
        SettingKind::Connections => match cli_args::connections(s) {
            Ok(n) => Ok(SettingValue::Connections(n)),
            Err(e) => Err(cli_args::connections_error_text(e)),
        },
        SettingKind::Timeout => match cli_args::timeout(s) {
            Ok(nanos) => Ok(SettingValue::Timeout(nanos)),
            Err(e) => Err(cli_args::timeout_error_text(e)),
        },
    }
}

/// The address that the text of an argument has, or the wording of what is wrong with it.
pub fn parse_endpoint(s: &str) -> (r: Result<SocketAddr, String>)
    ensures
        match endpoint_value(s@) {
            Ok(a) => r matches Ok(found) && found@ == a,
            Err(message) => r matches Err(found) && found@ == message,
        },
{
    match ClapLocation::from_str(s) {
        Ok(ClapLocation::Tcp(found)) => Ok(found),
        Err(e) => Err(e.message()),
    }
}

/// The setting that the text of an option has, or the wording of what is wrong with it.
pub fn parse_setting(kind: SettingKind, s: &str) -> (r: Result<Setting, String>)
    ensures
        match setting_value(kind, s@) {
            Ok(v) => r matches Ok(found) && found@ == v,
            Err(message) => r matches Err(found) && found@ == message,
        },
{
    match kind {
        SettingKind::Connections => match cli_args::parse_connections(s) {
            Ok(n) => Ok(Setting::Connections(n)),
            Err(e) => Err(String::from_str(e.message())),
        },
        SettingKind::Timeout => match ServerConnTimeout::from_str(s) {
            Ok(found) => Ok(Setting::Timeout(found.0)),
            Err(e) => Err(String::from_str(e.message())),
        },
    }
}

/// An argument of a command.
#[verifier::external_type_specification]
#[verifier::external_body]
pub struct ExArg(clap::Arg);

/// A command with its arguments and subcommands.
#[verifier::external_type_specification]
#[verifier::external_body]
pub struct ExCommand(clap::Command);

/// What an argument that writes a location was made with.
pub struct EndpointText {
    pub id: Seq<char>,
    pub value_name: Seq<char>,
    pub help: Seq<char>,
    pub long_help: Seq<char>,
    /// Whether it has to be there.
    pub required: bool,
}

/// What an option with a default was made with.
pub struct SettingText {
    pub id: Seq<char>,
    pub short: char,
    pub long: Seq<char>,
    pub value_name: Seq<char>,
    pub help: Seq<char>,
    pub long_help: Seq<char>,
    pub default: Seq<char>,
    pub kind: SettingKind,
}

/// What a group of arguments was made with.
pub struct GroupText {
    pub id: Seq<char>,
    /// Whether more than one of the arguments may be there.
    pub multiple: bool,
    /// The ids of the arguments.
    pub members: Seq<Seq<char>>,
}

/// What a subcommand was made with.
pub struct SubcommandText {
    pub name: Seq<char>,
    pub about: Seq<char>,
    pub long_about: Seq<char>,
    pub group: GroupText,
    pub endpoint: EndpointText,
    pub setting: SettingText,
}

/// What a command with two subcommands was made with.
pub struct CommandText {
    pub name: Seq<char>,
    pub version: Seq<char>,
    pub about: Seq<char>,
    /// Whether one of the subcommands has to be there.
    pub subcommand_required: bool,
    /// Whether help is given where there are no arguments.
    pub arg_required_else_help: bool,
    pub first: SubcommandText,
    pub second: SubcommandText,
}

/// What an argument holds that was made by `endpoint_arg`.
pub uninterp spec fn endpoint_text(arg: clap::Arg) -> EndpointText;

/// What an argument holds that was made by `setting_arg`.
pub uninterp spec fn setting_text(arg: clap::Arg) -> SettingText;

/// What a command holds that was made by `subcommand`.
pub uninterp spec fn subcommand_text(command: clap::Command) -> SubcommandText;

/// What a command holds that was made by `root_command`.
pub uninterp spec fn command_text(command: clap::Command) -> CommandText;

/// `clap::Arg::new` and the methods of `clap::Arg` that set what is given: the argument holds it.
///
/// Its text is parsed by `parse_endpoint`.
#[verifier::external_body]
fn endpoint_arg(
    id: &'static str,
    value_name: &'static str,
    help: &'static str,
    long_help: &'static str,
    required: bool,
) -> (arg: clap::Arg)
    ensures
        endpoint_text(arg) == (EndpointText {
            id: id@,
            value_name: value_name@,
            help: help@,
            long_help: long_help@,
            required,
        }),
{
    clap::Arg::new(id).value_name(value_name).help(help).long_help(long_help).required(required)
        .value_parser(|s: &str| parse_endpoint(s))
}

/// `clap::Arg::new` and the methods of `clap::Arg` that set what is given: the argument holds it.
///
/// Its text is parsed by `parse_setting`. A hyphen is no short name for clap.
#[verifier::external_body]
fn setting_arg(
    id: &'static str,
    short: char,
    long: &'static str,
    value_name: &'static str,
    help: &'static str,
    long_help: &'static str,
    default: &'static str,
    kind: SettingKind,
) -> (arg: clap::Arg)
    requires
        short != '-',
    ensures
        setting_text(arg) == (SettingText {
            id: id@,
            short,
            long: long@,
            value_name: value_name@,
            help: help@,
            long_help: long_help@,
            default: default@,
            kind,
        }),
{
    clap::Arg::new(id).short(short).long(long).value_name(value_name).help(help)
        .long_help(long_help).default_value(default)
        .value_parser(move |s: &str| parse_setting(kind, s))
}

/// `clap::Command::new`, `clap::ArgGroup::new` and the methods of both that set what is given: the
/// command holds it, with a group of the two arguments that have the ids.
#[verifier::external_body]
fn subcommand(
    name: &'static str,
    about: &'static str,
    long_about: &'static str,
    group: &'static str,
    multiple: bool,
    endpoint_id: &'static str,
    setting_id: &'static str,
    endpoint: clap::Arg,
    setting: clap::Arg,
) -> (command: clap::Command)
    ensures
        subcommand_text(command) == (SubcommandText {
            name: name@,
            about: about@,
            long_about: long_about@,
            group: GroupText { id: group@, multiple, members: seq![endpoint_id@, setting_id@] },
            endpoint: endpoint_text(endpoint),
            setting: setting_text(setting),
        }),
{
    let group = clap::ArgGroup::new(group).multiple(multiple).args([endpoint_id, setting_id]);
    clap::Command::new(name).group(group).arg(endpoint).arg(setting).about(about)
        .long_about(long_about)
}

/// `clap::Command::new` and the methods of `clap::Command` that set what is given: the command
/// holds it.
#[verifier::external_body]
fn root_command(
    name: &'static str,
    version: &'static str,
    about: &'static str,
    subcommand_required: bool,
    arg_required_else_help: bool,
    first: clap::Command,
    second: clap::Command,
) -> (command: clap::Command)
    ensures
        command_text(command) == (CommandText {
            name: name@,
            version: version@,
            about: about@,
            subcommand_required,
            arg_required_else_help,
            first: subcommand_text(first),
            second: subcommand_text(second),
        }),
{
    clap::Command::new(name).version(version).about(about).subcommand_required(subcommand_required)
        .arg_required_else_help(arg_required_else_help).subcommand(first).subcommand(second)
}

/// The command line of the program.
pub open spec fn cli() -> CommandText {
    CommandText {
        name: NAME@,
        version: VERSION@,
        about: ABOUT@,
        subcommand_required: true,
        arg_required_else_help: true,
        first: SubcommandText {
            name: CLIENT@,
            about: CLIENT_ABOUT@,
            long_about: CLIENT_LONG_ABOUT@,
            group: GroupText {
                id: CLIENT_GROUP@,
                multiple: true,
                members: seq![ENDPOINT_ID@, SETTING_ID@],
            },
            endpoint: EndpointText {
                id: ENDPOINT_ID@,
                value_name: TARGET@,
                help: TARGET_HELP@,
                long_help: TARGET_LONG_HELP@,
                required: true,
            },
            setting: SettingText {
                id: SETTING_ID@,
                short: 'c',
                long: CONCURRENCY_LONG@,
                value_name: CONCURRENCY@,
                help: CONCURRENCY_HELP@,
                long_help: CONCURRENCY_LONG_HELP@,
                default: DEFAULT@,
                kind: SettingKind::Connections,
            },
        },
        second: SubcommandText {
            name: SERVER@,
            about: SERVER_ABOUT@,
            long_about: SERVER_LONG_ABOUT@,
            group: GroupText {
                id: SERVER_GROUP@,
                multiple: true,
                members: seq![ENDPOINT_ID@, SETTING_ID@],
            },
            endpoint: EndpointText {
                id: ENDPOINT_ID@,
                value_name: LOCATION@,
                help: LOCATION_HELP@,
                long_help: LOCATION_LONG_HELP@,
                required: true,
            },
            setting: SettingText {
                id: SETTING_ID@,
                short: 't',
                long: TIMEOUT_LONG@,
                value_name: TIMEOUT@,
                help: TIMEOUT_HELP@,
                long_help: TIMEOUT_LONG_HELP@,
                default: DEFAULT@,
                kind: SettingKind::Timeout,
            },
        },
    }
}

pub const NAME: &'static str = "loadtest";

pub const VERSION: &'static str = "0.1.0";

pub const ABOUT: &'static str = "A simple load tester utility.";

pub const ENDPOINT_ID: &'static str = "endpoint";

pub const SETTING_ID: &'static str = "setting";

pub const DEFAULT: &'static str = "1";

pub const CLIENT: &'static str = "client";

pub const CLIENT_ABOUT: &'static str = "Start a load testing client";

pub const CLIENT_LONG_ABOUT: &'static str = "Start a load testing client.\n\nFor TCP connections, connections are opened \
    continuously to a specified target, and each connection is continuously sending zero \
    bytes to the specified server.";

pub const CLIENT_GROUP: &'static str = "ClapClient";

pub const TARGET: &'static str = "TARGET";

pub const TARGET_HELP: &'static str = "The target to connect to";

pub const TARGET_LONG_HELP: &'static str = "The target to connect to.\n\nThe format is `tcp://<ipaddr>:<port>`, where `<ipaddr>` is \
    either `localhost` or an IP address, and `<port>` is a port number. The IP address can \
    be any valid IPv4 or IPv6 address, but `<port>` must be non-zero.";

pub const CONCURRENCY_LONG: &'static str = "concurrency";

pub const CONCURRENCY: &'static str = "CONCURRENCY";

pub const CONCURRENCY_HELP: &'static str = "The number of concurrent tasks";

pub const CONCURRENCY_LONG_HELP: &'static str = "The number of concurrent tasks.\n\nExactly one connection is made per task for TCP, \
    though tasks may not correlate to actual threads or processes. Note that system and \
    protocol limitations do apply - you can't use this to generate, say, a million \
    connections to a server from a single client.";

pub const SERVER: &'static str = "server";

pub const SERVER_ABOUT: &'static str = "Start a load testing server";

pub const SERVER_LONG_ABOUT: &'static str = "Start a load testing server.\n\nFor TCP servers, connections are continuously accepted \
    and their data read but dropped.";

pub const SERVER_GROUP: &'static str = "ClapServer";

pub const LOCATION: &'static str = "LOCATION";

pub const LOCATION_HELP: &'static str = "The address and port to listen on";

pub const LOCATION_LONG_HELP: &'static str = "The address and port to listen on.\n\nThe format is `tcp://<ipaddr>:<port>`, where \
    `<ipaddr>` is either `localhost` or an IP address, and `<port>` is a port number. The \
    IP address can be any valid IPv4 or IPv6 address, but `<port>` must be non-zero.";

pub const TIMEOUT_LONG: &'static str = "connection-timeout";

pub const TIMEOUT: &'static str = "CONNECTION_TIMEOUT";

pub const TIMEOUT_HELP: &'static str = "The no-data timeout in seconds";

pub const TIMEOUT_LONG_HELP: &'static str = "The no-data timeout in seconds.\n\nDecimals are accepted.";

/// The command line of the program.
pub fn command() -> (command: clap::Command)
    ensures
        command_text(command) == cli(),
{
    let target = endpoint_arg(ENDPOINT_ID, TARGET, TARGET_HELP, TARGET_LONG_HELP, true);
    let concurrency = setting_arg(
        SETTING_ID,
        'c',
        CONCURRENCY_LONG,
        CONCURRENCY,
        CONCURRENCY_HELP,
        CONCURRENCY_LONG_HELP,
        DEFAULT,
        SettingKind::Connections,
    );
    let client = subcommand(
        CLIENT,
        CLIENT_ABOUT,
        CLIENT_LONG_ABOUT,
        CLIENT_GROUP,
        true,
        ENDPOINT_ID,
        SETTING_ID,
        target,
        concurrency,
    );
    let location = endpoint_arg(ENDPOINT_ID, LOCATION, LOCATION_HELP, LOCATION_LONG_HELP, true);
    let connection_timeout = setting_arg(
        SETTING_ID,
        't',
        TIMEOUT_LONG,
        TIMEOUT,
        TIMEOUT_HELP,
        TIMEOUT_LONG_HELP,
        DEFAULT,
        SettingKind::Timeout,
    );
    let server = subcommand(
        SERVER,
        SERVER_ABOUT,
        SERVER_LONG_ABOUT,
        SERVER_GROUP,
        true,
        ENDPOINT_ID,
        SETTING_ID,
        location,
        connection_timeout,
    );
    root_command(NAME, VERSION, ABOUT, true, true, client, server)
}

/// What the command line was understood as.
#[derive(Debug, Clone, Copy)]
pub struct Matched {
    pub endpoint: SocketAddr,
    pub setting: Setting,
}

/// Why a command line was refused, or the help that it asked for.
#[derive(Debug)]
pub struct CliError {
    pub message: String,
    /// Whether the message is for stderr and the program fails; else it is for stdout.
    pub use_stderr: bool,
}

/// The words of a command line.
pub open spec fn words(args: Seq<String>) -> Seq<Seq<char>> {
    args.map_values(|arg: String| arg@)
}

/// What a command line says.
#[verifier::ext_equal]
pub struct Line {
    /// Whether the subcommand is the first one of the command.
    pub first: bool,
    /// The text of the endpoint.
    pub endpoint: Seq<char>,
    /// The text of the setting.
    pub setting: Seq<char>,
    /// Whether the setting is read before the endpoint.
    pub setting_first: bool,
}

/// What clap takes from a command line, whatever the values in it are. There is nothing where
/// clap refuses the command line, or gives help. For the plain ones see `plain_line`.
pub uninterp spec fn line_of(command: CommandText, args: Seq<Seq<char>>) -> Option<Line>;

/// What clap writes where it takes nothing from a command line: a refusal, help or the version.
pub uninterp spec fn answer_of(command: CommandText, args: Seq<Seq<char>>) -> Seq<char>;

/// Whether clap refuses a command line that it takes nothing from, and does not give the help or
/// the version that the command line asks for.
pub uninterp spec fn answer_is_refusal(command: CommandText, args: Seq<Seq<char>>) -> bool;

/// Whether every machine finds the same file name in a path: its separators are slashes, and it
/// starts with no drive and with no name of a server.
pub open spec fn is_portable(path: Seq<char>) -> bool {
    &&& forall|i: int| 0 <= i < path.len() ==> #[trigger] path[i] != '\\' && path[i] != ':'
    &&& path.len() < 2 || path[0] != '/' || path[1] != '/'
}

/// Whether every machine finds the same name of the program in the words of a command line.
pub open spec fn is_named_portably(args: Seq<Seq<char>>) -> bool {
    args.len() == 0 || is_portable(args[0])
}

/// Whether a word is a value, and no option.
pub open spec fn is_plain(word: Seq<char>) -> bool {
    word.len() == 0 || word[0] != '-'
}

/// Whether a word names the option of a setting: `-c` or `--concurrency`.
pub open spec fn is_option(setting: SettingText, word: Seq<char>) -> bool {
    word == seq!['-', setting.short] || word == seq!['-', '-'] + setting.long
}

/// The value that a word gives to the option of a setting: `--concurrency=1`, `-c=1` or `-c1`.
pub open spec fn attached_value(setting: SettingText, word: Seq<char>) -> Option<Seq<char>> {
    let long = seq!['-', '-'] + setting.long + seq!['='];
    if text::starts_with(word, long) {
        Some(word.skip(long.len() as int))
    } else if text::starts_with(word, seq!['-', setting.short, '=']) {
        Some(word.skip(3))
    } else if text::starts_with(word, seq!['-', setting.short]) && word.len() > 2 {
        Some(word.skip(2))
    } else {
        None
    }
}

/// Whether words give a value to the option of a setting, in one word or in two.
pub open spec fn gives(setting: SettingText, option: Seq<Seq<char>>, value: Seq<char>) -> bool {
    ||| option.len() == 1 && attached_value(setting, option[0]) == Some(value)
    ||| option.len() == 2 && is_option(setting, option[0]) && is_plain(option[1]) && option[1]
        == value
}

/// What the plain command lines say: the name of the program, a subcommand, its endpoint and,
/// where it is there, the option for its setting, before the endpoint or behind it.
pub open spec fn plain_line(command: CommandText, args: Seq<Seq<char>>) -> Option<Line> {
    if args.len() >= 3 && (args[1] == command.first.name || args[1] == command.second.name) {
        let first = args[1] == command.first.name;
        let setting = if first {
            command.first.setting
        } else {
            command.second.setting
        };
        let rest = args.skip(2);
        if is_plain(rest[0]) {
            let option = rest.skip(1);
            if option.len() == 0 {
                let line = Line {
                    first,
                    endpoint: rest[0],
                    setting: setting.default,
                    setting_first: false,
                };
                Some(line)
            } else if gives(setting, option, option_value(setting, option)) {
                let line = Line {
                    first,
                    endpoint: rest[0],
                    setting: option_value(setting, option),
                    setting_first: false,
                };
                Some(line)
            } else {
                None
            }
        } else {
            let option = rest.drop_last();
            if is_plain(rest.last()) && gives(setting, option, option_value(setting, option)) {
                let line = Line {
                    first,
                    endpoint: rest.last(),
                    setting: option_value(setting, option),
                    setting_first: true,
                };
                Some(line)
            } else {
                None
            }
        }
    } else {
        None
    }
}

/// The value that words give to the option of a setting, where they give one.
pub open spec fn option_value(setting: SettingText, option: Seq<Seq<char>>) -> Seq<char> {
    if option.len() == 1 {
        attached_value(setting, option[0]).unwrap()
    } else {
        option[1]
    }
}

/// What is taken from a command line: a plain one as it stands, and any other one as clap has it.
pub open spec fn taken(command: CommandText, args: Seq<Seq<char>>) -> Option<Line> {
    match plain_line(command, args) {
        Some(line) => Some(line),
        None => line_of(command, args),
    }
}

/// The subcommand that a line is for.
pub open spec fn line_subcommand(command: CommandText, line: Line) -> SubcommandText {
    if line.first {
        command.first
    } else {
        command.second
    }
}

/// The wording of the refusal of a value.
pub open spec fn refusal_text(value: Seq<char>, arg: Seq<char>, reason: Seq<char>) -> Seq<char> {
    "error: Invalid value '"@ + value + "' for '"@ + arg + "': "@ + reason
        + "\n\nFor more information try '--help'\n"@
}

/// The values of a line, or the refusal of the first that is not right.
pub open spec fn line_values(command: CommandText, line: Line) -> Result<
    (Address, SettingValue),
    Seq<char>,
> {
    let sub = line_subcommand(command, line);
    let endpoint_name = "<"@ + sub.endpoint.value_name + ">"@;
    let setting_name = "--"@ + sub.setting.long + " <"@ + sub.setting.value_name + ">"@;
    match (endpoint_value(line.endpoint), setting_value(sub.setting.kind, line.setting)) {
        (Ok(endpoint), Ok(setting)) => Ok((endpoint, setting)),
        (Err(reason), Ok(_)) => Err(refusal_text(line.endpoint, endpoint_name, reason)),
        (Ok(_), Err(reason)) => Err(refusal_text(line.setting, setting_name, reason)),
        (Err(reason), Err(other)) => if line.setting_first {
            Err(refusal_text(line.setting, setting_name, other))
        } else {
            Err(refusal_text(line.endpoint, endpoint_name, reason))
        },
    }
}

/// Whether a line was understood: its values are there where both are right, and else the first
/// that is not right is refused.
pub open spec fn understood(
    command: CommandText,
    line: Line,
    r: Result<Matched, CliError>,
) -> bool {
    match line_values(command, line) {
        Ok((endpoint, setting)) => r matches Ok(m) && m.endpoint@ == endpoint && m.setting@
            == setting,
        Err(message) => r matches Err(e) && e.message@ == message && e.use_stderr,
    }
}

/// Whether an error is the answer to a command line that nothing is taken from.
pub open spec fn is_answer(args: Seq<Seq<char>>, e: CliError) -> bool {
    &&& e.use_stderr == answer_is_refusal(cli(), args)
    &&& is_named_portably(args) ==> e.message@ == answer_of(cli(), args)
}

/// `clap::Command::try_get_matches_from`, with `clap::ArgMatches::get_one` for the two values of
/// the subcommand that was found, and `clap::error::Error::render` and `use_stderr` for a refusal.
///
/// The values are parsed by `parse_endpoint` and `parse_setting`, in the order in which they
/// stand in the command line and the default last; the first that is refused is named in the
/// refusal with its reason, for stderr. The plain command lines are understood as they stand. Any other
/// answer is a function of the command and the words, as far as the machine does not decide on
/// the name under which the program was called: that is the file name of the first word. Nothing
/// is said of the wording of such an answer where the rules that machines have for paths differ
/// on that name.
#[verifier::external_body]
fn matched(
    command: clap::Command,
    args: Vec<String>,
    endpoint_id: &'static str,
    setting_id: &'static str,
) -> (r: Result<Matched, CliError>)
    requires
        command_text(command) == cli(),
        endpoint_id@ == cli().first.endpoint.id,
        endpoint_id@ == cli().second.endpoint.id,
        setting_id@ == cli().first.setting.id,
        setting_id@ == cli().second.setting.id,
    ensures
        match plain_line(command_text(command), words(args@)) {
            Some(line) => understood(command_text(command), line, r),
            None => match line_of(command_text(command), words(args@)) {
                Some(line) => understood(command_text(command), line, r),
                None => r matches Err(e) && e.use_stderr == answer_is_refusal(
                    command_text(command),
                    words(args@),
                ) && (is_named_portably(words(args@)) ==> e.message@ == answer_of(
                    command_text(command),
                    words(args@),
                )),
            },
        },
{
    match command.try_get_matches_from(args) {
        Ok(matches) => {
            let sub = matches.subcommand().unwrap().1;
            let endpoint = *sub.get_one::<SocketAddr>(endpoint_id).unwrap();
            let setting = *sub.get_one::<Setting>(setting_id).unwrap();
            Ok(Matched { endpoint, setting })
        },
        Err(e) => Err(
            CliError { message: e.render().to_string(), use_stderr: e.use_stderr() },
        ),
    }
}

/// What a command line is understood as.
pub fn parse_line(args: Vec<String>) -> (r: Result<Matched, CliError>)
    ensures
        match taken(cli(), words(args@)) {
            Some(line) => understood(cli(), line, r),
            None => r matches Err(e) && is_answer(words(args@), e),
        },
{
    matched(command(), args, ENDPOINT_ID, SETTING_ID)
}

} // verus!
