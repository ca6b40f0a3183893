use loadtest::addr::SocketAddr;
use loadtest::cli_args::{parse_cli_clap, CliAction, TcpClientOptions, TcpServerOptions};
use loadtest::command::command;
use loadtest::duration::Duration;

#[test]
fn cli_is_set_up_correctly() {
    command().debug_assert();
}

fn s(v: &str) -> String {
    String::from(v)
}

fn v4(octets: [u8; 4], port: u16) -> SocketAddr {
    SocketAddr::V4 { octets, port }
}

fn v6(segments: [u16; 8], port: u16) -> SocketAddr {
    SocketAddr::V6 {
        segments,
        scope_id: 0,
        port,
    }
}

fn words(args: &str) -> Vec<String> {
    ["loadtest"]
        .iter()
        .cloned()
        .chain(args.split(' '))
        .map(s)
        .collect()
}

fn expect_result(args: &str, result: CliAction) {
    let value = parse_cli_clap(words(args)).map_err(|e| e.message).unwrap();
    assert_eq!(value, result);
}

fn expect_raw_error(args: &str, lines: &[&str]) {
    let e = parse_cli_clap(words(args)).unwrap_err();
    let mut expected = String::new();
    for line in lines {
        expected.push_str(line);
        expected.push('\n');
    }
    assert_eq!(e.message, expected);
}

fn expect_error(args: &str, lines: &[&str]) {
    let mut all = lines.to_vec();
    all.push("");
    all.push("For more information try '--help'");
    expect_raw_error(args, &all);
}

#[test]
fn parses_no_args() {
    let e = parse_cli_clap(vec![s("loadtest")]).unwrap_err();
    assert_eq!(
        e.message,
        [
            "A simple load tester utility.\n",
            "\n",
            "Usage: loadtest <COMMAND>\n",
            "\n",
            "Commands:\n",
            "  client  Start a load testing client\n",
            "  server  Start a load testing server\n",
            "  help    Print this message or the help of the given subcommand(s)\n",
            "\n",
            "Options:\n",
            "  -h, --help     Print help information\n",
            "  -V, --version  Print version information\n",
        ]
        .concat()
    );
}

#[test]
fn parses_help_summary() {
    expect_raw_error(
        "-h",
        &[
            "A simple load tester utility.",
            "",
            "Usage: loadtest <COMMAND>",
            "",
            "Commands:",
            "  client  Start a load testing client",
            "  server  Start a load testing server",
            "  help    Print this message or the help of the given subcommand(s)",
            "",
            "Options:",
            "  -h, --help     Print help information",
            "  -V, --version  Print version information",
        ],
    );
}

#[test]
fn parses_client_help_summary() {
    expect_raw_error(
        "client -h",
        &[
            "Start a load testing client",
            "",
            "Usage: loadtest client [OPTIONS] <TARGET>",
            "",
            "Arguments:",
            "  <TARGET>  The target to connect to",
            "",
            "Options:",
            "  -c, --concurrency <CONCURRENCY>  The number of concurrent tasks [default: 1]",
            "  -h, --help                       Print help information (use `--help` for more detail)",
        ],
    );
}

#[test]
fn parses_server_help_summary() {
    expect_raw_error(
        "server -h",
        &[
            "Start a load testing server",
            "",
            "Usage: loadtest server [OPTIONS] <LOCATION>",
            "",
            "Arguments:",
            "  <LOCATION>  The address and port to listen on",
            "",
            "Options:",
            "  -t, --connection-timeout <CONNECTION_TIMEOUT>",
            "          The no-data timeout in seconds [default: 1]",
            "  -h, --help",
            "          Print help information (use `--help` for more detail)",
        ],
    );
}

#[test]
fn parses_bad_subcommand() {
    expect_error(
        "what",
        &[
            "error: The subcommand 'what' wasn't recognized",
            "",
            "Usage: loadtest <COMMAND>",
        ],
    );
}

#[test]
fn parses_client_no_target() {
    expect_error(
        "client",
        &[
            "error: The following required arguments were not provided:",
            "  <TARGET>",
            "",
            "Usage: loadtest client <TARGET>",
        ],
    );
}

#[test]
fn parses_client_invalid_target_no_conns() {
    expect_error(
        "client 123",
        &[
            "error: Invalid value '123' for '<TARGET>': invalid URI",
        ],
    );
}

#[test]
fn parses_client_invalid_target_with_extra() {
    expect_error(
        "client 123 456",
        &[
            "error: Found argument '456' which wasn't expected, or isn't valid in this context",
            "",
            "Usage: loadtest client [OPTIONS] <TARGET>",
        ],
    );
}

#[test]
fn parses_client_invalid_target_with_conns() {
    expect_error(
        "client 123 -c 456",
        &[
            "error: Invalid value '123' for '<TARGET>': invalid URI",
        ],
    );
}

#[test]
fn parses_client_unknown_protocol_no_conns() {
    expect_error(
        "client wss://123",
        &[
            "error: Invalid value 'wss://123' for '<TARGET>': unknown protocol 'wss:'",
        ],
    );
}

#[test]
fn parses_client_unknown_protocol_with_extra() {
    expect_error(
        "client wss://123 456",
        &[
            "error: Found argument '456' which wasn't expected, or isn't valid in this context",
            "",
            "Usage: loadtest client [OPTIONS] <TARGET>",
        ],
    );
}

#[test]
fn parses_client_unknown_protocol_with_zero_conns() {
    expect_error(
        "client wss://123 -c 0",
        &[
            "error: Invalid value 'wss://123' for '<TARGET>': unknown protocol 'wss:'",
        ],
    );
}

#[test]
fn parses_client_udp_protocol_no_conns() {
    expect_error(
        "client udp://123",
        &[
            "error: Invalid value 'udp://123' for '<TARGET>': unknown protocol 'udp:'",
        ],
    );
}

#[test]
fn parses_client_udp_protocol_with_extra() {
    expect_error(
        "client udp://123 456",
        &[
            "error: Found argument '456' which wasn't expected, or isn't valid in this context",
            "",
            "Usage: loadtest client [OPTIONS] <TARGET>",
        ],
    );
}

#[test]
fn parses_client_udp_protocol_with_zero_conns() {
    expect_error(
        "client udp://123 -c 0",
        &[
            "error: Invalid value 'udp://123' for '<TARGET>': unknown protocol 'udp:'",
        ],
    );
}

#[test]
fn parses_client_invalid_ip_no_conns() {
    expect_error(
        "client tcp://123",
        &[
            "error: Invalid value 'tcp://123' for '<TARGET>': invalid socket address syntax",
        ],
    );
}

#[test]
fn parses_client_invalid_ip_with_extra() {
    expect_error(
        "client tcp://123 456",
        &[
            "error: Found argument '456' which wasn't expected, or isn't valid in this context",
            "",
            "Usage: loadtest client [OPTIONS] <TARGET>",
        ],
    );
}

#[test]
fn parses_client_invalid_ip_with_zero_conns() {
    expect_error(
        "client tcp://123 -c 0",
        &[
            "error: Invalid value 'tcp://123' for '<TARGET>': invalid socket address syntax",
        ],
    );
}

#[test]
fn parses_client_invalid_ip_with_conns() {
    expect_error(
        "client tcp://123 -c 456",
        &[
            "error: Invalid value 'tcp://123' for '<TARGET>': invalid socket address syntax",
        ],
    );
}

#[test]
fn parses_client_ipv4_target_without_port_no_conns() {
    expect_error(
        "client tcp://1.2.3.4",
        &[
            "error: Invalid value 'tcp://1.2.3.4' for '<TARGET>': invalid socket address syntax",
        ],
    );
}

#[test]
fn parses_client_ipv4_target_without_port_with_extra() {
    expect_error(
        "client tcp://1.2.3.4 456",
        &[
            "error: Found argument '456' which wasn't expected, or isn't valid in this context",
            "",
            "Usage: loadtest client [OPTIONS] <TARGET>",
        ],
    );
}

#[test]
fn parses_client_ipv4_target_without_port_with_conns() {
    expect_error(
        "client tcp://1.2.3.4 -c 456",
        &[
            "error: Invalid value 'tcp://1.2.3.4' for '<TARGET>': invalid socket address syntax",
        ],
    );
}

#[test]
fn parses_client_ipv4_target_without_port_with_zero_conns() {
    expect_error(
        "client tcp://1.2.3.4 -c 0",
        &[
            "error: Invalid value 'tcp://1.2.3.4' for '<TARGET>': invalid socket address syntax",
        ],
    );
}

#[test]
fn parses_client_ipv4_localhost_without_port_no_conns() {
    expect_error(
        "client tcp://localhost",
        &[
            "error: Invalid value 'tcp://localhost' for '<TARGET>': invalid socket address syntax",
        ],
    );
}

#[test]
fn parses_client_ipv4_localhost_without_port_with_extra() {
    expect_error(
        "client tcp://localhost 456",
        &[
            "error: Found argument '456' which wasn't expected, or isn't valid in this context",
            "",
            "Usage: loadtest client [OPTIONS] <TARGET>",
        ],
    );
}

#[test]
fn parses_client_ipv4_localhost_without_port_with_conns() {
    expect_error(
        "client tcp://localhost -c 456",
        &[
            "error: Invalid value 'tcp://localhost' for '<TARGET>': invalid socket address syntax",
        ],
    );
}

#[test]
fn parses_client_ipv4_localhost_without_port_with_zero_conns() {
    expect_error(
        "client tcp://localhost -c 0",
        &[
            "error: Invalid value 'tcp://localhost' for '<TARGET>': invalid socket address syntax",
        ],
    );
}

#[test]
fn parses_client_ipv6_target_without_port_no_conns() {
    expect_error(
        "client tcp://[1234::5678]",
        &[
            "error: Invalid value 'tcp://[1234::5678]' for '<TARGET>': invalid socket address syntax",
        ],
    );
}

#[test]
fn parses_client_ipv6_target_without_port_with_extra() {
    expect_error(
        "client tcp://[1234::5678] 456",
        &[
            "error: Found argument '456' which wasn't expected, or isn't valid in this context",
            "",
            "Usage: loadtest client [OPTIONS] <TARGET>",
        ],
    );
}

#[test]
fn parses_client_ipv6_target_without_port_with_conns() {
    expect_error(
        "client tcp://[1234::5678] -c 456",
        &[
            "error: Invalid value 'tcp://[1234::5678]' for '<TARGET>': invalid socket address syntax",
        ],
    );
}

#[test]
fn parses_client_ipv6_target_without_port_with_zero_conns() {
    expect_error(
        "client tcp://[1234::5678] -c 0",
        &[
            "error: Invalid value 'tcp://[1234::5678]' for '<TARGET>': invalid socket address syntax",
        ],
    );
}

#[test]
fn parses_client_ipv4_target_zero_port_no_conns() {
    expect_error(
        "client tcp://1.2.3.4:0",
        &[
            "error: Invalid value 'tcp://1.2.3.4:0' for '<TARGET>': port cannot be zero",
        ],
    );
}

#[test]
fn parses_client_ipv4_target_zero_port_with_extra() {
    expect_error(
        "client tcp://1.2.3.4:0 456",
        &[
            "error: Found argument '456' which wasn't expected, or isn't valid in this context",
            "",
            "Usage: loadtest client [OPTIONS] <TARGET>",
        ],
    );
}

#[test]
fn parses_client_ipv4_target_zero_port_with_conns() {
    expect_error(
        "client tcp://1.2.3.4:0 -c 456",
        &[
            "error: Invalid value 'tcp://1.2.3.4:0' for '<TARGET>': port cannot be zero",
        ],
    );
}

#[test]
fn parses_client_ipv4_target_zero_port_with_zero_conns() {
    expect_error(
        "client tcp://1.2.3.4:0 -c 0",
        &[
            "error: Invalid value 'tcp://1.2.3.4:0' for '<TARGET>': port cannot be zero",
        ],
    );
}

#[test]
fn parses_client_ipv4_localhost_zero_port_no_conns() {
    expect_error(
        "client tcp://localhost:0",
        &[
            "error: Invalid value 'tcp://localhost:0' for '<TARGET>': port cannot be zero",
        ],
    );
}

#[test]
fn parses_client_ipv4_localhost_zero_port_with_extra() {
    expect_error(
        "client tcp://localhost:0 456",
        &[
            "error: Found argument '456' which wasn't expected, or isn't valid in this context",
            "",
            "Usage: loadtest client [OPTIONS] <TARGET>",
        ],
    );
}

#[test]
fn parses_client_ipv4_localhost_zero_port_with_conns() {
    expect_error(
        "client tcp://localhost:0 -c 456",
        &[
            "error: Invalid value 'tcp://localhost:0' for '<TARGET>': port cannot be zero",
        ],
    );
}

#[test]
fn parses_client_ipv4_localhost_zero_port_with_zero_conns() {
    expect_error(
        "client tcp://localhost:0 -c 0",
        &[
            "error: Invalid value 'tcp://localhost:0' for '<TARGET>': port cannot be zero",
        ],
    );
}

#[test]
fn parses_client_ipv6_target_zero_port_no_conns() {
    expect_error(
        "client tcp://[1234::5678]:0",
        &[
            "error: Invalid value 'tcp://[1234::5678]:0' for '<TARGET>': port cannot be zero",
        ],
    );
}

#[test]
fn parses_client_ipv6_target_zero_port_with_extra() {
    expect_error(
        "client tcp://[1234::5678]:0 456",
        &[
            "error: Found argument '456' which wasn't expected, or isn't valid in this context",
            "",
            "Usage: loadtest client [OPTIONS] <TARGET>",
        ],
    );
}

#[test]
fn parses_client_ipv6_target_zero_port_with_conns() {
    expect_error(
        "client tcp://[1234::5678]:0 -c 456",
        &[
            "error: Invalid value 'tcp://[1234::5678]:0' for '<TARGET>': port cannot be zero",
        ],
    );
}

#[test]
fn parses_client_ipv6_target_zero_port_with_zero_conns() {
    expect_error(
        "client tcp://[1234::5678]:0 -c 0",
        &[
            "error: Invalid value 'tcp://[1234::5678]:0' for '<TARGET>': port cannot be zero",
        ],
    );
}

#[test]
fn parses_client_ipv4_target_ok_port_no_conns() {
    expect_result(
        "client tcp://1.2.3.4:9876",
        CliAction::TcpClient(TcpClientOptions {
            target: v4([1, 2, 3, 4], 9876),
            connections: 1,
        }),
    );
}

#[test]
fn parses_client_ipv4_target_ok_port_with_extra() {
    expect_error(
        "client tcp://1.2.3.4:9876 456",
        &[
            "error: Found argument '456' which wasn't expected, or isn't valid in this context",
            "",
            "Usage: loadtest client [OPTIONS] <TARGET>",
        ],
    );
}

#[test]
fn parses_client_ipv4_target_ok_port_with_conns() {
    expect_result(
        "client tcp://1.2.3.4:9876 -c 456",
        CliAction::TcpClient(TcpClientOptions {
            target: v4([1, 2, 3, 4], 9876),
            connections: 456,
        }),
    );
}

#[test]
fn parses_client_ipv4_target_ok_port_with_long_conns_single_arg() {
    expect_result(
        "client tcp://1.2.3.4:9876 --concurrency=456",
        CliAction::TcpClient(TcpClientOptions {
            target: v4([1, 2, 3, 4], 9876),
            connections: 456,
        }),
    );
}

#[test]
fn parses_client_ipv4_target_ok_port_with_long_conns_two_arg() {
    expect_result(
        "client tcp://1.2.3.4:9876 -c 456",
        CliAction::TcpClient(TcpClientOptions {
            target: v4([1, 2, 3, 4], 9876),
            connections: 456,
        }),
    );
}

#[test]
fn parses_client_ipv4_target_ok_port_with_zero_conns() {
    expect_error(
        "client tcp://1.2.3.4:9876 -c 0",
        &[
            "error: Invalid value '0' for '--concurrency <CONCURRENCY>': cannot be zero",
        ],
    );
}

#[test]
fn parses_client_ipv4_target_ok_port_with_zero_decimal_conns() {
    expect_error(
        "client tcp://1.2.3.4:9876 -c 0.0",
        &[
            "error: Invalid value '0.0' for '--concurrency <CONCURRENCY>': invalid digit found in string",
        ],
    );
}

#[test]
fn parses_client_ipv4_target_ok_port_with_non_zero_decimal_conns() {
    expect_error(
        "client tcp://1.2.3.4:9876 -c 0.5",
        &[
            "error: Invalid value '0.5' for '--concurrency <CONCURRENCY>': invalid digit found in string",
        ],
    );
}

#[test]
fn parses_client_ipv4_target_ok_port_with_negative_zero_conns() {
    expect_error(
        "client tcp://1.2.3.4:9876 --concurrency=-0",
        &[
            "error: Invalid value '-0' for '--concurrency <CONCURRENCY>': invalid digit found in string",
        ],
    );
}

#[test]
fn parses_client_ipv4_target_ok_port_with_negative_conns() {
    expect_error(
        "client tcp://1.2.3.4:9876 --concurrency=-1",
        &[
            "error: Invalid value '-1' for '--concurrency <CONCURRENCY>': invalid digit found in string",
        ],
    );
}

#[test]
fn parses_client_ipv4_target_ok_port_with_non_numeric_conns() {
    expect_error(
        "client tcp://1.2.3.4:9876 -c abc",
        &[
            "error: Invalid value 'abc' for '--concurrency <CONCURRENCY>': invalid digit found in string",
        ],
    );
}

#[test]
fn parses_client_ipv4_localhost_ok_port_no_conns() {
    expect_result(
        "client tcp://localhost:9876",
        CliAction::TcpClient(TcpClientOptions {
            target: v4([127, 0, 0, 1], 9876),
            connections: 1,
        }),
    );
}

#[test]
fn parses_client_ipv4_localhost_ok_port_with_extra() {
    expect_error(
        "client tcp://localhost:9876 456",
        &[
            "error: Found argument '456' which wasn't expected, or isn't valid in this context",
            "",
            "Usage: loadtest client [OPTIONS] <TARGET>",
        ],
    );
}

#[test]
fn parses_client_ipv4_localhost_ok_port_with_conns() {
    expect_result(
        "client tcp://localhost:9876 -c 456",
        CliAction::TcpClient(TcpClientOptions {
            target: v4([127, 0, 0, 1], 9876),
            connections: 456,
        }),
    );
}

#[test]
fn parses_client_ipv4_localhost_ok_port_with_zero_conns() {
    expect_error(
        "client tcp://localhost:9876 -c 0",
        &[
            "error: Invalid value '0' for '--concurrency <CONCURRENCY>': cannot be zero",
        ],
    );
}

#[test]
fn parses_client_ipv4_localhost_ok_port_with_zero_decimal_conns() {
    expect_error(
        "client tcp://localhost:9876 -c 0.0",
        &[
            "error: Invalid value '0.0' for '--concurrency <CONCURRENCY>': invalid digit found in string",
        ],
    );
}

#[test]
fn parses_client_ipv4_localhost_ok_port_with_non_zero_decimal_conns() {
    expect_error(
        "client tcp://localhost:9876 -c 0.5",
        &[
            "error: Invalid value '0.5' for '--concurrency <CONCURRENCY>': invalid digit found in string",
        ],
    );
}

#[test]
fn parses_client_ipv4_localhost_ok_port_with_negative_zero_conns() {
    expect_error(
        "client tcp://localhost:9876 --concurrency=-0",
        &[
            "error: Invalid value '-0' for '--concurrency <CONCURRENCY>': invalid digit found in string",
        ],
    );
}

#[test]
fn parses_client_ipv4_localhost_ok_port_with_negative_conns() {
    expect_error(
        "client tcp://localhost:9876 --concurrency=-1",
        &[
            "error: Invalid value '-1' for '--concurrency <CONCURRENCY>': invalid digit found in string",
        ],
    );
}

#[test]
fn parses_client_ipv4_localhost_ok_port_with_non_numeric_conns() {
    expect_error(
        "client tcp://localhost:9876 -c abc",
        &[
            "error: Invalid value 'abc' for '--concurrency <CONCURRENCY>': invalid digit found in string",
        ],
    );
}

#[test]
fn parses_client_ipv6_target_ok_port_no_conns() {
    expect_result(
        "client tcp://[1234::5678]:9876",
        CliAction::TcpClient(TcpClientOptions {
            target: v6([0x1234, 0, 0, 0, 0, 0, 0, 0x5678], 9876),
            connections: 1,
        }),
    );
}

#[test]
fn parses_client_ipv6_target_ok_port_with_extra() {
    expect_error(
        "client tcp://[1234::5678]:9876 456",
        &[
            "error: Found argument '456' which wasn't expected, or isn't valid in this context",
            "",
            "Usage: loadtest client [OPTIONS] <TARGET>",
        ],
    );
}

#[test]
fn parses_client_ipv6_target_ok_port_with_conns() {
    expect_result(
        "client tcp://[1234::5678]:9876 -c 456",
        CliAction::TcpClient(TcpClientOptions {
            target: v6([0x1234, 0, 0, 0, 0, 0, 0, 0x5678], 9876),
            connections: 456,
        }),
    );
}

#[test]
fn parses_client_ipv6_target_ok_port_with_zero_conns() {
    expect_error(
        "client tcp://[1234::5678]:9876 -c 0",
        &[
            "error: Invalid value '0' for '--concurrency <CONCURRENCY>': cannot be zero",
        ],
    );
}

#[test]
fn parses_client_ipv6_target_ok_port_with_zero_decimal_conns() {
    expect_error(
        "client tcp://[1234::5678]:9876 -c 0.0",
        &[
            "error: Invalid value '0.0' for '--concurrency <CONCURRENCY>': invalid digit found in string",
        ],
    );
}

#[test]
fn parses_client_ipv6_target_ok_port_with_non_zero_decimal_conns() {
    expect_error(
        "client tcp://[1234::5678]:9876 -c 0.5",
        &[
            "error: Invalid value '0.5' for '--concurrency <CONCURRENCY>': invalid digit found in string",
        ],
    );
}

#[test]
fn parses_client_ipv6_target_ok_port_with_negative_zero_conns() {
    expect_error(
        "client tcp://[1234::5678]:9876 --concurrency=-0",
        &[
            "error: Invalid value '-0' for '--concurrency <CONCURRENCY>': invalid digit found in string",
        ],
    );
}

#[test]
fn parses_client_ipv6_target_ok_port_with_negative_conns() {
    expect_error(
        "client tcp://[1234::5678]:9876 --concurrency=-1",
        &[
            "error: Invalid value '-1' for '--concurrency <CONCURRENCY>': invalid digit found in string",
        ],
    );
}

#[test]
fn parses_client_ipv6_target_ok_port_with_non_numeric_conns() {
    expect_error(
        "client tcp://[1234::5678]:9876 -c abc",
        &[
            "error: Invalid value 'abc' for '--concurrency <CONCURRENCY>': invalid digit found in string",
        ],
    );
}

#[test]
fn parses_server_no_target() {
    expect_error(
        "server",
        &[
            "error: The following required arguments were not provided:",
            "  <LOCATION>",
            "",
            "Usage: loadtest server <LOCATION>",
        ],
    );
}

#[test]
fn parses_server_invalid_target_no_conns() {
    expect_error(
        "server 123",
        &[
            "error: Invalid value '123' for '<LOCATION>': invalid URI",
        ],
    );
}

#[test]
fn parses_server_invalid_target_with_extra() {
    expect_error(
        "server 123 456",
        &[
            "error: Found argument '456' which wasn't expected, or isn't valid in this context",
            "",
            "Usage: loadtest server [OPTIONS] <LOCATION>",
        ],
    );
}

#[test]
fn parses_server_invalid_target_with_conns() {
    expect_error(
        "server 123 -t 456",
        &[
            "error: Invalid value '123' for '<LOCATION>': invalid URI",
        ],
    );
}

#[test]
fn parses_server_unknown_protocol_no_conns() {
    expect_error(
        "server wss://123",
        &[
            "error: Invalid value 'wss://123' for '<LOCATION>': unknown protocol 'wss:'",
        ],
    );
}

#[test]
fn parses_server_unknown_protocol_with_extra() {
    expect_error(
        "server wss://123 456",
        &[
            "error: Found argument '456' which wasn't expected, or isn't valid in this context",
            "",
            "Usage: loadtest server [OPTIONS] <LOCATION>",
        ],
    );
}

#[test]
fn parses_server_unknown_protocol_with_zero_timeout() {
    expect_error(
        "server wss://123 -t 0",
        &[
            "error: Invalid value 'wss://123' for '<LOCATION>': unknown protocol 'wss:'",
        ],
    );
}

#[test]
fn parses_server_udp_protocol_no_timeout() {
    expect_error(
        "server udp://123",
        &[
            "error: Invalid value 'udp://123' for '<LOCATION>': unknown protocol 'udp:'",
        ],
    );
}

#[test]
fn parses_server_udp_protocol_with_extra() {
    expect_error(
        "server udp://123 456",
        &[
            "error: Found argument '456' which wasn't expected, or isn't valid in this context",
            "",
            "Usage: loadtest server [OPTIONS] <LOCATION>",
        ],
    );
}

#[test]
fn parses_server_udp_protocol_with_zero_timeout() {
    expect_error(
        "server udp://123 -t 0",
        &[
            "error: Invalid value 'udp://123' for '<LOCATION>': unknown protocol 'udp:'",
        ],
    );
}

#[test]
fn parses_server_invalid_ip_no_timeout() {
    expect_error(
        "server tcp://123",
        &[
            "error: Invalid value 'tcp://123' for '<LOCATION>': invalid socket address syntax",
        ],
    );
}

#[test]
fn parses_server_invalid_ip_with_extra() {
    expect_error(
        "server tcp://123 456",
        &[
            "error: Found argument '456' which wasn't expected, or isn't valid in this context",
            "",
            "Usage: loadtest server [OPTIONS] <LOCATION>",
        ],
    );
}

#[test]
fn parses_server_invalid_ip_with_zero_timeout() {
    expect_error(
        "server tcp://123 -t 0",
        &[
            "error: Invalid value 'tcp://123' for '<LOCATION>': invalid socket address syntax",
        ],
    );
}

#[test]
fn parses_server_invalid_ip_with_timeout() {
    expect_error(
        "server tcp://123 -t 456",
        &[
            "error: Invalid value 'tcp://123' for '<LOCATION>': invalid socket address syntax",
        ],
    );
}

#[test]
fn parses_server_ipv4_target_without_port_no_timeout() {
    expect_error(
        "server tcp://1.2.3.4",
        &[
            "error: Invalid value 'tcp://1.2.3.4' for '<LOCATION>': invalid socket address syntax",
        ],
    );
}

#[test]
fn parses_server_ipv4_target_without_port_with_extra() {
    expect_error(
        "server tcp://1.2.3.4 456",
        &[
            "error: Found argument '456' which wasn't expected, or isn't valid in this context",
            "",
            "Usage: loadtest server [OPTIONS] <LOCATION>",
        ],
    );
}

#[test]
fn parses_server_ipv4_target_without_port_with_timeout() {
    expect_error(
        "server tcp://1.2.3.4 -t 456",
        &[
            "error: Invalid value 'tcp://1.2.3.4' for '<LOCATION>': invalid socket address syntax",
        ],
    );
}

#[test]
fn parses_server_ipv4_target_without_port_with_zero_timeout() {
    expect_error(
        "server tcp://1.2.3.4 -t 0",
        &[
            "error: Invalid value 'tcp://1.2.3.4' for '<LOCATION>': invalid socket address syntax",
        ],
    );
}

#[test]
fn parses_server_ipv4_localhost_without_port_no_timeout() {
    expect_error(
        "server tcp://localhost",
        &[
            "error: Invalid value 'tcp://localhost' for '<LOCATION>': invalid socket address syntax",
        ],
    );
}

#[test]
fn parses_server_ipv4_localhost_without_port_with_extra() {
    expect_error(
        "server tcp://localhost 456",
        &[
            "error: Found argument '456' which wasn't expected, or isn't valid in this context",
            "",
            "Usage: loadtest server [OPTIONS] <LOCATION>",
        ],
    );
}

#[test]
fn parses_server_ipv4_localhost_without_port_with_timeout() {
    expect_error(
        "server tcp://localhost -t 456",
        &[
            "error: Invalid value 'tcp://localhost' for '<LOCATION>': invalid socket address syntax",
        ],
    );
}

#[test]
fn parses_server_ipv4_localhost_without_port_with_zero_timeout() {
    expect_error(
        "server tcp://localhost -t 0",
        &[
            "error: Invalid value 'tcp://localhost' for '<LOCATION>': invalid socket address syntax",
        ],
    );
}

#[test]
fn parses_server_ipv6_target_without_port_no_timeout() {
    expect_error(
        "server tcp://[1234::5678]",
        &[
            "error: Invalid value 'tcp://[1234::5678]' for '<LOCATION>': invalid socket address syntax",
        ],
    );
}

#[test]
fn parses_server_ipv6_target_without_port_with_extra() {
    expect_error(
        "server tcp://[1234::5678] 456",
        &[
            "error: Found argument '456' which wasn't expected, or isn't valid in this context",
            "",
            "Usage: loadtest server [OPTIONS] <LOCATION>",
        ],
    );
}

#[test]
fn parses_server_ipv6_target_without_port_with_timeout() {
    expect_error(
        "server tcp://[1234::5678] -t 456",
        &[
            "error: Invalid value 'tcp://[1234::5678]' for '<LOCATION>': invalid socket address syntax",
        ],
    );
}

#[test]
fn parses_server_ipv6_target_without_port_with_zero_timeout() {
    expect_error(
        "server tcp://[1234::5678] -t 0",
        &[
            "error: Invalid value 'tcp://[1234::5678]' for '<LOCATION>': invalid socket address syntax",
        ],
    );
}

#[test]
fn parses_server_ipv4_target_zero_port_no_timeout() {
    expect_error(
        "server tcp://1.2.3.4:0",
        &[
            "error: Invalid value 'tcp://1.2.3.4:0' for '<LOCATION>': port cannot be zero",
        ],
    );
}

#[test]
fn parses_server_ipv4_target_zero_port_with_extra() {
    expect_error(
        "server tcp://1.2.3.4:0 456",
        &[
            "error: Found argument '456' which wasn't expected, or isn't valid in this context",
            "",
            "Usage: loadtest server [OPTIONS] <LOCATION>",
        ],
    );
}

#[test]
fn parses_server_ipv4_target_zero_port_with_timeout() {
    expect_error(
        "server tcp://1.2.3.4:0 -t 456",
        &[
            "error: Invalid value 'tcp://1.2.3.4:0' for '<LOCATION>': port cannot be zero",
        ],
    );
}

#[test]
fn parses_server_ipv4_target_zero_port_with_zero_timeout() {
    expect_error(
        "server tcp://1.2.3.4:0 -t 0",
        &[
            "error: Invalid value 'tcp://1.2.3.4:0' for '<LOCATION>': port cannot be zero",
        ],
    );
}

#[test]
fn parses_server_ipv4_localhost_zero_port_no_timeout() {
    expect_error(
        "server tcp://localhost:0",
        &[
            "error: Invalid value 'tcp://localhost:0' for '<LOCATION>': port cannot be zero",
        ],
    );
}

#[test]
fn parses_server_ipv4_localhost_zero_port_with_extra() {
    expect_error(
        "server tcp://localhost:0 456",
        &[
            "error: Found argument '456' which wasn't expected, or isn't valid in this context",
            "",
            "Usage: loadtest server [OPTIONS] <LOCATION>",
        ],
    );
}

#[test]
fn parses_server_ipv4_localhost_zero_port_with_timeout() {
    expect_error(
        "server tcp://localhost:0 -t 456",
        &[
            "error: Invalid value 'tcp://localhost:0' for '<LOCATION>': port cannot be zero",
        ],
    );
}

#[test]
fn parses_server_ipv4_localhost_zero_port_with_zero_timeout() {
    expect_error(
        "server tcp://localhost:0 -t 0",
        &[
            "error: Invalid value 'tcp://localhost:0' for '<LOCATION>': port cannot be zero",
        ],
    );
}

#[test]
fn parses_server_ipv6_target_zero_port_no_timeout() {
    expect_error(
        "server tcp://[1234::5678]:0",
        &[
            "error: Invalid value 'tcp://[1234::5678]:0' for '<LOCATION>': port cannot be zero",
        ],
    );
}

#[test]
fn parses_server_ipv6_target_zero_port_with_extra() {
    expect_error(
        "server tcp://[1234::5678]:0 456",
        &[
            "error: Found argument '456' which wasn't expected, or isn't valid in this context",
            "",
            "Usage: loadtest server [OPTIONS] <LOCATION>",
        ],
    );
}

#[test]
fn parses_server_ipv6_target_zero_port_with_timeout() {
    expect_error(
        "server tcp://[1234::5678]:0 -t 456",
        &[
            "error: Invalid value 'tcp://[1234::5678]:0' for '<LOCATION>': port cannot be zero",
        ],
    );
}

#[test]
fn parses_server_ipv6_target_zero_port_with_zero_timeout() {
    expect_error(
        "server tcp://[1234::5678]:0 -t 0",
        &[
            "error: Invalid value 'tcp://[1234::5678]:0' for '<LOCATION>': port cannot be zero",
        ],
    );
}

#[test]
fn parses_server_ipv4_target_ok_port_no_timeout() {
    expect_result(
        "server tcp://1.2.3.4:9876",
        CliAction::TcpServer(TcpServerOptions {
            location: v4([1, 2, 3, 4], 9876),
            conn_timeout: Duration::from_secs(1),
        }),
    );
}

#[test]
fn parses_server_ipv4_target_ok_port_with_extra() {
    expect_error(
        "server tcp://1.2.3.4:9876 456",
        &[
            "error: Found argument '456' which wasn't expected, or isn't valid in this context",
            "",
            "Usage: loadtest server [OPTIONS] <LOCATION>",
        ],
    );
}

#[test]
fn parses_server_ipv4_target_ok_port_with_timeout() {
    expect_result(
        "server tcp://1.2.3.4:9876 -t 456",
        CliAction::TcpServer(TcpServerOptions {
            location: v4([1, 2, 3, 4], 9876),
            conn_timeout: Duration::from_secs(456),
        }),
    );
}

#[test]
fn parses_server_ipv4_target_ok_port_with_long_timeout_single_arg() {
    expect_result(
        "server tcp://1.2.3.4:9876 --connection-timeout=456",
        CliAction::TcpServer(TcpServerOptions {
            location: v4([1, 2, 3, 4], 9876),
            conn_timeout: Duration::from_secs(456),
        }),
    );
}

#[test]
fn parses_server_ipv4_target_ok_port_with_long_timeout_two_arg() {
    expect_result(
        "server tcp://1.2.3.4:9876 -t 456",
        CliAction::TcpServer(TcpServerOptions {
            location: v4([1, 2, 3, 4], 9876),
            conn_timeout: Duration::from_secs(456),
        }),
    );
}

#[test]
fn parses_server_ipv4_target_ok_port_with_zero_timeout() {
    expect_error(
        "server tcp://1.2.3.4:9876 -t 0",
        &[
            "error: Invalid value '0' for '--connection-timeout <CONNECTION_TIMEOUT>': cannot be zero",
        ],
    );
}

#[test]
fn parses_server_ipv4_target_ok_port_with_zero_decimal_conns() {
    expect_error(
        "server tcp://1.2.3.4:9876 -t 0.0",
        &[
            "error: Invalid value '0.0' for '--connection-timeout <CONNECTION_TIMEOUT>': cannot be zero",
        ],
    );
}

#[test]
fn parses_server_ipv4_target_ok_port_with_non_zero_decimal_conns() {
    expect_result(
        "server tcp://1.2.3.4:9876 -t 0.5",
        CliAction::TcpServer(TcpServerOptions {
            location: v4([1, 2, 3, 4], 9876),
            conn_timeout: Duration::from_millis(500),
        }),
    );
}

#[test]
fn parses_server_ipv4_target_ok_port_with_negative_zero_timeout() {
    expect_error(
        "server tcp://1.2.3.4:9876 --connection-timeout=-0",
        &[
            "error: Invalid value '-0' for '--connection-timeout <CONNECTION_TIMEOUT>': cannot be zero",
        ],
    );
}

#[test]
fn parses_server_ipv4_target_ok_port_with_negative_timeout() {
    expect_error(
        "server tcp://1.2.3.4:9876 --connection-timeout=-1",
        &[
            "error: Invalid value '-1' for '--connection-timeout <CONNECTION_TIMEOUT>': cannot be negative",
        ],
    );
}

#[test]
fn parses_server_ipv4_target_ok_port_with_non_numeric_timeout() {
    expect_error(
        "server tcp://1.2.3.4:9876 -t abc",
        &[
            "error: Invalid value 'abc' for '--connection-timeout <CONNECTION_TIMEOUT>': invalid float literal",
        ],
    );
}

#[test]
fn parses_server_ipv4_localhost_ok_port_no_timeout() {
    expect_result(
        "server tcp://localhost:9876",
        CliAction::TcpServer(TcpServerOptions {
            location: v4([127, 0, 0, 1], 9876),
            conn_timeout: Duration::from_secs(1),
        }),
    );
}

#[test]
fn parses_server_ipv4_localhost_ok_port_with_extra() {
    expect_error(
        "server tcp://localhost:9876 456",
        &[
            "error: Found argument '456' which wasn't expected, or isn't valid in this context",
            "",
            "Usage: loadtest server [OPTIONS] <LOCATION>",
        ],
    );
}

#[test]
fn parses_server_ipv4_localhost_ok_port_with_timeout() {
    expect_result(
        "server tcp://localhost:9876 -t 456",
        CliAction::TcpServer(TcpServerOptions {
            location: v4([127, 0, 0, 1], 9876),
            conn_timeout: Duration::from_secs(456),
        }),
    );
}

#[test]
fn parses_server_ipv4_localhost_ok_port_with_zero_timeout() {
    expect_error(
        "server tcp://localhost:9876 -t 0",
        &[
            "error: Invalid value '0' for '--connection-timeout <CONNECTION_TIMEOUT>': cannot be zero",
        ],
    );
}

#[test]
fn parses_server_ipv4_localhost_ok_port_with_zero_decimal_conns() {
    expect_error(
        "server tcp://localhost:9876 -t 0.0",
        &[
            "error: Invalid value '0.0' for '--connection-timeout <CONNECTION_TIMEOUT>': cannot be zero",
        ],
    );
}

#[test]
fn parses_server_ipv4_localhost_ok_port_with_non_zero_decimal_conns() {
    expect_result(
        "server tcp://localhost:9876 -t 0.5",
        CliAction::TcpServer(TcpServerOptions {
            location: v4([127, 0, 0, 1], 9876),
            conn_timeout: Duration::from_millis(500),
        }),
    );
}

#[test]
fn parses_server_ipv4_localhost_ok_port_with_negative_zero_timeout() {
    expect_error(
        "server tcp://localhost:9876 --connection-timeout=-0",
        &[
            "error: Invalid value '-0' for '--connection-timeout <CONNECTION_TIMEOUT>': cannot be zero",
        ],
    );
}

#[test]
fn parses_server_ipv4_localhost_ok_port_with_negative_timeout() {
    expect_error(
        "server tcp://localhost:9876 --connection-timeout=-1",
        &[
            "error: Invalid value '-1' for '--connection-timeout <CONNECTION_TIMEOUT>': cannot be negative",
        ],
    );
}

#[test]
fn parses_server_ipv4_localhost_ok_port_with_non_numeric_timeout() {
    expect_error(
        "server tcp://localhost:9876 -t abc",
        &[
            "error: Invalid value 'abc' for '--connection-timeout <CONNECTION_TIMEOUT>': invalid float literal",
        ],
    );
}

#[test]
fn parses_server_ipv6_target_ok_port_no_timeout() {
    expect_result(
        "server tcp://[1234::5678]:9876",
        CliAction::TcpServer(TcpServerOptions {
            location: v6([0x1234, 0, 0, 0, 0, 0, 0, 0x5678], 9876),
            conn_timeout: Duration::from_secs(1),
        }),
    );
}

#[test]
fn parses_server_ipv6_target_ok_port_with_extra() {
    expect_error(
        "server tcp://[1234::5678]:9876 456",
        &[
            "error: Found argument '456' which wasn't expected, or isn't valid in this context",
            "",
            "Usage: loadtest server [OPTIONS] <LOCATION>",
        ],
    );
}

#[test]
fn parses_server_ipv6_target_ok_port_with_timeout() {
    expect_result(
        "server tcp://[1234::5678]:9876 -t 456",
        CliAction::TcpServer(TcpServerOptions {
            location: v6([0x1234, 0, 0, 0, 0, 0, 0, 0x5678], 9876),
            conn_timeout: Duration::from_secs(456),
        }),
    );
}

#[test]
fn parses_server_ipv6_target_ok_port_with_zero_timeout() {
    expect_error(
        "server tcp://[1234::5678]:9876 -t 0",
        &[
            "error: Invalid value '0' for '--connection-timeout <CONNECTION_TIMEOUT>': cannot be zero",
        ],
    );
}

#[test]
fn parses_server_ipv6_target_ok_port_with_zero_decimal_conns() {
    expect_error(
        "server tcp://[1234::5678]:9876 -t 0.0",
        &[
            "error: Invalid value '0.0' for '--connection-timeout <CONNECTION_TIMEOUT>': cannot be zero",
        ],
    );
}

#[test]
fn parses_server_ipv6_target_ok_port_with_non_zero_decimal_conns() {
    expect_result(
        "server tcp://[1234::5678]:9876 -t 0.5",
        CliAction::TcpServer(TcpServerOptions {
            location: v6([0x1234, 0, 0, 0, 0, 0, 0, 0x5678], 9876),
            conn_timeout: Duration::from_millis(500),
        }),
    );
}

#[test]
fn parses_server_ipv6_target_ok_port_with_negative_zero_timeout() {
    expect_error(
        "server tcp://[1234::5678]:9876 --connection-timeout=-0",
        &[
            "error: Invalid value '-0' for '--connection-timeout <CONNECTION_TIMEOUT>': cannot be zero",
        ],
    );
}

#[test]
fn parses_server_ipv6_target_ok_port_with_negative_timeout() {
    expect_error(
        "server tcp://[1234::5678]:9876 --connection-timeout=-1",
        &[
            "error: Invalid value '-1' for '--connection-timeout <CONNECTION_TIMEOUT>': cannot be negative",
        ],
    );
}

#[test]
fn parses_server_ipv6_target_ok_port_with_negative_decimal_zero_timeout() {
    expect_error(
        "server tcp://[1234::5678]:9876 --connection-timeout=-0.0",
        &[
            "error: Invalid value '-0.0' for '--connection-timeout <CONNECTION_TIMEOUT>': cannot be zero",
        ],
    );
}

#[test]
fn parses_server_ipv6_target_ok_port_with_negative_half_second_timeout() {
    expect_error(
        "server tcp://[1234::5678]:9876 --connection-timeout=-0.5",
        &[
            "error: Invalid value '-0.5' for '--connection-timeout <CONNECTION_TIMEOUT>': cannot be negative",
        ],
    );
}

#[test]
fn parses_server_ipv6_target_ok_port_with_negative_1_5_second_timeout() {
    expect_error(
        "server tcp://[1234::5678]:9876 --connection-timeout=-1.5",
        &[
            "error: Invalid value '-1.5' for '--connection-timeout <CONNECTION_TIMEOUT>': cannot be negative",
        ],
    );
}

#[test]
fn parses_server_ipv6_target_ok_port_with_non_numeric_timeout() {
    expect_error(
        "server tcp://[1234::5678]:9876 -t abc",
        &[
            "error: Invalid value 'abc' for '--connection-timeout <CONNECTION_TIMEOUT>': invalid float literal",
        ],
    );
}
