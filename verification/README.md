# loadtest

A simple TCP load tester. A client opens connections to a target and sends zeroes on each; a
server accepts connections, drops what comes in and reports the open connections and the rate of
the incoming data every second.

    loadtest client tcp://<ipaddr>:<port> [-c <connections>]
    loadtest server tcp://<ipaddr>:<port> [-t <seconds>]

The address is `localhost`, an IPv4 address or an IPv6 address in brackets. The port is not zero.
Both options default to 1.

- `src/` is the library, verified with Verus: the command line, the decisions of the client and
  the server, and the statistics. Its laws are the public proof functions.
- `app/` is the program: it performs on the network what the library decides.
- `tests/` are the tests of the library.
