//! The decisions of a simple TCP load tester.
//!
//! A client keeps connections open and sends zeroes on them; a server takes what comes in, drops
//! it and reports how much it was. What is to be done next is decided here, from how the last
//! operation went: by `client_loop` and `server_loop`. The counts are kept and reported by
//! `stats`. What the program is asked to do is read from the command line by `cli_args`, with
//! `command` for what clap has to know.
//!
//! The other modules hold what these need: addresses and their text, spans of time, numbers
//! written as text, and the arithmetic of binary64 numbers on integers. What the texts that go in
//! and out mean is stated by itself: by `addr_forms` for addresses and locations, by `decimal` for
//! timeouts, by `snapshot` for the reports, and by `rounding` for the numbers behind them.

pub mod addr;
pub mod addr_forms;
pub mod addr_text;
pub mod binary64;
pub mod cli_args;
pub mod client_loop;
pub mod command;
pub mod decimal;
pub mod duration;
pub mod failure;
pub mod natural;
pub mod number;
pub mod rounding;
pub mod server_loop;
pub mod snapshot;
pub mod stats;
pub mod text;
