//! A reliable, ordered, window-controlled transport engine that runs on top of
//! an unreliable datagram service.
//!
//! The engine never touches a socket. The application queues messages with
//! [`Kcp::send`] and reads them with [`Kcp::recv`]; datagrams that arrive are
//! handed to [`Kcp::input`]; and [`Kcp::update`], called on a timer, returns
//! the datagrams to transmit.
//!
//! [`message`] holds the wire format, [`kcp`] the engine, and [`state`] the
//! connection as a mathematical value, in terms of which every function of
//! the engine says what it does. [`laws`], [`link`], [`reassembly`] and
//! [`trace`] prove what follows for every connection: delivery in order and
//! without duplicates, the cumulative acknowledgment, the window,
//! retransmission, and that a message is read as it was sent.
pub mod batch;
pub mod config;
pub mod kcp;
pub mod laws;
pub mod link;
pub mod message;
pub mod preserve;
pub mod reassembly;
pub mod rtt;
pub mod seqs;
pub mod state;
pub mod trace;
pub mod wire;

pub use config::Config;
pub use kcp::Kcp;
pub use message::{Header, Message, MessageCmd, ParseError, Segment};
pub use state::KcpError;
