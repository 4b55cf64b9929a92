//! `sm`, a minimal terminal session manager: the parts that decide.
//!
//! A session is a command on a pseudo-terminal, owned by a background server.
//! Clients talk to the server over a Unix-domain socket.  This crate holds the wire
//! protocol, the state machines of client and server, the search for the socket
//! directory and the command line.  System calls are made elsewhere: every function
//! here takes plain values and returns plain values.

pub mod cli;
pub mod client;
pub mod filter;
pub mod path;
pub mod protocol;
pub mod pty;
pub mod server;
pub mod sockdir;
pub mod sys;
pub mod term;
pub mod text;
