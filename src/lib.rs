//! Matchmaking core of a small online game server.
//!
//! The connection registry assigns identifiers to peers and turns the
//! results of non-blocking reads into an ordered stream of events; the
//! matchmaker consumes that stream and pairs waiting players into games.
pub mod event_type;
pub mod matchmaker;
pub mod tcp_connection;
