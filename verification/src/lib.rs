//! A verified core for a Redis-compatible key/value server speaking the
//! RESP wire format.
//!
//! The crate holds everything the server decides: the frame codec
//! ([`frame`], [`parser`], [`codec`]), the typed store with expiry
//! ([`store`]), the stream engine ([`streams`]), the snapshot reader
//! ([`rdb`]), the replication ledger ([`repl`]), and the command
//! dispatcher with transactions, propagation and blocking plans
//! ([`dispatch`]). Sockets, files and the clock stay outside: a caller
//! reads bytes, hands complete frames in, writes the reply bytes out, and
//! carries out the returned effect.

pub mod bytes;
pub mod codec;
pub mod dispatch;
pub mod frame;
pub mod num;
pub mod parser;
pub mod rdb;
pub mod repl;
pub mod store;
pub mod streams;
