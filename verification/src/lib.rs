//! A codec for a RESP-style wire protocol, a key-value store with deferred
//! removal of keys, and the state machine of a client connection, all
//! verified.
//!
//! The library does no I/O. A driver owns the byte streams, the lock around
//! the store and the timers; it feeds a [`connection::Connection`] with what
//! happened on the stream and carries out what the connection decides.
//!
//! - [`text`] and [`decimal`]: line terminators and decimal numerals.
//! - [`value`]: the protocol values and their model.
//! - [`wire`]: the format, as a function from values to bytes and a function
//!   from bytes to values, and the proof that the second inverts the first.
//! - [`codec`]: the encoder and the decoder.
//! - [`command`]: from a decoded value to the command it asks for.
//! - [`store`]: the store, what each command does to it, and its laws.
//! - [`connection`]: the life of one connection.

pub mod text;
pub mod decimal;
pub mod value;
pub mod wire;
pub mod codec;
pub mod command;
pub mod store;
pub mod connection;
