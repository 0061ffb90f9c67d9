//! An HTTP/2 (h2c) protocol engine: frame codec, HPACK header compression,
//! SETTINGS handling, request validation and the per-connection state
//! machine, with their contracts proved by Verus.
pub mod conn;
pub mod error;
pub mod frame;
pub mod hpack;
pub mod settings;
pub mod stream;
