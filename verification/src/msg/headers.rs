//! The headers of a message.

pub mod header;
