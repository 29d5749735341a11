//! A room-based pub/sub relay core: a connection registry, a room membership
//! table, an event dispatcher and a broadcast engine, for a single-process
//! real-time messaging server. The transport shell (socket accept, event
//! decoding, wire delivery) sits outside this crate and hands it plain values.

pub mod broadcast;
pub mod dispatch;
pub mod relay;
