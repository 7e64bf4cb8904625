//! The encrypted overlay: sessions between nodes that speak it.
pub mod control;
pub mod dht;
pub mod eviction;
pub mod handshake_laws;
pub mod noise;
pub mod sending_laws;
pub mod session;
pub mod state;
pub mod transport;
pub mod transport_laws;
pub mod xfer;
pub mod xfer_laws;
