//! A verified core for an eMule-compatible Kademlia node and its encrypted
//! "Ember" overlay: wire formats, routing, address filtering, flood control,
//! publishing, and the handshake and transfer state machines.
pub mod bytes;
pub mod clock;
pub mod ember;
pub mod ember_publish;
pub mod kad;
pub mod key_map;
pub mod net;
pub mod rank;
pub mod security;
pub mod set_map;
pub mod sort;
pub mod text;
