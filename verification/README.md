# ember_net

A verified core for an eMule-compatible Kademlia node and its encrypted overlay.

- `src/` is the library. Every function in it is verified with Verus against its
  contract: the wire formats, the routing table, the address filter, flood
  protection, publishing, buddies, and the sessions and transfers of the overlay.
- `src/ember/noise.rs` holds what is taken from the cryptographic crates.
- `tests/` runs the library.
- `app/` is ordinary Rust around it: files, sockets, clocks and locks.
