//! The server side of mosh, the mobile shell: packets, crypto, state
//! synchronization and the decisions of the server loop, with no I/O.

pub mod crypto;
pub mod effects;
pub mod fragment;
pub mod host_message;
pub mod launch;
pub mod layout;
pub mod messages;
pub mod network;
pub mod octets;
pub mod options;
pub mod ports;
pub mod radix64;
pub mod reassembly;
pub mod rounds;
pub mod runs;
pub mod server;
pub mod sessions;
pub mod synchronization;
pub mod text;
pub mod transport;
pub mod user_message;
pub mod wire;
