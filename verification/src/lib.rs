//! Tactical mesh networking core: wire format, authentication, replay
//! protection, forward error correction, OLSR-lite routing and the
//! application-level replicated state.

pub mod bytes;
pub mod crdt;
pub mod crypto;
pub mod errors;
pub mod fec;
pub mod frame;
pub mod headers;
pub mod identity;
pub mod jam;
pub mod image_cache;
pub mod image_codec;
pub mod link;
pub mod messages;
pub mod node;
pub mod nonce_cache;
pub mod olsr;
pub mod priority;
pub mod render;
pub mod routing;
pub mod scheduler;
