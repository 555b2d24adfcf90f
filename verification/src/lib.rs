//! Resource ownership for audio demos: resource identifiers, interleaved
//! audio buffers, a keyed resource store, and the request logic of the
//! resource server.

pub mod text;
pub mod resource;
pub mod http;
pub mod server;
pub mod laws;
