//! A bounded cache of precomputed shared keys, and the wire codec of the
//! group chat control packets.

pub mod packet;
pub mod precomputed_cache;

pub use packet::{CodecError, NicknameV2, Packet, PeerStatusV2, Status};
pub use precomputed_cache::PrecomputedCache;
