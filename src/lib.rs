//! Wire codec and request handling for a small datagram name-lookup protocol.
pub mod wire;
pub mod header;
pub mod name;
pub mod record;
pub mod packet;
pub mod respond;

pub use header::{Control, Header, Side};
pub use name::Name;
pub use packet::Packet;
pub use record::{Class, Question, RData, Resource, Type};
pub use respond::{transform, Forward, IdCounter};
pub use wire::{Bincode, DecodeError};
