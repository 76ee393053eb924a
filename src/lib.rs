//! A caching DNS forwarding proxy: the request-coalescing cache engine and
//! the persistent cache entry model, with the network and the store
//! abstracted behind traits.
use vstd::prelude::*;

pub mod record;
pub mod ttl;
pub mod request;
pub mod encode;
pub mod wire;
pub mod answer;
pub mod tables;
pub mod upstream;
pub mod engine;
pub mod decode;

pub use record::{AddrTtl, CacheEntry, CacheEntry2};
pub use request::{ClientAddr, SimplifiedQuestion, SimplifiedRequest};
pub use encode::ReplyError;
pub use engine::{DnsCache, Options};

verus! {

/// Why processing a datagram failed.
#[derive(Debug, Clone, PartialEq, Eq)]
pub enum CacheError {
    /// A malformed datagram.
    Parse,
    /// The clock reads earlier than the UNIX epoch.
    Clock,
    /// A reply could not be encoded.
    Reply(ReplyError),
    /// The network or the store failed, with the message it gave.
    Io(String),
}

/// What [`Network::recv_from`] returns besides the length.
#[derive(Debug, Clone, Copy, PartialEq, Eq)]
pub enum ReceiveResult<C: Copy> {
    /// A datagram from a client.
    FromClient(C),
    /// A datagram from the upstream server.
    FromUpstream,
}

/// The UDP endpoint that the engine uses.
pub trait Network {
    /// Sends a datagram to a client; an error carries its message.
    fn send_to_client(&self, buf: &[u8], client: ClientAddr) -> Result<(), String>;

    /// Sends a datagram to the upstream server.
    fn send_to_upstream(&self, buf: &[u8]) -> Result<(), String>;

    /// Receives one datagram into `buf`, telling its length and source.
    fn recv_from(&self, buf: &mut [u8]) -> Result<(usize, ReceiveResult<ClientAddr>), String>;
}

/// The persistent store of cache entries, keyed by lowercased domain name.
pub trait Database {
    /// The entry stored for `dom`, if any; an error carries its message.
    fn get(&mut self, dom: &str) -> Result<Option<CacheEntry>, String>;

    /// Creates or replaces the entry for `dom`.
    fn put(&mut self, dom: &str, entry: &CacheEntry) -> Result<(), String>;

    /// Makes the previous puts durable.
    fn flush(&mut self) -> Result<(), String>;
}

} // verus!
