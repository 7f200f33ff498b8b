//! A caching forwarding proxy's core: an expiring key-value store, the cutting of a
//! buffered body into bounded chunks, and the per-request decisions of the handler
//! (reject, serve from the store, or fetch and store).

pub mod cache;
pub mod chunk;
pub mod proxy;
