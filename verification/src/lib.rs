//! Peer discovery for a node of a Kademlia-style network.
//!
//! A node keeps, for each bucket of XOR distance from its own identifier, a
//! short queue of addresses that it can query for their closest peers. The
//! queues are filled with randomly drawn addresses and with the peers that
//! such queries report back.

pub mod address;
pub mod discovery;
pub mod generator;
pub mod laws;
pub mod metric;
pub mod model;
pub mod queues;
pub mod summary;
