//! A content-addressed peer-to-peer network: peers are named by hashes, keep
//! buckets of the peers they know and answer questions about them.

pub mod addr;
pub mod bootstrap;
pub mod buckets;
pub mod closest;
pub mod data_mongler;
pub mod distance;
pub mod echo;
pub mod flat_peer_map;
pub mod hash;
pub mod peer;
pub mod peer2;
pub mod peer_map;
pub mod proto;
pub mod result_ext;
pub mod rng;
pub mod sim;
pub mod stream;
pub mod text;
pub mod tls;
pub mod types;
pub mod worker;
