//! Verified core of a peer-to-peer, pipeline-parallel inference network.
pub mod cli;
pub mod client;
pub mod clock;
pub mod codec;
pub mod config;
pub mod dht;
pub mod dtype;
pub mod latency;
pub mod memory;
pub mod message;
pub mod peer;
pub mod ping;
pub mod provider_cache;
pub mod request;
pub mod response;
pub mod routing;
pub mod spans;
pub mod text;
pub mod types;
pub mod wire;
pub mod worker;
