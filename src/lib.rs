//! A publish/subscribe message broker core speaking the NATS text protocol:
//! a streaming frame decoder, frame encoders, a subject trie and the
//! per-connection decisions of the broker.

pub mod buffer;
pub mod config;
pub mod decode;
pub mod encode;
pub mod json;
pub mod router;
pub mod service;
pub mod sub_list;
pub mod token;
