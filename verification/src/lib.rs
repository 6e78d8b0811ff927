//! A tracker and client protocol engine: the bencode codec, torrent
//! descriptors, wire messages and their classification, the swarm registry,
//! bounded connection retries and the weighted work-distribution table.

pub mod ai_processor;
pub mod bencode;
pub mod client;
pub mod console_client;
pub mod decimal;
pub mod dict_laws;
pub mod digest;
pub mod dispatch;
pub mod index_laws;
pub mod lex;
pub mod messages;
pub mod quic_client;
pub mod quic_tracker;
pub mod roundtrip;
pub mod term;
pub mod text;
pub mod work_distribution;

pub use bencode::{
    bencode_dict, bencode_int, bencode_string, decode_bencode, BencodeDict, BencodeError,
    BencodeValue,
};
