//! Decoding and aggregation of peer-observer archive files.
pub mod analysis;
pub mod asn;
pub mod asnames;
pub mod decode;
pub mod encode;
pub mod exchange;
pub mod gossip;
pub mod histogram;
pub mod history;
pub mod inspect;
pub mod kind;
pub mod latency;
pub mod messages;
pub mod order;
pub mod payload;
pub mod peers;
pub mod proto;
pub mod reflect;
pub mod relay;
pub mod schema;
pub mod store;
pub mod strip;
pub mod text;
pub mod view;
