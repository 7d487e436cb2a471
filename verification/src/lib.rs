//! A BitTorrent client library: the wire format of peer messages, the
//! bookkeeping of a download, the scheduling of piece requests and the
//! selection of peers, each with a machine-checked contract.

pub mod clock;
pub mod connection;
pub mod digest;
pub mod download;
pub mod json;
pub mod peer;
pub mod pool;
pub mod priority;
pub mod queue;
pub mod text;
pub mod tracker;
pub mod types;
pub mod utils;
