//! File synchronisation over length-delimited frames: the wire protocol, the
//! client and server state machines, and the file chunking they rest on.

pub mod cdc;
pub mod chunk;
pub mod chunking;
pub mod config;
pub mod digest;
pub mod errors;
pub mod ids;
pub mod paths;
pub mod protocol;
pub mod registry;
pub mod tcp;
pub mod text;
pub mod transport;
pub mod upload;
pub mod wire;
