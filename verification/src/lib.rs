//! The engine of an HTTP/1.1 client: wire framing, header rules and the
//! per-connection protocol, stated and proved over byte sequences.

pub mod addr;
pub mod body;
pub mod buffer;
pub mod client;
pub mod error;
pub mod handler;
pub mod head;
pub mod header_map;
pub mod headers;
pub mod init_bytes;
pub mod io;
pub mod negotiate;
pub mod number;
pub mod parser;
pub mod response_scan;
pub mod scan;
pub mod strategy;
pub mod stream;

pub use crate::client::{Config, Connection, Flow, Next, ReadBodyState, Stage};
pub use crate::error::Error;
pub use crate::strategy::ReadStrategy;
