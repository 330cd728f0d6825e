//! Page format of a B+Tree node kept as an opaque value in an ordered
//! key-value store: addresses, the length-prefixed byte codec, and the
//! node's encode, decode and split operations.
pub mod codec;
pub mod db_key;
pub mod error;
pub mod field_key;
pub mod layout;
pub mod node;

pub use db_key::{DbKey, LEN_DB_KEY};
pub use error::Error;
pub use field_key::make_key;
pub use node::{Node, NodeType, Record};
