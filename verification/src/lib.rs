//! A small proof-of-work block chain with an unspent-transaction-output
//! ledger and the decision logic of a peer-discovery protocol.

pub mod blockchain;
pub mod digest;
pub mod node;
pub mod peer_discovery;
pub mod utxo;

pub use blockchain::{Block, BlockChain};
pub use node::Node;
pub use peer_discovery::connection::ProtocolMessage;
pub use peer_discovery::error::PeerError;
pub use utxo::{Transaction, TransactionError, UTXO};
