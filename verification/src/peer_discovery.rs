//! Peer discovery: the messages peers exchange and the decisions a node takes
//! on them. Sockets, threads and timers live with the program that runs a node.

pub mod connection;
pub mod connection_pool;
pub mod error;
pub mod util;
