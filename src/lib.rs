//! The runtime of one node of a peer-to-peer cluster coordinator: the event
//! model and its wire codec, the transaction protocol that replicates the
//! shared map across peers, the plugin supervisor's routing, the server's
//! connection tables and the router. Each component decides from its state
//! and the event at hand; the caller performs the I/O that the decisions
//! name.
pub mod bytes;
pub mod codec;
pub mod command;
pub mod event;
pub mod fsm;
pub mod message;
pub mod node;
pub mod plugin_man;
pub mod server;
pub mod shared;
