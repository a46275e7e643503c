//! The routing core of an MQTT broker.
//!
//! A router owns everything a broker knows about its clients: the live
//! connections, their inboxes and outboxes, the acks they are owed, the commit
//! logs of every subscription, and the sessions of clients that went away.
//! Every handler is a plain function of that state, and its contract says what
//! the next state is.
pub mod arena;
pub mod clock;
pub mod payload;
pub mod protocol;
pub mod registry;
pub mod router;
pub mod segments;
pub mod text;
pub mod topic;
pub mod views;
