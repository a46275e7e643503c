//! The router: its parts, and what it does with them.
pub mod alertlog;
pub mod answers;
pub mod batches;
pub mod commit;
pub mod datalog;
pub mod delivery;
pub mod errors;
pub mod events;
pub mod graveyard;
pub mod invariants;
pub mod iobufs;
pub mod laws;
pub mod liveness;
pub mod logs;
pub mod messages;
pub mod reports;
pub mod requests;
pub mod routing;
pub mod scheduler;
pub mod sessions;
pub mod single;
pub mod state;
pub mod subscriptions;
pub mod turns;
pub mod validate;
