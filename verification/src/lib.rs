//! Core of a notebook server that supervises code-execution workers
//! ("kernels") and maintains a live view of each worker's scoped global
//! namespace.
//!
//! The crate holds the verified logic: the notebook / run state machine,
//! the kernel-handle mailbox discipline, the scope diff engine, the framed
//! wire codec, and the persistence encoding. Process management, sockets
//! and files live outside, in the unverified shell around this library.

pub mod client_messages;
pub mod errors;
pub mod ids;
pub mod kernel;
pub mod messages;
pub mod notebook;
pub mod persist;
pub mod reactor;
pub mod scopes;
pub mod state;
pub mod wire;
