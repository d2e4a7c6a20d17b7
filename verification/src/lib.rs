//! A small MPI-style message-passing runtime centred on a single broker
//! process.
//!
//! Workers exchange point-to-point messages and synchronise through the
//! broker, which matches send and receive requests with wildcard semantics
//! and strict arrival ordering, assigns ranks, and runs barrier rendezvous.
//! The broker core — envelope types, the mailbox matching engine, the rank
//! table, the barrier, and the dispatch state machine — lives here, fully
//! verified. Transport, process spawning and payload encoding are left to
//! the surrounding program: payloads pass through the core as opaque values.

pub mod barrier;
pub mod broker;
pub mod collective;
pub mod comm_request;
pub mod decimal;
pub mod mailbox;
pub mod mpi_request;
pub mod rank;
pub mod receiver_traits;
