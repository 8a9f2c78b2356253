//! Core of a master/worker task-dispatch system.
//!
//! A master generates numbered problems, hands them to workers as tasks,
//! tracks worker liveness through heartbeats, revokes the lease of a silent
//! worker, and collects the submitted solutions.  Two persistence variants
//! share this state machine: an in-memory registry ([`task_manager`]) built
//! on the append-only problem store ([`problem_generator`]), and a
//! shared-queue variant ([`shared_queue`]) whose state an external key-value
//! store holds between calls.  The worker's own decisions stand in
//! [`worker`].  Everything that talks to the network (HTTP handlers, the
//! key-value client, the background tickers) lives outside this crate and
//! calls into it with plain values.
#![verifier::loop_isolation(false)]

pub mod config;
pub mod constants;
pub mod errors;
pub mod problem_generator;
pub mod shared_queue;
pub mod task_manager;
pub mod worker;
