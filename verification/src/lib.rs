//! Deterministic simulation and state-space exploration for distributed systems.
//!
//! The library holds the logic: event scheduling, the simulated network, the
//! transport protocol, assertion tracking, coverage accounting and the
//! exploration scheduler. It performs no I/O; the application around it runs
//! the processes, timers and sockets and hands plain values in and out.

pub mod adaptive;
pub mod assertion_laws;
pub mod assertion_slots;
pub mod buggify;
pub mod bytes;
pub mod chronology;
pub mod client;
pub mod config;
pub mod connections;
pub mod context;
pub mod controller;
pub mod counts;
pub mod coverage;
pub mod coverage_laws;
pub mod each_buckets;
pub mod energy;
pub mod envelope;
pub mod error;
pub mod events;
pub mod exploration_laws;
pub mod explorer;
pub mod fault_laws;
pub mod faults;
pub mod hash;
pub mod ids;
pub mod latency;
pub mod operation_gen;
pub mod orchestrator;
pub mod ordering;
pub mod peer_config;
pub mod protocol;
pub mod random;
pub mod replay;
pub mod report;
pub mod request_response_envelope;
pub mod run_laws;
pub mod runner;
pub mod sancov;
pub mod server;
pub mod shared_stats;
pub mod slot_table;
pub mod split_config;
pub mod split_loop;
pub mod state;
pub mod stream;
pub mod stream_laws;
pub mod table;
pub mod text;
pub mod time;
pub mod topology;
pub mod transport_error;
pub mod transport_laws;
pub mod utf8;
pub mod wakers;
pub mod well_known;
pub mod world;
pub mod xorshift;
