//! Core of a telemetry pipeline's egress layer: a partitioned batching sink.
//!
//! Events arrive one at a time, are grouped per partition key into size- or
//! time-bounded batches, dispatched as single requests, and acknowledged back
//! upstream in strict dispatch order even when the requests complete out of
//! order. The sink itself is a deterministic state machine: time, service
//! readiness and request completions enter it as plain values, and every
//! decision it makes is verified. An asynchronous host drives the machine,
//! performs the actual service calls, and feeds the outcomes back in.

pub mod batch;
pub mod internal_events;
pub mod partition;
pub mod service;
pub mod sink;
pub mod status;
