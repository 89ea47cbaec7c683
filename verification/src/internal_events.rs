//! Records of internal telemetry events around the sink's neighbouring
//! integrations. The records themselves are plain data; emitting them to a
//! log or a metrics registry is the host's business.

use vstd::prelude::*;

use crate::status::SinkError;

verus! {

/// An HTTP request of the metrics poller failed while being received.
pub struct EventStoreDbMetricsHttpError {
    pub error: SinkError,
}

impl EventStoreDbMetricsHttpError {
    pub fn new(error: SinkError) -> (r: Self)
        ensures
            r.error == error,
    {
        EventStoreDbMetricsHttpError { error }
    }
}

/// A metrics payload could not be parsed. The record keeps the parser's
/// message; the wire-facing parse error itself stays with the host.
pub struct EventStoreDbStatsParsingError {
    pub error: SinkError,
}

impl EventStoreDbStatsParsingError {
    pub fn new(error: SinkError) -> (r: Self)
        ensures
            r.error == error,
    {
        EventStoreDbStatsParsingError { error }
    }
}

/// A metrics payload was received and turned into events.
pub struct EventStoreDbMetricsReceived {
    pub count: usize,
    pub byte_size: usize,
}

impl EventStoreDbMetricsReceived {
    pub fn new(count: usize, byte_size: usize) -> (r: Self)
        ensures
            r.count == count,
            r.byte_size == byte_size,
    {
        EventStoreDbMetricsReceived { count, byte_size }
    }
}

} // verus!
