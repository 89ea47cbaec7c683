//! Terminal delivery statuses and the policy that derives them from a
//! service's answer.
//!
//! Every dispatched batch eventually resolves to one terminal status:
//! `Delivered` on success, `Errored` on a transient failure (the upstream
//! buffer may retry from its own copy), or `Failed` on a permanent one (the
//! upstream drops the events). The [`ServiceLogic`] policy maps the outcome
//! of a service call to that status; [`StdServiceLogic`] is the standard
//! policy over a [`Response`]'s own notion of success and transience.

use vstd::prelude::*;

verus! {

/// The final outcome of an event's delivery attempt.
#[derive(Clone, Copy, Debug, PartialEq, Eq, Structural)]
pub enum EventStatus {
    Delivered,
    Errored,
    Failed,
}

/// The one error type the sink surfaces to its caller. It carries the
/// message of the service-readiness failure it collapses.
#[derive(Clone, Debug)]
pub struct SinkError {
    pub message: String,
}

impl SinkError {
    pub fn new(message: String) -> (r: Self)
        ensures
            r.message == message,
    {
        SinkError { message }
    }

    pub fn message(&self) -> (r: &String)
        ensures
            r == &self.message,
    {
        &self.message
    }
}

/// What a downstream service's answer can say about itself. Concrete
/// services decide what counts as success and what is worth retrying.
pub trait Response {
    /// Whether this response reports success.
    spec fn successful(&self) -> bool;

    /// Whether a non-successful response reports a transient condition.
    spec fn transient(&self) -> bool;

    fn is_successful(&self) -> (r: bool)
        ensures
            r == self.successful(),
    ;

    fn is_transient(&self) -> (r: bool)
        ensures
            r == self.transient(),
    ;
}

/// The unit response reports plain success, as a service with nothing to say
/// should.
impl Response for () {
    open spec fn successful(&self) -> bool {
        true
    }

    open spec fn transient(&self) -> bool {
        true
    }

    fn is_successful(&self) -> (r: bool) {
        true
    }

    fn is_transient(&self) -> (r: bool) {
        true
    }
}

/// A response described by two plain flags; hosts and tests can state any
/// combination of success and transience with it.
#[derive(Clone, Copy, Debug, PartialEq, Eq, Structural)]
pub struct BasicResponse {
    pub ok: bool,
    pub retryable: bool,
}

impl Response for BasicResponse {
    open spec fn successful(&self) -> bool {
        self.ok
    }

    open spec fn transient(&self) -> bool {
        self.retryable
    }

    fn is_successful(&self) -> (r: bool) {
        self.ok
    }

    fn is_transient(&self) -> (r: bool) {
        self.retryable
    }
}

/// The policy that turns the outcome of a service call into a terminal
/// status.
pub trait ServiceLogic {
    type Response: Response;

    /// The status this policy assigns to `result`.
    spec fn status_spec(&self, result: Result<Self::Response, SinkError>) -> EventStatus;

    fn result_status(&self, result: Result<Self::Response, SinkError>) -> (s: EventStatus)
        ensures
            s == self.status_spec(result),
    ;
}

/// The standard policy: an error is transient; a successful response is
/// delivered; a non-successful response is transient or permanent as the
/// response itself says.
#[derive(Debug)]
pub struct StdServiceLogic<R> {
    pub marker: core::marker::PhantomData<R>,
}

impl<R> Default for StdServiceLogic<R> {
    fn default() -> (r: Self) {
        StdServiceLogic { marker: core::marker::PhantomData }
    }
}

impl<R: Response> ServiceLogic for StdServiceLogic<R> {
    type Response = R;

    open spec fn status_spec(&self, result: Result<R, SinkError>) -> EventStatus {
        match result {
            Ok(resp) => if resp.successful() {
                EventStatus::Delivered
            } else if resp.transient() {
                EventStatus::Errored
            } else {
                EventStatus::Failed
            },
            Err(_) => EventStatus::Errored,
        }
    }

    fn result_status(&self, result: Result<R, SinkError>) -> (s: EventStatus) {
        match result {
            Ok(resp) => if resp.is_successful() {
                EventStatus::Delivered
            } else if resp.is_transient() {
                EventStatus::Errored
            } else {
                EventStatus::Failed
            },
            Err(_) => EventStatus::Errored,
        }
    }
}

} // verus!
