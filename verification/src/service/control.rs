//! The remote control of the service: one request, one response, carried in
//! datagrams.
//!
//! Sockets and the wire encoding are the caller's. What is decided here is
//! what a request does to the service and what goes back, when the listener
//! stops, and what the requesting side makes of the answer or of its absence.

use crate::util::context::{Cancellation, Context, ContextTree};
use vstd::prelude::*;

verus! {

/// What a request asks for.
#[derive(Clone, Copy, Debug, PartialEq, Eq, Structural)]
pub enum RequestContent {
    /// Stop the service.
    Shutdown,
}

/// What a response acknowledges.
#[derive(Clone, Copy, Debug, PartialEq, Eq, Structural)]
pub enum ResponseContent {
    /// The service is stopping.
    Shutdown,
}

/// A request as it comes off the wire; a message may carry no content.
#[derive(Clone, Copy, Debug, PartialEq, Eq, Structural)]
pub struct ControlRequest {
    /// What is asked for, if anything.
    pub content: Option<RequestContent>,
}

/// A response as it goes onto the wire.
#[derive(Clone, Copy, Debug, PartialEq, Eq, Structural)]
pub struct ControlResponse {
    /// What is acknowledged, if anything.
    pub content: Option<ResponseContent>,
}

/// The size of the buffer that a datagram is received into, in bytes.
pub const DATAGRAM_BUFFER_LEN: usize = 1024;

/// How long the requesting side waits for the response, in seconds.
pub const SHORT_TIMEOUT_SECS: u64 = 1;

/// What the listener sees happen while it waits.
#[derive(Clone, Copy, Debug, PartialEq, Eq, Structural)]
pub enum ListenerEvent {
    /// A datagram arrived.
    Received,
    /// Receiving failed.
    ReceiveFailed,
    /// The root context was cancelled.
    Cancelled,
}

/// What the listener does next.
#[derive(Clone, Copy, Debug, PartialEq, Eq, Structural)]
pub enum ListenerAction {
    /// Hand the datagram to a handler of its own, which holds a duplicate
    /// of the listener's permit, and go on listening.
    Dispatch,
    /// Stop listening and give the listener's permit back.
    Stop,
}

/// How the wait of the requesting side for a response ended.
#[derive(Clone, Copy, Debug, PartialEq, Eq, Structural)]
pub enum ShutdownOutcome {
    /// No response came in time: the service cannot be reached.
    TimedOut,
    /// A response came.
    Acknowledged,
    /// Receiving the response failed.
    Failed,
}

/// What the requesting side tells its user.
#[derive(Clone, Copy, Debug, PartialEq, Eq, Structural)]
pub enum ShutdownReport {
    /// "request timeout", on the error stream.
    RequestTimeout,
    /// "commencing shutdown...", on the output stream.
    CommencingShutdown,
    /// "failed to receive response", with the error, on the error stream.
    ReceiveFailed,
}

impl ShutdownReport {
    /// Whether the report goes to the error stream.
    pub fn is_error(&self) -> (res: bool)
        ensures
            res == (*self != ShutdownReport::CommencingShutdown),
    {
        match self {
            ShutdownReport::CommencingShutdown => false,
            _ => true,
        }
    }

    /// The words of the report.
    pub open spec fn text(self) -> Seq<char> {
        match self {
            ShutdownReport::RequestTimeout => "request timeout"@,
            ShutdownReport::CommencingShutdown => "commencing shutdown..."@,
            ShutdownReport::ReceiveFailed => "failed to receive response"@,
        }
    }

    /// The words of the report.
    pub fn as_str(&self) -> (text: &'static str)
        ensures
            text@ == self.text(),
    {
        match self {
            ShutdownReport::RequestTimeout => "request timeout",
            ShutdownReport::CommencingShutdown => "commencing shutdown...",
            ShutdownReport::ReceiveFailed => "failed to receive response",
        }
    }
}

/// Starts the control service once its socket is bound, or gives up on the
/// whole process when it could not be bound: then the root context is
/// cancelled, and whoever holds the permit of the service lets it go.
///
/// Returns whether the listener starts, and what the cancellation did.
pub fn init<W>(contexts: &mut ContextTree<W>, root: Context, bound: bool) -> (res: (
    bool,
    Cancellation<W>,
))
    requires
        old(contexts).wf(),
        old(contexts)@.contains(root.id()),
    ensures
        final(contexts).wf(),
        res.0 == bound,
        bound ==> final(contexts)@ == old(contexts)@ && res.1.is_nothing(),
        !bound ==> final(contexts)@ == old(contexts)@.cancel(root.id()) && res.1.is_of(
            old(contexts)@,
            root.id(),
        ),
{
    if bound {
        (true, Cancellation::nothing())
    } else {
        let done = contexts.cancel(root);
        (false, done)
    }
}

/// One turn of the listener: a datagram gets a handler of its own; a
/// failure to receive, or the cancellation of the root context, ends the
/// listener.
pub fn listener_step(event: ListenerEvent) -> (action: ListenerAction)
    ensures
        action == match event {
            ListenerEvent::Received => ListenerAction::Dispatch,
            ListenerEvent::ReceiveFailed => ListenerAction::Stop,
            ListenerEvent::Cancelled => ListenerAction::Stop,
        },
{
    match event {
        ListenerEvent::Received => ListenerAction::Dispatch,
        ListenerEvent::ReceiveFailed => ListenerAction::Stop,
        ListenerEvent::Cancelled => ListenerAction::Stop,
    }
}

/// What a decoded request asks the handler to act on: its content, if the
/// message could be decoded and carries one. Anything else is dropped
/// without an answer.
pub fn request_content(decoded: Option<ControlRequest>) -> (content: Option<RequestContent>)
    ensures
        content == match decoded {
            Some(request) => request.content,
            None => None,
        },
{
    match decoded {
        Some(request) => request.content,
        None => None,
    }
}

/// Acts on a request, and says what goes back. What the request asks for is
/// done whether or not it can be answered: `reply_bound` tells whether a
/// socket to answer from could be bound, and only then is there a response
/// to send. What the cancellation did is returned along.
pub fn handle_request<W>(
    contexts: &mut ContextTree<W>,
    root: Context,
    content: RequestContent,
    reply_bound: bool,
) -> (res: (Option<ControlResponse>, Cancellation<W>))
    requires
        old(contexts).wf(),
        old(contexts)@.contains(root.id()),
    ensures
        final(contexts).wf(),
        res.0 == if reply_bound {
            Some(ControlResponse { content: Some(ResponseContent::Shutdown) })
        } else {
            None::<ControlResponse>
        },
        final(contexts)@ == old(contexts)@.cancel(root.id()),
        final(contexts)@.is_cancelled(root.id()),
        res.1.is_of(old(contexts)@, root.id()),
{
    let (response_content, done) = match content {
        RequestContent::Shutdown => handle_shutdown(contexts, root),
    };
    proof {
        assert(old(contexts)@.in_subtree(root.id(), root.id()));
    }
    if reply_bound {
        (Some(ControlResponse { content: Some(response_content) }), done)
    } else {
        (None, done)
    }
}

/// Shuts the service down: cancels the root context, and with it every
/// context below, and acknowledges.
pub fn handle_shutdown<W>(contexts: &mut ContextTree<W>, root: Context) -> (res: (
    ResponseContent,
    Cancellation<W>,
))
    requires
        old(contexts).wf(),
        old(contexts)@.contains(root.id()),
    ensures
        final(contexts).wf(),
        res.0 == ResponseContent::Shutdown,
        final(contexts)@ == old(contexts)@.cancel(root.id()),
        res.1.is_of(old(contexts)@, root.id()),
        forall|n: usize|
            old(contexts)@.contains(n) && old(contexts)@.in_subtree(root.id(), n)
                ==> final(contexts)@.is_cancelled(n),
{
    let done = contexts.cancel(root);
    (ResponseContent::Shutdown, done)
}

/// The request that asks the service to shut down.
pub fn shutdown_request() -> (request: ControlRequest)
    ensures
        request == (ControlRequest { content: Some(RequestContent::Shutdown) }),
{
    ControlRequest { content: Some(RequestContent::Shutdown) }
}

/// What the requesting side reports for each way its wait can end. A
/// response that does not come in time is no failure of the request, only a
/// sign that nobody listens.
pub fn shutdown_report(outcome: ShutdownOutcome) -> (report: ShutdownReport)
    ensures
        report == match outcome {
            ShutdownOutcome::TimedOut => ShutdownReport::RequestTimeout,
            ShutdownOutcome::Acknowledged => ShutdownReport::CommencingShutdown,
            ShutdownOutcome::Failed => ShutdownReport::ReceiveFailed,
        },
{
    match outcome {
        ShutdownOutcome::TimedOut => ShutdownReport::RequestTimeout,
        ShutdownOutcome::Acknowledged => ShutdownReport::CommencingShutdown,
        ShutdownOutcome::Failed => ShutdownReport::ReceiveFailed,
    }
}

} // verus!
