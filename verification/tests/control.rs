use portal::service::control::{
    handle_request, handle_shutdown, init, listener_step, request_content, shutdown_report,
    shutdown_request, ControlRequest, ControlResponse, ListenerAction, ListenerEvent,
    RequestContent, ResponseContent, ShutdownOutcome, ShutdownReport, DATAGRAM_BUFFER_LEN,
    SHORT_TIMEOUT_SECS,
};
use portal::util::context::{Context, ContextTree};
use portal::util::poll::Poll;

fn suspend(contexts: &mut ContextTree<u32>, ctx: Context, waker: u32) {
    let wait = contexts.cancelled(ctx);
    assert_eq!(contexts.poll(&wait, waker), Poll::Pending);
}

#[test]
fn shutdown_cancels_the_root_and_acknowledges() {
    let mut contexts: ContextTree<u32> = ContextTree::new();
    let root = contexts.new_context();
    let child = contexts.new_child(root);
    suspend(&mut contexts, root, 1);
    suspend(&mut contexts, child, 2);
    let (content, mut done) = handle_shutdown(&mut contexts, root);
    done.woken.sort();
    assert_eq!(content, ResponseContent::Shutdown);
    assert_eq!(done.woken, vec![1, 2]);
    assert_eq!(done.cancelled, vec![root.id(), child.id()]);
    assert!(contexts.is_cancelled(root));
    assert!(contexts.is_cancelled(child));
}

#[test]
fn a_second_shutdown_is_acknowledged_too() {
    let mut contexts: ContextTree<u32> = ContextTree::new();
    let root = contexts.new_context();
    handle_shutdown(&mut contexts, root);
    let (content, done) = handle_shutdown(&mut contexts, root);
    assert_eq!(content, ResponseContent::Shutdown);
    assert!(done.woken.is_empty());
    assert!(done.cancelled.is_empty());
    assert!(contexts.is_cancelled(root));
}

#[test]
fn a_shutdown_request_is_answered() {
    let mut contexts: ContextTree<u32> = ContextTree::new();
    let root = contexts.new_context();
    suspend(&mut contexts, root, 4);
    let (response, done) = handle_request(&mut contexts, root, RequestContent::Shutdown, true);
    assert_eq!(response, Some(ControlResponse { content: Some(ResponseContent::Shutdown) }));
    assert_eq!(done.woken, vec![4]);
    assert_eq!(done.cancelled, vec![root.id()]);
    assert!(contexts.is_cancelled(root));
}

#[test]
fn a_shutdown_request_that_cannot_be_answered_still_shuts_down() {
    let mut contexts: ContextTree<u32> = ContextTree::new();
    let root = contexts.new_context();
    let child = contexts.new_child(root);
    suspend(&mut contexts, child, 4);
    let (response, done) = handle_request(&mut contexts, root, RequestContent::Shutdown, false);
    assert_eq!(response, None);
    assert_eq!(done.woken, vec![4]);
    assert!(contexts.is_cancelled(root));
    assert!(contexts.is_cancelled(child));
}

#[test]
fn what_cannot_be_decoded_or_is_empty_is_dropped() {
    assert_eq!(request_content(None), None);
    assert_eq!(request_content(Some(ControlRequest { content: None })), None);
    assert_eq!(
        request_content(Some(ControlRequest { content: Some(RequestContent::Shutdown) })),
        Some(RequestContent::Shutdown)
    );
}

#[test]
fn the_request_for_a_shutdown() {
    assert_eq!(shutdown_request(), ControlRequest { content: Some(RequestContent::Shutdown) });
    assert_eq!(request_content(Some(shutdown_request())), Some(RequestContent::Shutdown));
}

#[test]
fn the_listener_dispatches_datagrams_and_stops_otherwise() {
    assert_eq!(listener_step(ListenerEvent::Received), ListenerAction::Dispatch);
    assert_eq!(listener_step(ListenerEvent::ReceiveFailed), ListenerAction::Stop);
    assert_eq!(listener_step(ListenerEvent::Cancelled), ListenerAction::Stop);
}

#[test]
fn a_socket_that_is_bound_starts_the_listener() {
    let mut contexts: ContextTree<u32> = ContextTree::new();
    let root = contexts.new_context();
    suspend(&mut contexts, root, 1);
    let (started, done) = init(&mut contexts, root, true);
    assert!(started);
    assert!(done.woken.is_empty());
    assert!(done.cancelled.is_empty());
    assert!(!contexts.is_cancelled(root));
}

#[test]
fn a_socket_that_cannot_be_bound_stops_the_process() {
    let mut contexts: ContextTree<u32> = ContextTree::new();
    let root = contexts.new_context();
    let child = contexts.new_child(root);
    suspend(&mut contexts, root, 1);
    suspend(&mut contexts, child, 2);
    let (started, mut done) = init(&mut contexts, root, false);
    done.woken.sort();
    assert!(!started);
    assert_eq!(done.woken, vec![1, 2]);
    assert_eq!(done.cancelled, vec![root.id(), child.id()]);
    assert!(contexts.is_cancelled(root));
    assert!(contexts.is_cancelled(child));
}

#[test]
fn what_the_requesting_side_reports() {
    assert_eq!(shutdown_report(ShutdownOutcome::TimedOut), ShutdownReport::RequestTimeout);
    assert_eq!(shutdown_report(ShutdownOutcome::Acknowledged), ShutdownReport::CommencingShutdown);
    assert_eq!(shutdown_report(ShutdownOutcome::Failed), ShutdownReport::ReceiveFailed);
    assert_eq!(ShutdownReport::RequestTimeout.as_str(), "request timeout");
    assert_eq!(ShutdownReport::CommencingShutdown.as_str(), "commencing shutdown...");
    assert_eq!(ShutdownReport::ReceiveFailed.as_str(), "failed to receive response");
    assert!(ShutdownReport::RequestTimeout.is_error());
    assert!(!ShutdownReport::CommencingShutdown.is_error());
    assert!(ShutdownReport::ReceiveFailed.is_error());
}

#[test]
fn the_limits_of_the_protocol() {
    assert_eq!(DATAGRAM_BUFFER_LEN, 1024);
    assert_eq!(SHORT_TIMEOUT_SECS, 1);
}
