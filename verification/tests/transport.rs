use puzzle_client::transport::{ws_address, Worker, WorkerAction, WorkerEvent};

fn text(a: WorkerAction) -> String {
    format!("{a:?}")
}

#[test]
fn address_uses_the_scheme_asked_for() {
    assert_eq!(ws_address("example.org:8080", false), "ws://example.org:8080/client");
    assert_eq!(ws_address("example.org", true), "wss://example.org/client");
    assert_eq!(ws_address("", false), "ws:///client");
}

#[test]
fn text_frames_are_delivered_and_other_frames_discarded() {
    let mut w = Worker::start();
    assert_eq!(text(w.step(WorkerEvent::TextFrame("hi".to_string()))), "Deliver(\"hi\")");
    assert_eq!(text(w.step(WorkerEvent::OtherFrame)), "Discard");
    assert_eq!(w, Worker::start());
    assert!(!w.terminated());
}

#[test]
fn outbound_messages_are_written() {
    let mut w = Worker::start();
    assert_eq!(text(w.step(WorkerEvent::OutboundMessage("m".to_string()))), "Write(\"m\")");
    assert_eq!(w, Worker::start());
}

#[test]
fn a_failed_write_ends_both_loops() {
    let mut w = Worker::start();
    assert_eq!(text(w.step(WorkerEvent::WriteFailed)), "Cancel");
    assert_eq!(w, Worker { receiving: true, sending: false, cancelled: true });
    assert!(!w.terminated());
    assert_eq!(text(w.step(WorkerEvent::OutboundMessage("late".to_string()))), "Idle");
    assert_eq!(text(w.step(WorkerEvent::WriteFailed)), "Idle");
    assert_eq!(text(w.step(WorkerEvent::CancelObserved)), "Idle");
    assert!(w.terminated());
    assert_eq!(text(w.step(WorkerEvent::TextFrame("late".to_string()))), "Idle");
    assert_eq!(text(w.step(WorkerEvent::OtherFrame)), "Idle");
}

#[test]
fn a_closed_outbound_channel_fires_the_signal_once() {
    let mut w = Worker::start();
    assert_eq!(text(w.step(WorkerEvent::OutboundClosed)), "Cancel");
    assert_eq!(text(w.step(WorkerEvent::OutboundClosed)), "Idle");
    assert_eq!(w, Worker { receiving: true, sending: false, cancelled: true });
}

#[test]
fn a_closed_connection_ends_the_receive_loop_only() {
    let mut w = Worker::start();
    assert_eq!(text(w.step(WorkerEvent::ConnectionClosed)), "Idle");
    assert_eq!(w, Worker { receiving: false, sending: true, cancelled: false });
    assert!(!w.terminated());
    assert_eq!(text(w.step(WorkerEvent::OutboundMessage("m".to_string()))), "Write(\"m\")");
    assert_eq!(text(w.step(WorkerEvent::OutboundClosed)), "Cancel");
    assert!(w.terminated());
}

#[test]
fn a_signal_that_was_not_fired_is_not_observed() {
    let mut w = Worker::start();
    assert_eq!(text(w.step(WorkerEvent::CancelObserved)), "Idle");
    assert_eq!(w, Worker::start());
}

#[test]
fn a_failed_connect_ends_the_worker_at_once() {
    let mut w = Worker::start();
    assert_eq!(text(w.step(WorkerEvent::ConnectFailed)), "Idle");
    assert!(w.terminated());
    assert!(!w.cancelled);
}
