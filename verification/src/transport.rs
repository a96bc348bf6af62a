//! The two channels between the update loop and the transport worker, and
//! the decisions of the worker's receive and send loops.

use tokio::sync::mpsc::error::TryRecvError;
use tokio::sync::mpsc::{UnboundedReceiver, UnboundedSender};
use vstd::prelude::*;
use vstd::string::*;

verus! {

/// The sending half of an unbounded tokio channel. Nothing of its state is
/// visible to proofs.
#[verifier::external_type_specification]
#[verifier::external_body]
#[verifier::reject_recursive_types(T)]
pub struct ExUnboundedSender<T>(UnboundedSender<T>);

/// The receiving half of an unbounded tokio channel. Nothing of its state
/// is visible to proofs.
#[verifier::external_type_specification]
#[verifier::external_body]
#[verifier::reject_recursive_types(T)]
pub struct ExUnboundedReceiver<T>(UnboundedReceiver<T>);

/// What a look into the inbound channel found.
#[derive(Debug)]
pub enum Polled {
    /// The oldest message that was waiting.
    Message(String),
    /// Nothing is waiting, and the worker still runs.
    Empty,
    /// Nothing is waiting, and the worker has ended.
    Disconnected,
}

/// What a look into the inbound channel found, as a mathematical value.
pub enum PolledView {
    Message(Seq<char>),
    Empty,
    Disconnected,
}

impl View for Polled {
    type V = PolledView;

    open spec fn view(&self) -> PolledView {
        match self {
            Polled::Message(text) => PolledView::Message(text@),
            Polled::Empty => PolledView::Empty,
            Polled::Disconnected => PolledView::Disconnected,
        }
    }
}

/// Calls `UnboundedSender::send`, which never waits, and tells whether the
/// message was accepted. The channel refuses a message once its receiving
/// half is closed or dropped; whether that is so depends on the other side,
/// so nothing is claimed of the result.
#[verifier::external_body]
pub(crate) fn try_send(tx: &UnboundedSender<String>, text: String) -> (accepted: bool) {
    tx.send(text).is_ok()
}

/// Calls `UnboundedReceiver::try_recv`, which never waits, and hands on what
/// it found. What is found depends on the other side, so nothing is claimed
/// of the result.
#[verifier::external_body]
pub(crate) fn poll(rx: &mut UnboundedReceiver<String>) -> (found: Polled) {
    match rx.try_recv() {
        Ok(text) => Polled::Message(text),
        Err(TryRecvError::Empty) => Polled::Empty,
        Err(TryRecvError::Disconnected) => Polled::Disconnected,
    }
}

/// The address of the server's endpoint for clients on `host`.
pub open spec fn address(host: Seq<char>, secure: bool) -> Seq<char> {
    (if secure {
        "wss://"@
    } else {
        "ws://"@
    }) + host + "/client"@
}

/// The address of the server's endpoint for clients on `host`, with the
/// secure scheme or the plain one.
pub fn ws_address(host: &str, secure: bool) -> (r: String)
    ensures
        r@ == address(host@, secure),
{
    let mut r = String::from_str(
        if secure {
            "wss://"
        } else {
            "ws://"
        },
    );
    r.append(host);
    r.append("/client");
    r
}

/// What reaches the worker.
#[derive(Debug)]
pub enum WorkerEvent {
    /// The connection could not be established.
    ConnectFailed,
    /// A text frame arrived.
    TextFrame(String),
    /// A frame that is not text arrived.
    OtherFrame,
    /// The connection ended.
    ConnectionClosed,
    /// The receive loop noticed the cancellation signal.
    CancelObserved,
    /// The update loop handed over a message to send.
    OutboundMessage(String),
    /// The update loop dropped its end of the outbound channel.
    OutboundClosed,
    /// Writing the last frame failed.
    WriteFailed,
}

/// What the worker does next.
#[derive(Debug)]
pub enum WorkerAction {
    /// Nothing.
    Idle,
    /// Hand the text to the update loop.
    Deliver(String),
    /// Discard the frame and note that it came.
    Discard,
    /// Write the text to the connection as one text frame.
    Write(String),
    /// Fire the cancellation signal.
    Cancel,
}

/// The state of a transport worker: which of its two loops still run, and
/// whether the cancellation signal was fired.
#[derive(Clone, Copy, Debug, PartialEq, Eq, Structural)]
pub struct Worker {
    pub receiving: bool,
    pub sending: bool,
    pub cancelled: bool,
}

/// The state of the worker after an event.
pub open spec fn worker_after(w: Worker, e: WorkerEvent) -> Worker {
    match e {
        WorkerEvent::ConnectFailed => Worker { receiving: false, sending: false, ..w },
        WorkerEvent::TextFrame(_) => w,
        WorkerEvent::OtherFrame => w,
        WorkerEvent::ConnectionClosed => Worker { receiving: false, ..w },
        WorkerEvent::CancelObserved => if w.cancelled {
            Worker { receiving: false, ..w }
        } else {
            w
        },
        WorkerEvent::OutboundMessage(_) => w,
        WorkerEvent::OutboundClosed => if w.sending {
            Worker { sending: false, cancelled: true, ..w }
        } else {
            w
        },
        WorkerEvent::WriteFailed => if w.sending {
            Worker { sending: false, cancelled: true, ..w }
        } else {
            w
        },
    }
}

/// What the worker does on an event.
pub open spec fn worker_action(w: Worker, e: WorkerEvent) -> WorkerAction {
    match e {
        WorkerEvent::TextFrame(text) => if w.receiving {
            WorkerAction::Deliver(text)
        } else {
            WorkerAction::Idle
        },
        WorkerEvent::OtherFrame => if w.receiving {
            WorkerAction::Discard
        } else {
            WorkerAction::Idle
        },
        WorkerEvent::OutboundMessage(text) => if w.sending {
            WorkerAction::Write(text)
        } else {
            WorkerAction::Idle
        },
        WorkerEvent::OutboundClosed => if w.sending {
            WorkerAction::Cancel
        } else {
            WorkerAction::Idle
        },
        WorkerEvent::WriteFailed => if w.sending {
            WorkerAction::Cancel
        } else {
            WorkerAction::Idle
        },
        _ => WorkerAction::Idle,
    }
}

impl Worker {
    /// A worker whose connection was just established: both loops run.
    pub fn start() -> (w: Worker)
        ensures
            w == (Worker { receiving: true, sending: true, cancelled: false }),
    {
        Worker { receiving: true, sending: true, cancelled: false }
    }

    /// Whether the worker has ended: both of its loops have.
    pub open spec fn ended(self) -> bool {
        !self.receiving && !self.sending
    }

    /// Whether the worker has ended: both of its loops have.
    pub fn terminated(&self) -> (r: bool)
        ensures
            r == self.ended(),
    {
        !self.receiving && !self.sending
    }

    /// Takes one event and says what the worker does next.
    ///
    /// A text frame is delivered and any other frame discarded while the
    /// receive loop runs. An outbound message is written while the send loop
    /// runs. The send loop ends when a write fails or the outbound channel
    /// closes, and then fires the cancellation signal; the receive loop ends
    /// when the connection closes or it notices that signal.
    pub fn step(&mut self, event: WorkerEvent) -> (action: WorkerAction)
        ensures
            *final(self) == worker_after(*old(self), event),
            action == worker_action(*old(self), event),
    {
        match event {
            WorkerEvent::ConnectFailed => {
                self.receiving = false;
                self.sending = false;
                WorkerAction::Idle
            },
            WorkerEvent::TextFrame(text) => {
                if self.receiving {
                    WorkerAction::Deliver(text)
                } else {
                    WorkerAction::Idle
                }
            },
            WorkerEvent::OtherFrame => {
                if self.receiving {
                    WorkerAction::Discard
                } else {
                    WorkerAction::Idle
                }
            },
            WorkerEvent::ConnectionClosed => {
                self.receiving = false;
                WorkerAction::Idle
            },
            WorkerEvent::CancelObserved => {
                if self.cancelled {
                    self.receiving = false;
                }
                WorkerAction::Idle
            },
            WorkerEvent::OutboundMessage(text) => {
                if self.sending {
                    WorkerAction::Write(text)
                } else {
                    WorkerAction::Idle
                }
            },
            WorkerEvent::OutboundClosed => {
                if self.sending {
                    self.sending = false;
                    self.cancelled = true;
                    WorkerAction::Cancel
                } else {
                    WorkerAction::Idle
                }
            },
            WorkerEvent::WriteFailed => {
                if self.sending {
                    self.sending = false;
                    self.cancelled = true;
                    WorkerAction::Cancel
                } else {
                    WorkerAction::Idle
                }
            },
        }
    }
}

/// The cancellation signal is fired once at most: when the send loop ends,
/// and never again after it has ended.
pub proof fn lemma_cancel_fires_once(w: Worker, e: WorkerEvent)
    ensures
        worker_action(w, e) == WorkerAction::Cancel ==> w.sending && !worker_after(w, e).sending
            && worker_after(w, e).cancelled,
        !w.sending ==> worker_action(w, e) != WorkerAction::Cancel && !worker_after(w, e).sending,
{
}

/// A loop that has ended stays ended, and a fired signal stays fired.
pub proof fn lemma_worker_winds_down(w: Worker, e: WorkerEvent)
    ensures
        !w.receiving ==> !worker_after(w, e).receiving,
        !w.sending ==> !worker_after(w, e).sending,
        w.cancelled ==> worker_after(w, e).cancelled,
{
}

/// After a failed write the send loop has ended and the signal is fired;
/// once the receive loop notices the signal, the worker has ended.
pub proof fn lemma_write_failure_ends_worker(w: Worker)
    requires
        w.sending,
    ensures
        worker_action(w, WorkerEvent::WriteFailed) == WorkerAction::Cancel,
        worker_after(worker_after(w, WorkerEvent::WriteFailed), WorkerEvent::CancelObserved).ended(),
{
}

/// A connection that cannot be established ends the worker at once, with
/// nothing delivered and nothing written.
pub proof fn lemma_connect_failure_ends_worker(w: Worker)
    ensures
        worker_after(w, WorkerEvent::ConnectFailed).ended(),
        worker_action(w, WorkerEvent::ConnectFailed) == WorkerAction::Idle,
{
}

} // verus!
