//! The session: everything that the update loop owns, and what it does in
//! each phase. One value holds the phase, the puzzle store, the ordering
//! stack, the event queues and the cursors of their consumers.

use tokio::sync::mpsc::{UnboundedReceiver, UnboundedSender};
use vstd::prelude::*;
use vstd::string::*;

use crate::codec::{decode, decoded, encode, wire_text};
use crate::definition::{decode_definition, decoded_definition};
use crate::event::{Event, EventCategory, PieceIndex, CATEGORY_COUNT};
use crate::puzzle::{lemma_apply_wf, lemma_slot_bound, Puzzle, PuzzleView};
use crate::relay::{
    advanced, appended, appended_all, caught_up, cursors_wf, lemma_advanced, lemma_appended,
    lemma_appended_all, lemma_caught_up, lemma_nothing_pending, lemma_pending_bound,
    lemma_pending_index_injective, lemma_pending_is_unseen, lemma_unseen_is_pending, pending,
    pending_index, pending_source, queues_wf, seen, unseen, EventQueues, ReadCursors,
};
use crate::stack::{lemma_raised, lemma_sunk, raised, sunk, PieceStack};
use crate::text::{decimal, push_decimal};
use crate::transport::{poll, try_send, Polled, PolledView};

verus! {

/// The phase of a session.
#[derive(Clone, Copy, Debug, PartialEq, Eq, Structural)]
pub enum AppState {
    /// No connection; one is about to be made.
    Connecting,
    /// Connected; waiting for the puzzle definition.
    Downloading,
    /// The puzzle is known; its pieces are being made, one per step.
    Cutting,
    /// All pieces are made; events flow both ways.
    Playing,
}

/// The state of a session as a mathematical value.
pub struct SessionView {
    pub state: AppState,
    pub puzzle: Option<PuzzleView>,
    /// The ordering stack, front first.
    pub stack: Seq<PieceIndex>,
    /// The number of pieces that have been made.
    pub current_piece: u32,
    /// The queue of every category.
    pub events: Seq<Seq<Event>>,
    /// For each category, how many events the relay has seen: those it has
    /// forwarded or has received itself.
    pub forwarded: Seq<usize>,
    /// How many moves the ordering stack has followed.
    pub moves_seen: usize,
    /// The status shown to the player.
    pub loading_message: Seq<char>,
}

/// Whether `stack` holds exactly the first `n` pieces of the puzzle, each once.
pub open spec fn stack_holds(stack: Seq<PieceIndex>, p: PuzzleView, n: int) -> bool {
    &&& stack.no_duplicates()
    &&& stack.len() == n
    &&& forall|x: PieceIndex| #[trigger] stack.contains(x) <==> (p.has(x) && p.slot(x) < n)
}

/// The status while piece number `done` of `total` is made.
pub open spec fn cutting_message(done: nat, total: nat) -> Seq<char> {
    "Cutting pieces ( "@ + decimal(done) + " / "@ + decimal(total) + " )"@
}

/// The texts of a sequence of messages.
pub open spec fn texts(v: Seq<String>) -> Seq<Seq<char>> {
    Seq::new(v.len(), |i: int| v[i]@)
}

impl SessionView {
    /// The invariant of a session: the cursors lie within their queues;
    /// without a connection or a definition there is no puzzle and no stack;
    /// while pieces are made the stack holds those that were made; while
    /// playing it holds every piece.
    pub open spec fn wf(self) -> bool {
        &&& queues_wf(self.events)
        &&& cursors_wf(self.events, self.forwarded)
        &&& self.moves_seen <= self.events[0].len()
        &&& match self.state {
            AppState::Connecting | AppState::Downloading => {
                &&& self.puzzle is None
                &&& self.stack.len() == 0
                &&& self.current_piece == 0
            },
            AppState::Cutting => {
                &&& self.puzzle is Some
                &&& self.puzzle->0.wf()
                &&& self.current_piece < self.puzzle->0.count()
                &&& stack_holds(self.stack, self.puzzle->0, self.current_piece as int)
            },
            AppState::Playing => {
                &&& self.puzzle is Some
                &&& self.puzzle->0.wf()
                &&& self.current_piece == self.puzzle->0.count()
                &&& stack_holds(self.stack, self.puzzle->0, self.current_piece as int)
            },
        }
    }

    /// A session that has just begun: no connection, nothing queued.
    pub open spec fn initial() -> SessionView {
        SessionView {
            state: AppState::Connecting,
            puzzle: None,
            stack: Seq::<PieceIndex>::empty(),
            current_piece: 0,
            events: Seq::new(CATEGORY_COUNT as nat, |c: int| Seq::<Event>::empty()),
            forwarded: Seq::new(CATEGORY_COUNT as nat, |c: int| 0usize),
            moves_seen: 0,
            loading_message: "Connecting to server"@,
        }
    }

    /// The session after its connection was lost: the puzzle and the stack
    /// are discarded. Queues and cursors stay.
    pub open spec fn disconnected(self) -> SessionView {
        SessionView {
            state: AppState::Connecting,
            puzzle: None,
            stack: Seq::<PieceIndex>::empty(),
            current_piece: 0,
            loading_message: "Reconnecting to server"@,
            ..self
        }
    }

    /// The session after a definition arrived: the puzzle is stored, and
    /// making the pieces starts with an empty stack.
    pub open spec fn cutting(self, p: PuzzleView) -> SessionView {
        SessionView {
            state: AppState::Cutting,
            puzzle: Some(p),
            stack: Seq::<PieceIndex>::empty(),
            current_piece: 0,
            ..self
        }
    }

    /// The session after a look into the inbound channel while it waits for
    /// the definition. A message that defines a puzzle starts the cutting;
    /// any other message is ignored. A closed channel ends the connection.
    pub open spec fn handshake(self, found: PolledView) -> SessionView {
        match found {
            PolledView::Message(text) => match decoded_definition(text) {
                Some(p) => self.cutting(p),
                None => self,
            },
            PolledView::Empty => self,
            PolledView::Disconnected => self.disconnected(),
        }
    }

    /// The piece that is made next.
    pub open spec fn next_piece(self) -> PieceIndex {
        self.puzzle->0.piece_at(self.current_piece as int)
    }

    /// The session after the next piece was made: the piece enters the
    /// stack, at the back if its group is locked and at the front if not, and
    /// playing starts once every piece is made.
    pub open spec fn cut(self) -> SessionView {
        let p = self.puzzle->0;
        let index = self.next_piece();
        SessionView {
            state: if self.current_piece + 1 >= p.count() {
                AppState::Playing
            } else {
                AppState::Cutting
            },
            stack: if p.locked(index) {
                self.stack.push(index)
            } else {
                seq![index] + self.stack
            },
            current_piece: (self.current_piece + 1) as u32,
            loading_message: cutting_message((self.current_piece + 1) as nat, p.count() as nat),
            ..self
        }
    }

    /// The session after a local event was queued.
    pub open spec fn queued(self, e: Event) -> SessionView {
        SessionView { events: appended(self.events, e), ..self }
    }
}

/// What applying a run of inbound messages to a puzzle gives.
pub struct Applied {
    /// The store after the messages.
    pub puzzle: PuzzleView,
    /// The events that the applications yielded, in order.
    pub derived: Seq<Event>,
    /// Whether one of the messages was no event.
    pub violation: bool,
}

/// Applies inbound messages to a puzzle in the order of their receipt.
///
/// A message that is the wire text of no event is a violation of the
/// protocol: it and every message after it are left unapplied.
pub open spec fn applied(p: PuzzleView, msgs: Seq<Seq<char>>) -> Applied
    decreases msgs.len(),
{
    if msgs.len() == 0 {
        Applied { puzzle: p, derived: Seq::<Event>::empty(), violation: false }
    } else {
        let before = applied(p, msgs.drop_last());
        if before.violation {
            before
        } else {
            match decoded(msgs.last()) {
                None => Applied { violation: true, ..before },
                Some(e) => Applied {
                    puzzle: before.puzzle.apply(e).0,
                    derived: before.derived + before.puzzle.apply(e).1,
                    violation: false,
                },
            }
        }
    }
}

/// The stack after the move `e` was followed: the moved piece sinks to the
/// back where its group is locked and rises to the front where it is not.
/// Other events, and moves of pieces that the puzzle does not have, leave
/// the stack as it is.
pub open spec fn restack_one(stack: Seq<PieceIndex>, p: PuzzleView, e: Event) -> Seq<PieceIndex> {
    match e {
        Event::PieceMoved { index, .. } => if p.has(index) {
            if p.locked(index) {
                sunk(stack, index)
            } else {
                raised(stack, index)
            }
        } else {
            stack
        },
        _ => stack,
    }
}

/// The stack after the moves `es` were followed, one after the other.
pub open spec fn restacked(stack: Seq<PieceIndex>, p: PuzzleView, es: Seq<Event>) -> Seq<
    PieceIndex,
>
    decreases es.len(),
{
    if es.len() == 0 {
        stack
    } else {
        restack_one(restacked(stack, p, es.drop_last()), p, es.last())
    }
}

/// What one tick of the relay met on the two channels.
#[derive(Debug)]
pub struct TickReport {
    /// How many messages the outbound channel accepted.
    pub forwarded: u128,
    /// Whether the outbound channel refused a message.
    pub send_failed: bool,
    /// The messages taken from the inbound channel, oldest first.
    pub received: Vec<String>,
    /// Whether the inbound channel was found closed.
    pub closed: bool,
    /// Whether one of the received messages was no event.
    pub violation: bool,
}

impl SessionView {
    /// The events that the relay has yet to forward, in the order in which
    /// it forwards them.
    pub open spec fn unsent(self) -> Seq<Event> {
        pending(self.events, self.forwarded)
    }

    /// The session after the relay has read `read` more events.
    pub open spec fn forwarded_to(self, read: nat) -> SessionView {
        SessionView { forwarded: advanced(self.events, self.forwarded, read), ..self }
    }

    /// The session after the outbound phase of a tick in which the channel
    /// accepted `sent` messages and then, if `failed`, refused one.
    ///
    /// The refused message counts as read too. A refusal ends the connection.
    pub open spec fn relayed(self, sent: nat, failed: bool) -> SessionView {
        if failed {
            self.forwarded_to(sent + 1).disconnected()
        } else {
            self.forwarded_to(sent)
        }
    }

    /// The session after the inbound phases of a tick in which `msgs` were
    /// received: the messages are applied to the store, the events that
    /// this yields are queued, and then the relay marks every queued event
    /// as seen. A violation of the protocol or a closed channel ends the
    /// connection after that.
    pub open spec fn received(self, msgs: Seq<Seq<char>>, closed: bool) -> SessionView {
        let a = applied(self.puzzle->0, msgs);
        let events = appended_all(self.events, a.derived);
        let s = SessionView {
            puzzle: Some(a.puzzle),
            events,
            forwarded: caught_up(events),
            ..self
        };
        if a.violation || closed {
            s.disconnected()
        } else {
            s
        }
    }

    /// Whether every queue has room for the events that applying `msgs`
    /// yields.
    pub open spec fn has_room(self, msgs: Seq<Seq<char>>) -> bool {
        forall|c: int|
            0 <= c < CATEGORY_COUNT ==> (#[trigger] self.events[c]).len() + applied(
                self.puzzle->0,
                msgs,
            ).derived.len() <= usize::MAX
    }

    /// The session after one tick of the relay in which the outbound
    /// channel accepted `sent` messages and, if `failed`, refused the next,
    /// and in which, if it refused none, `msgs` were received.
    pub open spec fn ticked(
        self,
        sent: nat,
        failed: bool,
        msgs: Seq<Seq<char>>,
        closed: bool,
    ) -> SessionView {
        if failed {
            self.relayed(sent, true)
        } else {
            self.relayed(sent, false).received(msgs, closed)
        }
    }

    /// The session after the ordering stack has followed the moves that it
    /// had not seen.
    pub open spec fn moves_followed(self) -> SessionView {
        SessionView {
            stack: restacked(
                self.stack,
                self.puzzle->0,
                self.events[0].skip(self.moves_seen as int),
            ),
            moves_seen: self.events[0].len() as usize,
            ..self
        }
    }
}

/// What one step of the update loop did.
#[derive(Debug)]
pub enum Progress {
    /// Nothing: the session has no connection, and one has to be made.
    NeedsConnection,
    /// It looked for the puzzle definition and found this.
    Handshake(Polled),
    /// It made this piece.
    Cut(PieceIndex),
    /// It ran one tick of the relay, and the ordering stack followed these moves.
    Tick(TickReport, Vec<Event>),
}

/// The session of one client.
pub struct Session {
    state: AppState,
    puzzle: Option<Puzzle>,
    stack: PieceStack,
    current_piece: u32,
    events: EventQueues,
    forwarded: ReadCursors,
    moves_seen: usize,
    loading_message: String,
}

impl View for Session {
    type V = SessionView;

    closed spec fn view(&self) -> SessionView {
        SessionView {
            state: self.state,
            puzzle: match self.puzzle {
                Some(p) => Some(p@),
                None => None,
            },
            stack: self.stack@,
            current_piece: self.current_piece,
            events: self.events@,
            forwarded: self.forwarded@,
            moves_seen: self.moves_seen,
            loading_message: self.loading_message@,
        }
    }
}

impl Session {
    /// The invariant of a session.
    pub open spec fn wf(&self) -> bool {
        self@.wf()
    }

    /// A session that has just begun.
    pub fn new() -> (s: Session)
        ensures
            s.wf(),
            s@ == SessionView::initial(),
    {
        let events = EventQueues::new();
        let forwarded = ReadCursors::new();
        let s = Session {
            state: AppState::Connecting,
            puzzle: None,
            stack: PieceStack::new(),
            current_piece: 0,
            events,
            forwarded,
            moves_seen: 0,
            loading_message: String::from_str("Connecting to server"),
        };
        s
    }

    /// The phase of the session.
    pub fn state(&self) -> (r: AppState)
        ensures
            r == self@.state,
    {
        self.state
    }

    /// The puzzle store, once a definition has arrived.
    pub fn puzzle(&self) -> (r: Option<&Puzzle>)
        ensures
            match r {
                Some(p) => self@.puzzle == Some(p@),
                None => self@.puzzle is None,
            },
    {
        self.puzzle.as_ref()
    }

    /// The ordering stack.
    pub fn stack(&self) -> (r: &PieceStack)
        ensures
            r@ == self@.stack,
    {
        &self.stack
    }

    /// The status shown to the player.
    pub fn loading_message(&self) -> (r: &str)
        ensures
            r@ == self@.loading_message,
    {
        self.loading_message.as_str()
    }

    /// The number of events of category `c` that were queued.
    pub fn queued_count(&self, c: EventCategory) -> (n: usize)
        requires
            self.wf(),
        ensures
            n == self@.events[c.ordinal()].len(),
    {
        proof {
            self.lemma_parts();
        }
        self.events.len(c)
    }

    /// Event `i` of the queue of category `c`.
    pub fn queued_event(&self, c: EventCategory, i: usize) -> (e: Event)
        requires
            self.wf(),
            i < self@.events[c.ordinal()].len(),
        ensures
            e == self@.events[c.ordinal()][i as int],
    {
        proof {
            self.lemma_parts();
        }
        self.events.get(c, i)
    }

    /// The number of events of category `c` that the relay has seen.
    pub fn forwarded_count(&self, c: EventCategory) -> (n: usize)
        requires
            self.wf(),
        ensures
            n == self@.forwarded[c.ordinal()],
    {
        self.forwarded.offset(c)
    }

    /// The parts of a well-formed session are well formed.
    proof fn lemma_parts(&self)
        requires
            self.wf(),
        ensures
            self.events.wf(),
            self.forwarded.wf(&self.events),
            self.stack.wf(),
            self.state == AppState::Cutting || self.state == AppState::Playing ==> self.puzzle
                is Some && self.puzzle->0.wf(),
    {
        assert forall|c: int| 0 <= c < CATEGORY_COUNT implies (#[trigger] self.events@[c]).len()
            <= usize::MAX by {
            assert(self@.forwarded[c] <= self@.events[c].len());
        }
    }

    /// Queues a local event. The relay forwards it on its next tick.
    pub fn send(&mut self, e: Event)
        requires
            old(self).wf(),
        ensures
            final(self).wf(),
            final(self)@ == old(self)@.queued(e),
    {
        proof {
            self.lemma_parts();
            lemma_appended(self@.events, e);
        }
        self.events.send(e);
    }

    /// Takes note that a connection is being made: the session now waits
    /// for the puzzle definition.
    pub fn connect(&mut self)
        requires
            old(self).wf(),
            old(self)@.state == AppState::Connecting,
        ensures
            final(self).wf(),
            final(self)@ == (SessionView { state: AppState::Downloading, ..old(self)@ }),
    {
        self.state = AppState::Downloading;
    }

    /// Gives up the connection: the puzzle and the stack are discarded.
    fn disconnect(&mut self)
        requires
            queues_wf(old(self)@.events),
            cursors_wf(old(self)@.events, old(self)@.forwarded),
            old(self)@.moves_seen <= old(self)@.events[0].len(),
        ensures
            final(self).wf(),
            final(self)@ == old(self)@.disconnected(),
    {
        self.state = AppState::Connecting;
        self.puzzle = None;
        self.stack = PieceStack::new();
        self.current_piece = 0;
        self.loading_message = String::from_str("Reconnecting to server");
    }

    /// Stores the puzzle and starts making its pieces, with an empty stack.
    pub fn cutting_setup(&mut self, puzzle: Puzzle)
        requires
            old(self).wf(),
            puzzle.wf(),
        ensures
            final(self).wf(),
            final(self)@ == old(self)@.cutting(puzzle@),
    {
        proof {
            let p = puzzle@;
            assert(p.count() >= 1) by (nonlinear_arith)
                requires
                    p.rows >= 1,
                    p.cols >= 1,
                    p.count() == p.rows * p.cols,
            ;
            assert forall|x: PieceIndex| p.has(x) implies p.slot(x) >= 0 by {
                lemma_slot_bound(p.rows as int, p.cols as int, x.0 as int, x.1 as int);
            }
        }
        self.state = AppState::Cutting;
        self.puzzle = Some(puzzle);
        self.stack = PieceStack::new();
        self.current_piece = 0;
    }

    /// Acts on what a look into the inbound channel found while the session
    /// waits for the puzzle definition.
    pub fn on_handshake(&mut self, found: &Polled)
        requires
            old(self).wf(),
            old(self)@.state == AppState::Downloading,
        ensures
            final(self).wf(),
            final(self)@ == old(self)@.handshake(found@),
    {
        match found {
            Polled::Message(text) => {
                match decode_definition(text.as_str()) {
                    Some(puzzle) => {
                        self.cutting_setup(puzzle);
                    },
                    None => {},
                }
            },
            Polled::Empty => {},
            Polled::Disconnected => {
                self.disconnect();
            },
        }
    }

    /// Looks once into the inbound channel for the puzzle definition, acts
    /// on what it finds, and hands that on.
    pub fn download_puzzle(&mut self, rx: &mut UnboundedReceiver<String>) -> (found: Polled)
        requires
            old(self).wf(),
            old(self)@.state == AppState::Downloading,
        ensures
            final(self).wf(),
            final(self)@ == old(self)@.handshake(found@),
    {
        let found = poll(rx);
        self.on_handshake(&found);
        found
    }

    /// Makes the next piece: names it, puts it into the stack, and sets the
    /// status. Playing starts once every piece is made.
    pub fn cut_pieces(&mut self) -> (index: PieceIndex)
        requires
            old(self).wf(),
            old(self)@.state == AppState::Cutting,
        ensures
            final(self).wf(),
            index == old(self)@.next_piece(),
            final(self)@ == old(self)@.cut(),
    {
        let ghost p = self@.puzzle->0;
        let ghost n = self.current_piece as int;
        let (index, locked, count) = match &self.puzzle {
            Some(puzzle) => {
                let index = puzzle.piece_at(self.current_piece);
                (index, puzzle.piece_group_locked(&index), puzzle.piece_count())
            },
            None => (PieceIndex(0, 0), false, 1),
        };
        let mut message = String::from_str("Cutting pieces ( ");
        push_decimal(&mut message, (self.current_piece + 1) as u64);
        message.append(" / ");
        push_decimal(&mut message, count as u64);
        message.append(" )");
        self.loading_message = message;
        proof {
            assert(!self.stack@.contains(index));
        }
        if locked {
            self.stack.push_bottom(index);
        } else {
            self.stack.push_top(index);
        }
        self.current_piece = self.current_piece + 1;
        if self.current_piece >= count {
            self.state = AppState::Playing;
        }
        proof {
            let before = old(self)@.stack;
            let after = self.stack@;
            assert forall|x: PieceIndex| #[trigger] after.contains(x) <==> (p.has(x) && p.slot(x) < n
                + 1) by {
                if after.contains(x) {
                    let i = choose|i: int| 0 <= i < after.len() && after[i] == x;
                    if locked {
                        if i < before.len() {
                            assert(before[i] == x);
                            assert(before.contains(x));
                        }
                    } else {
                        if i > 0 {
                            assert(before[i - 1] == x);
                            assert(before.contains(x));
                        }
                    }
                }
                if p.has(x) && p.slot(x) < n + 1 {
                    if p.slot(x) == n {
                        lemma_slot_bound(p.rows as int, p.cols as int, x.0 as int, x.1 as int);
                        assert(x == index);
                        if locked {
                            assert(after[after.len() - 1] == x);
                        } else {
                            assert(after[0] == x);
                        }
                    } else {
                        assert(before.contains(x));
                        let j = choose|j: int| 0 <= j < before.len() && before[j] == x;
                        if locked {
                            assert(after[j] == x);
                        } else {
                            assert(after[j + 1] == x);
                        }
                    }
                }
            }
        }
        index
    }

    /// The wire text of the next event that the relay has to forward, if
    /// there is one: the oldest unseen event of the first category that has
    /// one. The event then counts as seen.
    pub fn next_message(&mut self) -> (r: Option<String>)
        requires
            old(self).wf(),
        ensures
            final(self).wf(),
            match r {
                Some(text) => {
                    &&& old(self)@.unsent().len() > 0
                    &&& text@ == wire_text(old(self)@.unsent()[0])
                    &&& final(self)@ == old(self)@.forwarded_to(1)
                    &&& final(self)@.unsent() == old(self)@.unsent().skip(1)
                },
                None => old(self)@.unsent().len() == 0 && final(self)@ == old(self)@,
            },
    {
        proof {
            self.lemma_parts();
        }
        proof {
            assert(advanced(self@.events, self@.forwarded, 0) == self@.forwarded);
            assert(advanced(self@.events, self@.forwarded, 1) == crate::relay::advance_one(
                self@.events,
                advanced(self@.events, self@.forwarded, 0),
            ));
        }
        match self.forwarded.next(&self.events) {
            None => None,
            Some(e) => Some(encode(&e)),
        }
    }

    /// The outbound phase of a tick: forwards the events that the relay has
    /// not seen, category by category and oldest first, each in its wire
    /// form. Stops at the first message that the channel refuses, and then
    /// gives up the connection.
    ///
    /// Gives the number of messages that the channel accepted, and whether
    /// it refused one.
    pub fn forward_events(&mut self, tx: &UnboundedSender<String>) -> (r: (u128, bool))
        requires
            old(self).wf(),
            old(self)@.state == AppState::Playing,
        ensures
            final(self).wf(),
            r.0 <= old(self)@.unsent().len(),
            r.1 ==> r.0 < old(self)@.unsent().len(),
            !r.1 ==> r.0 == old(self)@.unsent().len(),
            final(self)@ == old(self)@.relayed(r.0 as nat, r.1),
    {
        let mut count: u128 = 0;
        proof {
            assert(pending(self@.events, self@.forwarded).skip(0) =~= pending(
                self@.events,
                self@.forwarded,
            ));
        }
        loop
            invariant
                self.wf(),
                old(self).wf(),
                self@ == old(self)@.forwarded_to(count as nat),
                count <= old(self)@.unsent().len(),
                self@.unsent() == old(self)@.unsent().skip(count as int),
            decreases self@.unsent().len(),
        {
            proof {
                self.lemma_parts();
                lemma_pending_bound(old(self)@.events, old(self)@.forwarded, 0);
            }
            match self.forwarded.next(&self.events) {
                None => {
                    return (count, false);
                },
                Some(e) => {
                    proof {
                        assert(old(self)@.unsent().skip(count as int).skip(1) =~= old(self)@.unsent().skip(count + 1));
                    }
                    let text = encode(&e);
                    if !try_send(tx, text) {
                        self.disconnect();
                        return (count, true);
                    }
                    count = count + 1;
                },
            }
        }
    }

    /// Takes from the inbound channel every message that waits there,
    /// oldest first, and tells whether the channel was found closed.
    fn drain(rx: &mut UnboundedReceiver<String>) -> (r: (Vec<String>, bool)) {
        let mut received: Vec<String> = Vec::new();
        let mut closed = false;
        let mut done = false;
        while !done && received.len() < usize::MAX
            invariant
                received@.len() <= usize::MAX,
            decreases
                    (if done {
                        0int
                    } else {
                        1 + usize::MAX - received@.len()
                    }),
        {
            match poll(rx) {
                Polled::Message(text) => {
                    received.push(text);
                },
                Polled::Empty => {
                    done = true;
                },
                Polled::Disconnected => {
                    closed = true;
                    done = true;
                },
            }
        }
        (received, closed)
    }

    /// The inbound phases of a tick, for the messages `received`: decodes
    /// and applies them in order, queues the events that this yields, and
    /// marks every queued event as seen by the relay, so that none of them
    /// is forwarded. A message that is no event, or a closed channel, ends
    /// the connection after that.
    ///
    /// Tells whether a message was no event.
    pub fn receive_events(&mut self, received: &Vec<String>, closed: bool) -> (violation: bool)
        requires
            old(self).wf(),
            old(self)@.state == AppState::Playing,
        ensures
            final(self).wf(),
            final(self)@ == old(self)@.received(texts(received@), closed),
            violation == applied(old(self)@.puzzle->0, texts(received@)).violation,
    {
        proof {
            self.lemma_parts();
        }
        let ghost msgs = texts(received@);
        let ghost start = self@.puzzle->0;
        let mut puzzle = match self.puzzle.take() {
            Some(p) => p,
            None => {
                return false;
            },
        };
        let mut derived: Vec<Event> = Vec::new();
        let mut violation = false;
        let mut i: usize = 0;
        proof {
            assert(msgs.take(0) =~= Seq::<Seq<char>>::empty());
        }
        while i < received.len()
            invariant
                i <= received@.len(),
                msgs == texts(received@),
                start.wf(),
                puzzle.wf(),
                puzzle@.rows == start.rows,
                puzzle@.cols == start.cols,
                applied(start, msgs.take(i as int)) == (Applied {
                    puzzle: puzzle@,
                    derived: derived@,
                    violation,
                }),
            decreases received@.len() - i,
        {
            proof {
                assert(msgs.take(i + 1).drop_last() =~= msgs.take(i as int));
                assert(msgs.take(i + 1).last() == received@[i as int]@);
            }
            if !violation {
                match decode(received[i].as_str()) {
                    None => {
                        violation = true;
                    },
                    Some(e) => {
                        proof {
                            lemma_apply_wf(puzzle@, e);
                        }
                        let mut more = puzzle.apply_event(e);
                        derived.append(&mut more);
                    },
                }
            }
            i = i + 1;
        }
        proof {
            assert(msgs.take(i as int) =~= msgs);
        }
        self.puzzle = Some(puzzle);
        let n = derived.len();
        let mut j: usize = 0;
        proof {
            assert(derived@.take(0) =~= Seq::<Event>::empty());
        }
        while j < n
            invariant
                j <= n,
                n == derived@.len(),
                self.events.wf(),
                self.events@ == appended_all(old(self)@.events, derived@.take(j as int)),
                self@ == (SessionView { events: self.events@, puzzle: self@.puzzle, ..old(self)@ }),
                self@.puzzle == Some(applied(start, msgs).puzzle),
            decreases n - j,
        {
            proof {
                assert(derived@.take(j + 1).drop_last() =~= derived@.take(j as int));
                assert(derived@.take(j + 1).last() == derived@[j as int]);
            }
            self.events.send(derived[j]);
            j = j + 1;
        }
        proof {
            assert(derived@.take(n as int) =~= derived@);
            lemma_appended_all(old(self)@.events, derived@);
            lemma_caught_up(self.events@);
        }
        self.forwarded.clear(&self.events);
        proof {
            let p = applied(start, msgs).puzzle;
            assert forall|x: PieceIndex| p.has(x) == start.has(x) && p.slot(x) == start.slot(x) by {}
            assert(self@.moves_seen <= self@.events[0].len());
        }
        if violation || closed {
            self.disconnect();
        }
        violation
    }

    /// One tick of the relay while playing.
    ///
    /// First the events that the relay has not seen are forwarded; a refused
    /// message ends the connection and the tick. Then the waiting inbound
    /// messages are taken, applied to the store, and the events that this
    /// yields are queued. Last the relay marks every queued event as seen,
    /// so that what came from the peer is never sent back to it.
    pub fn event_io(
        &mut self,
        tx: &UnboundedSender<String>,
        rx: &mut UnboundedReceiver<String>,
    ) -> (report: TickReport)
        requires
            old(self).wf(),
            old(self)@.state == AppState::Playing,
        ensures
            final(self).wf(),
            report.forwarded <= old(self)@.unsent().len(),
            report.send_failed ==> report.forwarded < old(self)@.unsent().len()
                && report.received@.len() == 0 && !report.closed && !report.violation,
            !report.send_failed ==> report.forwarded == old(self)@.unsent().len(),
            final(self)@ == old(self)@.ticked(
                report.forwarded as nat,
                report.send_failed,
                texts(report.received@),
                report.closed,
            ),
            !report.send_failed ==> report.violation == applied(
                old(self)@.puzzle->0,
                texts(report.received@),
            ).violation,
    {
        let (forwarded, send_failed) = self.forward_events(tx);
        if send_failed {
            return TickReport {
                forwarded,
                send_failed,
                received: Vec::new(),
                closed: false,
                violation: false,
            };
        }
        let (received, closed) = Session::drain(rx);
        let violation = self.receive_events(&received, closed);
        TickReport { forwarded, send_failed, received, closed, violation }
    }

    /// Lets the ordering stack follow the moves that it has not seen, oldest
    /// first: a moved piece sinks to the back where its group is locked and
    /// rises to the front where it is not.
    ///
    /// Gives the moves that were followed.
    pub fn move_piece(&mut self) -> (moves: Vec<Event>)
        requires
            old(self).wf(),
            old(self)@.state == AppState::Playing,
        ensures
            final(self).wf(),
            moves@ == old(self)@.events[0].skip(old(self)@.moves_seen as int),
            final(self)@ == old(self)@.moves_followed(),
    {
        proof {
            self.lemma_parts();
        }
        let ghost p = self@.puzzle->0;
        let ghost queue = self@.events[0];
        let ghost first = self.moves_seen;
        let n = self.events.len(EventCategory::PieceMoved);
        let mut moves: Vec<Event> = Vec::new();
        let mut i: usize = self.moves_seen;
        proof {
            assert(queue.subrange(first as int, first as int) =~= Seq::<Event>::empty());
        }
        while i < n
            invariant
                first <= i <= n,
                n == queue.len(),
                queue == self@.events[0],
                self.events.wf(),
                self.puzzle is Some,
                self.puzzle->0@ == p,
                p.wf(),
                stack_holds(self.stack@, p, p.count()),
                moves@ == queue.subrange(first as int, i as int),
                self.stack@ == restacked(old(self)@.stack, p, moves@),
                self@ == (SessionView { stack: self.stack@, ..old(self)@ }),
            decreases n - i,
        {
            let e = self.events.get(EventCategory::PieceMoved, i);
            proof {
                assert(queue.subrange(first as int, i + 1) =~= queue.subrange(
                    first as int,
                    i as int,
                ).push(e));
                assert(moves@.push(e).drop_last() =~= moves@);
            }
            moves.push(e);
            match e {
                Event::PieceMoved { index, .. } => {
                    let locked = match &self.puzzle {
                        Some(puzzle) => if puzzle.contains(&index) {
                            Some(puzzle.piece_group_locked(&index))
                        } else {
                            None
                        },
                        None => None,
                    };
                    proof {
                        if p.has(index) {
                            lemma_slot_bound(
                                p.rows as int,
                                p.cols as int,
                                index.0 as int,
                                index.1 as int,
                            );
                            assert(self.stack@.contains(index));
                        }
                    }
                    match locked {
                        Some(true) => {
                            self.stack.put_on_bottom(index);
                        },
                        Some(false) => {
                            self.stack.put_on_top(index);
                        },
                        None => {},
                    }
                },
                _ => {},
            }
            i = i + 1;
        }
        proof {
            assert(moves@ =~= queue.skip(first as int));
        }
        self.moves_seen = n;
        moves
    }

    /// The depth at which every piece is drawn, front to back: each piece
    /// with its depth multiplied by the number of pieces.
    ///
    /// The depths fall strictly from front to back and lie between
    /// `MIN_PIECE_HEIGHT` and `MAX_PIECE_HEIGHT`.
    pub fn sort_pieces(&self) -> (r: Vec<(PieceIndex, u128)>)
        ensures
            r@.len() == self@.stack.len(),
            forall|i: int|
                0 <= i < r@.len() ==> (#[trigger] r@[i]).0 == self@.stack[i] && r@[i].1
                    == crate::stack::scaled_depth(i, self@.stack.len() as int),
            forall|i: int|
                0 <= i < r@.len() ==> crate::stack::MIN_PIECE_HEIGHT * self@.stack.len() < (
                #[trigger] r@[i]).1 <= crate::stack::MAX_PIECE_HEIGHT * self@.stack.len(),
            forall|i: int, j: int|
                0 <= i < j < r@.len() ==> (#[trigger] r@[j]).1 < (#[trigger] r@[i]).1,
    {
        self.stack.depths()
    }

    /// One step of the update loop: what the session does in its phase.
    ///
    /// Without a connection it does nothing. While it waits for the
    /// definition it looks into the inbound channel once. While pieces are
    /// made it makes one. While playing it runs one tick of the relay and,
    /// if the connection is still there, lets the ordering stack follow the
    /// moves.
    pub fn update(&mut self, tx: &UnboundedSender<String>, rx: &mut UnboundedReceiver<String>) -> (r:
        Progress)
        requires
            old(self).wf(),
        ensures
            final(self).wf(),
            match r {
                Progress::NeedsConnection => old(self)@.state == AppState::Connecting && final(self)@ == old(self)@,
                Progress::Handshake(found) => old(self)@.state == AppState::Downloading && final(self)@ == old(self)@.handshake(found@),
                Progress::Cut(index) => old(self)@.state == AppState::Cutting && index == old(self)@.next_piece() && final(self)@ == old(self)@.cut(),
                Progress::Tick(report, moves) => {
                    let ticked = old(self)@.ticked(
                        report.forwarded as nat,
                        report.send_failed,
                        texts(report.received@),
                        report.closed,
                    );
                    &&& old(self)@.state == AppState::Playing
                    &&& report.forwarded <= old(self)@.unsent().len()
                    &&& report.send_failed ==> report.forwarded < old(self)@.unsent().len()
                    &&& !report.send_failed ==> report.forwarded == old(self)@.unsent().len()
                    &&& ticked.state == AppState::Playing ==> final(self)@
                        == ticked.moves_followed() && moves@ == ticked.events[0].skip(
                        ticked.moves_seen as int,
                    )
                    &&& ticked.state != AppState::Playing ==> final(self)@ == ticked && moves@.len()
                        == 0
                },
            },
    {
        match self.state {
            AppState::Connecting => Progress::NeedsConnection,
            AppState::Downloading => Progress::Handshake(self.download_puzzle(rx)),
            AppState::Cutting => Progress::Cut(self.cut_pieces()),
            AppState::Playing => {
                let report = self.event_io(tx, rx);
                let moves = match self.state {
                    AppState::Playing => self.move_piece(),
                    _ => Vec::new(),
                };
                Progress::Tick(report, moves)
            },
        }
    }
}

/// Applying inbound messages keeps the store well formed and the grid as it is.
pub proof fn lemma_applied_wf(p: PuzzleView, msgs: Seq<Seq<char>>)
    requires
        p.wf(),
    ensures
        applied(p, msgs).puzzle.wf(),
        applied(p, msgs).puzzle.rows == p.rows,
        applied(p, msgs).puzzle.cols == p.cols,
    decreases msgs.len(),
{
    if msgs.len() > 0 {
        lemma_applied_wf(p, msgs.drop_last());
        let before = applied(p, msgs.drop_last());
        if !before.violation {
            match decoded(msgs.last()) {
                None => {},
                Some(e) => {
                    lemma_apply_wf(before.puzzle, e);
                },
            }
        }
    }
}

/// The outbound phase of a tick keeps the session well formed.
pub proof fn lemma_relayed_wf(s: SessionView, sent: nat, failed: bool)
    requires
        s.wf(),
        sent <= s.unsent().len(),
        failed ==> sent < s.unsent().len(),
    ensures
        s.relayed(sent, failed).wf(),
        s.relayed(sent, failed).events == s.events,
        forall|c: int|
            0 <= c < CATEGORY_COUNT ==> s.forwarded[c] <= #[trigger] s.relayed(
                sent,
                failed,
            ).forwarded[c],
{
    if failed {
        lemma_advanced(s.events, s.forwarded, sent + 1);
    } else {
        lemma_advanced(s.events, s.forwarded, sent);
    }
}

/// The inbound phases of a tick keep the session well formed, keep every
/// queued event at its place, and leave every queued event seen by the relay.
pub proof fn lemma_received_wf(s: SessionView, msgs: Seq<Seq<char>>, closed: bool)
    requires
        s.wf(),
        s.state == AppState::Playing,
        s.has_room(msgs),
    ensures
        s.received(msgs, closed).wf(),
        s.received(msgs, closed).forwarded == caught_up(s.received(msgs, closed).events),
        s.received(msgs, closed).unsent().len() == 0,
        forall|c: int|
            0 <= c < CATEGORY_COUNT ==> (#[trigger] s.received(msgs, closed).events[c]).len()
                >= s.events[c].len(),
        forall|c: int, i: int|
            0 <= c < CATEGORY_COUNT && 0 <= i < s.events[c].len() ==> #[trigger] s.received(
                msgs,
                closed,
            ).events[c][i] == s.events[c][i],
{
    let p = s.puzzle->0;
    let a = applied(p, msgs);
    let t = s.received(msgs, closed);
    lemma_applied_wf(p, msgs);
    lemma_appended_all(s.events, a.derived);
    assert forall|c: int| 0 <= c < CATEGORY_COUNT implies (#[trigger] t.events[c]).len()
        <= usize::MAX by {
        assert(s.events[c].len() + a.derived.len() <= usize::MAX);
    }
    lemma_caught_up(t.events);
    assert(s.moves_seen <= s.events[0].len() <= t.events[0].len());
    assert forall|x: PieceIndex| a.puzzle.has(x) == p.has(x) && a.puzzle.slot(x) == p.slot(x) by {}
    assert(a.puzzle.count() == p.count());
}

/// An event that is queued and that the relay has not seen is forwarded
/// exactly once where no send fails.
///
/// It stands at one position among the events that the next tick forwards,
/// and no other unseen event stands at that position. After the outbound
/// phase of a tick that forwards them all, and after the whole tick, the
/// relay has seen it, and it remains in its queue at its place.
pub proof fn lemma_forwarded_exactly_once(
    s: SessionView,
    c: int,
    i: int,
    msgs: Seq<Seq<char>>,
    closed: bool,
)
    requires
        s.wf(),
        s.state == AppState::Playing,
        unseen(s.events, s.forwarded, c, i),
        s.has_room(msgs),
    ensures
        ({
            let k = pending_index(s.events, s.forwarded, c, i);
            let sent = s.relayed(s.unsent().len(), false);
            let t = s.ticked(s.unsent().len(), false, msgs, closed);
            &&& 0 <= k < s.unsent().len()
            &&& s.unsent()[k] == s.events[c][i]
            &&& forall|d: int, j: int|
                #[trigger] unseen(s.events, s.forwarded, d, j) && (d != c || j != i)
                    ==> pending_index(s.events, s.forwarded, d, j) != k
            &&& seen(sent.forwarded, c, i)
            &&& sent.unsent().len() == 0
            &&& seen(t.forwarded, c, i)
            &&& i < t.events[c].len()
            &&& t.events[c][i] == s.events[c][i]
            &&& t.unsent().len() == 0
        }),
{
    let n = s.unsent().len();
    let sent = s.relayed(n, false);
    lemma_unseen_is_pending(s.events, s.forwarded, c, i);
    assert forall|d: int, j: int|
        #[trigger] unseen(s.events, s.forwarded, d, j) && (d != c || j != i) implies pending_index(
        s.events,
        s.forwarded,
        d,
        j,
    ) != pending_index(s.events, s.forwarded, c, i) by {
        lemma_pending_index_injective(s.events, s.forwarded, c, i, d, j);
    }
    lemma_relayed_wf(s, n, false);
    lemma_advanced(s.events, s.forwarded, n);
    lemma_nothing_pending(s.events, sent.forwarded);
    assert(sent.has_room(msgs)) by {
        assert forall|k: int| 0 <= k < CATEGORY_COUNT implies (#[trigger] sent.events[k]).len()
            + applied(sent.puzzle->0, msgs).derived.len() <= usize::MAX by {
            assert(s.events[k].len() + applied(s.puzzle->0, msgs).derived.len() <= usize::MAX);
        }
    }
    lemma_received_wf(sent, msgs, closed);
    lemma_received_never_forwarded(sent, msgs, closed);
    let t = sent.received(msgs, closed);
    assert(t.events[c].len() >= s.events[c].len());
}

/// The events that a tick forwards are unseen events of the queues, and
/// nothing else: each position among them is the position of one such event.
pub proof fn lemma_only_unseen_forwarded(s: SessionView, k: int)
    requires
        s.wf(),
        0 <= k < s.unsent().len(),
    ensures
        exists|c: int, i: int| #[trigger] pending_source(s.events, s.forwarded, k, c, i),
{
    lemma_pending_is_unseen(s.events, s.forwarded, k);
}

/// What is received from the peer is never sent back to it: after the
/// inbound phases of a tick the relay has seen every queued event, those
/// that the tick queued among them, and nothing is left to forward.
pub proof fn lemma_received_never_forwarded(s: SessionView, msgs: Seq<Seq<char>>, closed: bool)
    requires
        s.wf(),
        s.state == AppState::Playing,
        s.has_room(msgs),
    ensures
        s.received(msgs, closed).unsent().len() == 0,
        forall|c: int, i: int|
            0 <= c < CATEGORY_COUNT && 0 <= i < s.received(msgs, closed).events[c].len()
                ==> #[trigger] seen(s.received(msgs, closed).forwarded, c, i),
{
    lemma_received_wf(s, msgs, closed);
}

/// What the relay has seen it has seen for good: no step of the session
/// moves a cursor back or takes an event from its place in a queue. So an
/// event that was seen in one tick is not among the events that any later
/// tick forwards.
pub proof fn lemma_seen_stays(
    s: SessionView,
    c: int,
    i: int,
    e: Event,
    found: PolledView,
    sent: nat,
    failed: bool,
    msgs: Seq<Seq<char>>,
    closed: bool,
)
    requires
        s.wf(),
        0 <= c < CATEGORY_COUNT,
        0 <= i < s.events[c].len(),
        seen(s.forwarded, c, i),
    ensures
        seen(s.queued(e).forwarded, c, i) && s.queued(e).events[c][i] == s.events[c][i],
        seen(s.handshake(found).forwarded, c, i) && s.handshake(found).events == s.events,
        seen(s.cut().forwarded, c, i) && s.cut().events == s.events,
        seen(s.moves_followed().forwarded, c, i) && s.moves_followed().events == s.events,
        seen(s.disconnected().forwarded, c, i) && s.disconnected().events == s.events,
        sent <= s.unsent().len() && (failed ==> sent < s.unsent().len()) ==> seen(
            s.relayed(sent, failed).forwarded,
            c,
            i,
        ) && s.relayed(sent, failed).events == s.events,
        s.state == AppState::Playing && s.has_room(msgs) ==> seen(
            s.received(msgs, closed).forwarded,
            c,
            i,
        ) && s.received(msgs, closed).events[c][i] == s.events[c][i],
{
    lemma_appended(s.events, e);
    if sent <= s.unsent().len() && (failed ==> sent < s.unsent().len()) {
        lemma_relayed_wf(s, sent, failed);
    }
    if s.state == AppState::Playing && s.has_room(msgs) {
        lemma_received_wf(s, msgs, closed);
        assert(s.received(msgs, closed).events[c].len() >= s.events[c].len());
    }
}

/// While playing, the ordering stack holds every piece of the puzzle
/// exactly once: its length is the number of pieces.
pub proof fn lemma_playing_stack_complete(s: SessionView)
    requires
        s.wf(),
        s.state == AppState::Playing,
    ensures
        s.stack.len() == s.puzzle->0.count(),
        s.stack.no_duplicates(),
        forall|x: PieceIndex| s.puzzle->0.has(x) ==> s.stack.contains(x),
        forall|x: PieceIndex| #[trigger] s.stack.contains(x) ==> s.puzzle->0.has(x),
{
    let p = s.puzzle->0;
    assert forall|x: PieceIndex| p.has(x) implies s.stack.contains(x) by {
        lemma_slot_bound(p.rows as int, p.cols as int, x.0 as int, x.1 as int);
    }
}

/// A move of a piece of the puzzle puts it at the front of the stack where
/// its group is not locked and at the back where it is; either way the
/// stack keeps its length and every piece exactly once.
pub proof fn lemma_move_restacks(s: SessionView, index: PieceIndex, x: i32, y: i32)
    requires
        s.wf(),
        s.state == AppState::Playing,
        s.puzzle->0.has(index),
    ensures
        ({
            let after = restack_one(s.stack, s.puzzle->0, Event::PieceMoved { index, x, y });
            &&& after.len() == s.stack.len()
            &&& after.no_duplicates()
            &&& !s.puzzle->0.locked(index) ==> after[0] == index
            &&& s.puzzle->0.locked(index) ==> after.last() == index
            &&& forall|z: PieceIndex| after.contains(z) <==> s.stack.contains(z)
        }),
{
    lemma_playing_stack_complete(s);
    lemma_raised(s.stack, index);
    lemma_sunk(s.stack, index);
}

} // verus!
