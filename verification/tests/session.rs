use puzzle_client::codec::encode;
use puzzle_client::definition::encode_definition;
use puzzle_client::event::{Event, EventCategory, PieceIndex};
use puzzle_client::puzzle::Puzzle;
use puzzle_client::session::{AppState, Progress, Session};
use puzzle_client::transport::Polled;
use tokio::sync::mpsc::{unbounded_channel, UnboundedReceiver, UnboundedSender};

struct Wires {
    /// What the session sends on.
    tx: UnboundedSender<String>,
    /// What the session receives from.
    rx: UnboundedReceiver<String>,
    /// The worker's end of the outbound channel.
    sent: UnboundedReceiver<String>,
    /// The worker's end of the inbound channel.
    peer: UnboundedSender<String>,
}

fn wires() -> Wires {
    let (tx, sent) = unbounded_channel();
    let (peer, rx) = unbounded_channel();
    Wires { tx, rx, sent, peer }
}

fn sent_so_far(w: &mut Wires) -> Vec<String> {
    let mut out = Vec::new();
    while let Ok(m) = w.sent.try_recv() {
        out.push(m);
    }
    out
}

fn order(s: &Session) -> Vec<PieceIndex> {
    s.stack().0.iter().copied().collect()
}

/// A session that plays the given puzzle.
fn playing(p: &Puzzle, w: &mut Wires) -> Session {
    let mut s = Session::new();
    s.connect();
    w.peer.send(encode_definition(p)).unwrap();
    s.download_puzzle(&mut w.rx);
    assert_eq!(s.state(), AppState::Cutting);
    while s.state() == AppState::Cutting {
        s.cut_pieces();
    }
    assert_eq!(s.state(), AppState::Playing);
    s
}

fn moved(r: u32, c: u32, x: i32, y: i32) -> Event {
    Event::PieceMoved { index: PieceIndex(r, c), x, y }
}

#[test]
fn a_new_session_is_connecting() {
    let s = Session::new();
    assert_eq!(s.state(), AppState::Connecting);
    assert!(s.puzzle().is_none());
    assert_eq!(s.stack().len(), 0);
    assert_eq!(s.loading_message(), "Connecting to server");
    assert_eq!(s.queued_count(EventCategory::PieceMoved), 0);
    assert_eq!(s.forwarded_count(EventCategory::PieceMoved), 0);
}

#[test]
fn connect_waits_for_the_definition() {
    let mut s = Session::new();
    s.connect();
    assert_eq!(s.state(), AppState::Downloading);
    assert_eq!(s.loading_message(), "Connecting to server");
}

#[test]
fn handshake_ignores_what_is_no_definition() {
    let mut w = wires();
    let mut s = Session::new();
    s.connect();
    w.peer.send("hello".to_string()).unwrap();
    w.peer.send("moved 0 0 1 1".to_string()).unwrap();
    let found = s.download_puzzle(&mut w.rx);
    assert!(matches!(found, Polled::Message(ref m) if m == "hello"));
    assert_eq!(s.state(), AppState::Downloading);
    assert!(s.puzzle().is_none());
    let found = s.download_puzzle(&mut w.rx);
    assert!(matches!(found, Polled::Message(ref m) if m == "moved 0 0 1 1"));
    assert_eq!(s.state(), AppState::Downloading);
    assert!(s.puzzle().is_none());
    assert!(matches!(s.download_puzzle(&mut w.rx), Polled::Empty));
    assert_eq!(s.state(), AppState::Downloading);
}

#[test]
fn handshake_waits_on_an_empty_channel() {
    let mut w = wires();
    let mut s = Session::new();
    s.connect();
    assert!(matches!(s.download_puzzle(&mut w.rx), Polled::Empty));
    assert_eq!(s.state(), AppState::Downloading);
}

#[test]
fn handshake_takes_the_definition() {
    let mut w = wires();
    let mut s = Session::new();
    s.connect();
    w.peer.send("puzzle 1 2 30 40 5 0 0 0 0 - 1 7 8 0 -".to_string()).unwrap();
    s.download_puzzle(&mut w.rx);
    assert_eq!(s.state(), AppState::Cutting);
    let p = s.puzzle().unwrap();
    assert_eq!(p.piece_count(), 2);
    assert_eq!(p.position(&PieceIndex(0, 1)), (37, 8));
    assert_eq!(s.stack().len(), 0);
}

#[test]
fn handshake_on_a_closed_channel_goes_back_to_connecting() {
    let mut w = wires();
    let mut s = Session::new();
    s.connect();
    drop(w.peer);
    assert!(matches!(s.download_puzzle(&mut w.rx), Polled::Disconnected));
    assert_eq!(s.state(), AppState::Connecting);
    assert_eq!(s.loading_message(), "Reconnecting to server");
}

#[test]
fn on_handshake_acts_on_each_finding() {
    let mut s = Session::new();
    s.connect();
    s.on_handshake(&Polled::Empty);
    assert_eq!(s.state(), AppState::Downloading);
    s.on_handshake(&Polled::Message("puzzle 1 1 1 1 1".to_string()));
    assert_eq!(s.state(), AppState::Downloading);
    s.on_handshake(&Polled::Message("puzzle 1 1 1 1 1 0 0 0 0 -".to_string()));
    assert_eq!(s.state(), AppState::Cutting);
    let mut t = Session::new();
    t.connect();
    t.on_handshake(&Polled::Disconnected);
    assert_eq!(t.state(), AppState::Connecting);
}

#[test]
fn cutting_makes_one_piece_per_step() {
    let mut w = wires();
    let mut s = Session::new();
    s.connect();
    w.peer.send("puzzle 2 2 10 10 1 0 0 0 0 - 1 0 0 1 - 2 0 0 0 - 3 0 0 1 -".to_string()).unwrap();
    s.download_puzzle(&mut w.rx);
    assert_eq!(s.cut_pieces(), PieceIndex(0, 0));
    assert_eq!(s.loading_message(), "Cutting pieces ( 1 / 4 )");
    assert_eq!(s.state(), AppState::Cutting);
    assert_eq!(order(&s), vec![PieceIndex(0, 0)]);
    assert_eq!(s.cut_pieces(), PieceIndex(0, 1));
    assert_eq!(s.loading_message(), "Cutting pieces ( 2 / 4 )");
    assert_eq!(order(&s), vec![PieceIndex(0, 0), PieceIndex(0, 1)]);
    assert_eq!(s.cut_pieces(), PieceIndex(1, 0));
    assert_eq!(order(&s), vec![PieceIndex(1, 0), PieceIndex(0, 0), PieceIndex(0, 1)]);
    assert_eq!(s.state(), AppState::Cutting);
    assert_eq!(s.cut_pieces(), PieceIndex(1, 1));
    assert_eq!(s.loading_message(), "Cutting pieces ( 4 / 4 )");
    assert_eq!(s.state(), AppState::Playing);
    assert_eq!(
        order(&s),
        vec![PieceIndex(1, 0), PieceIndex(0, 0), PieceIndex(0, 1), PieceIndex(1, 1)]
    );
}

#[test]
fn cutting_setup_starts_over_with_an_empty_stack() {
    let mut w = wires();
    let p = Puzzle::new(1, 3, 10, 10, 1).unwrap();
    let mut s = playing(&p, &mut w);
    assert_eq!(s.stack().len(), 3);
    s.cutting_setup(Puzzle::new(2, 2, 5, 5, 0).unwrap());
    assert_eq!(s.state(), AppState::Cutting);
    assert_eq!(s.stack().len(), 0);
    assert_eq!(s.puzzle().unwrap().piece_count(), 4);
    assert_eq!(s.cut_pieces(), PieceIndex(0, 0));
}

#[test]
fn local_events_are_forwarded_exactly_once() {
    let mut w = wires();
    let p = Puzzle::new(2, 2, 10, 10, 1).unwrap();
    let mut s = playing(&p, &mut w);
    let events = [
        Event::PlayerDisconnected { player: 4 },
        moved(0, 1, 50, 60),
        Event::PlayerCursorMoved { player: 1, x: 2, y: 3 },
        Event::PiecePickedUp { player: 1, index: PieceIndex(0, 1) },
        moved(1, 1, -5, -6),
        Event::PieceConnection { first: PieceIndex(0, 0), second: PieceIndex(0, 1) },
        Event::PieceConnectionCheck { first: PieceIndex(0, 0), second: PieceIndex(1, 0) },
        Event::PiecePutDown { player: 1, index: PieceIndex(0, 1) },
    ];
    for e in events {
        s.send(e);
    }
    let report = s.event_io(&w.tx, &mut w.rx);
    assert_eq!(report.forwarded, 8);
    assert!(!report.send_failed && !report.closed && !report.violation);
    assert!(report.received.is_empty());
    assert_eq!(
        sent_so_far(&mut w),
        vec![
            "moved 0 1 50 60",
            "moved 1 1 -5 -6",
            "picked 1 0 1",
            "dropped 1 0 1",
            "check 0 0 1 0",
            "joined 0 0 0 1",
            "cursor 1 2 3",
            "left 4",
        ]
    );
    assert_eq!(s.state(), AppState::Playing);
    let report = s.event_io(&w.tx, &mut w.rx);
    assert_eq!(report.forwarded, 0);
    assert!(sent_so_far(&mut w).is_empty());
    s.send(moved(0, 0, 1, 1));
    let report = s.event_io(&w.tx, &mut w.rx);
    assert_eq!(report.forwarded, 1);
    assert_eq!(sent_so_far(&mut w), vec!["moved 0 0 1 1"]);
}

#[test]
fn next_message_hands_out_each_wire_text_once() {
    let mut w = wires();
    let p = Puzzle::new(2, 2, 10, 10, 1).unwrap();
    let mut s = playing(&p, &mut w);
    s.send(Event::PlayerDisconnected { player: 4 });
    s.send(moved(0, 1, 50, 60));
    assert_eq!(s.next_message(), Some("moved 0 1 50 60".to_string()));
    assert_eq!(s.forwarded_count(EventCategory::PieceMoved), 1);
    assert_eq!(s.forwarded_count(EventCategory::PlayerDisconnected), 0);
    assert_eq!(s.next_message(), Some("left 4".to_string()));
    assert_eq!(s.next_message(), None);
    assert_eq!(s.forwarded_count(EventCategory::PlayerDisconnected), 1);
    let report = s.event_io(&w.tx, &mut w.rx);
    assert_eq!(report.forwarded, 0);
    assert!(sent_so_far(&mut w).is_empty());
}

#[test]
fn local_events_do_not_change_the_store() {
    let mut w = wires();
    let p = Puzzle::new(2, 2, 10, 10, 1).unwrap();
    let mut s = playing(&p, &mut w);
    s.send(moved(0, 1, 50, 60));
    s.event_io(&w.tx, &mut w.rx);
    assert_eq!(s.puzzle().unwrap().position(&PieceIndex(0, 1)), (10, 0));
}

#[test]
fn received_events_are_applied_and_never_sent_back() {
    let mut w = wires();
    let p = Puzzle::new(2, 2, 10, 10, 1).unwrap();
    let mut s = playing(&p, &mut w);
    let first = moved(1, 1, 300, 400);
    let second = Event::PlayerCursorMoved { player: 8, x: 1, y: 1 };
    w.peer.send(encode(&first)).unwrap();
    w.peer.send(encode(&second)).unwrap();
    let report = s.event_io(&w.tx, &mut w.rx);
    assert_eq!(report.forwarded, 0);
    assert_eq!(report.received, vec!["moved 1 1 300 400", "cursor 8 1 1"]);
    assert!(!report.closed && !report.violation && !report.send_failed);
    assert_eq!(s.puzzle().unwrap().position(&PieceIndex(1, 1)), (300, 400));
    assert_eq!(s.queued_count(EventCategory::PieceMoved), 1);
    assert_eq!(s.queued_event(EventCategory::PieceMoved, 0), first);
    assert_eq!(s.queued_count(EventCategory::PlayerCursorMoved), 1);
    assert_eq!(s.queued_event(EventCategory::PlayerCursorMoved, 0), second);
    assert_eq!(s.forwarded_count(EventCategory::PieceMoved), 1);
    assert_eq!(s.forwarded_count(EventCategory::PlayerCursorMoved), 1);
    assert!(sent_so_far(&mut w).is_empty());
    for _ in 0..3 {
        let report = s.event_io(&w.tx, &mut w.rx);
        assert_eq!(report.forwarded, 0);
    }
    assert!(sent_so_far(&mut w).is_empty());
}

#[test]
fn a_tick_forwards_local_events_and_keeps_back_received_ones() {
    let mut w = wires();
    let p = Puzzle::new(2, 2, 10, 10, 1).unwrap();
    let mut s = playing(&p, &mut w);
    s.send(moved(0, 0, 5, 5));
    w.peer.send(encode(&moved(1, 1, 9, 9))).unwrap();
    let report = s.event_io(&w.tx, &mut w.rx);
    assert_eq!(report.forwarded, 1);
    assert_eq!(report.received.len(), 1);
    assert_eq!(sent_so_far(&mut w), vec!["moved 0 0 5 5"]);
    assert_eq!(s.queued_count(EventCategory::PieceMoved), 2);
    assert_eq!(s.forwarded_count(EventCategory::PieceMoved), 2);
    s.send(moved(0, 1, 7, 7));
    s.event_io(&w.tx, &mut w.rx);
    assert_eq!(sent_so_far(&mut w), vec!["moved 0 1 7 7"]);
}

#[test]
fn a_received_check_yields_a_connection_that_is_queued() {
    let mut w = wires();
    let p = Puzzle::new(1, 2, 10, 10, 1).unwrap();
    let mut s = playing(&p, &mut w);
    let a = PieceIndex(0, 0);
    let b = PieceIndex(0, 1);
    w.peer.send(encode(&moved(0, 0, 100, 100))).unwrap();
    w.peer.send(encode(&moved(0, 1, 111, 99))).unwrap();
    w.peer.send(encode(&Event::PieceConnectionCheck { first: a, second: b })).unwrap();
    s.event_io(&w.tx, &mut w.rx);
    let store = s.puzzle().unwrap();
    assert_eq!(store.group(&a), store.group(&b));
    assert!(store.piece_group_locked(&a));
    assert!(store.piece_group_locked(&b));
    assert_eq!(store.position(&b), (110, 100));
    assert_eq!(s.queued_count(EventCategory::PieceConnectionCheck), 0);
    assert_eq!(s.queued_count(EventCategory::PieceConnection), 1);
    assert_eq!(
        s.queued_event(EventCategory::PieceConnection, 0),
        Event::PieceConnection { first: a, second: b }
    );
    s.event_io(&w.tx, &mut w.rx);
    assert!(sent_so_far(&mut w).is_empty());
}

#[test]
fn a_refused_send_ends_the_tick_and_the_connection() {
    let mut w = wires();
    let p = Puzzle::new(2, 2, 10, 10, 1).unwrap();
    let mut s = playing(&p, &mut w);
    s.send(moved(0, 0, 1, 1));
    s.send(moved(0, 1, 2, 2));
    s.send(Event::PlayerCursorMoved { player: 1, x: 0, y: 0 });
    s.send(Event::PlayerDisconnected { player: 1 });
    w.peer.send(encode(&moved(1, 1, 9, 9))).unwrap();
    let (closed_tx, closed_rx) = unbounded_channel::<String>();
    drop(closed_rx);
    let report = s.event_io(&closed_tx, &mut w.rx);
    assert!(report.send_failed);
    assert_eq!(report.forwarded, 0);
    assert!(report.received.is_empty());
    assert_eq!(s.state(), AppState::Connecting);
    assert_eq!(s.loading_message(), "Reconnecting to server");
    assert!(s.puzzle().is_none());
    assert_eq!(s.stack().len(), 0);
    assert_eq!(s.forwarded_count(EventCategory::PieceMoved), 1);
    assert_eq!(s.forwarded_count(EventCategory::PlayerCursorMoved), 0);
    assert_eq!(s.forwarded_count(EventCategory::PlayerDisconnected), 0);
    assert_eq!(s.queued_count(EventCategory::PieceMoved), 2);
    assert!(matches!(w.rx.try_recv(), Ok(ref m) if m == "moved 1 1 9 9"));
}

#[test]
fn earlier_categories_stay_forwarded_after_a_refused_send() {
    let mut w = wires();
    let p = Puzzle::new(2, 2, 10, 10, 1).unwrap();
    let mut s = playing(&p, &mut w);
    s.send(moved(0, 0, 1, 1));
    s.event_io(&w.tx, &mut w.rx);
    assert_eq!(s.forwarded_count(EventCategory::PieceMoved), 1);
    s.send(Event::PlayerCursorMoved { player: 1, x: 0, y: 0 });
    s.send(Event::PlayerDisconnected { player: 1 });
    drop(w.sent);
    let report = s.event_io(&w.tx, &mut w.rx);
    assert!(report.send_failed);
    assert_eq!(report.forwarded, 0);
    assert_eq!(s.state(), AppState::Connecting);
    assert_eq!(s.forwarded_count(EventCategory::PieceMoved), 1);
    assert_eq!(s.forwarded_count(EventCategory::PlayerCursorMoved), 1);
    assert_eq!(s.forwarded_count(EventCategory::PlayerDisconnected), 0);
}

#[test]
fn a_message_that_is_no_event_ends_the_connection() {
    let mut w = wires();
    let p = Puzzle::new(2, 2, 10, 10, 1).unwrap();
    let mut s = playing(&p, &mut w);
    w.peer.send(encode(&Event::PlayerDisconnected { player: 3 })).unwrap();
    w.peer.send("nonsense".to_string()).unwrap();
    w.peer.send(encode(&Event::PlayerDisconnected { player: 4 })).unwrap();
    let report = s.event_io(&w.tx, &mut w.rx);
    assert!(report.violation);
    assert!(!report.send_failed);
    assert_eq!(report.received.len(), 3);
    assert_eq!(s.state(), AppState::Connecting);
    assert!(s.puzzle().is_none());
    assert_eq!(s.queued_count(EventCategory::PlayerDisconnected), 1);
    assert_eq!(
        s.queued_event(EventCategory::PlayerDisconnected, 0),
        Event::PlayerDisconnected { player: 3 }
    );
    assert_eq!(s.forwarded_count(EventCategory::PlayerDisconnected), 1);
}

#[test]
fn a_closed_inbound_channel_ends_the_connection() {
    let mut w = wires();
    let p = Puzzle::new(2, 2, 10, 10, 1).unwrap();
    let mut s = playing(&p, &mut w);
    w.peer.send(encode(&Event::PlayerDisconnected { player: 3 })).unwrap();
    drop(w.peer);
    let report = s.event_io(&w.tx, &mut w.rx);
    assert!(report.closed);
    assert!(!report.violation && !report.send_failed);
    assert_eq!(report.received, vec!["left 3"]);
    assert_eq!(s.state(), AppState::Connecting);
    assert_eq!(s.queued_count(EventCategory::PlayerDisconnected), 1);
    assert_eq!(s.forwarded_count(EventCategory::PlayerDisconnected), 1);
}

#[test]
fn a_moved_loose_piece_rises_to_the_front() {
    let mut w = wires();
    let p = Puzzle::new(1, 3, 10, 10, 1).unwrap();
    let mut s = playing(&p, &mut w);
    assert_eq!(order(&s), vec![PieceIndex(0, 2), PieceIndex(0, 1), PieceIndex(0, 0)]);
    let a = PieceIndex(0, 0);
    s.send(moved(0, 0, 40, 40));
    let moves = s.move_piece();
    assert_eq!(moves, vec![moved(0, 0, 40, 40)]);
    assert_eq!(order(&s), vec![a, PieceIndex(0, 2), PieceIndex(0, 1)]);
    assert_eq!(s.stack().len(), 3);
    assert_eq!(s.move_piece(), vec![]);
    assert_eq!(order(&s), vec![a, PieceIndex(0, 2), PieceIndex(0, 1)]);
}

#[test]
fn a_moved_locked_piece_sinks_to_the_back() {
    let mut w = wires();
    let mut p = Puzzle::new(2, 2, 10, 10, 1).unwrap();
    p.apply_event(Event::PieceConnection { first: PieceIndex(0, 0), second: PieceIndex(0, 1) });
    let b = PieceIndex(0, 0);
    assert!(p.piece_group_locked(&b));
    let mut s = playing(&p, &mut w);
    assert_eq!(
        order(&s),
        vec![PieceIndex(1, 1), PieceIndex(1, 0), PieceIndex(0, 0), PieceIndex(0, 1)]
    );
    s.send(moved(0, 0, 40, 40));
    s.move_piece();
    assert_eq!(
        order(&s),
        vec![PieceIndex(1, 1), PieceIndex(1, 0), PieceIndex(0, 1), PieceIndex(0, 0)]
    );
    assert_eq!(*s.stack().0.back().unwrap(), b);
}

#[test]
fn moves_are_followed_in_order_and_strangers_ignored() {
    let mut w = wires();
    let p = Puzzle::new(1, 3, 10, 10, 1).unwrap();
    let mut s = playing(&p, &mut w);
    s.send(moved(0, 1, 1, 1));
    s.send(moved(5, 5, 1, 1));
    s.send(moved(0, 0, 1, 1));
    s.send(Event::PlayerDisconnected { player: 1 });
    let moves = s.move_piece();
    assert_eq!(moves.len(), 3);
    assert_eq!(order(&s), vec![PieceIndex(0, 0), PieceIndex(0, 1), PieceIndex(0, 2)]);
}

#[test]
fn the_stack_follows_moves_that_came_from_the_peer() {
    let mut w = wires();
    let p = Puzzle::new(1, 3, 10, 10, 1).unwrap();
    let mut s = playing(&p, &mut w);
    w.peer.send(encode(&moved(0, 0, 70, 70))).unwrap();
    match s.update(&w.tx, &mut w.rx) {
        Progress::Tick(report, moves) => {
            assert_eq!(report.received.len(), 1);
            assert_eq!(moves, vec![moved(0, 0, 70, 70)]);
        }
        other => panic!("unexpected {other:?}"),
    }
    assert_eq!(order(&s)[0], PieceIndex(0, 0));
    assert_eq!(s.puzzle().unwrap().position(&PieceIndex(0, 0)), (70, 70));
}

#[test]
fn the_stack_holds_every_piece_while_playing() {
    let mut w = wires();
    let p = Puzzle::new(3, 4, 10, 10, 2).unwrap();
    let mut s = playing(&p, &mut w);
    let inbound = [
        moved(1, 1, 100, 100),
        moved(1, 2, 111, 100),
        Event::PieceConnectionCheck { first: PieceIndex(1, 1), second: PieceIndex(1, 2) },
        moved(0, 0, -3, 8),
        Event::PieceConnection { first: PieceIndex(0, 0), second: PieceIndex(0, 1) },
        moved(2, 3, 5, 5),
    ];
    for e in inbound {
        w.peer.send(encode(&e)).unwrap();
        s.send(moved(2, 0, 1, 1));
        s.update(&w.tx, &mut w.rx);
        assert_eq!(s.state(), AppState::Playing);
        assert_eq!(s.stack().len(), 12);
        let mut seen = order(&s);
        seen.sort_by_key(|i| (i.0, i.1));
        seen.dedup();
        assert_eq!(seen.len(), 12);
    }
}

#[test]
fn sort_pieces_gives_depths_front_to_back() {
    let mut w = wires();
    let p = Puzzle::new(1, 2, 10, 10, 1).unwrap();
    let s = playing(&p, &mut w);
    assert_eq!(s.sort_pieces(), vec![(PieceIndex(0, 1), 1800), (PieceIndex(0, 0), 1400)]);
    assert_eq!(Session::new().sort_pieces(), vec![]);
}

#[test]
fn update_does_what_the_phase_asks() {
    let mut w = wires();
    let mut s = Session::new();
    assert!(matches!(s.update(&w.tx, &mut w.rx), Progress::NeedsConnection));
    assert_eq!(s.state(), AppState::Connecting);
    s.connect();
    assert!(matches!(s.update(&w.tx, &mut w.rx), Progress::Handshake(Polled::Empty)));
    w.peer.send("puzzle 1 2 3 4 5 0 0 0 0 - 1 0 0 0 -".to_string()).unwrap();
    assert!(matches!(s.update(&w.tx, &mut w.rx), Progress::Handshake(Polled::Message(_))));
    assert_eq!(s.state(), AppState::Cutting);
    assert!(matches!(s.update(&w.tx, &mut w.rx), Progress::Cut(PieceIndex(0, 0))));
    assert!(matches!(s.update(&w.tx, &mut w.rx), Progress::Cut(PieceIndex(0, 1))));
    assert_eq!(s.state(), AppState::Playing);
    s.send(moved(0, 0, 2, 2));
    match s.update(&w.tx, &mut w.rx) {
        Progress::Tick(report, moves) => {
            assert_eq!(report.forwarded, 1);
            assert_eq!(moves, vec![moved(0, 0, 2, 2)]);
        }
        other => panic!("unexpected {other:?}"),
    }
    drop(w.peer);
    match s.update(&w.tx, &mut w.rx) {
        Progress::Tick(report, moves) => {
            assert!(report.closed);
            assert!(moves.is_empty());
        }
        other => panic!("unexpected {other:?}"),
    }
    assert_eq!(s.state(), AppState::Connecting);
    assert!(matches!(s.update(&w.tx, &mut w.rx), Progress::NeedsConnection));
}

#[test]
fn a_session_reconnects_with_a_fresh_puzzle() {
    let mut w = wires();
    let p = Puzzle::new(1, 2, 10, 10, 1).unwrap();
    let mut s = playing(&p, &mut w);
    drop(w.sent);
    s.send(moved(0, 0, 1, 1));
    s.event_io(&w.tx, &mut w.rx);
    assert_eq!(s.state(), AppState::Connecting);
    let mut again = wires();
    s.connect();
    assert_eq!(s.state(), AppState::Downloading);
    again.peer.send(encode_definition(&Puzzle::new(1, 1, 10, 10, 1).unwrap())).unwrap();
    s.download_puzzle(&mut again.rx);
    assert_eq!(s.state(), AppState::Cutting);
    s.cut_pieces();
    assert_eq!(s.state(), AppState::Playing);
    assert_eq!(s.stack().len(), 1);
    let report = s.event_io(&again.tx, &mut again.rx);
    assert_eq!(report.forwarded, 0);
    assert!(sent_so_far(&mut again).is_empty());
}
