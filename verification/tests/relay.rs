use puzzle_client::event::{Event, EventCategory, PieceIndex};
use puzzle_client::relay::{EventQueues, ReadCursors};

fn moved(x: i32) -> Event {
    Event::PieceMoved { index: PieceIndex(0, 0), x, y: 0 }
}

fn left(player: u64) -> Event {
    Event::PlayerDisconnected { player }
}

fn picked(player: u64) -> Event {
    Event::PiecePickedUp { player, index: PieceIndex(0, 0) }
}

#[test]
fn events_are_queued_by_category_in_order() {
    let mut q = EventQueues::new();
    q.send(left(1));
    q.send(moved(1));
    q.send(moved(2));
    q.send(left(2));
    assert_eq!(q.len(EventCategory::PieceMoved), 2);
    assert_eq!(q.len(EventCategory::PlayerDisconnected), 2);
    assert_eq!(q.len(EventCategory::PieceConnection), 0);
    assert_eq!(q.get(EventCategory::PieceMoved, 0), moved(1));
    assert_eq!(q.get(EventCategory::PieceMoved, 1), moved(2));
    assert_eq!(q.get(EventCategory::PlayerDisconnected, 1), left(2));
}

#[test]
fn next_reads_category_by_category_oldest_first() {
    let mut q = EventQueues::new();
    let mut cur = ReadCursors::new();
    q.send(left(1));
    q.send(picked(5));
    q.send(moved(1));
    q.send(left(2));
    q.send(moved(2));
    let mut read = Vec::new();
    while let Some(e) = cur.next(&q) {
        read.push(e);
    }
    assert_eq!(read, vec![moved(1), moved(2), picked(5), left(1), left(2)]);
    assert_eq!(cur.next(&q), None);
    assert_eq!(cur.offset(EventCategory::PieceMoved), 2);
    assert_eq!(cur.offset(EventCategory::PiecePickedUp), 1);
    assert_eq!(cur.offset(EventCategory::PlayerDisconnected), 2);
    assert_eq!(cur.offset(EventCategory::PieceConnection), 0);
}

#[test]
fn every_event_is_read_once() {
    let mut q = EventQueues::new();
    let mut cur = ReadCursors::new();
    q.send(moved(1));
    assert_eq!(cur.next(&q), Some(moved(1)));
    assert_eq!(cur.next(&q), None);
    q.send(left(9));
    q.send(moved(2));
    assert_eq!(cur.next(&q), Some(moved(2)));
    assert_eq!(cur.next(&q), Some(left(9)));
    assert_eq!(cur.next(&q), None);
    assert_eq!(cur.next(&q), None);
}

#[test]
fn clear_marks_everything_as_seen() {
    let mut q = EventQueues::new();
    let mut cur = ReadCursors::new();
    q.send(moved(1));
    q.send(left(1));
    cur.clear(&q);
    assert_eq!(cur.next(&q), None);
    assert_eq!(cur.offset(EventCategory::PieceMoved), 1);
    assert_eq!(cur.offset(EventCategory::PlayerDisconnected), 1);
    q.send(moved(2));
    assert_eq!(cur.next(&q), Some(moved(2)));
}

#[test]
fn consumers_read_independently() {
    let mut q = EventQueues::new();
    let mut one = ReadCursors::new();
    let mut two = ReadCursors::new();
    q.send(moved(1));
    assert_eq!(one.next(&q), Some(moved(1)));
    q.send(moved(2));
    assert_eq!(two.next(&q), Some(moved(1)));
    assert_eq!(two.next(&q), Some(moved(2)));
    assert_eq!(one.next(&q), Some(moved(2)));
}
