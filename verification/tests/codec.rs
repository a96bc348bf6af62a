use puzzle_client::codec::{decode, encode};
use puzzle_client::event::{Event, EventCategory, PieceIndex};

fn samples() -> Vec<Event> {
    vec![
        Event::PieceMoved { index: PieceIndex(3, 4), x: -120, y: 55 },
        Event::PiecePickedUp { player: 7, index: PieceIndex(0, 0) },
        Event::PiecePutDown { player: u64::MAX, index: PieceIndex(u32::MAX, 1) },
        Event::PieceConnectionCheck { first: PieceIndex(1, 2), second: PieceIndex(1, 3) },
        Event::PieceConnection { first: PieceIndex(10, 20), second: PieceIndex(11, 20) },
        Event::PlayerCursorMoved { player: 0, x: i32::MIN, y: i32::MAX },
        Event::PlayerDisconnected { player: 42 },
    ]
}

#[test]
fn every_variant_round_trips() {
    for e in samples() {
        let text = encode(&e);
        assert_eq!(decode(&text), Some(e), "text was {text:?}");
    }
}

#[test]
fn wire_text_of_every_variant() {
    let texts: Vec<String> = samples().iter().map(encode).collect();
    assert_eq!(texts[0], "moved 3 4 -120 55");
    assert_eq!(texts[1], "picked 7 0 0");
    assert_eq!(texts[2], "dropped 18446744073709551615 4294967295 1");
    assert_eq!(texts[3], "check 1 2 1 3");
    assert_eq!(texts[4], "joined 10 20 11 20");
    assert_eq!(texts[5], "cursor 0 -2147483648 2147483647");
    assert_eq!(texts[6], "left 42");
}

#[test]
fn decode_reads_each_word() {
    assert_eq!(
        decode("moved 0 0 0 0"),
        Some(Event::PieceMoved { index: PieceIndex(0, 0), x: 0, y: 0 })
    );
    assert_eq!(decode("left 0"), Some(Event::PlayerDisconnected { player: 0 }));
    assert_eq!(
        decode("check 5 6 5 7"),
        Some(Event::PieceConnectionCheck { first: PieceIndex(5, 6), second: PieceIndex(5, 7) })
    );
}

#[test]
fn decode_refuses_unknown_word() {
    assert_eq!(decode("jumped 1 2 3 4"), None);
    assert_eq!(decode("Moved 1 2 3 4"), None);
    assert_eq!(decode("move 1 2 3 4"), None);
    assert_eq!(decode(""), None);
    assert_eq!(decode(" "), None);
}

#[test]
fn decode_refuses_wrong_number_of_fields() {
    assert_eq!(decode("moved 1 2 3"), None);
    assert_eq!(decode("moved 1 2 3 4 5"), None);
    assert_eq!(decode("left"), None);
    assert_eq!(decode("left 1 2"), None);
    assert_eq!(decode("picked 1 2"), None);
    assert_eq!(decode("cursor 1 2"), None);
}

#[test]
fn decode_refuses_stray_spaces() {
    assert_eq!(decode(" moved 1 2 3 4"), None);
    assert_eq!(decode("moved 1 2 3 4 "), None);
    assert_eq!(decode("moved  1 2 3 4"), None);
    assert_eq!(decode("moved\t1 2 3 4"), None);
    assert_eq!(decode("moved 1 2 3 4\n"), None);
}

#[test]
fn decode_refuses_second_spellings_of_a_number() {
    assert_eq!(decode("moved 03 4 1 1"), None);
    assert_eq!(decode("moved 3 4 -0 1"), None);
    assert_eq!(decode("moved 3 4 +1 1"), None);
    assert_eq!(decode("moved 3 4 1 -01"), None);
    assert_eq!(decode("moved 3 4 - 1"), None);
    assert_eq!(decode("moved -3 4 1 1"), None);
    assert_eq!(decode("left 00"), None);
    assert_eq!(decode("left 1e3"), None);
    assert_eq!(decode("left 0x10"), None);
}

#[test]
fn decode_refuses_numbers_out_of_range() {
    assert_eq!(decode("moved 4294967296 0 0 0"), None);
    assert_eq!(decode("moved 0 0 2147483648 0"), None);
    assert_eq!(decode("moved 0 0 0 -2147483649"), None);
    assert_eq!(decode("left 18446744073709551616"), None);
    assert_eq!(decode("left 99999999999999999999999999999999"), None);
    assert_eq!(decode("cursor 1 -99999999999999999999999 0"), None);
    assert_eq!(
        decode("moved 4294967295 0 2147483647 -2147483648"),
        Some(Event::PieceMoved { index: PieceIndex(u32::MAX, 0), x: i32::MAX, y: i32::MIN })
    );
}

#[test]
fn decode_refuses_text_outside_ascii() {
    assert_eq!(decode("left ١"), None);
    assert_eq!(decode("moved 1 2 3 4é"), None);
    assert_eq!(decode("lëft 1"), None);
}

#[test]
fn decode_accepts_only_what_encode_writes() {
    for text in ["moved 3 4 -120 55", "left 42", "moved 3 4 -120 055", "left  42", "joined 1 1 1"] {
        match decode(text) {
            Some(e) => assert_eq!(encode(&e), text),
            None => {
                for e in samples() {
                    assert_ne!(encode(&e), text);
                }
            }
        }
    }
}

#[test]
fn categories_are_numbered_in_order() {
    let all = [
        EventCategory::PieceMoved,
        EventCategory::PiecePickedUp,
        EventCategory::PiecePutDown,
        EventCategory::PieceConnectionCheck,
        EventCategory::PieceConnection,
        EventCategory::PlayerCursorMoved,
        EventCategory::PlayerDisconnected,
    ];
    for (i, c) in all.iter().enumerate() {
        assert_eq!(c.index(), i);
        assert_eq!(EventCategory::from_index(i), Some(*c));
    }
    assert_eq!(EventCategory::from_index(7), None);
    for (e, c) in samples().iter().zip(all.iter()) {
        assert_eq!(e.category(), *c);
    }
}

#[test]
fn piece_index_has_row_and_column() {
    let i = PieceIndex(8, 9);
    assert_eq!(i.row(), 8);
    assert_eq!(i.col(), 9);
}
