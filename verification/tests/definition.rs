use puzzle_client::definition::{decode_definition, encode_definition};
use puzzle_client::event::{Event, PieceIndex};
use puzzle_client::puzzle::Puzzle;

#[test]
fn definition_of_a_new_puzzle() {
    let p = Puzzle::new(1, 2, 30, 40, 5).unwrap();
    assert_eq!(encode_definition(&p), "puzzle 1 2 30 40 5 0 0 0 0 - 1 0 0 0 -");
}

#[test]
fn definition_records_groups_locks_and_holders() {
    let mut p = Puzzle::new(2, 2, 10, 10, 2).unwrap();
    p.apply_event(Event::PieceMoved { index: PieceIndex(0, 0), x: -7, y: 9 });
    p.apply_event(Event::PieceMoved { index: PieceIndex(0, 1), x: 4, y: 8 });
    p.apply_event(Event::PieceConnectionCheck {
        first: PieceIndex(0, 0),
        second: PieceIndex(0, 1),
    });
    p.apply_event(Event::PiecePickedUp { player: 77, index: PieceIndex(1, 1) });
    let text = encode_definition(&p);
    assert_eq!(text, "puzzle 2 2 10 10 2 0 -7 9 1 - 0 -6 8 0 - 2 0 0 0 - 3 0 0 0 77");
    let q = decode_definition(&text).unwrap();
    for k in 0..4u32 {
        let i = p.piece_at(k);
        assert_eq!(q.group(&i), p.group(&i));
        assert_eq!(q.position(&i), p.position(&i));
        assert_eq!(q.piece_group_locked(&i), p.piece_group_locked(&i));
        assert_eq!(q.holder(&i), p.holder(&i));
    }
    assert_eq!(encode_definition(&q), text);
}

#[test]
fn decode_definition_reads_a_written_text() {
    let p = decode_definition("puzzle 1 2 30 40 5 1 0 0 0 7 1 100 -50 1 -").unwrap();
    assert_eq!(p.num_rows(), 1);
    assert_eq!(p.num_cols(), 2);
    assert_eq!(p.piece_width(), 30);
    assert_eq!(p.piece_height(), 40);
    assert_eq!(p.tolerance(), 5);
    assert_eq!(p.piece_count(), 2);
    assert_eq!(p.group(&PieceIndex(0, 0)), 1);
    assert_eq!(p.group(&PieceIndex(0, 1)), 1);
    assert_eq!(p.position(&PieceIndex(0, 0)), (100, -50));
    assert_eq!(p.position(&PieceIndex(0, 1)), (130, -50));
    assert!(p.piece_group_locked(&PieceIndex(0, 0)));
    assert_eq!(p.holder(&PieceIndex(0, 0)), Some(7));
    assert_eq!(p.holder(&PieceIndex(0, 1)), None);
}

#[test]
fn decode_definition_refuses_what_is_no_definition() {
    for text in [
        "",
        "hello",
        "moved 0 0 1 1",
        "puzzle",
        "puzzle 1 2 30 40",
        "puzzle 1 2 30 40 5",
        "puzzle 1 2 30 40 5 0 0 0 0 -",
        "puzzle 1 2 30 40 5 0 0 0 0 - 1 0 0 0 - 0 0 0 0 -",
        "puzzle 0 2 30 40 5",
        "puzzle 1 2 30 40 5 2 0 0 0 - 1 0 0 0 -",
        "puzzle 1 2 30 40 5 0 0 0 2 - 1 0 0 0 -",
        "puzzle 1 2 30 40 5 0 0 0 0 x 1 0 0 0 -",
        "puzzle 1 2 30 40 5 0 4294967297 0 0 - 1 0 0 0 -",
        "puzzle 1 2 30 40 5 0 0 -4294967297 0 - 1 0 0 0 -",
        "puzzle 1 2 30 40 5 00 0 0 0 - 1 0 0 0 -",
        "puzzle 1 2 30 40 5 0 0 0 0 - 1 0 0 0 - ",
        " puzzle 1 2 30 40 5 0 0 0 0 - 1 0 0 0 -",
        "puzzle 1 2 30 40 5 0 0 0 0 -  1 0 0 0 -",
        "puzzle 1 2 1073741824 40 5 0 0 0 0 - 1 0 0 0 -",
        "Puzzle 1 2 30 40 5 0 0 0 0 - 1 0 0 0 -",
        "puzzle 1 2 30 40 5 0 0 0 0 – 1 0 0 0 -",
    ] {
        assert!(decode_definition(text).is_none(), "accepted {text:?}");
    }
}

#[test]
fn decode_definition_accepts_origins_at_the_limit() {
    let text = "puzzle 1 1 1 1 0 0 4294967296 -4294967296 0 18446744073709551615";
    let p = decode_definition(text).unwrap();
    assert_eq!(p.position(&PieceIndex(0, 0)), (4294967296, -4294967296));
    assert_eq!(p.holder(&PieceIndex(0, 0)), Some(u64::MAX));
    assert_eq!(encode_definition(&p), text);
}
