use puzzle_client::event::{Event, PieceIndex};
use puzzle_client::puzzle::{neighbours, Puzzle};

fn two_by_three() -> Puzzle {
    Puzzle::new(2, 3, 100, 50, 5).unwrap()
}

#[test]
fn new_puzzle_has_every_piece_in_a_group_of_its_own() {
    let p = two_by_three();
    assert_eq!(p.num_rows(), 2);
    assert_eq!(p.num_cols(), 3);
    assert_eq!(p.piece_width(), 100);
    assert_eq!(p.piece_height(), 50);
    assert_eq!(p.tolerance(), 5);
    assert_eq!(p.piece_count(), 6);
    for k in 0..6u32 {
        let i = p.piece_at(k);
        assert_eq!(i, PieceIndex(k / 3, k % 3));
        assert_eq!(p.slot(&i), k as usize);
        assert_eq!(p.group(&i), k);
        assert!(!p.piece_group_locked(&i));
        assert_eq!(p.holder(&i), None);
        assert_eq!(p.position(&i), ((i.1 * 100) as i64, (i.0 * 50) as i64));
    }
}

#[test]
fn new_refuses_dimensions_that_do_not_fit() {
    assert!(Puzzle::new(0, 3, 10, 10, 1).is_none());
    assert!(Puzzle::new(3, 0, 10, 10, 1).is_none());
    assert!(Puzzle::new(65536, 65536, 1, 1, 1).is_none());
    assert!(Puzzle::new(1, 2, 0x4000_0000, 1, 1).is_none());
    assert!(Puzzle::new(2, 1, 1, 0x4000_0000, 1).is_none());
    assert!(Puzzle::new(1, 1, 0x7fff_ffff, 0x7fff_ffff, u32::MAX).is_some());
    assert!(Puzzle::new(1, 1, 0x8000_0000, 1, 0).is_none());
    assert!(Puzzle::new(1, 1, 0, 0, 0).is_some());
}

#[test]
fn contains_tells_pieces_of_the_grid() {
    let p = two_by_three();
    assert!(p.contains(&PieceIndex(1, 2)));
    assert!(!p.contains(&PieceIndex(2, 0)));
    assert!(!p.contains(&PieceIndex(0, 3)));
}

#[test]
fn neighbours_share_an_edge() {
    assert!(neighbours(&PieceIndex(1, 1), &PieceIndex(1, 2)));
    assert!(neighbours(&PieceIndex(1, 2), &PieceIndex(1, 1)));
    assert!(neighbours(&PieceIndex(0, 1), &PieceIndex(1, 1)));
    assert!(neighbours(&PieceIndex(1, 1), &PieceIndex(0, 1)));
    assert!(!neighbours(&PieceIndex(1, 1), &PieceIndex(1, 1)));
    assert!(!neighbours(&PieceIndex(0, 0), &PieceIndex(1, 1)));
    assert!(!neighbours(&PieceIndex(0, 0), &PieceIndex(0, 2)));
    assert!(!neighbours(&PieceIndex(0, u32::MAX), &PieceIndex(0, 0)));
}

#[test]
fn a_move_places_the_piece_and_yields_itself() {
    let mut p = two_by_three();
    let e = Event::PieceMoved { index: PieceIndex(1, 2), x: -40, y: 700 };
    assert_eq!(p.apply_event(e), vec![e]);
    assert_eq!(p.position(&PieceIndex(1, 2)), (-40, 700));
    assert_eq!(p.position(&PieceIndex(0, 0)), (0, 0));
    assert_eq!(p.position(&PieceIndex(1, 1)), (100, 50));
}

#[test]
fn a_move_at_the_edge_of_the_coordinate_range() {
    let mut p = Puzzle::new(1, 2, 0x3fff_ffff, 1, 0).unwrap();
    let e = Event::PieceMoved { index: PieceIndex(0, 1), x: i32::MIN, y: i32::MAX };
    assert_eq!(p.apply_event(e), vec![e]);
    assert_eq!(p.position(&PieceIndex(0, 1)), (i32::MIN as i64, i32::MAX as i64));
}

#[test]
fn an_event_for_a_piece_that_is_not_there_changes_nothing() {
    let mut p = two_by_three();
    let gone = PieceIndex(2, 0);
    assert_eq!(p.apply_event(Event::PieceMoved { index: gone, x: 1, y: 1 }), vec![]);
    assert_eq!(p.apply_event(Event::PiecePickedUp { player: 1, index: gone }), vec![]);
    assert_eq!(p.apply_event(Event::PiecePutDown { player: 1, index: gone }), vec![]);
    assert_eq!(
        p.apply_event(Event::PieceConnectionCheck { first: gone, second: PieceIndex(1, 0) }),
        vec![]
    );
    assert_eq!(
        p.apply_event(Event::PieceConnection { first: PieceIndex(1, 0), second: gone }),
        vec![]
    );
    for k in 0..6u32 {
        let i = p.piece_at(k);
        assert_eq!(p.group(&i), k);
        assert_eq!(p.position(&i), ((i.1 * 100) as i64, (i.0 * 50) as i64));
    }
}

#[test]
fn picking_up_and_putting_down_change_the_holder_only() {
    let mut p = two_by_three();
    let i = PieceIndex(0, 1);
    let up = Event::PiecePickedUp { player: 9, index: i };
    assert_eq!(p.apply_event(up), vec![up]);
    assert_eq!(p.holder(&i), Some(9));
    assert_eq!(p.holder(&PieceIndex(0, 0)), None);
    assert_eq!(p.position(&i), (100, 0));
    let down = Event::PiecePutDown { player: 9, index: i };
    assert_eq!(p.apply_event(down), vec![down]);
    assert_eq!(p.holder(&i), None);
}

#[test]
fn player_events_pass_through() {
    let mut p = two_by_three();
    let c = Event::PlayerCursorMoved { player: 3, x: 1, y: 2 };
    let d = Event::PlayerDisconnected { player: 3 };
    assert_eq!(p.apply_event(c), vec![c]);
    assert_eq!(p.apply_event(d), vec![d]);
    assert_eq!(p.group(&PieceIndex(1, 2)), 5);
}

#[test]
fn connection_check_joins_neighbours_that_lie_near() {
    let mut p = Puzzle::new(3, 3, 100, 50, 5).unwrap();
    let a = PieceIndex(1, 1);
    let b = PieceIndex(1, 2);
    p.apply_event(Event::PieceMoved { index: a, x: 1000, y: 1000 });
    p.apply_event(Event::PieceMoved { index: b, x: 1104, y: 995 });
    assert!(p.near(&a, &b));
    let derived = p.apply_event(Event::PieceConnectionCheck { first: a, second: b });
    assert_eq!(derived, vec![Event::PieceConnection { first: a, second: b }]);
    assert_eq!(p.group(&a), p.group(&b));
    assert_eq!(p.group(&a), 4);
    assert_eq!(p.position(&a), (1000, 1000));
    assert_eq!(p.position(&b), (1100, 1000));
    assert!(!p.piece_group_locked(&a));
    assert_eq!(p.group(&PieceIndex(0, 0)), 0);
}

#[test]
fn connection_check_leaves_far_pieces_apart() {
    let mut p = Puzzle::new(3, 3, 100, 50, 5).unwrap();
    let a = PieceIndex(1, 1);
    let b = PieceIndex(1, 2);
    p.apply_event(Event::PieceMoved { index: a, x: 1000, y: 1000 });
    p.apply_event(Event::PieceMoved { index: b, x: 1106, y: 1000 });
    assert!(!p.near(&a, &b));
    assert_eq!(p.apply_event(Event::PieceConnectionCheck { first: a, second: b }), vec![]);
    assert_ne!(p.group(&a), p.group(&b));
    assert_eq!(p.position(&b), (1106, 1000));
}

#[test]
fn connection_check_needs_neighbours_in_different_groups() {
    let mut p = Puzzle::new(3, 3, 100, 50, 5).unwrap();
    let a = PieceIndex(0, 0);
    let far = PieceIndex(2, 2);
    let diagonal = PieceIndex(1, 1);
    assert_eq!(p.apply_event(Event::PieceConnectionCheck { first: a, second: far }), vec![]);
    assert_eq!(p.apply_event(Event::PieceConnectionCheck { first: a, second: diagonal }), vec![]);
    assert_eq!(p.apply_event(Event::PieceConnectionCheck { first: a, second: a }), vec![]);
    let b = PieceIndex(1, 0);
    assert_eq!(
        p.apply_event(Event::PieceConnectionCheck { first: a, second: b }),
        vec![Event::PieceConnection { first: a, second: b }]
    );
    assert_eq!(p.apply_event(Event::PieceConnectionCheck { first: a, second: b }), vec![]);
    assert_eq!(p.apply_event(Event::PieceConnectionCheck { first: b, second: a }), vec![]);
}

#[test]
fn a_group_that_holds_a_whole_side_is_locked() {
    let mut p = Puzzle::new(2, 2, 10, 10, 0).unwrap();
    let a = PieceIndex(0, 0);
    let b = PieceIndex(0, 1);
    let derived = p.apply_event(Event::PieceConnectionCheck { first: a, second: b });
    assert_eq!(derived, vec![Event::PieceConnection { first: a, second: b }]);
    assert!(p.piece_group_locked(&a));
    assert!(p.piece_group_locked(&b));
    assert!(!p.piece_group_locked(&PieceIndex(1, 0)));
}

#[test]
fn a_group_inside_the_border_stays_loose() {
    let mut p = Puzzle::new(3, 4, 10, 10, 0).unwrap();
    let a = PieceIndex(1, 1);
    let b = PieceIndex(1, 2);
    p.apply_event(Event::PieceConnectionCheck { first: a, second: b });
    assert_eq!(p.group(&a), p.group(&b));
    assert!(!p.piece_group_locked(&a));
    p.apply_event(Event::PieceConnectionCheck { first: PieceIndex(1, 0), second: a });
    assert!(!p.piece_group_locked(&a));
    p.apply_event(Event::PieceConnectionCheck { first: b, second: PieceIndex(1, 3) });
    assert!(!p.piece_group_locked(&a));
    p.apply_event(Event::PieceConnectionCheck { first: PieceIndex(0, 0), second: PieceIndex(1, 0) });
    assert!(!p.piece_group_locked(&a));
    p.apply_event(Event::PieceConnectionCheck { first: PieceIndex(1, 0), second: PieceIndex(2, 0) });
    assert!(p.piece_group_locked(&a));
    assert!(p.piece_group_locked(&PieceIndex(2, 0)));
    assert!(!p.piece_group_locked(&PieceIndex(0, 1)));
}

#[test]
fn a_locked_group_stays_in_place_when_a_loose_piece_joins_it() {
    let mut p = Puzzle::new(2, 2, 10, 10, 3).unwrap();
    let a = PieceIndex(0, 0);
    let b = PieceIndex(0, 1);
    let c = PieceIndex(1, 0);
    p.apply_event(Event::PieceMoved { index: a, x: 500, y: 500 });
    p.apply_event(Event::PieceMoved { index: b, x: 510, y: 500 });
    p.apply_event(Event::PieceConnectionCheck { first: a, second: b });
    assert!(p.piece_group_locked(&a));
    p.apply_event(Event::PieceMoved { index: c, x: 502, y: 511 });
    let derived = p.apply_event(Event::PieceConnectionCheck { first: c, second: a });
    assert_eq!(derived, vec![Event::PieceConnection { first: c, second: a }]);
    assert_eq!(p.group(&c), p.group(&a));
    assert_eq!(p.position(&a), (500, 500));
    assert_eq!(p.position(&b), (510, 500));
    assert_eq!(p.position(&c), (500, 510));
    assert!(p.piece_group_locked(&c));
}

#[test]
fn the_first_piece_keeps_its_place_when_loose_groups_join() {
    let mut p = Puzzle::new(3, 3, 10, 10, 3).unwrap();
    let a = PieceIndex(1, 1);
    let b = PieceIndex(2, 1);
    p.apply_event(Event::PieceMoved { index: a, x: 100, y: 100 });
    p.apply_event(Event::PieceMoved { index: b, x: 98, y: 113 });
    p.apply_event(Event::PieceConnectionCheck { first: b, second: a });
    assert_eq!(p.position(&b), (98, 113));
    assert_eq!(p.position(&a), (98, 103));
    assert_eq!(p.group(&a), 7);
}

#[test]
fn a_connection_from_the_peer_joins_without_a_check() {
    let mut p = Puzzle::new(3, 3, 10, 10, 0).unwrap();
    let a = PieceIndex(1, 1);
    let b = PieceIndex(1, 2);
    p.apply_event(Event::PieceMoved { index: b, x: 900, y: 900 });
    let e = Event::PieceConnection { first: a, second: b };
    assert_eq!(p.apply_event(e), vec![e]);
    assert_eq!(p.group(&a), p.group(&b));
    assert_eq!(p.position(&b), (20, 10));
    assert_eq!(p.apply_event(e), vec![e]);
    let apart = Event::PieceConnection { first: a, second: PieceIndex(0, 0) };
    assert_eq!(p.apply_event(apart), vec![]);
}

#[test]
fn a_move_carries_the_whole_group() {
    let mut p = Puzzle::new(3, 3, 10, 20, 0).unwrap();
    let a = PieceIndex(1, 1);
    let b = PieceIndex(1, 2);
    let c = PieceIndex(2, 2);
    p.apply_event(Event::PieceConnection { first: a, second: b });
    p.apply_event(Event::PieceConnection { first: b, second: c });
    p.apply_event(Event::PieceMoved { index: c, x: -5, y: 7 });
    assert_eq!(p.position(&c), (-5, 7));
    assert_eq!(p.position(&b), (-5, -13));
    assert_eq!(p.position(&a), (-15, -13));
    assert_eq!(p.position(&PieceIndex(0, 0)), (0, 0));
    assert_eq!(p.position(&PieceIndex(2, 1)), (10, 40));
}

#[test]
fn applying_the_same_events_gives_the_same_store() {
    let events = [
        Event::PieceMoved { index: PieceIndex(0, 1), x: 112, y: 3 },
        Event::PiecePickedUp { player: 1, index: PieceIndex(0, 1) },
        Event::PieceConnectionCheck { first: PieceIndex(0, 0), second: PieceIndex(0, 1) },
        Event::PieceMoved { index: PieceIndex(0, 0), x: 10, y: 3 },
        Event::PieceConnectionCheck { first: PieceIndex(0, 0), second: PieceIndex(0, 1) },
        Event::PiecePutDown { player: 1, index: PieceIndex(0, 1) },
    ];
    let mut one = two_by_three();
    let mut two = two_by_three();
    for e in events {
        assert_eq!(one.apply_event(e), two.apply_event(e));
    }
    for k in 0..6u32 {
        let i = one.piece_at(k);
        assert_eq!(one.group(&i), two.group(&i));
        assert_eq!(one.position(&i), two.position(&i));
        assert_eq!(one.piece_group_locked(&i), two.piece_group_locked(&i));
        assert_eq!(one.holder(&i), two.holder(&i));
    }
    assert_eq!(one.group(&PieceIndex(0, 0)), one.group(&PieceIndex(0, 1)));
}
