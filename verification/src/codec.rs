//! The wire form of events: one line of text per event, a word that names
//! the category followed by the event's numbers, separated by single spaces.

use vstd::prelude::*;
use vstd::string::*;
use vstd::utf8::is_ascii_chars;

use crate::event::{Event, EventCategory, PieceIndex};
use crate::text::{
    decimal, decimal_value, is_decimal, is_signed_decimal, join, lemma_decimal_digits,
    lemma_decimal_unique, lemma_decimal_value, lemma_join_ascii, lemma_join_split,
    lemma_signed_unique, lemma_signed_value, lemma_split_join, lemma_split_nonempty, no_space,
    parse_decimal, parse_signed, push_decimal, push_signed, signed_decimal, signed_value, span_is,
    split, split_fields,
};

verus! {

/// The word that names a category on the wire.
pub open spec fn tag(c: EventCategory) -> Seq<char> {
    match c {
        EventCategory::PieceMoved => "moved"@,
        EventCategory::PiecePickedUp => "picked"@,
        EventCategory::PiecePutDown => "dropped"@,
        EventCategory::PieceConnectionCheck => "check"@,
        EventCategory::PieceConnection => "joined"@,
        EventCategory::PlayerCursorMoved => "cursor"@,
        EventCategory::PlayerDisconnected => "left"@,
    }
}

/// The fields of an event on the wire: the category's word, then the numbers.
pub open spec fn fields(e: Event) -> Seq<Seq<char>> {
    match e {
        Event::PieceMoved { index, x, y } => seq![
            tag(EventCategory::PieceMoved),
            decimal(index.0 as nat),
            decimal(index.1 as nat),
            signed_decimal(x as int),
            signed_decimal(y as int),
        ],
        Event::PiecePickedUp { player, index } => seq![
            tag(EventCategory::PiecePickedUp),
            decimal(player as nat),
            decimal(index.0 as nat),
            decimal(index.1 as nat),
        ],
        Event::PiecePutDown { player, index } => seq![
            tag(EventCategory::PiecePutDown),
            decimal(player as nat),
            decimal(index.0 as nat),
            decimal(index.1 as nat),
        ],
        Event::PieceConnectionCheck { first, second } => seq![
            tag(EventCategory::PieceConnectionCheck),
            decimal(first.0 as nat),
            decimal(first.1 as nat),
            decimal(second.0 as nat),
            decimal(second.1 as nat),
        ],
        Event::PieceConnection { first, second } => seq![
            tag(EventCategory::PieceConnection),
            decimal(first.0 as nat),
            decimal(first.1 as nat),
            decimal(second.0 as nat),
            decimal(second.1 as nat),
        ],
        Event::PlayerCursorMoved { player, x, y } => seq![
            tag(EventCategory::PlayerCursorMoved),
            decimal(player as nat),
            signed_decimal(x as int),
            signed_decimal(y as int),
        ],
        Event::PlayerDisconnected { player } => seq![
            tag(EventCategory::PlayerDisconnected),
            decimal(player as nat),
        ],
    }
}

/// The wire text of an event.
pub open spec fn wire_text(e: Event) -> Seq<char> {
    join(fields(e))
}

/// The category that a word names, if it names one.
pub open spec fn tagged(t: Seq<char>) -> Option<EventCategory> {
    if t == tag(EventCategory::PieceMoved) {
        Some(EventCategory::PieceMoved)
    } else if t == tag(EventCategory::PiecePickedUp) {
        Some(EventCategory::PiecePickedUp)
    } else if t == tag(EventCategory::PiecePutDown) {
        Some(EventCategory::PiecePutDown)
    } else if t == tag(EventCategory::PieceConnectionCheck) {
        Some(EventCategory::PieceConnectionCheck)
    } else if t == tag(EventCategory::PieceConnection) {
        Some(EventCategory::PieceConnection)
    } else if t == tag(EventCategory::PlayerCursorMoved) {
        Some(EventCategory::PlayerCursorMoved)
    } else if t == tag(EventCategory::PlayerDisconnected) {
        Some(EventCategory::PlayerDisconnected)
    } else {
        None
    }
}

/// The 32-bit number that a field writes, if it is the numeral of one.
pub open spec fn read_u32(t: Seq<char>) -> Option<u32> {
    if is_decimal(t) && decimal_value(t) <= u32::MAX {
        Some(decimal_value(t) as u32)
    } else {
        None
    }
}

/// The 64-bit number that a field writes, if it is the numeral of one.
pub open spec fn read_u64(t: Seq<char>) -> Option<u64> {
    if is_decimal(t) && decimal_value(t) <= u64::MAX {
        Some(decimal_value(t) as u64)
    } else {
        None
    }
}

/// The signed 32-bit number that a field writes, if it is the numeral of one.
pub open spec fn read_i32(t: Seq<char>) -> Option<i32> {
    if is_signed_decimal(t) && i32::MIN <= signed_value(t) <= i32::MAX {
        Some(signed_value(t) as i32)
    } else {
        None
    }
}

/// The piece that two fields name, row first.
pub open spec fn read_index(r: Seq<char>, c: Seq<char>) -> Option<PieceIndex> {
    match (read_u32(r), read_u32(c)) {
        (Some(row), Some(col)) => Some(PieceIndex(row, col)),
        _ => None,
    }
}

/// The event that a sequence of fields writes, if it writes one.
pub open spec fn read_fields(ts: Seq<Seq<char>>) -> Option<Event> {
    if ts.len() == 0 {
        None
    } else {
        match tagged(ts[0]) {
            None => None,
            Some(EventCategory::PieceMoved) => if ts.len() != 5 {
                None
            } else {
                match (read_index(ts[1], ts[2]), read_i32(ts[3]), read_i32(ts[4])) {
                    (Some(index), Some(x), Some(y)) => Some(Event::PieceMoved { index, x, y }),
                    _ => None,
                }
            },
            Some(EventCategory::PiecePickedUp) => if ts.len() != 4 {
                None
            } else {
                match (read_u64(ts[1]), read_index(ts[2], ts[3])) {
                    (Some(player), Some(index)) => Some(Event::PiecePickedUp { player, index }),
                    _ => None,
                }
            },
            Some(EventCategory::PiecePutDown) => if ts.len() != 4 {
                None
            } else {
                match (read_u64(ts[1]), read_index(ts[2], ts[3])) {
                    (Some(player), Some(index)) => Some(Event::PiecePutDown { player, index }),
                    _ => None,
                }
            },
            Some(EventCategory::PieceConnectionCheck) => if ts.len() != 5 {
                None
            } else {
                match (read_index(ts[1], ts[2]), read_index(ts[3], ts[4])) {
                    (Some(first), Some(second)) => Some(
                        Event::PieceConnectionCheck { first, second },
                    ),
                    _ => None,
                }
            },
            Some(EventCategory::PieceConnection) => if ts.len() != 5 {
                None
            } else {
                match (read_index(ts[1], ts[2]), read_index(ts[3], ts[4])) {
                    (Some(first), Some(second)) => Some(Event::PieceConnection { first, second }),
                    _ => None,
                }
            },
            Some(EventCategory::PlayerCursorMoved) => if ts.len() != 4 {
                None
            } else {
                match (read_u64(ts[1]), read_i32(ts[2]), read_i32(ts[3])) {
                    (Some(player), Some(x), Some(y)) => Some(
                        Event::PlayerCursorMoved { player, x, y },
                    ),
                    _ => None,
                }
            },
            Some(EventCategory::PlayerDisconnected) => if ts.len() != 2 {
                None
            } else {
                match read_u64(ts[1]) {
                    Some(player) => Some(Event::PlayerDisconnected { player }),
                    None => None,
                }
            },
        }
    }
}

/// The event that a text writes on the wire, if it writes one.
pub open spec fn decoded(s: Seq<char>) -> Option<Event> {
    read_fields(split(s))
}

/// The words of the categories are ASCII without spaces, and no two
/// categories share a word.
pub proof fn lemma_tags(c: EventCategory)
    ensures
        is_ascii_chars(tag(c)),
        no_space(tag(c)),
        tagged(tag(c)) == Some(c),
{
    reveal_strlit("moved");
    reveal_strlit("picked");
    reveal_strlit("dropped");
    reveal_strlit("check");
    reveal_strlit("joined");
    reveal_strlit("cursor");
    reveal_strlit("left");
    let t = tag(c);
    assert forall|i: int| 0 <= i < t.len() implies '\0' <= #[trigger] t[i] <= '\u{7f}' && t[i]
        != ' ' by {
        if i == 0 {
        } else if i == 1 {
        } else if i == 2 {
        } else if i == 3 {
        } else if i == 4 {
        } else if i == 5 {
        } else if i == 6 {
        }
    }
    assert("moved"@[0] == 'm');
    assert("picked"@[0] == 'p');
    assert("dropped"@[0] == 'd');
    assert("check"@[1] == 'h');
    assert("joined"@[0] == 'j');
    assert("cursor"@[1] == 'u');
    assert("left"@[0] == 'l');
}

/// A written 32-bit number is read back, and is plain text.
proof fn lemma_u32_field(v: u32)
    ensures
        read_u32(decimal(v as nat)) == Some(v),
        no_space(decimal(v as nat)),
        is_ascii_chars(decimal(v as nat)),
{
    lemma_decimal_value(v as nat);
    lemma_decimal_digits(v as nat);
}

/// A written 64-bit number is read back, and is plain text.
proof fn lemma_u64_field(v: u64)
    ensures
        read_u64(decimal(v as nat)) == Some(v),
        no_space(decimal(v as nat)),
        is_ascii_chars(decimal(v as nat)),
{
    lemma_decimal_value(v as nat);
    lemma_decimal_digits(v as nat);
}

/// A written signed 32-bit number is read back, and is plain text.
proof fn lemma_i32_field(v: i32)
    ensures
        read_i32(signed_decimal(v as int)) == Some(v),
        no_space(signed_decimal(v as int)),
        is_ascii_chars(signed_decimal(v as int)),
{
    lemma_signed_value(v as int);
}

/// A field that reads as a 32-bit number is that number's numeral.
proof fn lemma_u32_text(t: Seq<char>)
    requires
        read_u32(t) is Some,
    ensures
        t == decimal(read_u32(t)->0 as nat),
{
    lemma_decimal_unique(t);
}

/// A field that reads as a 64-bit number is that number's numeral.
proof fn lemma_u64_text(t: Seq<char>)
    requires
        read_u64(t) is Some,
    ensures
        t == decimal(read_u64(t)->0 as nat),
{
    lemma_decimal_unique(t);
}

/// A field that reads as a signed 32-bit number is that number's numeral.
proof fn lemma_i32_text(t: Seq<char>)
    requires
        read_i32(t) is Some,
    ensures
        t == signed_decimal(read_i32(t)->0 as int),
{
    lemma_signed_unique(t);
}

/// A word that names a category is that category's word.
proof fn lemma_tagged_text(t: Seq<char>)
    requires
        tagged(t) is Some,
    ensures
        t == tag(tagged(t)->0),
{
}

/// The fields of an event are plain text without spaces, and there is at
/// least one.
pub proof fn lemma_fields_plain(e: Event)
    ensures
        fields(e).len() >= 1,
        forall|i: int| 0 <= i < fields(e).len() ==> no_space(#[trigger] fields(e)[i]),
        forall|i: int| 0 <= i < fields(e).len() ==> is_ascii_chars(#[trigger] fields(e)[i]),
{
    lemma_tags(e.kind());
    match e {
        Event::PieceMoved { index, x, y } => {
            lemma_u32_field(index.0);
            lemma_u32_field(index.1);
            lemma_i32_field(x);
            lemma_i32_field(y);
        },
        Event::PiecePickedUp { player, index } => {
            lemma_u64_field(player);
            lemma_u32_field(index.0);
            lemma_u32_field(index.1);
        },
        Event::PiecePutDown { player, index } => {
            lemma_u64_field(player);
            lemma_u32_field(index.0);
            lemma_u32_field(index.1);
        },
        Event::PieceConnectionCheck { first, second } => {
            lemma_u32_field(first.0);
            lemma_u32_field(first.1);
            lemma_u32_field(second.0);
            lemma_u32_field(second.1);
        },
        Event::PieceConnection { first, second } => {
            lemma_u32_field(first.0);
            lemma_u32_field(first.1);
            lemma_u32_field(second.0);
            lemma_u32_field(second.1);
        },
        Event::PlayerCursorMoved { player, x, y } => {
            lemma_u64_field(player);
            lemma_i32_field(x);
            lemma_i32_field(y);
        },
        Event::PlayerDisconnected { player } => {
            lemma_u64_field(player);
        },
    }
}

/// The fields of an event read back as that event.
pub proof fn lemma_read_written(e: Event)
    ensures
        read_fields(fields(e)) == Some(e),
{
    lemma_tags(e.kind());
    match e {
        Event::PieceMoved { index, x, y } => {
            lemma_u32_field(index.0);
            lemma_u32_field(index.1);
            lemma_i32_field(x);
            lemma_i32_field(y);
        },
        Event::PiecePickedUp { player, index } => {
            lemma_u64_field(player);
            lemma_u32_field(index.0);
            lemma_u32_field(index.1);
        },
        Event::PiecePutDown { player, index } => {
            lemma_u64_field(player);
            lemma_u32_field(index.0);
            lemma_u32_field(index.1);
        },
        Event::PieceConnectionCheck { first, second } => {
            lemma_u32_field(first.0);
            lemma_u32_field(first.1);
            lemma_u32_field(second.0);
            lemma_u32_field(second.1);
        },
        Event::PieceConnection { first, second } => {
            lemma_u32_field(first.0);
            lemma_u32_field(first.1);
            lemma_u32_field(second.0);
            lemma_u32_field(second.1);
        },
        Event::PlayerCursorMoved { player, x, y } => {
            lemma_u64_field(player);
            lemma_i32_field(x);
            lemma_i32_field(y);
        },
        Event::PlayerDisconnected { player } => {
            lemma_u64_field(player);
        },
    }
}

/// Fields that read as an event are the fields of that event.
pub proof fn lemma_written_read(ts: Seq<Seq<char>>)
    requires
        read_fields(ts) is Some,
    ensures
        ts == fields(read_fields(ts)->0),
{
    let e = read_fields(ts)->0;
    lemma_tagged_text(ts[0]);
    match e {
        Event::PieceMoved { index, x, y } => {
            lemma_u32_text(ts[1]);
            lemma_u32_text(ts[2]);
            lemma_i32_text(ts[3]);
            lemma_i32_text(ts[4]);
        },
        Event::PiecePickedUp { player, index } => {
            lemma_u64_text(ts[1]);
            lemma_u32_text(ts[2]);
            lemma_u32_text(ts[3]);
        },
        Event::PiecePutDown { player, index } => {
            lemma_u64_text(ts[1]);
            lemma_u32_text(ts[2]);
            lemma_u32_text(ts[3]);
        },
        Event::PieceConnectionCheck { first, second } => {
            lemma_u32_text(ts[1]);
            lemma_u32_text(ts[2]);
            lemma_u32_text(ts[3]);
            lemma_u32_text(ts[4]);
        },
        Event::PieceConnection { first, second } => {
            lemma_u32_text(ts[1]);
            lemma_u32_text(ts[2]);
            lemma_u32_text(ts[3]);
            lemma_u32_text(ts[4]);
        },
        Event::PlayerCursorMoved { player, x, y } => {
            lemma_u64_text(ts[1]);
            lemma_i32_text(ts[2]);
            lemma_i32_text(ts[3]);
        },
        Event::PlayerDisconnected { player } => {
            lemma_u64_text(ts[1]);
        },
    }
    assert(ts =~= fields(e));
}

/// Decoding the wire text of an event gives the event back.
pub proof fn lemma_decode_encode(e: Event)
    ensures
        decoded(wire_text(e)) == Some(e),
{
    lemma_fields_plain(e);
    lemma_split_join(fields(e));
    lemma_read_written(e);
}

/// A text that decodes to an event is the wire text of that event: no event
/// has a second spelling.
pub proof fn lemma_decoded_text(s: Seq<char>)
    requires
        decoded(s) is Some,
    ensures
        s == wire_text(decoded(s)->0),
{
    lemma_written_read(split(s));
    lemma_join_split(s);
}

/// Two events with the same wire text are the same event.
pub proof fn lemma_wire_text_injective(a: Event, b: Event)
    requires
        wire_text(a) == wire_text(b),
    ensures
        a == b,
{
    lemma_decode_encode(a);
    lemma_decode_encode(b);
}

/// The wire text of an event is ASCII.
pub proof fn lemma_wire_text_ascii(e: Event)
    ensures
        is_ascii_chars(wire_text(e)),
{
    lemma_fields_plain(e);
    lemma_join_ascii(fields(e));
}

/// The word of a category, as text to send.
fn category_word(c: EventCategory) -> (w: &'static str)
    ensures
        w@ == tag(c),
        w.is_ascii(),
{
    proof {
        lemma_tags(c);
    }
    match c {
        EventCategory::PieceMoved => "moved",
        EventCategory::PiecePickedUp => "picked",
        EventCategory::PiecePutDown => "dropped",
        EventCategory::PieceConnectionCheck => "check",
        EventCategory::PieceConnection => "joined",
        EventCategory::PlayerCursorMoved => "cursor",
        EventCategory::PlayerDisconnected => "left",
    }
}

/// Writes a space and the numeral of `n` at the end of `out`.
pub fn push_field(out: &mut String, n: u64)
    ensures
        final(out)@ == old(out)@ + seq![' '] + decimal(n as nat),
{
    proof {
        reveal_strlit(" ");
    }
    out.append(" ");
    assert(" "@ =~= seq![' ']);
    push_decimal(out, n);
}

/// Writes a space and the numeral of `i` at the end of `out`.
pub fn push_signed_field(out: &mut String, i: i64)
    ensures
        final(out)@ == old(out)@ + seq![' '] + signed_decimal(i as int),
{
    proof {
        reveal_strlit(" ");
    }
    out.append(" ");
    assert(" "@ =~= seq![' ']);
    push_signed(out, i);
}

/// Writes an event in its wire form.
pub fn encode(e: &Event) -> (text: String)
    ensures
        text@ == wire_text(*e),
        decoded(text@) == Some(*e),
{
    let mut out = String::from_str(category_word(e.category()));
    proof {
        reveal_with_fuel(join, 6);
        lemma_decode_encode(*e);
    }
    match *e {
        Event::PieceMoved { index, x, y } => {
            push_field(&mut out, index.0 as u64);
            push_field(&mut out, index.1 as u64);
            push_signed_field(&mut out, x as i64);
            push_signed_field(&mut out, y as i64);
        },
        Event::PiecePickedUp { player, index } => {
            push_field(&mut out, player);
            push_field(&mut out, index.0 as u64);
            push_field(&mut out, index.1 as u64);
        },
        Event::PiecePutDown { player, index } => {
            push_field(&mut out, player);
            push_field(&mut out, index.0 as u64);
            push_field(&mut out, index.1 as u64);
        },
        Event::PieceConnectionCheck { first, second } => {
            push_field(&mut out, first.0 as u64);
            push_field(&mut out, first.1 as u64);
            push_field(&mut out, second.0 as u64);
            push_field(&mut out, second.1 as u64);
        },
        Event::PieceConnection { first, second } => {
            push_field(&mut out, first.0 as u64);
            push_field(&mut out, first.1 as u64);
            push_field(&mut out, second.0 as u64);
            push_field(&mut out, second.1 as u64);
        },
        Event::PlayerCursorMoved { player, x, y } => {
            push_field(&mut out, player);
            push_signed_field(&mut out, x as i64);
            push_signed_field(&mut out, y as i64);
        },
        Event::PlayerDisconnected { player } => {
            push_field(&mut out, player);
        },
    }
    assert(out@ =~= wire_text(*e));
    out
}

/// Reads one field of `s` as a 32-bit number.
pub fn field_u32(s: &str, span: (usize, usize)) -> (r: Option<u32>)
    requires
        s.is_ascii(),
        span.0 <= span.1 <= s@.len(),
    ensures
        r == read_u32(s@.subrange(span.0 as int, span.1 as int)),
{
    match parse_decimal(s, span.0, span.1) {
        Some(v) => if v <= 0xffff_ffffu64 {
            Some(v as u32)
        } else {
            None
        },
        None => None,
    }
}

/// Reads one field of `s` as a 64-bit number.
pub fn field_u64(s: &str, span: (usize, usize)) -> (r: Option<u64>)
    requires
        s.is_ascii(),
        span.0 <= span.1 <= s@.len(),
    ensures
        r == read_u64(s@.subrange(span.0 as int, span.1 as int)),
{
    parse_decimal(s, span.0, span.1)
}

/// Reads one field of `s` as a signed 32-bit number.
pub fn field_i32(s: &str, span: (usize, usize)) -> (r: Option<i32>)
    requires
        s.is_ascii(),
        span.0 <= span.1 <= s@.len(),
    ensures
        r == read_i32(s@.subrange(span.0 as int, span.1 as int)),
{
    match parse_signed(s, span.0, span.1) {
        Some(v) => if -0x8000_0000i64 <= v && v <= 0x7fff_ffffi64 {
            Some(v as i32)
        } else {
            None
        },
        None => None,
    }
}

/// Reads two fields of `s` as the row and the column of a piece.
fn field_index(s: &str, row: (usize, usize), col: (usize, usize)) -> (r: Option<PieceIndex>)
    requires
        s.is_ascii(),
        row.0 <= row.1 <= s@.len(),
        col.0 <= col.1 <= s@.len(),
    ensures
        r == read_index(
            s@.subrange(row.0 as int, row.1 as int),
            s@.subrange(col.0 as int, col.1 as int),
        ),
{
    match field_u32(s, row) {
        None => None,
        Some(r) => match field_u32(s, col) {
            None => None,
            Some(c) => Some(PieceIndex(r, c)),
        },
    }
}

/// Reads one field of `s` as the word of a category.
fn field_category(s: &str, span: (usize, usize)) -> (r: Option<EventCategory>)
    requires
        s.is_ascii(),
        span.0 <= span.1 <= s@.len(),
    ensures
        r == tagged(s@.subrange(span.0 as int, span.1 as int)),
{
    let mut i: usize = 0;
    while i < 7
        invariant
            s.is_ascii(),
            span.0 <= span.1 <= s@.len(),
            i <= 7,
            forall|k: int|
                0 <= k < i ==> s@.subrange(span.0 as int, span.1 as int) != tag(
                    #[trigger] EventCategory::at(k),
                ),
        decreases 7 - i,
    {
        match EventCategory::from_index(i) {
            None => {},
            Some(c) => {
                if span_is(s, span.0, span.1, category_word(c)) {
                    proof {
                        lemma_tags(c);
                    }
                    return Some(c);
                }
            },
        }
        i = i + 1;
    }
    proof {
        assert(EventCategory::at(0) == EventCategory::PieceMoved);
        assert(EventCategory::at(1) == EventCategory::PiecePickedUp);
        assert(EventCategory::at(2) == EventCategory::PiecePutDown);
        assert(EventCategory::at(3) == EventCategory::PieceConnectionCheck);
        assert(EventCategory::at(4) == EventCategory::PieceConnection);
        assert(EventCategory::at(5) == EventCategory::PlayerCursorMoved);
        assert(EventCategory::at(6) == EventCategory::PlayerDisconnected);
    }
    None
}

/// Reads an event from its wire form.
///
/// Gives the event whose wire text is `s`, and nothing where `s` is the wire
/// text of no event.
pub fn decode(s: &str) -> (r: Option<Event>)
    ensures
        r == decoded(s@),
        r matches Some(e) ==> s@ == wire_text(e),
        r is None ==> forall|e: Event| #[trigger] wire_text(e) != s@,
{
    proof {
        if decoded(s@) is Some {
            lemma_decoded_text(s@);
            lemma_wire_text_ascii(decoded(s@)->0);
        }
        assert forall|e: Event| decoded(s@) is None implies #[trigger] wire_text(e) != s@ by {
            lemma_decode_encode(e);
        }
    }
    if !s.is_ascii() {
        return None;
    }
    let spans = split_fields(s);
    let ghost ts = split(s@);
    proof {
        lemma_split_nonempty(s@);
    }
    let n = spans.len();
    let cat = match field_category(s, spans[0]) {
        None => {
            return None;
        },
        Some(c) => c,
    };
    assert(tagged(ts[0]) == Some(cat));
    match cat {
        EventCategory::PieceMoved => {
            if n != 5 {
                return None;
            }
            let index = field_index(s, spans[1], spans[2]);
            let x = field_i32(s, spans[3]);
            let y = field_i32(s, spans[4]);
            match (index, x, y) {
                (Some(index), Some(x), Some(y)) => Some(Event::PieceMoved { index, x, y }),
                _ => None,
            }
        },
        EventCategory::PiecePickedUp => {
            if n != 4 {
                return None;
            }
            let player = field_u64(s, spans[1]);
            let index = field_index(s, spans[2], spans[3]);
            match (player, index) {
                (Some(player), Some(index)) => Some(Event::PiecePickedUp { player, index }),
                _ => None,
            }
        },
        EventCategory::PiecePutDown => {
            if n != 4 {
                return None;
            }
            let player = field_u64(s, spans[1]);
            let index = field_index(s, spans[2], spans[3]);
            match (player, index) {
                (Some(player), Some(index)) => Some(Event::PiecePutDown { player, index }),
                _ => None,
            }
        },
        EventCategory::PieceConnectionCheck => {
            if n != 5 {
                return None;
            }
            let first = field_index(s, spans[1], spans[2]);
            let second = field_index(s, spans[3], spans[4]);
            match (first, second) {
                (Some(first), Some(second)) => Some(Event::PieceConnectionCheck { first, second }),
                _ => None,
            }
        },
        EventCategory::PieceConnection => {
            if n != 5 {
                return None;
            }
            let first = field_index(s, spans[1], spans[2]);
            let second = field_index(s, spans[3], spans[4]);
            match (first, second) {
                (Some(first), Some(second)) => Some(Event::PieceConnection { first, second }),
                _ => None,
            }
        },
        EventCategory::PlayerCursorMoved => {
            if n != 4 {
                return None;
            }
            let player = field_u64(s, spans[1]);
            let x = field_i32(s, spans[2]);
            let y = field_i32(s, spans[3]);
            match (player, x, y) {
                (Some(player), Some(x), Some(y)) => Some(Event::PlayerCursorMoved { player, x, y }),
                _ => None,
            }
        },
        EventCategory::PlayerDisconnected => {
            if n != 2 {
                return None;
            }
            match field_u64(s, spans[1]) {
                Some(player) => Some(Event::PlayerDisconnected { player }),
                None => None,
            }
        },
    }
}

} // verus!
