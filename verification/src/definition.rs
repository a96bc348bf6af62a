//! The wire form of a puzzle definition: the word `puzzle`, the
//! dimensions, and then five fields for every place of the grid in
//! row-major order, all separated by single spaces.
//!
//! The five fields of place `k` are the group number of piece `k`, the
//! origin of group `k` along both axes, `1` or `0` as group `k` is locked
//! or not, and the player who holds piece `k`, or `-` where nobody does.

use vstd::prelude::*;
use vstd::string::*;
use vstd::utf8::is_ascii_chars;

use crate::codec::{field_u32, field_u64, push_field, push_signed_field, read_u32, read_u64};
use crate::puzzle::{dimensions_fit, Group, Puzzle, PuzzleView, ORIGIN_LIMIT};
use crate::text::{
    decimal, is_signed_decimal, join, lemma_decimal_digits, lemma_decimal_value, lemma_join_ascii,
    lemma_join_push, lemma_join_split, lemma_signed_value, lemma_split_join, lemma_split_nonempty,
    parse_signed, signed_decimal, signed_value, span_is, split, split_fields,
};

verus! {

/// Number of fields before the first place's fields.
pub const HEADER_FIELDS: usize = 6;

/// Number of fields of one place.
pub const RECORD_FIELDS: usize = 5;

/// How a lock is written.
pub open spec fn flag_text(locked: bool) -> Seq<char> {
    if locked {
        seq!['1']
    } else {
        seq!['0']
    }
}

/// How the holder of a piece is written.
pub open spec fn holder_text(holder: Option<u64>) -> Seq<char> {
    match holder {
        None => seq!['-'],
        Some(player) => decimal(player as nat),
    }
}

/// The first fields of a definition: the word and the dimensions.
pub open spec fn header(v: PuzzleView) -> Seq<Seq<char>> {
    seq![
        "puzzle"@,
        decimal(v.rows as nat),
        decimal(v.cols as nat),
        decimal(v.piece_width as nat),
        decimal(v.piece_height as nat),
        decimal(v.tolerance as nat),
    ]
}

/// The fields of place `k`.
pub open spec fn record(v: PuzzleView, k: int) -> Seq<Seq<char>> {
    seq![
        decimal(v.group_of[k] as nat),
        signed_decimal(v.groups[k].x as int),
        signed_decimal(v.groups[k].y as int),
        flag_text(v.groups[k].locked),
        holder_text(v.holder[k]),
    ]
}

/// All fields of the definition of a puzzle.
pub open spec fn definition_fields(v: PuzzleView) -> Seq<Seq<char>> {
    Seq::new(
        (HEADER_FIELDS + RECORD_FIELDS * v.count()) as nat,
        |i: int|
            if i < HEADER_FIELDS {
                header(v)[i]
            } else {
                record(v, (i - HEADER_FIELDS) / (RECORD_FIELDS as int))[(i - HEADER_FIELDS) % (
                RECORD_FIELDS as int)]
            },
    )
}

/// The wire text of the definition of a puzzle.
pub open spec fn definition_text(v: PuzzleView) -> Seq<char> {
    join(definition_fields(v))
}

/// The lock that a field writes, if it writes one.
pub open spec fn read_flag(t: Seq<char>) -> Option<bool> {
    if t == seq!['0'] {
        Some(false)
    } else if t == seq!['1'] {
        Some(true)
    } else {
        None
    }
}

/// The holder that a field writes, if it writes one.
pub open spec fn read_holder(t: Seq<char>) -> Option<Option<u64>> {
    if t == seq!['-'] {
        Some(None)
    } else {
        match read_u64(t) {
            Some(player) => Some(Some(player)),
            None => None,
        }
    }
}

/// The origin that a field writes, if it writes one within the limit.
pub open spec fn read_origin(t: Seq<char>) -> Option<i64> {
    if is_signed_decimal(t) && -ORIGIN_LIMIT <= signed_value(t) <= ORIGIN_LIMIT {
        Some(signed_value(t) as i64)
    } else {
        None
    }
}

/// The position among all fields of field `j` of place `k`.
pub open spec fn field_at(k: int, j: int) -> int {
    HEADER_FIELDS + RECORD_FIELDS * k + j
}

/// Whether the fields of place `k` among `ts` can be read for a puzzle of
/// `count` pieces.
pub open spec fn record_reads(ts: Seq<Seq<char>>, k: int, count: int) -> bool {
    &&& read_u32(ts[field_at(k, 0)]) is Some
    &&& read_u32(ts[field_at(k, 0)])->0 < count
    &&& read_origin(ts[field_at(k, 1)]) is Some
    &&& read_origin(ts[field_at(k, 2)]) is Some
    &&& read_flag(ts[field_at(k, 3)]) is Some
    &&& read_holder(ts[field_at(k, 4)]) is Some
}

/// The group that the fields of place `k` among `ts` write.
pub open spec fn read_group(ts: Seq<Seq<char>>, k: int) -> Group {
    Group {
        x: read_origin(ts[field_at(k, 1)])->0,
        y: read_origin(ts[field_at(k, 2)])->0,
        locked: read_flag(ts[field_at(k, 3)])->0,
    }
}

/// The puzzle that a sequence of fields defines, if it defines one.
pub open spec fn read_definition(ts: Seq<Seq<char>>) -> Option<PuzzleView> {
    if ts.len() < HEADER_FIELDS || ts[0] != "puzzle"@ {
        None
    } else {
        match (read_u32(ts[1]), read_u32(ts[2]), read_u32(ts[3]), read_u32(ts[4]), read_u32(ts[5])) {
            (Some(rows), Some(cols), Some(piece_width), Some(piece_height), Some(tolerance)) => {
                let count = rows * cols;
                if dimensions_fit(rows, cols, piece_width, piece_height) && ts.len()
                    == HEADER_FIELDS + RECORD_FIELDS * count && (forall|k: int|
                    0 <= k < count ==> #[trigger] record_reads(ts, k, count)) {
                    Some(
                        PuzzleView {
                            rows,
                            cols,
                            piece_width,
                            piece_height,
                            tolerance,
                            group_of: Seq::new(
                                count as nat,
                                |k: int| read_u32(ts[field_at(k, 0)])->0,
                            ),
                            groups: Seq::new(count as nat, |k: int| read_group(ts, k)),
                            holder: Seq::new(
                                count as nat,
                                |k: int| read_holder(ts[field_at(k, 4)])->0,
                            ),
                        },
                    )
                } else {
                    None
                }
            },
            _ => None,
        }
    }
}

/// The puzzle that a text defines, if it defines one.
pub open spec fn decoded_definition(s: Seq<char>) -> Option<PuzzleView> {
    read_definition(split(s))
}

/// Reads one field of `s` as an origin.
fn field_origin(s: &str, span: (usize, usize)) -> (r: Option<i64>)
    requires
        s.is_ascii(),
        span.0 <= span.1 <= s@.len(),
    ensures
        r == read_origin(s@.subrange(span.0 as int, span.1 as int)),
{
    match parse_signed(s, span.0, span.1) {
        Some(v) => if -ORIGIN_LIMIT <= v && v <= ORIGIN_LIMIT {
            Some(v)
        } else {
            None
        },
        None => None,
    }
}

/// Reads one field of `s` as a lock.
fn field_flag(s: &str, span: (usize, usize)) -> (r: Option<bool>)
    requires
        s.is_ascii(),
        span.0 <= span.1 <= s@.len(),
    ensures
        r == read_flag(s@.subrange(span.0 as int, span.1 as int)),
{
    proof {
        reveal_strlit("0");
        reveal_strlit("1");
        assert("0"@ =~= seq!['0']);
        assert("1"@ =~= seq!['1']);
    }
    if span_is(s, span.0, span.1, "0") {
        Some(false)
    } else if span_is(s, span.0, span.1, "1") {
        Some(true)
    } else {
        None
    }
}

/// Reads one field of `s` as the holder of a piece.
fn field_holder(s: &str, span: (usize, usize)) -> (r: Option<Option<u64>>)
    requires
        s.is_ascii(),
        span.0 <= span.1 <= s@.len(),
    ensures
        r == read_holder(s@.subrange(span.0 as int, span.1 as int)),
{
    proof {
        reveal_strlit("-");
        assert("-"@ =~= seq!['-']);
    }
    if span_is(s, span.0, span.1, "-") {
        Some(None)
    } else {
        match field_u64(s, span) {
            Some(player) => Some(Some(player)),
            None => None,
        }
    }
}

/// Reads a puzzle from the wire form of its definition.
///
/// Gives the puzzle whose definition is `s`, and nothing where `s` is the
/// definition of no puzzle.
pub fn decode_definition(s: &str) -> (r: Option<Puzzle>)
    ensures
        match r {
            Some(p) => p.wf() && decoded_definition(s@) == Some(p@),
            None => decoded_definition(s@) is None,
        },
        r matches Some(p) ==> s@ == definition_text(p@),
        r is None ==> forall|v: PuzzleView| v.wf() ==> #[trigger] definition_text(v) != s@,
{
    proof {
        if decoded_definition(s@) is Some {
            lemma_decoded_definition_text(s@);
        }
        assert forall|v: PuzzleView| v.wf() && decoded_definition(s@) is None implies
            #[trigger] definition_text(v) != s@ by {
            lemma_decode_definition(v);
        }
    }
    read_puzzle(s)
}

/// Reads the fields of `s` as the definition of a puzzle.
fn read_puzzle(s: &str) -> (r: Option<Puzzle>)
    ensures
        match r {
            Some(p) => p.wf() && decoded_definition(s@) == Some(p@),
            None => decoded_definition(s@) is None,
        },
{
    if !s.is_ascii() {
        proof {
            lemma_not_ascii(s@);
        }
        return None;
    }
    let spans = split_fields(s);
    let ghost ts = split(s@);
    proof {
        lemma_split_nonempty(s@);
        reveal_strlit("puzzle");
        assert(is_ascii_chars("puzzle"@)) by {
            let t = "puzzle"@;
            assert forall|i: int| 0 <= i < t.len() implies '\0' <= #[trigger] t[i] <= '\u{7f}' by {
                if i == 0 {
                } else if i == 1 {
                } else if i == 2 {
                } else if i == 3 {
                } else if i == 4 {
                } else if i == 5 {
                }
            }
        }
    }
    let m = spans.len();
    if m < HEADER_FIELDS || !span_is(s, spans[0].0, spans[0].1, "puzzle") {
        return None;
    }
    let rows = field_u32(s, spans[1]);
    let cols = field_u32(s, spans[2]);
    let width = field_u32(s, spans[3]);
    let height = field_u32(s, spans[4]);
    let tol = field_u32(s, spans[5]);
    let (rows, cols, piece_width, piece_height, tolerance) = match (rows, cols, width, height, tol) {
        (Some(a), Some(b), Some(c), Some(d), Some(e)) => (a, b, c, d, e),
        _ => {
            return None;
        },
    };
    let fresh = match Puzzle::new(rows, cols, piece_width, piece_height, tolerance) {
        None => {
            return None;
        },
        Some(p) => p,
    };
    let count = fresh.piece_count();
    if m as u64 != 6 + 5 * (count as u64) {
        return None;
    }
    let mut group_of: Vec<u32> = Vec::new();
    let mut groups: Vec<Group> = Vec::new();
    let mut holder: Vec<Option<u64>> = Vec::new();
    let mut k: u32 = 0;
    while k < count
        invariant
            s.is_ascii(),
            ts == split(s@),
            crate::text::spans_cut(spans@, s@),
            m == spans@.len(),
            m == HEADER_FIELDS + RECORD_FIELDS * count,
            k <= count,
            group_of@.len() == k,
            groups@.len() == k,
            holder@.len() == k,
            forall|j: int| 0 <= j < k ==> #[trigger] record_reads(ts, j, count as int),
            forall|j: int| 0 <= j < k ==> group_of@[j] == read_u32(ts[field_at(j, 0)])->0,
            forall|j: int| 0 <= j < k ==> groups@[j] == read_group(ts, j),
            forall|j: int| 0 <= j < k ==> holder@[j] == read_holder(ts[field_at(j, 4)])->0,
        decreases count - k,
    {
        let base: usize = (6 + 5 * (k as u64)) as usize;
        assert(base == field_at(k as int, 0));
        let g = field_u32(s, spans[base]);
        let x = field_origin(s, spans[base + 1]);
        let y = field_origin(s, spans[base + 2]);
        let locked = field_flag(s, spans[base + 3]);
        let held = field_holder(s, spans[base + 4]);
        match (g, x, y, locked, held) {
            (Some(g), Some(x), Some(y), Some(locked), Some(held)) => {
                if g >= count {
                    assert(!record_reads(ts, k as int, count as int));
                    return None;
                }
                group_of.push(g);
                groups.push(Group { x, y, locked });
                holder.push(held);
            },
            _ => {
                assert(!record_reads(ts, k as int, count as int));
                return None;
            },
        }
        k = k + 1;
    }
    let p = Puzzle::from_parts(
        rows,
        cols,
        piece_width,
        piece_height,
        tolerance,
        group_of,
        groups,
        holder,
    );
    proof {
        let want = read_definition(ts)->0;
        assert(p@.group_of =~= want.group_of);
        assert(p@.groups =~= want.groups);
        assert(p@.holder =~= want.holder);
        assert forall|j: int| 0 <= j < count implies -ORIGIN_LIMIT <= (#[trigger] p@.groups[j]).x
            <= ORIGIN_LIMIT && -ORIGIN_LIMIT <= p@.groups[j].y <= ORIGIN_LIMIT by {
            assert(record_reads(ts, j, count as int));
        }
        assert forall|j: int| 0 <= j < count implies (#[trigger] p@.group_of[j]) < count by {
            assert(record_reads(ts, j, count as int));
        }
    }
    Some(p)
}

/// A text with a character outside ASCII defines no puzzle.
proof fn lemma_not_ascii(s: Seq<char>)
    requires
        !is_ascii_chars(s),
    ensures
        decoded_definition(s) is None,
{
    if decoded_definition(s) is Some {
        lemma_fields_of_definition(split(s));
        crate::text::lemma_join_split(s);
        lemma_definition_plain(decoded_definition(s)->0);
        crate::text::lemma_join_ascii(definition_fields(decoded_definition(s)->0));
    }
}

/// Fields that define a puzzle are the fields of that puzzle's definition,
/// and the puzzle is well formed.
pub proof fn lemma_fields_of_definition(ts: Seq<Seq<char>>)
    requires
        read_definition(ts) is Some,
    ensures
        read_definition(ts)->0.wf(),
        ts == definition_fields(read_definition(ts)->0),
{
    let v = read_definition(ts)->0;
    let fs = definition_fields(v);
    let count = v.rows * v.cols;
    crate::text::lemma_decimal_unique(ts[1]);
    crate::text::lemma_decimal_unique(ts[2]);
    crate::text::lemma_decimal_unique(ts[3]);
    crate::text::lemma_decimal_unique(ts[4]);
    crate::text::lemma_decimal_unique(ts[5]);
    assert forall|k: int| 0 <= k < count implies (#[trigger] v.group_of[k]) < count by {
        assert(record_reads(ts, k, count));
    }
    assert forall|g: int| 0 <= g < count implies -ORIGIN_LIMIT <= (#[trigger] v.groups[g]).x
        <= ORIGIN_LIMIT && -ORIGIN_LIMIT <= v.groups[g].y <= ORIGIN_LIMIT by {
        assert(record_reads(ts, g, count));
    }
    assert forall|i: int| 0 <= i < ts.len() implies ts[i] == fs[i] by {
        if i >= HEADER_FIELDS {
            let k = (i - HEADER_FIELDS) / (RECORD_FIELDS as int);
            let j = (i - HEADER_FIELDS) % (RECORD_FIELDS as int);
            assert(i == field_at(k, j));
            assert(0 <= k < count);
            assert(record_reads(ts, k, count));
            if j == 0 {
                crate::text::lemma_decimal_unique(ts[i]);
            } else if j == 1 {
                crate::text::lemma_signed_unique(ts[i]);
            } else if j == 2 {
                crate::text::lemma_signed_unique(ts[i]);
            } else if j == 3 {
            } else {
                if ts[i] != seq!['-'] {
                    crate::text::lemma_decimal_unique(ts[i]);
                }
            }
        }
    }
    assert(ts =~= fs);
}

/// The fields of a definition are ASCII without spaces.
pub proof fn lemma_definition_plain(v: PuzzleView)
    requires
        v.wf(),
    ensures
        definition_fields(v).len() >= 1,
        forall|i: int|
            0 <= i < definition_fields(v).len() ==> crate::text::no_space(
                #[trigger] definition_fields(v)[i],
            ),
        forall|i: int|
            0 <= i < definition_fields(v).len() ==> is_ascii_chars(
                #[trigger] definition_fields(v)[i],
            ),
{
    let fs = definition_fields(v);
    reveal_strlit("puzzle");
    crate::text::lemma_decimal_digits(v.rows as nat);
    crate::text::lemma_decimal_digits(v.cols as nat);
    crate::text::lemma_decimal_digits(v.piece_width as nat);
    crate::text::lemma_decimal_digits(v.piece_height as nat);
    crate::text::lemma_decimal_digits(v.tolerance as nat);
    assert forall|i: int| 0 <= i < fs.len() implies crate::text::no_space(#[trigger] fs[i])
        && is_ascii_chars(fs[i]) by {
        if i >= HEADER_FIELDS {
            let k = (i - HEADER_FIELDS) / (RECORD_FIELDS as int);
            let j = (i - HEADER_FIELDS) % (RECORD_FIELDS as int);
            crate::text::lemma_decimal_digits(v.group_of[k] as nat);
            crate::text::lemma_signed_value(v.groups[k].x as int);
            crate::text::lemma_signed_value(v.groups[k].y as int);
            match v.holder[k] {
                Some(player) => {
                    crate::text::lemma_decimal_digits(player as nat);
                },
                None => {},
            }
        } else if i == 0 {
            let t = "puzzle"@;
            assert forall|n: int| 0 <= n < t.len() implies '\0' <= #[trigger] t[n] <= '\u{7f}'
                && t[n] != ' ' by {
                if n == 0 {
                } else if n == 1 {
                } else if n == 2 {
                } else if n == 3 {
                } else if n == 4 {
                } else if n == 5 {
                }
            }
        }
    }
}

/// Field `j` of place `k` stands at its position among the fields of a
/// definition.
proof fn lemma_field_at(v: PuzzleView, k: int, j: int)
    requires
        0 <= k < v.count(),
        0 <= j < RECORD_FIELDS,
    ensures
        0 <= field_at(k, j) < definition_fields(v).len(),
        definition_fields(v)[field_at(k, j)] == record(v, k)[j],
{
    let i = field_at(k, j);
    assert((i - HEADER_FIELDS) / (RECORD_FIELDS as int) == k);
    assert((i - HEADER_FIELDS) % (RECORD_FIELDS as int) == j);
}

/// A written lock is read back.
proof fn lemma_flag_reads(locked: bool)
    ensures
        read_flag(flag_text(locked)) == Some(locked),
{
    assert(seq!['1'][0] == '1');
    assert(seq!['0'][0] == '0');
}

/// A written holder is read back.
proof fn lemma_holder_reads(holder: Option<u64>)
    ensures
        read_holder(holder_text(holder)) == Some(holder),
{
    match holder {
        Some(player) => {
            lemma_decimal_value(player as nat);
            lemma_decimal_digits(player as nat);
            assert(crate::text::is_digit(decimal(player as nat)[0]));
            assert(seq!['-'][0] == '-');
        },
        None => {},
    }
}

/// A written origin is read back.
proof fn lemma_origin_reads(x: i64)
    requires
        -ORIGIN_LIMIT <= x <= ORIGIN_LIMIT,
    ensures
        read_origin(signed_decimal(x as int)) == Some(x),
{
    lemma_signed_value(x as int);
}

/// The fields of place `k` of a definition read back as what they write.
proof fn lemma_record_reads(v: PuzzleView, k: int)
    requires
        v.wf(),
        0 <= k < v.count(),
    ensures
        record_reads(definition_fields(v), k, v.count()),
        read_u32(definition_fields(v)[field_at(k, 0)])->0 == v.group_of[k],
        read_group(definition_fields(v), k) == v.groups[k],
        read_holder(definition_fields(v)[field_at(k, 4)])->0 == v.holder[k],
{
    lemma_field_at(v, k, 0);
    lemma_field_at(v, k, 1);
    lemma_field_at(v, k, 2);
    lemma_field_at(v, k, 3);
    lemma_field_at(v, k, 4);
    assert(v.group_of[k] < v.count());
    lemma_decimal_value(v.group_of[k] as nat);
    let g = v.groups[k];
    assert(-ORIGIN_LIMIT <= g.x <= ORIGIN_LIMIT && -ORIGIN_LIMIT <= g.y <= ORIGIN_LIMIT);
    lemma_origin_reads(g.x);
    lemma_origin_reads(g.y);
    lemma_flag_reads(g.locked);
    lemma_holder_reads(v.holder[k]);
}

/// The first fields of a definition read back as the dimensions.
proof fn lemma_header_reads(v: PuzzleView)
    requires
        v.wf(),
    ensures
        definition_fields(v).len() == HEADER_FIELDS + RECORD_FIELDS * v.count(),
        definition_fields(v)[0] == "puzzle"@,
        read_u32(definition_fields(v)[1]) == Some(v.rows),
        read_u32(definition_fields(v)[2]) == Some(v.cols),
        read_u32(definition_fields(v)[3]) == Some(v.piece_width),
        read_u32(definition_fields(v)[4]) == Some(v.piece_height),
        read_u32(definition_fields(v)[5]) == Some(v.tolerance),
        dimensions_fit(v.rows, v.cols, v.piece_width, v.piece_height),
{
    lemma_decimal_value(v.rows as nat);
    lemma_decimal_value(v.cols as nat);
    lemma_decimal_value(v.piece_width as nat);
    lemma_decimal_value(v.piece_height as nat);
    lemma_decimal_value(v.tolerance as nat);
    assert(v.count() >= 1) by (nonlinear_arith)
        requires
            v.rows >= 1,
            v.cols >= 1,
            v.count() == v.rows * v.cols,
    ;
}

/// The fields of the definition of a puzzle read back as that puzzle.
pub proof fn lemma_definition_reads(v: PuzzleView)
    requires
        v.wf(),
    ensures
        read_definition(definition_fields(v)) == Some(v),
{
    let fs = definition_fields(v);
    let count = v.count();
    lemma_header_reads(v);
    assert forall|k: int| 0 <= k < count implies #[trigger] record_reads(fs, k, count) by {
        lemma_record_reads(v, k);
    }
    let r = read_definition(fs);
    assert(r is Some);
    assert(r->0.group_of =~= v.group_of) by {
        assert forall|k: int| 0 <= k < count implies r->0.group_of[k] == v.group_of[k] by {
            lemma_record_reads(v, k);
        }
    }
    assert(r->0.groups =~= v.groups) by {
        assert forall|k: int| 0 <= k < count implies r->0.groups[k] == v.groups[k] by {
            lemma_record_reads(v, k);
        }
    }
    assert(r->0.holder =~= v.holder) by {
        assert forall|k: int| 0 <= k < count implies r->0.holder[k] == v.holder[k] by {
            lemma_record_reads(v, k);
        }
    }
}

/// Decoding the definition of a puzzle gives the puzzle back.
pub proof fn lemma_decode_definition(v: PuzzleView)
    requires
        v.wf(),
    ensures
        decoded_definition(definition_text(v)) == Some(v),
{
    lemma_definition_plain(v);
    lemma_split_join(definition_fields(v));
    lemma_definition_reads(v);
}

/// A text that defines a puzzle is the definition of that puzzle, and the
/// puzzle is well formed.
pub proof fn lemma_decoded_definition_text(s: Seq<char>)
    requires
        decoded_definition(s) is Some,
    ensures
        decoded_definition(s)->0.wf(),
        s == definition_text(decoded_definition(s)->0),
{
    lemma_fields_of_definition(split(s));
    lemma_join_split(s);
}

/// Writes the definition of a puzzle in its wire form.
pub fn encode_definition(p: &Puzzle) -> (text: String)
    requires
        p.wf(),
    ensures
        text@ == definition_text(p@),
        decoded_definition(text@) == Some(p@),
{
    let ghost v = p@;
    let ghost fs = definition_fields(v);
    let mut out = String::from_str("puzzle");
    push_field(&mut out, p.num_rows() as u64);
    push_field(&mut out, p.num_cols() as u64);
    push_field(&mut out, p.piece_width() as u64);
    push_field(&mut out, p.piece_height() as u64);
    push_field(&mut out, p.tolerance() as u64);
    let count = p.piece_count();
    proof {
        lemma_decode_definition(v);
        reveal_with_fuel(join, 7);
        assert(fs.take(6) =~= header(v));
        assert(out@ =~= join(fs.take(6)));
        reveal_strlit(" 1");
        reveal_strlit(" 0");
        reveal_strlit(" -");
        assert(" 1"@ =~= seq![' '] + flag_text(true));
        assert(" 0"@ =~= seq![' '] + flag_text(false));
        assert(" -"@ =~= seq![' '] + holder_text(None));
    }
    let mut k: u32 = 0;
    while k < count
        invariant
            p.wf(),
            v == p@,
            fs == definition_fields(v),
            count == v.count(),
            k <= count,
            out@ == join(fs.take(field_at(k as int, 0))),
            " 1"@ == seq![' '] + flag_text(true),
            " 0"@ == seq![' '] + flag_text(false),
            " -"@ == seq![' '] + holder_text(None),
        decreases count - k,
    {
        let ghost base = field_at(k as int, 0);
        proof {
            lemma_field_at(v, k as int, 0);
            lemma_field_at(v, k as int, 1);
            lemma_field_at(v, k as int, 2);
            lemma_field_at(v, k as int, 3);
            lemma_field_at(v, k as int, 4);
            lemma_join_push(fs.take(base), fs[base]);
            lemma_join_push(fs.take(base + 1), fs[base + 1]);
            lemma_join_push(fs.take(base + 2), fs[base + 2]);
            lemma_join_push(fs.take(base + 3), fs[base + 3]);
            lemma_join_push(fs.take(base + 4), fs[base + 4]);
            assert(fs[base] == record(v, k as int)[0]);
            assert(fs[base + 1] == record(v, k as int)[1]);
            assert(fs[base + 2] == record(v, k as int)[2]);
            assert(fs[base + 3] == record(v, k as int)[3]);
            assert(fs[base + 4] == record(v, k as int)[4]);
            assert(fs.take(base + 1) =~= fs.take(base).push(fs[base]));
            assert(fs.take(base + 2) =~= fs.take(base + 1).push(fs[base + 1]));
            assert(fs.take(base + 3) =~= fs.take(base + 2).push(fs[base + 2]));
            assert(fs.take(base + 4) =~= fs.take(base + 3).push(fs[base + 3]));
            assert(fs.take(base + 5) =~= fs.take(base + 4).push(fs[base + 4]));
        }
        let group = p.group_state(k as usize);
        push_field(&mut out, p.group_at(k as usize) as u64);
        assert(out@ == join(fs.take(base + 1)));
        push_signed_field(&mut out, group.x);
        assert(out@ == join(fs.take(base + 2)));
        push_signed_field(&mut out, group.y);
        assert(out@ == join(fs.take(base + 3)));
        if group.locked {
            out.append(" 1");
        } else {
            out.append(" 0");
        }
        assert(out@ =~= join(fs.take(base + 3)) + seq![' '] + fs[base + 3]);
        assert(out@ == join(fs.take(base + 4)));
        match p.holder_at(k as usize) {
            Some(player) => {
                push_field(&mut out, player);
            },
            None => {
                out.append(" -");
            },
        }
        assert(out@ =~= join(fs.take(base + 4)) + seq![' '] + fs[base + 4]);
        assert(out@ == join(fs.take(base + 5)));
        k = k + 1;
    }
    proof {
        assert(fs.take(field_at(count as int, 0)) =~= fs);
    }
    out
}

} // verus!
