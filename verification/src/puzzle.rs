//! The puzzle store: where every piece lies, which pieces are joined into
//! groups, which groups are locked, and who holds which piece. Events are
//! applied one at a time; each application may yield further events.
//!
//! A group is rigid: it has one origin, the place where the piece of row 0
//! and column 0 would lie if it belonged to the group, and every piece of the
//! group lies at its grid offset from that origin.

use vstd::prelude::*;

use crate::event::{Event, PieceIndex};

verus! {

/// Largest width or height of the assembled puzzle, in display units.
pub const EXTENT_LIMIT: u32 = 0x7fff_ffff;

/// Bound on the distance of a group's origin from zero, along either axis.
pub const ORIGIN_LIMIT: i64 = 0x1_0000_0000;

/// One group of joined pieces.
#[derive(Clone, Copy, Debug, PartialEq, Eq, Structural)]
pub struct Group {
    /// Horizontal origin of the group.
    pub x: i64,
    /// Vertical origin of the group.
    pub y: i64,
    /// Whether the group is locked in place.
    pub locked: bool,
}

/// The state of a puzzle as a mathematical value.
pub struct PuzzleView {
    pub rows: u32,
    pub cols: u32,
    pub piece_width: u32,
    pub piece_height: u32,
    pub tolerance: u32,
    /// For each piece, in row-major order, the number of its group.
    pub group_of: Seq<u32>,
    /// For each group number, the group.
    pub groups: Seq<Group>,
    /// For each piece, in row-major order, the player who holds it.
    pub holder: Seq<Option<u64>>,
}

/// Whether two pieces are neighbours in the grid: next to each other in one
/// row or in one column.
pub open spec fn adjacent(a: PieceIndex, b: PieceIndex) -> bool {
    ||| (a.0 == b.0 && (a.1 + 1 == b.1 || b.1 + 1 == a.1))
    ||| (a.1 == b.1 && (a.0 + 1 == b.0 || b.0 + 1 == a.0))
}

/// The group numbers after the group `gone` has been taken into the group `keep`.
pub open spec fn relabeled(group_of: Seq<u32>, gone: u32, keep: u32) -> Seq<u32> {
    Seq::new(
        group_of.len(),
        |k: int|
            if group_of[k] == gone {
                keep
            } else {
                group_of[k]
            },
    )
}

/// The group number, among `group_of`, of the piece in row `r` and column `c`
/// of a grid with `cols` columns.
pub open spec fn cell(group_of: Seq<u32>, cols: u32, r: int, c: int) -> u32 {
    group_of[r * cols + c]
}

/// Whether every piece of row `r` belongs to group `g`.
pub open spec fn row_in_group(group_of: Seq<u32>, cols: u32, r: int, g: u32) -> bool {
    forall|c: int| 0 <= c < cols ==> #[trigger] cell(group_of, cols, r, c) == g
}

/// Whether every piece of column `c` belongs to group `g`.
pub open spec fn col_in_group(group_of: Seq<u32>, rows: u32, cols: u32, c: int, g: u32) -> bool {
    forall|r: int| 0 <= r < rows ==> #[trigger] cell(group_of, cols, r, c) == g
}

/// Whether group `g` holds one whole side of the border of a grid of `rows`
/// by `cols` pieces: the first or last row, or the first or last column.
pub open spec fn spans_side(group_of: Seq<u32>, rows: u32, cols: u32, g: u32) -> bool {
    ||| row_in_group(group_of, cols, 0, g)
    ||| row_in_group(group_of, cols, rows - 1, g)
    ||| col_in_group(group_of, rows, cols, 0, g)
    ||| col_in_group(group_of, rows, cols, cols - 1, g)
}

impl PuzzleView {
    /// The number of pieces.
    pub open spec fn count(self) -> int {
        self.rows * self.cols
    }

    /// Whether the puzzle has a piece `i`.
    pub open spec fn has(self, i: PieceIndex) -> bool {
        i.0 < self.rows && i.1 < self.cols
    }

    /// The place of piece `i` in row-major order.
    pub open spec fn slot(self, i: PieceIndex) -> int {
        i.0 * self.cols + i.1
    }

    /// The piece at place `k` of row-major order.
    pub open spec fn piece_at(self, k: int) -> PieceIndex {
        PieceIndex((k / self.cols as int) as u32, (k % self.cols as int) as u32)
    }

    /// The number of the group that piece `i` belongs to.
    pub open spec fn group(self, i: PieceIndex) -> u32 {
        self.group_of[self.slot(i)]
    }

    /// Whether the group of piece `i` is locked.
    pub open spec fn locked(self, i: PieceIndex) -> bool {
        self.groups[self.group(i) as int].locked
    }

    /// Where piece `i` lies.
    pub open spec fn position(self, i: PieceIndex) -> (int, int) {
        let g = self.groups[self.group(i) as int];
        (g.x + i.1 * self.piece_width, g.y + i.0 * self.piece_height)
    }

    /// The player who holds piece `i`, if any does.
    pub open spec fn held_by(self, i: PieceIndex) -> Option<u64> {
        self.holder[self.slot(i)]
    }

    /// The invariant of the store: the grid is not empty, the assembled
    /// puzzle fits the coordinate range, and every piece belongs to a group.
    pub open spec fn wf(self) -> bool {
        &&& self.rows >= 1
        &&& self.cols >= 1
        &&& self.count() <= u32::MAX
        &&& self.cols * self.piece_width <= EXTENT_LIMIT
        &&& self.rows * self.piece_height <= EXTENT_LIMIT
        &&& self.group_of.len() == self.count()
        &&& self.groups.len() == self.count()
        &&& self.holder.len() == self.count()
        &&& forall|k: int| 0 <= k < self.count() ==> (#[trigger] self.group_of[k]) < self.count()
        &&& forall|g: int|
            0 <= g < self.count() ==> {
                &&& -ORIGIN_LIMIT <= (#[trigger] self.groups[g]).x <= ORIGIN_LIMIT
                &&& -ORIGIN_LIMIT <= self.groups[g].y <= ORIGIN_LIMIT
            }
    }

    /// Whether the pieces `a` and `b` lie where neighbours in one group would
    /// lie, up to the tolerance along each axis.
    pub open spec fn near(self, a: PieceIndex, b: PieceIndex) -> bool {
        let ga = self.groups[self.group(a) as int];
        let gb = self.groups[self.group(b) as int];
        &&& -(self.tolerance as int) <= ga.x - gb.x <= self.tolerance
        &&& -(self.tolerance as int) <= ga.y - gb.y <= self.tolerance
    }

    /// The store after piece `i` was placed at `(x, y)`: its whole group
    /// moves with it, and nothing else changes.
    pub open spec fn moved(self, i: PieceIndex, x: i32, y: i32) -> PuzzleView {
        let g = self.group(i) as int;
        PuzzleView {
            groups: self.groups.update(
                g,
                Group {
                    x: (x - i.1 * self.piece_width) as i64,
                    y: (y - i.0 * self.piece_height) as i64,
                    locked: self.groups[g].locked,
                },
            ),
            ..self
        }
    }

    /// The group that stays when the groups of `a` and `b` are joined: that
    /// of `b` where only it is locked, else that of `a`.
    pub open spec fn kept(self, a: PieceIndex, b: PieceIndex) -> u32 {
        if !self.locked(a) && self.locked(b) {
            self.group(b)
        } else {
            self.group(a)
        }
    }

    /// The group that is taken into the other when the groups of `a` and `b`
    /// are joined.
    pub open spec fn absorbed(self, a: PieceIndex, b: PieceIndex) -> u32 {
        if !self.locked(a) && self.locked(b) {
            self.group(a)
        } else {
            self.group(b)
        }
    }

    /// The store after the groups of `a` and `b` were joined. The pieces of
    /// the absorbed group take the origin of the group that stays. The joined
    /// group is locked where one of the two was, or where it holds a whole
    /// side of the border.
    pub open spec fn merged(self, a: PieceIndex, b: PieceIndex) -> PuzzleView {
        let keep = self.kept(a, b);
        let group_of = relabeled(self.group_of, self.absorbed(a, b), keep);
        let locked = self.locked(a) || self.locked(b) || spans_side(group_of, self.rows, self.cols, keep);
        PuzzleView {
            group_of,
            groups: self.groups.update(
                keep as int,
                Group { locked, ..self.groups[keep as int] },
            ),
            ..self
        }
    }

    /// The store after piece `i` was picked up or put down.
    pub open spec fn held(self, i: PieceIndex, by: Option<u64>) -> PuzzleView {
        PuzzleView { holder: self.holder.update(self.slot(i), by), ..self }
    }

    /// Whether a check of `a` against `b` joins their groups: both are pieces
    /// of the puzzle, neighbours, in different groups, and near each other.
    pub open spec fn connects(self, a: PieceIndex, b: PieceIndex) -> bool {
        &&& self.has(a)
        &&& self.has(b)
        &&& adjacent(a, b)
        &&& self.group(a) != self.group(b)
        &&& self.near(a, b)
    }

    /// The store after an event, and the events that the application yields.
    ///
    /// An event that names a piece which the puzzle does not have changes
    /// nothing and yields nothing.
    pub open spec fn apply(self, e: Event) -> (PuzzleView, Seq<Event>) {
        match e {
            Event::PieceMoved { index, x, y } => if self.has(index) {
                (self.moved(index, x, y), seq![e])
            } else {
                (self, Seq::<Event>::empty())
            },
            Event::PiecePickedUp { player, index } => if self.has(index) {
                (self.held(index, Some(player)), seq![e])
            } else {
                (self, Seq::<Event>::empty())
            },
            Event::PiecePutDown { player, index } => if self.has(index) {
                (self.held(index, None), seq![e])
            } else {
                (self, Seq::<Event>::empty())
            },
            Event::PieceConnectionCheck { first, second } => if self.connects(first, second) {
                (self.merged(first, second), seq![Event::PieceConnection { first, second }])
            } else {
                (self, Seq::<Event>::empty())
            },
            Event::PieceConnection { first, second } => if self.has(first) && self.has(second)
                && adjacent(first, second) {
                if self.group(first) != self.group(second) {
                    (self.merged(first, second), seq![e])
                } else {
                    (self, seq![e])
                }
            } else {
                (self, Seq::<Event>::empty())
            },
            Event::PlayerCursorMoved { .. } => (self, seq![e]),
            Event::PlayerDisconnected { .. } => (self, seq![e]),
        }
    }
}

impl PuzzleView {
    /// The store of a puzzle that was just made: every piece is a group of
    /// its own, with its origin at zero, unlocked, and nobody holds a piece.
    pub open spec fn fresh(
        rows: u32,
        cols: u32,
        piece_width: u32,
        piece_height: u32,
        tolerance: u32,
    ) -> PuzzleView {
        PuzzleView {
            rows,
            cols,
            piece_width,
            piece_height,
            tolerance,
            group_of: Seq::new((rows * cols) as nat, |k: int| k as u32),
            groups: Seq::new((rows * cols) as nat, |k: int| Group { x: 0, y: 0, locked: false }),
            holder: Seq::new((rows * cols) as nat, |k: int| None::<u64>),
        }
    }
}

/// Whether a puzzle can have these dimensions: the grid is not empty, the
/// number of pieces fits in 32 bits, and the assembled puzzle is at most
/// `EXTENT_LIMIT` wide and high.
pub open spec fn dimensions_fit(rows: u32, cols: u32, piece_width: u32, piece_height: u32) -> bool {
    &&& rows >= 1
    &&& cols >= 1
    &&& rows * cols <= u32::MAX
    &&& cols * piece_width <= EXTENT_LIMIT
    &&& rows * piece_height <= EXTENT_LIMIT
}

/// Applying an event keeps the store well formed and the grid as it is.
pub proof fn lemma_apply_wf(p: PuzzleView, e: Event)
    requires
        p.wf(),
    ensures
        p.apply(e).0.wf(),
        p.apply(e).0.rows == p.rows,
        p.apply(e).0.cols == p.cols,
        p.apply(e).0.piece_width == p.piece_width,
        p.apply(e).0.piece_height == p.piece_height,
        p.apply(e).0.tolerance == p.tolerance,
{
    match e {
        Event::PieceMoved { index, x, y } => {
            if p.has(index) {
                lemma_slot_bound(p.rows as int, p.cols as int, index.0 as int, index.1 as int);
                assert(0 <= index.1 * p.piece_width <= p.cols * p.piece_width) by (nonlinear_arith)
                    requires
                        0 <= index.1 < p.cols,
                        0 <= p.piece_width,
                ;
                assert(0 <= index.0 * p.piece_height <= p.rows * p.piece_height)
                    by (nonlinear_arith)
                    requires
                        0 <= index.0 < p.rows,
                        0 <= p.piece_height,
                ;
            }
        },
        Event::PiecePickedUp { player, index } => {
            if p.has(index) {
                lemma_slot_bound(p.rows as int, p.cols as int, index.0 as int, index.1 as int);
            }
        },
        Event::PiecePutDown { player, index } => {
            if p.has(index) {
                lemma_slot_bound(p.rows as int, p.cols as int, index.0 as int, index.1 as int);
            }
        },
        Event::PieceConnectionCheck { first, second } => {
            if p.has(first) && p.has(second) {
                lemma_merged_wf(p, first, second);
            }
        },
        Event::PieceConnection { first, second } => {
            if p.has(first) && p.has(second) {
                lemma_merged_wf(p, first, second);
            }
        },
        Event::PlayerCursorMoved { .. } => {},
        Event::PlayerDisconnected { .. } => {},
    }
}

/// Joining two groups keeps the store well formed.
pub proof fn lemma_merged_wf(p: PuzzleView, a: PieceIndex, b: PieceIndex)
    requires
        p.wf(),
        p.has(a),
        p.has(b),
    ensures
        p.merged(a, b).wf(),
{
    lemma_slot_bound(p.rows as int, p.cols as int, a.0 as int, a.1 as int);
    lemma_slot_bound(p.rows as int, p.cols as int, b.0 as int, b.1 as int);
    let keep = p.kept(a, b);
    assert(keep < p.count());
    let m = p.merged(a, b);
    assert forall|k: int| 0 <= k < m.count() implies (#[trigger] m.group_of[k]) < m.count() by {
        assert(p.group_of[k] < p.count());
    }
    assert forall|g: int| 0 <= g < m.count() implies -ORIGIN_LIMIT <= (#[trigger] m.groups[g]).x
        <= ORIGIN_LIMIT && -ORIGIN_LIMIT <= m.groups[g].y <= ORIGIN_LIMIT by {
        assert(-ORIGIN_LIMIT <= p.groups[g].x <= ORIGIN_LIMIT);
    }
}

/// The pieces of one group lie at their grid offsets from each other: the
/// group is rigid.
pub proof fn lemma_group_rigid(p: PuzzleView, a: PieceIndex, b: PieceIndex)
    requires
        p.group(a) == p.group(b),
    ensures
        p.position(b).0 - p.position(a).0 == (b.1 - a.1) * p.piece_width,
        p.position(b).1 - p.position(a).1 == (b.0 - a.0) * p.piece_height,
{
    assert((b.1 - a.1) * p.piece_width == b.1 * p.piece_width - a.1 * p.piece_width)
        by (nonlinear_arith);
    assert((b.0 - a.0) * p.piece_height == b.0 * p.piece_height - a.0 * p.piece_height)
        by (nonlinear_arith);
}

/// A move puts the moved piece where the event says and carries every
/// piece of its group along; the pieces of other groups stay where they are.
pub proof fn lemma_move_carries_group(p: PuzzleView, i: PieceIndex, x: i32, y: i32, b: PieceIndex)
    requires
        p.wf(),
        p.has(i),
        p.has(b),
    ensures
        p.moved(i, x, y).position(i) == (x as int, y as int),
        p.moved(i, x, y).group(b) == p.group(b),
        p.group(b) != p.group(i) ==> p.moved(i, x, y).position(b) == p.position(b),
        p.group(b) == p.group(i) ==> p.moved(i, x, y).position(b) == (
            x + (b.1 - i.1) * p.piece_width,
            y + (b.0 - i.0) * p.piece_height,
        ),
{
    lemma_slot_bound(p.rows as int, p.cols as int, i.0 as int, i.1 as int);
    lemma_slot_bound(p.rows as int, p.cols as int, b.0 as int, b.1 as int);
    assert(0 <= i.1 * p.piece_width <= p.cols * p.piece_width) by (nonlinear_arith)
        requires
            0 <= i.1 < p.cols,
            0 <= p.piece_width,
    ;
    assert(0 <= i.0 * p.piece_height <= p.rows * p.piece_height) by (nonlinear_arith)
        requires
            0 <= i.0 < p.rows,
            0 <= p.piece_height,
    ;
    assert((b.1 - i.1) * p.piece_width == b.1 * p.piece_width - i.1 * p.piece_width)
        by (nonlinear_arith);
    assert((b.0 - i.0) * p.piece_height == b.0 * p.piece_height - i.0 * p.piece_height)
        by (nonlinear_arith);
    assert(p.group_of[p.slot(i)] < p.count());
    assert(p.group_of[p.slot(b)] < p.count());
}

/// After two groups were joined, their pieces belong to one group, and the
/// pieces of every other group belong to the group they belonged to.
pub proof fn lemma_merged_groups(p: PuzzleView, a: PieceIndex, b: PieceIndex, c: PieceIndex)
    requires
        p.wf(),
        p.has(a),
        p.has(b),
        p.has(c),
    ensures
        p.merged(a, b).group(a) == p.merged(a, b).group(b),
        p.group(c) != p.group(a) && p.group(c) != p.group(b) ==> p.merged(a, b).group(c)
            == p.group(c),
        p.group(c) == p.group(a) || p.group(c) == p.group(b) ==> p.merged(a, b).group(c)
            == p.merged(a, b).group(a),
        (p.locked(a) || p.locked(b)) ==> p.merged(a, b).locked(a),
{
    lemma_slot_bound(p.rows as int, p.cols as int, a.0 as int, a.1 as int);
    lemma_slot_bound(p.rows as int, p.cols as int, b.0 as int, b.1 as int);
    lemma_slot_bound(p.rows as int, p.cols as int, c.0 as int, c.1 as int);
    assert(p.group_of[p.slot(a)] < p.count());
    assert(p.group_of[p.slot(b)] < p.count());
}

/// A place in the grid is a place in row-major order.
pub proof fn lemma_slot_bound(rows: int, cols: int, r: int, c: int)
    requires
        0 <= r < rows,
        0 <= c < cols,
    ensures
        0 <= r * cols + c < rows * cols,
        (r * cols + c) / cols == r,
        (r * cols + c) % cols == c,
{
    assert(r * cols + c < rows * cols) by (nonlinear_arith)
        requires
            0 <= r < rows,
            0 <= c < cols,
    ;
    assert(0 <= r * cols) by (nonlinear_arith)
        requires
            0 <= r,
            0 < cols,
    ;
    vstd::arithmetic::div_mod::lemma_fundamental_div_mod_converse(r * cols + c, cols, r, c);
}

/// A place in row-major order is a place in the grid.
pub proof fn lemma_piece_at(rows: int, cols: int, k: int)
    requires
        0 <= k < rows * cols,
        0 < cols,
    ensures
        0 <= k / cols < rows,
        0 <= k % cols < cols,
        (k / cols) * cols + k % cols == k,
{
    vstd::arithmetic::div_mod::lemma_fundamental_div_mod(k, cols);
    vstd::arithmetic::div_mod::lemma_mod_bound(k, cols);
    let q = k / cols;
    assert(cols * q == q * cols) by (nonlinear_arith);
    assert(0 <= q < rows) by (nonlinear_arith)
        requires
            0 <= k < rows * cols,
            0 < cols,
            q * cols + k % cols == k,
            0 <= k % cols < cols,
    ;
}

/// The puzzle store.
pub struct Puzzle {
    rows: u32,
    cols: u32,
    piece_width: u32,
    piece_height: u32,
    tolerance: u32,
    group_of: Vec<u32>,
    groups: Vec<Group>,
    holder: Vec<Option<u64>>,
}

impl View for Puzzle {
    type V = PuzzleView;

    closed spec fn view(&self) -> PuzzleView {
        PuzzleView {
            rows: self.rows,
            cols: self.cols,
            piece_width: self.piece_width,
            piece_height: self.piece_height,
            tolerance: self.tolerance,
            group_of: self.group_of@,
            groups: self.groups@,
            holder: self.holder@,
        }
    }
}

/// The product of two 32-bit numbers.
fn product(a: u32, b: u32) -> (p: u64)
    ensures
        p == a * b,
{
    assert(a * b <= 0xffff_ffff * 0xffff_ffff) by (nonlinear_arith)
        requires
            0 <= a <= 0xffff_ffff,
            0 <= b <= 0xffff_ffff,
    ;
    (a as u64) * (b as u64)
}

/// Takes the group `gone` into the group `keep`.
fn relabel(group_of: &mut Vec<u32>, gone: u32, keep: u32)
    ensures
        final(group_of)@ == relabeled(old(group_of)@, gone, keep),
{
    let n = group_of.len();
    let mut k: usize = 0;
    while k < n
        invariant
            k <= n,
            n == group_of@.len(),
            n == old(group_of)@.len(),
            forall|j: int| 0 <= j < k ==> group_of@[j] == relabeled(old(group_of)@, gone, keep)[j],
            forall|j: int| k <= j < n ==> group_of@[j] == old(group_of)@[j],
        decreases n - k,
    {
        if group_of[k] == gone {
            group_of.set(k, keep);
        }
        k = k + 1;
    }
    assert(group_of@ =~= relabeled(old(group_of)@, gone, keep));
}

impl Puzzle {
    /// The invariant of the store.
    pub open spec fn wf(&self) -> bool {
        self@.wf()
    }

    /// Makes a puzzle of `rows` by `cols` pieces, each `piece_width` wide and
    /// `piece_height` high, in which neighbours join when they lie within
    /// `tolerance` of their places. Every piece starts as a group of its own.
    ///
    /// Gives nothing where the dimensions do not fit.
    pub fn new(rows: u32, cols: u32, piece_width: u32, piece_height: u32, tolerance: u32) -> (r:
        Option<Puzzle>)
        ensures
            r is Some <==> dimensions_fit(rows, cols, piece_width, piece_height),
            r matches Some(p) ==> p.wf() && p@ == PuzzleView::fresh(
                rows,
                cols,
                piece_width,
                piece_height,
                tolerance,
            ),
    {
        if rows == 0 || cols == 0 {
            return None;
        }
        let count = product(rows, cols);
        if count > 0xffff_ffff || product(cols, piece_width) > 0x7fff_ffff || product(
            rows,
            piece_height,
        ) > 0x7fff_ffff {
            return None;
        }
        let n = count as u32;
        let mut group_of: Vec<u32> = Vec::new();
        let mut groups: Vec<Group> = Vec::new();
        let mut holder: Vec<Option<u64>> = Vec::new();
        let mut k: u32 = 0;
        while k < n
            invariant
                k <= n,
                group_of@.len() == k,
                groups@.len() == k,
                holder@.len() == k,
                forall|j: int| 0 <= j < k ==> group_of@[j] == j as u32,
                forall|j: int| 0 <= j < k ==> groups@[j] == (Group { x: 0, y: 0, locked: false }),
                forall|j: int| 0 <= j < k ==> holder@[j] == None::<u64>,
            decreases n - k,
        {
            group_of.push(k);
            groups.push(Group { x: 0, y: 0, locked: false });
            holder.push(None);
            k = k + 1;
        }
        let p = Puzzle { rows, cols, piece_width, piece_height, tolerance, group_of, groups, holder };
        proof {
            let f = PuzzleView::fresh(rows, cols, piece_width, piece_height, tolerance);
            assert(p@.group_of =~= f.group_of);
            assert(p@.groups =~= f.groups);
            assert(p@.holder =~= f.holder);
        }
        Some(p)
    }

    /// The puzzle with the given state.
    pub(crate) fn from_parts(
        rows: u32,
        cols: u32,
        piece_width: u32,
        piece_height: u32,
        tolerance: u32,
        group_of: Vec<u32>,
        groups: Vec<Group>,
        holder: Vec<Option<u64>>,
    ) -> (p: Puzzle)
        ensures
            p@ == (PuzzleView {
                rows,
                cols,
                piece_width,
                piece_height,
                tolerance,
                group_of: group_of@,
                groups: groups@,
                holder: holder@,
            }),
    {
        Puzzle { rows, cols, piece_width, piece_height, tolerance, group_of, groups, holder }
    }

    /// The group number of the piece at place `k` of row-major order.
    pub(crate) fn group_at(&self, k: usize) -> (g: u32)
        requires
            self.wf(),
            k < self@.count(),
        ensures
            g == self@.group_of[k as int],
    {
        self.group_of[k]
    }

    /// The group with the number `g`.
    pub(crate) fn group_state(&self, g: usize) -> (r: Group)
        requires
            self.wf(),
            g < self@.count(),
        ensures
            r == self@.groups[g as int],
    {
        self.groups[g]
    }

    /// The holder of the piece at place `k` of row-major order.
    pub(crate) fn holder_at(&self, k: usize) -> (r: Option<u64>)
        requires
            self.wf(),
            k < self@.count(),
        ensures
            r == self@.holder[k as int],
    {
        self.holder[k]
    }

    /// The number of rows.
    pub fn num_rows(&self) -> (r: u32)
        ensures
            r == self@.rows,
    {
        self.rows
    }

    /// The number of columns.
    pub fn num_cols(&self) -> (r: u32)
        ensures
            r == self@.cols,
    {
        self.cols
    }

    /// The width of one piece.
    pub fn piece_width(&self) -> (r: u32)
        ensures
            r == self@.piece_width,
    {
        self.piece_width
    }

    /// The height of one piece.
    pub fn piece_height(&self) -> (r: u32)
        ensures
            r == self@.piece_height,
    {
        self.piece_height
    }

    /// How far from its place a neighbour may lie and still join.
    pub fn tolerance(&self) -> (r: u32)
        ensures
            r == self@.tolerance,
    {
        self.tolerance
    }

    /// The number of pieces.
    pub fn piece_count(&self) -> (r: u32)
        requires
            self.wf(),
        ensures
            r == self@.count(),
    {
        product(self.rows, self.cols) as u32
    }

    /// Whether the puzzle has a piece `index`.
    pub fn contains(&self, index: &PieceIndex) -> (r: bool)
        ensures
            r == self@.has(*index),
    {
        index.0 < self.rows && index.1 < self.cols
    }

    /// The place of piece `index` in row-major order.
    pub fn slot(&self, index: &PieceIndex) -> (k: usize)
        requires
            self.wf(),
            self@.has(*index),
        ensures
            k == self@.slot(*index),
            k < self@.count(),
    {
        proof {
            lemma_slot_bound(self.rows as int, self.cols as int, index.0 as int, index.1 as int);
        }
        (product(index.0, self.cols) + index.1 as u64) as usize
    }

    /// The piece at place `k` of row-major order.
    pub fn piece_at(&self, k: u32) -> (index: PieceIndex)
        requires
            self.wf(),
            k < self@.count(),
        ensures
            index == self@.piece_at(k as int),
            self@.has(index),
            self@.slot(index) == k,
    {
        proof {
            lemma_piece_at(self.rows as int, self.cols as int, k as int);
        }
        PieceIndex(k / self.cols, k % self.cols)
    }

    /// The number of the group that piece `index` belongs to.
    pub fn group(&self, index: &PieceIndex) -> (g: u32)
        requires
            self.wf(),
            self@.has(*index),
        ensures
            g == self@.group(*index),
            g < self@.count(),
    {
        self.group_of[self.slot(index)]
    }

    /// Whether the group of piece `index` is locked.
    pub fn piece_group_locked(&self, index: &PieceIndex) -> (r: bool)
        requires
            self.wf(),
            self@.has(*index),
        ensures
            r == self@.locked(*index),
    {
        self.groups[self.group(index) as usize].locked
    }

    /// Where piece `index` lies.
    pub fn position(&self, index: &PieceIndex) -> (r: (i64, i64))
        requires
            self.wf(),
            self@.has(*index),
        ensures
            (r.0 as int, r.1 as int) == self@.position(*index),
    {
        let g = self.groups[self.group(index) as usize];
        proof {
            let v = self@;
            assert(index.1 * v.piece_width <= v.cols * v.piece_width) by (nonlinear_arith)
                requires
                    0 <= index.1 < v.cols,
                    0 <= v.piece_width,
            ;
            assert(index.0 * v.piece_height <= v.rows * v.piece_height) by (nonlinear_arith)
                requires
                    0 <= index.0 < v.rows,
                    0 <= v.piece_height,
            ;
        }
        let dx = product(index.1, self.piece_width) as i64;
        let dy = product(index.0, self.piece_height) as i64;
        (g.x + dx, g.y + dy)
    }

    /// The player who holds piece `index`, if any does.
    pub fn holder(&self, index: &PieceIndex) -> (r: Option<u64>)
        requires
            self.wf(),
            self@.has(*index),
        ensures
            r == self@.held_by(*index),
    {
        self.holder[self.slot(index)]
    }

    /// Whether the pieces `a` and `b` lie within the tolerance of where
    /// neighbours in one group would lie.
    pub fn near(&self, a: &PieceIndex, b: &PieceIndex) -> (r: bool)
        requires
            self.wf(),
            self@.has(*a),
            self@.has(*b),
        ensures
            r == self@.near(*a, *b),
    {
        let ga = self.groups[self.group(a) as usize];
        let gb = self.groups[self.group(b) as usize];
        let t = self.tolerance as i64;
        let dx = ga.x - gb.x;
        let dy = ga.y - gb.y;
        -t <= dx && dx <= t && -t <= dy && dy <= t
    }

    /// Whether every piece of row `r` belongs to group `g`.
    fn row_in_group(&self, r: u32, g: u32) -> (all: bool)
        requires
            self.wf(),
            r < self@.rows,
        ensures
            all == row_in_group(self@.group_of, self@.cols, r as int, g),
    {
        let mut c: u32 = 0;
        while c < self.cols
            invariant
                self.wf(),
                r < self@.rows,
                c <= self@.cols,
                forall|j: int| 0 <= j < c ==> #[trigger] cell(self@.group_of, self@.cols, r as int, j) == g,
            decreases self@.cols - c,
        {
            if self.group_of[self.slot(&PieceIndex(r, c))] != g {
                assert(cell(self@.group_of, self@.cols, r as int, c as int) != g);
                return false;
            }
            c = c + 1;
        }
        true
    }

    /// Whether every piece of column `c` belongs to group `g`.
    fn col_in_group(&self, c: u32, g: u32) -> (all: bool)
        requires
            self.wf(),
            c < self@.cols,
        ensures
            all == col_in_group(self@.group_of, self@.rows, self@.cols, c as int, g),
    {
        let mut r: u32 = 0;
        while r < self.rows
            invariant
                self.wf(),
                c < self@.cols,
                r <= self@.rows,
                forall|j: int| 0 <= j < r ==> #[trigger] cell(self@.group_of, self@.cols, j, c as int) == g,
            decreases self@.rows - r,
        {
            if self.group_of[self.slot(&PieceIndex(r, c))] != g {
                assert(cell(self@.group_of, self@.cols, r as int, c as int) != g);
                return false;
            }
            r = r + 1;
        }
        true
    }

    /// Whether group `g` holds one whole side of the puzzle's border.
    fn spans_side(&self, g: u32) -> (r: bool)
        requires
            self.wf(),
        ensures
            r == spans_side(self@.group_of, self@.rows, self@.cols, g),
    {
        self.row_in_group(0, g) || self.row_in_group(self.rows - 1, g) || self.col_in_group(0, g)
            || self.col_in_group(self.cols - 1, g)
    }

    /// Joins the groups of `a` and `b`.
    fn merge(&mut self, a: &PieceIndex, b: &PieceIndex)
        requires
            old(self).wf(),
            old(self)@.has(*a),
            old(self)@.has(*b),
        ensures
            final(self).wf(),
            final(self)@ == old(self)@.merged(*a, *b),
    {
        let ga = self.group(a);
        let gb = self.group(b);
        let la = self.groups[ga as usize].locked;
        let lb = self.groups[gb as usize].locked;
        let (keep, gone) = if !la && lb {
            (gb, ga)
        } else {
            (ga, gb)
        };
        relabel(&mut self.group_of, gone, keep);
        let side = self.spans_side(keep);
        let kept = self.groups[keep as usize];
        self.groups.set(keep as usize, Group { x: kept.x, y: kept.y, locked: la || lb || side });
        proof {
            let want = old(self)@.merged(*a, *b);
            assert(self@.group_of =~= want.group_of);
            assert(self@.groups =~= want.groups);
        }
    }

    /// Applies one event to the store and gives the events that follow from
    /// it, in the order in which they occurred.
    pub fn apply_event(&mut self, event: Event) -> (derived: Vec<Event>)
        requires
            old(self).wf(),
        ensures
            final(self).wf(),
            final(self)@ == old(self)@.apply(event).0,
            derived@ == old(self)@.apply(event).1,
    {
        match event {
            Event::PieceMoved { index, x, y } => {
                if !self.contains(&index) {
                    return Vec::new();
                }
                let g = self.group(&index) as usize;
                proof {
                    let v = self@;
                    assert(index.1 * v.piece_width <= v.cols * v.piece_width) by (nonlinear_arith)
                        requires
                            0 <= index.1 < v.cols,
                            0 <= v.piece_width,
                    ;
                    assert(index.0 * v.piece_height <= v.rows * v.piece_height) by (nonlinear_arith)
                        requires
                            0 <= index.0 < v.rows,
                            0 <= v.piece_height,
                    ;
                }
                let dx = product(index.1, self.piece_width) as i64;
                let dy = product(index.0, self.piece_height) as i64;
                let locked = self.groups[g].locked;
                self.groups.set(g, Group { x: x as i64 - dx, y: y as i64 - dy, locked });
                assert(self@.groups =~= old(self)@.moved(index, x, y).groups);
                vec![event]
            },
            Event::PiecePickedUp { player, index } => {
                if !self.contains(&index) {
                    return Vec::new();
                }
                let k = self.slot(&index);
                self.holder.set(k, Some(player));
                assert(self@.holder =~= old(self)@.held(index, Some(player)).holder);
                vec![event]
            },
            Event::PiecePutDown { player, index } => {
                if !self.contains(&index) {
                    return Vec::new();
                }
                let k = self.slot(&index);
                self.holder.set(k, None);
                assert(self@.holder =~= old(self)@.held(index, None).holder);
                vec![event]
            },
            Event::PieceConnectionCheck { first, second } => {
                if self.contains(&first) && self.contains(&second) && neighbours(&first, &second)
                    && self.group(&first) != self.group(&second) && self.near(&first, &second) {
                    self.merge(&first, &second);
                    vec![Event::PieceConnection { first, second }]
                } else {
                    Vec::new()
                }
            },
            Event::PieceConnection { first, second } => {
                if self.contains(&first) && self.contains(&second) && neighbours(&first, &second) {
                    if self.group(&first) != self.group(&second) {
                        self.merge(&first, &second);
                    }
                    vec![event]
                } else {
                    Vec::new()
                }
            },
            Event::PlayerCursorMoved { .. } => vec![event],
            Event::PlayerDisconnected { .. } => vec![event],
        }
    }
}

/// Whether two pieces are neighbours in the grid.
pub fn neighbours(a: &PieceIndex, b: &PieceIndex) -> (r: bool)
    ensures
        r == adjacent(*a, *b),
{
    let a0 = a.0 as u64;
    let a1 = a.1 as u64;
    let b0 = b.0 as u64;
    let b1 = b.1 as u64;
    (a0 == b0 && (a1 + 1 == b1 || b1 + 1 == a1)) || (a1 == b1 && (a0 + 1 == b0 || b0 + 1 == a0))
}

} // verus!
