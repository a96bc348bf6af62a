//! The ordering stack: every piece once, the piece at the front drawn above
//! all others and first to be picked.

use std::collections::VecDeque;
use vstd::prelude::*;

use crate::event::PieceIndex;

verus! {

/// Depth of the back of the stack.
pub const MIN_PIECE_HEIGHT: u32 = 500;

/// Depth of the front of the stack.
pub const MAX_PIECE_HEIGHT: u32 = 900;

/// The sequence `s` without its entry `id`.
pub open spec fn without(s: Seq<PieceIndex>, id: PieceIndex) -> Seq<PieceIndex> {
    s.remove(s.index_of(id))
}

/// The sequence `s` with its entry `id` moved to the front.
pub open spec fn raised(s: Seq<PieceIndex>, id: PieceIndex) -> Seq<PieceIndex> {
    seq![id] + without(s, id)
}

/// The sequence `s` with its entry `id` moved to the back.
pub open spec fn sunk(s: Seq<PieceIndex>, id: PieceIndex) -> Seq<PieceIndex> {
    without(s, id).push(id)
}

/// The depth of position `i` in a stack of `n` pieces, multiplied by `n`.
///
/// Depths fall in equal steps from `MAX_PIECE_HEIGHT` at the front towards
/// `MIN_PIECE_HEIGHT`, which a position behind the last would have.
pub open spec fn scaled_depth(i: int, n: int) -> int {
    MAX_PIECE_HEIGHT * n - i * (MAX_PIECE_HEIGHT - MIN_PIECE_HEIGHT)
}

/// In a sequence without repetition, an entry is found at its one position.
pub proof fn lemma_index_of(s: Seq<PieceIndex>, k: int)
    requires
        s.no_duplicates(),
        0 <= k < s.len(),
    ensures
        s.index_of(s[k]) == k,
        s.contains(s[k]),
{
    let id = s[k];
    assert(s.contains(id));
    let j = s.index_of(id);
    assert(0 <= j < s.len() && s[j] == id);
}

/// Taking an entry out of a sequence without repetition leaves every other
/// entry, once, and not the entry itself.
pub proof fn lemma_without(s: Seq<PieceIndex>, id: PieceIndex)
    requires
        s.no_duplicates(),
        s.contains(id),
    ensures
        without(s, id).len() == s.len() - 1,
        without(s, id).no_duplicates(),
        !without(s, id).contains(id),
        forall|x: PieceIndex| x != id ==> (without(s, id).contains(x) <==> s.contains(x)),
{
    let k = s.index_of(id);
    let r = without(s, id);
    assert(0 <= k < s.len() && s[k] == id);
    assert forall|i: int, j: int| 0 <= i < r.len() && 0 <= j < r.len() && i != j implies r[i]
        != r[j] by {
        let si = if i < k {
            i
        } else {
            i + 1
        };
        let sj = if j < k {
            j
        } else {
            j + 1
        };
        assert(r[i] == s[si] && r[j] == s[sj]);
    }
    assert forall|i: int| 0 <= i < r.len() implies r[i] != id by {
        let si = if i < k {
            i
        } else {
            i + 1
        };
        assert(r[i] == s[si]);
    }
    assert forall|x: PieceIndex| x != id implies (r.contains(x) <==> s.contains(x)) by {
        if r.contains(x) {
            let i = choose|i: int| 0 <= i < r.len() && r[i] == x;
            let si = if i < k {
                i
            } else {
                i + 1
            };
            assert(s[si] == x);
        }
        if s.contains(x) {
            let j = choose|j: int| 0 <= j < s.len() && s[j] == x;
            let ri = if j < k {
                j
            } else {
                j - 1
            };
            assert(r[ri] == x);
        }
    }
}

/// Moving an entry to the front keeps the length and the entries, puts the
/// entry first, and leaves it in the sequence exactly once.
pub proof fn lemma_raised(s: Seq<PieceIndex>, id: PieceIndex)
    requires
        s.no_duplicates(),
        s.contains(id),
    ensures
        raised(s, id).len() == s.len(),
        raised(s, id)[0] == id,
        raised(s, id).no_duplicates(),
        forall|i: int| 0 <= i < raised(s, id).len() ==> (raised(s, id)[i] == id <==> i == 0),
        forall|x: PieceIndex| raised(s, id).contains(x) <==> s.contains(x),
{
    lemma_without(s, id);
    let r = without(s, id);
    let t = raised(s, id);
    assert forall|i: int| 0 < i < t.len() implies t[i] != id by {
        assert(t[i] == r[i - 1]);
    }
    assert forall|i: int, j: int| 0 <= i < t.len() && 0 <= j < t.len() && i != j implies t[i]
        != t[j] by {
        if i > 0 && j > 0 {
            assert(t[i] == r[i - 1] && t[j] == r[j - 1]);
        }
    }
    assert forall|x: PieceIndex| t.contains(x) <==> s.contains(x) by {
        if t.contains(x) {
            let i = choose|i: int| 0 <= i < t.len() && t[i] == x;
            if i > 0 {
                assert(t[i] == r[i - 1]);
                assert(r.contains(x));
            }
        }
        if s.contains(x) {
            if x == id {
                assert(t[0] == x);
            } else {
                assert(r.contains(x));
                let j = choose|j: int| 0 <= j < r.len() && r[j] == x;
                assert(t[j + 1] == x);
            }
        }
    }
}

/// Moving an entry to the back keeps the length and the entries, puts the
/// entry last, and leaves it in the sequence exactly once.
pub proof fn lemma_sunk(s: Seq<PieceIndex>, id: PieceIndex)
    requires
        s.no_duplicates(),
        s.contains(id),
    ensures
        sunk(s, id).len() == s.len(),
        sunk(s, id).last() == id,
        sunk(s, id).no_duplicates(),
        forall|i: int|
            0 <= i < sunk(s, id).len() ==> (sunk(s, id)[i] == id <==> i == s.len() - 1),
        forall|x: PieceIndex| sunk(s, id).contains(x) <==> s.contains(x),
{
    lemma_without(s, id);
    let r = without(s, id);
    let t = sunk(s, id);
    assert forall|i: int| 0 <= i < t.len() - 1 implies t[i] != id by {
        assert(t[i] == r[i]);
    }
    assert forall|i: int, j: int| 0 <= i < t.len() && 0 <= j < t.len() && i != j implies t[i]
        != t[j] by {
        if i < r.len() && j < r.len() {
            assert(t[i] == r[i] && t[j] == r[j]);
        } else if i < r.len() {
            assert(t[i] == r[i]);
        } else {
            assert(t[j] == r[j]);
        }
    }
    assert forall|x: PieceIndex| t.contains(x) <==> s.contains(x) by {
        if t.contains(x) {
            let i = choose|i: int| 0 <= i < t.len() && t[i] == x;
            if i < r.len() {
                assert(t[i] == r[i]);
                assert(r.contains(x));
            }
        }
        if s.contains(x) {
            if x == id {
                assert(t[t.len() - 1] == x);
            } else {
                assert(r.contains(x));
                let j = choose|j: int| 0 <= j < r.len() && r[j] == x;
                assert(t[j] == x);
            }
        }
    }
}

/// The depths of a stack of `n` pieces are `n` values that fall strictly
/// from front to back and lie between the two bounds.
pub proof fn lemma_depths_fall(i: int, j: int, n: int)
    requires
        0 <= i < j < n,
    ensures
        scaled_depth(j, n) < scaled_depth(i, n),
        MIN_PIECE_HEIGHT * n < scaled_depth(j, n),
        scaled_depth(i, n) <= MAX_PIECE_HEIGHT * n,
{
}

/// The ordering stack. The front of the queue is the top of the stack.
#[derive(Debug)]
pub struct PieceStack(pub VecDeque<PieceIndex>);

impl View for PieceStack {
    type V = Seq<PieceIndex>;

    open spec fn view(&self) -> Seq<PieceIndex> {
        self.0@
    }
}

impl PieceStack {
    /// The invariant of the stack: no piece stands in it twice.
    pub open spec fn wf(&self) -> bool {
        self@.no_duplicates()
    }

    /// An empty stack.
    pub fn new() -> (s: PieceStack)
        ensures
            s@ == Seq::<PieceIndex>::empty(),
            s.wf(),
    {
        PieceStack(VecDeque::new())
    }

    /// The number of pieces in the stack.
    pub fn len(&self) -> (n: usize)
        ensures
            n == self@.len(),
    {
        self.0.len()
    }

    /// The position of `id` in the stack, counted from the front.
    pub fn position(&self, id: PieceIndex) -> (r: Option<usize>)
        ensures
            match r {
                Some(k) => k < self@.len() && self@[k as int] == id && forall|j: int|
                    0 <= j < k ==> self@[j] != id,
                None => !self@.contains(id),
            },
    {
        let n = self.0.len();
        let mut k: usize = 0;
        while k < n
            invariant
                k <= n,
                n == self@.len(),
                forall|j: int| 0 <= j < k ==> self@[j] != id,
            decreases n - k,
        {
            let here = self.0[k];
            if here.0 == id.0 && here.1 == id.1 {
                return Some(k);
            }
            k = k + 1;
        }
        None
    }

    /// Whether `id` stands in the stack.
    pub fn contains(&self, id: PieceIndex) -> (r: bool)
        ensures
            r == self@.contains(id),
    {
        self.position(id).is_some()
    }

    /// Takes `id` out of the stack.
    fn remove_entity(&mut self, id: PieceIndex)
        requires
            old(self).wf(),
            old(self)@.contains(id),
        ensures
            final(self)@ == without(old(self)@, id),
    {
        match self.position(id) {
            Some(k) => {
                proof {
                    lemma_index_of(self@, k as int);
                }
                self.0.remove(k);
            },
            None => {},
        }
    }

    /// Moves `id` to the front of the stack.
    pub fn put_on_top(&mut self, id: PieceIndex)
        requires
            old(self).wf(),
            old(self)@.contains(id),
        ensures
            final(self).wf(),
            final(self)@ == raised(old(self)@, id),
            final(self)@.len() == old(self)@.len(),
            final(self)@[0] == id,
            forall|i: int| 0 <= i < final(self)@.len() ==> (final(self)@[i] == id <==> i == 0),
            forall|x: PieceIndex| final(self)@.contains(x) <==> old(self)@.contains(x),
    {
        proof {
            lemma_raised(self@, id);
        }
        self.remove_entity(id);
        self.0.push_front(id);
    }

    /// Moves `id` to the back of the stack.
    pub fn put_on_bottom(&mut self, id: PieceIndex)
        requires
            old(self).wf(),
            old(self)@.contains(id),
        ensures
            final(self).wf(),
            final(self)@ == sunk(old(self)@, id),
            final(self)@.len() == old(self)@.len(),
            final(self)@.last() == id,
            forall|i: int|
                0 <= i < final(self)@.len() ==> (final(self)@[i] == id <==> i == old(self)@.len()
                    - 1),
            forall|x: PieceIndex| final(self)@.contains(x) <==> old(self)@.contains(x),
    {
        proof {
            lemma_sunk(self@, id);
        }
        self.remove_entity(id);
        self.0.push_back(id);
    }

    /// Puts a piece that is not in the stack at its front.
    pub fn push_top(&mut self, id: PieceIndex)
        requires
            old(self).wf(),
            !old(self)@.contains(id),
        ensures
            final(self).wf(),
            final(self)@ == seq![id] + old(self)@,
    {
        self.0.push_front(id);
        proof {
            let s = old(self)@;
            let t = self@;
            assert forall|i: int, j: int| 0 <= i < t.len() && 0 <= j < t.len() && i != j implies t[i]
                != t[j] by {
                if i > 0 {
                    assert(t[i] == s[i - 1]);
                }
                if j > 0 {
                    assert(t[j] == s[j - 1]);
                }
            }
        }
    }

    /// Puts a piece that is not in the stack at its back.
    pub fn push_bottom(&mut self, id: PieceIndex)
        requires
            old(self).wf(),
            !old(self)@.contains(id),
        ensures
            final(self).wf(),
            final(self)@ == old(self)@.push(id),
    {
        self.0.push_back(id);
        proof {
            let s = old(self)@;
            let t = self@;
            assert forall|i: int, j: int| 0 <= i < t.len() && 0 <= j < t.len() && i != j implies t[i]
                != t[j] by {
                if i < s.len() {
                    assert(t[i] == s[i]);
                }
                if j < s.len() {
                    assert(t[j] == s[j]);
                }
            }
        }
    }

    /// The depth of every piece, front to back: each piece with its depth
    /// multiplied by the number of pieces.
    ///
    /// The depths fall strictly from front to back and lie between
    /// `MIN_PIECE_HEIGHT` and `MAX_PIECE_HEIGHT`.
    pub fn depths(&self) -> (r: Vec<(PieceIndex, u128)>)
        ensures
            r@.len() == self@.len(),
            forall|i: int|
                0 <= i < r@.len() ==> (#[trigger] r@[i]).0 == self@[i] && r@[i].1 == scaled_depth(
                    i,
                    self@.len() as int,
                ),
            forall|i: int|
                0 <= i < r@.len() ==> MIN_PIECE_HEIGHT * self@.len() < (#[trigger] r@[i]).1
                    <= MAX_PIECE_HEIGHT * self@.len(),
            forall|i: int, j: int|
                0 <= i < j < r@.len() ==> (#[trigger] r@[j]).1 < (#[trigger] r@[i]).1,
    {
        let n = self.0.len();
        let top: u128 = (MAX_PIECE_HEIGHT as u128) * (n as u128);
        let step: u128 = (MAX_PIECE_HEIGHT - MIN_PIECE_HEIGHT) as u128;
        let mut out: Vec<(PieceIndex, u128)> = Vec::new();
        let mut i: usize = 0;
        while i < n
            invariant
                i <= n,
                n == self@.len(),
                top == MAX_PIECE_HEIGHT * n,
                step == MAX_PIECE_HEIGHT - MIN_PIECE_HEIGHT,
                out@.len() == i,
                forall|k: int|
                    0 <= k < i ==> (#[trigger] out@[k]).0 == self@[k] && out@[k].1 == scaled_depth(
                        k,
                        n as int,
                    ),
            decreases n - i,
        {
            assert(0 <= i * step <= top && i * step == i * (MAX_PIECE_HEIGHT - MIN_PIECE_HEIGHT))
                by (nonlinear_arith)
                requires
                    0 <= i < n,
                    step == MAX_PIECE_HEIGHT - MIN_PIECE_HEIGHT,
                    top == MAX_PIECE_HEIGHT * n,
                    MAX_PIECE_HEIGHT == 900,
                    MIN_PIECE_HEIGHT == 500,
            ;
            let depth: u128 = top - (i as u128) * step;
            out.push((self.0[i], depth));
            i = i + 1;
        }
        out
    }
}

} // verus!
