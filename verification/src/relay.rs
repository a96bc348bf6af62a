//! Event queues and read cursors.
//!
//! Each category of events has one queue, to which events are only ever
//! appended. A consumer keeps one cursor per category: the number of events
//! of that queue that it has seen.

use vstd::prelude::*;

use crate::event::{Event, EventCategory, CATEGORY_COUNT};

verus! {

/// Whether `q` holds one queue per category, each with events of its category only.
pub open spec fn queues_wf(q: Seq<Seq<Event>>) -> bool {
    &&& q.len() == CATEGORY_COUNT
    &&& forall|c: int, i: int|
        0 <= c < q.len() && 0 <= i < q[c].len() ==> (#[trigger] q[c][i]).kind().ordinal() == c
}

/// Whether `cur` holds one cursor per queue of `q`, none beyond the end of
/// its queue, and every queue has a length that a cursor can hold.
pub open spec fn cursors_wf(q: Seq<Seq<Event>>, cur: Seq<usize>) -> bool {
    &&& cur.len() == CATEGORY_COUNT
    &&& q.len() == CATEGORY_COUNT
    &&& forall|c: int| 0 <= c < CATEGORY_COUNT ==> (#[trigger] cur[c]) <= q[c].len() <= usize::MAX
}

/// The queues after `e` was appended to the queue of its category.
pub open spec fn appended(q: Seq<Seq<Event>>, e: Event) -> Seq<Seq<Event>> {
    q.update(e.kind().ordinal(), q[e.kind().ordinal()].push(e))
}

/// The queues after the events `es` were appended, one after the other.
pub open spec fn appended_all(q: Seq<Seq<Event>>, es: Seq<Event>) -> Seq<Seq<Event>>
    decreases es.len(),
{
    if es.len() == 0 {
        q
    } else {
        appended(appended_all(q, es.drop_last()), es.last())
    }
}

/// The events that the consumer has not seen, of the categories from `c`
/// on, category by category and oldest first within each.
pub open spec fn pending_from(q: Seq<Seq<Event>>, cur: Seq<usize>, c: int) -> Seq<Event>
    decreases CATEGORY_COUNT - c,
{
    if c < 0 || c >= CATEGORY_COUNT {
        Seq::<Event>::empty()
    } else {
        q[c].skip(cur[c] as int) + pending_from(q, cur, c + 1)
    }
}

/// The events that the consumer has not seen, in the order in which it
/// reads them: category by category, oldest first within each.
pub open spec fn pending(q: Seq<Seq<Event>>, cur: Seq<usize>) -> Seq<Event> {
    pending_from(q, cur, 0)
}

/// The first category from `c` on in which the consumer has not seen every
/// event, or the number of categories if there is none.
pub open spec fn first_unread(q: Seq<Seq<Event>>, cur: Seq<usize>, c: int) -> int
    decreases CATEGORY_COUNT - c,
{
    if c < 0 || c >= CATEGORY_COUNT {
        CATEGORY_COUNT as int
    } else if cur[c] < q[c].len() {
        c
    } else {
        first_unread(q, cur, c + 1)
    }
}

/// The cursors after the consumer has read one more event, if there was one.
pub open spec fn advance_one(q: Seq<Seq<Event>>, cur: Seq<usize>) -> Seq<usize> {
    let c = first_unread(q, cur, 0);
    if c < CATEGORY_COUNT {
        cur.update(c, (cur[c] + 1) as usize)
    } else {
        cur
    }
}

/// The cursors after the consumer has read `m` more events, or all if
/// there were fewer.
pub open spec fn advanced(q: Seq<Seq<Event>>, cur: Seq<usize>, m: nat) -> Seq<usize>
    decreases m,
{
    if m == 0 {
        cur
    } else {
        advance_one(q, advanced(q, cur, (m - 1) as nat))
    }
}

/// The cursors of a consumer that has seen every event.
pub open spec fn caught_up(q: Seq<Seq<Event>>) -> Seq<usize> {
    Seq::new(CATEGORY_COUNT as nat, |c: int| q[c].len() as usize)
}

/// Whether the consumer has seen event `i` of category `c`.
pub open spec fn seen(cur: Seq<usize>, c: int, i: int) -> bool {
    i < cur[c]
}

/// What is pending from a category on depends only on the cursors from
/// that category on.
proof fn lemma_pending_frame(q: Seq<Seq<Event>>, a: Seq<usize>, b: Seq<usize>, c: int)
    requires
        a.len() == CATEGORY_COUNT,
        b.len() == CATEGORY_COUNT,
        forall|k: int| c <= k < CATEGORY_COUNT ==> a[k] == b[k],
    ensures
        pending_from(q, a, c) == pending_from(q, b, c),
    decreases CATEGORY_COUNT - c,
{
    if 0 <= c < CATEGORY_COUNT {
        lemma_pending_frame(q, a, b, c + 1);
    }
}

/// Reading one event takes the first pending event: the oldest unseen event
/// of the first category that has one.
pub proof fn lemma_first_pending(q: Seq<Seq<Event>>, cur: Seq<usize>, c: int)
    requires
        cursors_wf(q, cur),
        0 <= c <= CATEGORY_COUNT,
    ensures
        ({
            let f = first_unread(q, cur, c);
            &&& c <= f <= CATEGORY_COUNT
            &&& f == CATEGORY_COUNT ==> pending_from(q, cur, c).len() == 0
            &&& f == CATEGORY_COUNT ==> forall|k: int|
                c <= k < CATEGORY_COUNT ==> cur[k] == q[k].len()
            &&& f < CATEGORY_COUNT ==> {
                &&& cur[f] < q[f].len()
                &&& pending_from(q, cur, c).len() > 0
                &&& pending_from(q, cur, c)[0] == q[f][cur[f] as int]
                &&& pending_from(q, cur.update(f, (cur[f] + 1) as usize), c) == pending_from(
                    q,
                    cur,
                    c,
                ).skip(1)
            }
        }),
    decreases CATEGORY_COUNT - c,
{
    if c < CATEGORY_COUNT {
        let f = first_unread(q, cur, c);
        if cur[c] < q[c].len() {
            let next = cur.update(c, (cur[c] + 1) as usize);
            lemma_pending_frame(q, cur, next, c + 1);
            assert(q[c].skip(next[c] as int) =~= q[c].skip(cur[c] as int).skip(1));
            assert(pending_from(q, next, c) =~= pending_from(q, cur, c).skip(1));
        } else {
            lemma_first_pending(q, cur, c + 1);
            assert(q[c].skip(cur[c] as int) =~= Seq::<Event>::empty());
            assert(pending_from(q, cur, c) =~= pending_from(q, cur, c + 1));
            if f < CATEGORY_COUNT {
                let next = cur.update(f, (cur[f] + 1) as usize);
                assert(q[c].skip(next[c] as int) =~= Seq::<Event>::empty());
                assert(pending_from(q, next, c) =~= pending_from(q, next, c + 1));
            }
        }
    }
}

/// Reading `m` events, where at least `m` are pending, leaves the rest
/// pending, and the cursors never move back.
pub proof fn lemma_advanced(q: Seq<Seq<Event>>, cur: Seq<usize>, m: nat)
    requires
        cursors_wf(q, cur),
        m <= pending(q, cur).len(),
    ensures
        cursors_wf(q, advanced(q, cur, m)),
        pending(q, advanced(q, cur, m)) == pending(q, cur).skip(m as int),
        forall|c: int| 0 <= c < CATEGORY_COUNT ==> cur[c] <= #[trigger] advanced(q, cur, m)[c],
    decreases m,
{
    if m == 0 {
        assert(pending(q, cur).skip(0) =~= pending(q, cur));
    } else {
        let before = advanced(q, cur, (m - 1) as nat);
        lemma_advanced(q, cur, (m - 1) as nat);
        lemma_first_pending(q, before, 0);
        let after = advanced(q, cur, m);
        assert(after == advance_one(q, before));
        assert forall|c: int| 0 <= c < CATEGORY_COUNT implies cur[c] <= #[trigger] after[c] by {
            assert(cur[c] <= before[c]);
        }
        assert(pending(q, cur).skip(m - 1).skip(1) =~= pending(q, cur).skip(m as int));
    }
}

/// No more events are pending than the queues can hold.
pub proof fn lemma_pending_bound(q: Seq<Seq<Event>>, cur: Seq<usize>, c: int)
    requires
        cursors_wf(q, cur),
        0 <= c <= CATEGORY_COUNT,
    ensures
        pending_from(q, cur, c).len() <= (CATEGORY_COUNT - c) * usize::MAX,
    decreases CATEGORY_COUNT - c,
{
    if c < CATEGORY_COUNT {
        lemma_pending_bound(q, cur, c + 1);
        assert(cur[c] <= q[c].len() <= usize::MAX);
        assert((CATEGORY_COUNT - c) * usize::MAX == (CATEGORY_COUNT - (c + 1)) * usize::MAX
            + usize::MAX) by (nonlinear_arith);
    }
}

/// The number of events that the consumer has not seen in the categories
/// before `c`.
pub open spec fn unread_before(q: Seq<Seq<Event>>, cur: Seq<usize>, c: int) -> int
    decreases c,
{
    if c <= 0 {
        0
    } else {
        unread_before(q, cur, c - 1) + (q[c - 1].len() - cur[c - 1])
    }
}

/// The position among the pending events of event `i` of category `c`,
/// where the consumer has not seen that event.
pub open spec fn pending_index(q: Seq<Seq<Event>>, cur: Seq<usize>, c: int, i: int) -> int {
    unread_before(q, cur, c) + i - cur[c]
}

/// Whether event `i` of category `c` is queued and not seen by the consumer.
pub open spec fn unseen(q: Seq<Seq<Event>>, cur: Seq<usize>, c: int, i: int) -> bool {
    0 <= c < CATEGORY_COUNT && cur[c] <= i < q[c].len()
}

/// Whether the pending event at position `k` is event `i` of category `c`.
pub open spec fn pending_source(q: Seq<Seq<Event>>, cur: Seq<usize>, k: int, c: int, i: int) -> bool {
    unseen(q, cur, c, i) && pending_index(q, cur, c, i) == k
}

/// Later categories have no fewer unseen events before them.
proof fn lemma_unread_before_grows(q: Seq<Seq<Event>>, cur: Seq<usize>, c: int, d: int)
    requires
        cursors_wf(q, cur),
        0 <= c <= d <= CATEGORY_COUNT,
    ensures
        0 <= unread_before(q, cur, c) <= unread_before(q, cur, d),
    decreases d,
{
    if d > c {
        lemma_unread_before_grows(q, cur, c, d - 1);
        assert(cur[d - 1] <= q[d - 1].len());
    } else if c > 0 {
        lemma_unread_before_grows(q, cur, c - 1, c - 1);
        assert(cur[c - 1] <= q[c - 1].len());
    }
}

/// An unseen event stands among the events pending from category `k` on,
/// behind the unseen events of the categories between `k` and its own and
/// the older unseen events of its own.
proof fn lemma_pending_at(q: Seq<Seq<Event>>, cur: Seq<usize>, k: int, c: int, i: int)
    requires
        cursors_wf(q, cur),
        0 <= k <= c,
        unseen(q, cur, c, i),
    ensures
        ({
            let at = unread_before(q, cur, c) - unread_before(q, cur, k) + i - cur[c];
            &&& 0 <= at < pending_from(q, cur, k).len()
            &&& pending_from(q, cur, k)[at] == q[c][i]
        }),
    decreases c - k,
{
    if k < c {
        lemma_pending_at(q, cur, k + 1, c, i);
        lemma_unread_before_grows(q, cur, k + 1, c);
        assert(cur[k] <= q[k].len());
    }
}

/// Every pending event is an unseen event of some queue, at its position.
proof fn lemma_pending_from_source(q: Seq<Seq<Event>>, cur: Seq<usize>, k: int, at: int)
    requires
        cursors_wf(q, cur),
        0 <= k <= CATEGORY_COUNT,
        0 <= at < pending_from(q, cur, k).len(),
    ensures
        exists|c: int, i: int|
            k <= c && #[trigger] unseen(q, cur, c, i) && unread_before(q, cur, c) - unread_before(
                q,
                cur,
                k,
            ) + i - cur[c] == at,
    decreases CATEGORY_COUNT - k,
{
    assert(cur[k] <= q[k].len());
    let here = q[k].len() - cur[k];
    if at < here {
        assert(unseen(q, cur, k, cur[k] + at));
    } else {
        lemma_pending_from_source(q, cur, k + 1, at - here);
        let (c, i) = choose|c: int, i: int|
            k + 1 <= c && #[trigger] unseen(q, cur, c, i) && unread_before(q, cur, c)
                - unread_before(q, cur, k + 1) + i - cur[c] == at - here;
        assert(unseen(q, cur, c, i));
    }
}

/// An event that the consumer has not seen is pending, at its position.
pub proof fn lemma_unseen_is_pending(q: Seq<Seq<Event>>, cur: Seq<usize>, c: int, i: int)
    requires
        cursors_wf(q, cur),
        unseen(q, cur, c, i),
    ensures
        0 <= pending_index(q, cur, c, i) < pending(q, cur).len(),
        pending(q, cur)[pending_index(q, cur, c, i)] == q[c][i],
{
    lemma_pending_at(q, cur, 0, c, i);
}

/// Two different unseen events are pending at different positions.
pub proof fn lemma_pending_index_injective(
    q: Seq<Seq<Event>>,
    cur: Seq<usize>,
    c: int,
    i: int,
    d: int,
    j: int,
)
    requires
        cursors_wf(q, cur),
        unseen(q, cur, c, i),
        unseen(q, cur, d, j),
        c != d || i != j,
    ensures
        pending_index(q, cur, c, i) != pending_index(q, cur, d, j),
{
    if c < d {
        lemma_unread_before_grows(q, cur, c + 1, d);
    } else if d < c {
        lemma_unread_before_grows(q, cur, d + 1, c);
    }
}

/// Every pending event is an unseen event of some queue: nothing is
/// pending that was seen, or that was never queued.
pub proof fn lemma_pending_is_unseen(q: Seq<Seq<Event>>, cur: Seq<usize>, k: int)
    requires
        cursors_wf(q, cur),
        0 <= k < pending(q, cur).len(),
    ensures
        exists|c: int, i: int| #[trigger] pending_source(q, cur, k, c, i),
{
    lemma_pending_from_source(q, cur, 0, k);
    let (c, i) = choose|c: int, i: int|
        0 <= c && #[trigger] unseen(q, cur, c, i) && unread_before(q, cur, c) - unread_before(
            q,
            cur,
            0,
        ) + i - cur[c] == k;
    assert(pending_source(q, cur, k, c, i));
}

/// A consumer with nothing pending has seen every event.
pub proof fn lemma_nothing_pending(q: Seq<Seq<Event>>, cur: Seq<usize>)
    requires
        cursors_wf(q, cur),
        pending(q, cur).len() == 0,
    ensures
        cur == caught_up(q),
{
    lemma_first_pending(q, cur, 0);
    assert(cur =~= caught_up(q));
}

/// A consumer that has seen every event has nothing pending.
pub proof fn lemma_caught_up(q: Seq<Seq<Event>>)
    requires
        q.len() == CATEGORY_COUNT,
        forall|c: int| 0 <= c < CATEGORY_COUNT ==> (#[trigger] q[c]).len() <= usize::MAX,
    ensures
        cursors_wf(q, caught_up(q)),
        pending(q, caught_up(q)).len() == 0,
{
    let cur = caught_up(q);
    assert(cursors_wf(q, cur));
    lemma_first_pending(q, cur, 0);
    lemma_no_unread(q, cur, 0);
}

/// Where every cursor from `c` on stands at the end of its queue, no
/// category from `c` on has an unseen event.
proof fn lemma_no_unread(q: Seq<Seq<Event>>, cur: Seq<usize>, c: int)
    requires
        cursors_wf(q, cur),
        0 <= c <= CATEGORY_COUNT,
        forall|k: int| c <= k < CATEGORY_COUNT ==> cur[k] == q[k].len(),
    ensures
        first_unread(q, cur, c) == CATEGORY_COUNT,
    decreases CATEGORY_COUNT - c,
{
    if c < CATEGORY_COUNT {
        lemma_no_unread(q, cur, c + 1);
    }
}

/// Appending an event keeps the queues well formed and lengthens the queue
/// of the event's category by one; the other queues stay as they are.
pub proof fn lemma_appended(q: Seq<Seq<Event>>, e: Event)
    requires
        queues_wf(q),
    ensures
        queues_wf(appended(q, e)),
        forall|c: int|
            0 <= c < CATEGORY_COUNT ==> (#[trigger] appended(q, e)[c]).len() == q[c].len() + (if c
                == e.kind().ordinal() {
                1int
            } else {
                0int
            }),
        forall|c: int, i: int|
            0 <= c < CATEGORY_COUNT && 0 <= i < q[c].len() ==> #[trigger] appended(q, e)[c][i]
                == q[c][i],
{
}

/// Appending events keeps the queues well formed, and keeps every event
/// that was in a queue at its place.
pub proof fn lemma_appended_all(q: Seq<Seq<Event>>, es: Seq<Event>)
    requires
        queues_wf(q),
    ensures
        queues_wf(appended_all(q, es)),
        forall|c: int|
            0 <= c < CATEGORY_COUNT ==> q[c].len() <= (#[trigger] appended_all(q, es)[c]).len()
                <= q[c].len() + es.len(),
        forall|c: int, i: int|
            0 <= c < CATEGORY_COUNT && 0 <= i < q[c].len() ==> #[trigger] appended_all(q, es)[c][i]
                == q[c][i],
    decreases es.len(),
{
    if es.len() > 0 {
        lemma_appended_all(q, es.drop_last());
        lemma_appended(appended_all(q, es.drop_last()), es.last());
    }
}

/// The queues of all categories.
pub struct EventQueues {
    queues: Vec<Vec<Event>>,
}

impl View for EventQueues {
    type V = Seq<Seq<Event>>;

    closed spec fn view(&self) -> Seq<Seq<Event>> {
        Seq::new(self.queues@.len(), |c: int| self.queues@[c]@)
    }
}

impl EventQueues {
    /// The invariant of the queues.
    pub open spec fn wf(&self) -> bool {
        &&& queues_wf(self@)
        &&& forall|c: int| 0 <= c < CATEGORY_COUNT ==> (#[trigger] self@[c]).len() <= usize::MAX
    }

    /// Empty queues.
    pub fn new() -> (r: EventQueues)
        ensures
            r.wf(),
            r@ == Seq::new(CATEGORY_COUNT as nat, |c: int| Seq::<Event>::empty()),
    {
        let mut queues: Vec<Vec<Event>> = Vec::new();
        let mut c: usize = 0;
        while c < CATEGORY_COUNT
            invariant
                c <= CATEGORY_COUNT,
                queues@.len() == c,
                forall|k: int| 0 <= k < c ==> (#[trigger] queues@[k])@ == Seq::<Event>::empty(),
            decreases CATEGORY_COUNT - c,
        {
            queues.push(Vec::new());
            c = c + 1;
        }
        let r = EventQueues { queues };
        assert(r@ =~= Seq::new(CATEGORY_COUNT as nat, |c: int| Seq::<Event>::empty()));
        assert forall|c: int| 0 <= c < CATEGORY_COUNT implies (#[trigger] r@[c]).len()
            <= usize::MAX by {
            assert(r@[c] == r.queues@[c]@);
        }
        r
    }

    /// Appends an event to the queue of its category.
    pub fn send(&mut self, e: Event)
        requires
            old(self).wf(),
        ensures
            final(self).wf(),
            final(self)@ == appended(old(self)@, e),
    {
        let c = e.category().index();
        self.queues[c].push(e);
        proof {
            lemma_appended(old(self)@, e);
            assert(self@ =~= appended(old(self)@, e));
            assert forall|k: int| 0 <= k < CATEGORY_COUNT implies (#[trigger] self@[k]).len()
                <= usize::MAX by {
                assert(self@[k] == self.queues@[k]@);
                assert(self.queues@[k].len() <= usize::MAX);
            }
        }
    }

    /// The number of events in the queue of category `c`.
    pub fn len(&self, c: EventCategory) -> (n: usize)
        requires
            self.wf(),
        ensures
            n == self@[c.ordinal()].len(),
    {
        self.queues[c.index()].len()
    }

    /// Event `i` of the queue of category `c`.
    pub fn get(&self, c: EventCategory, i: usize) -> (e: Event)
        requires
            self.wf(),
            i < self@[c.ordinal()].len(),
        ensures
            e == self@[c.ordinal()][i as int],
    {
        self.queues[c.index()][i]
    }
}

/// The cursors of one consumer: for each category, the number of events
/// of the queue that the consumer has seen.
pub struct ReadCursors {
    offsets: Vec<usize>,
}

impl View for ReadCursors {
    type V = Seq<usize>;

    closed spec fn view(&self) -> Seq<usize> {
        self.offsets@
    }
}

impl ReadCursors {
    /// The invariant of the cursors of a consumer of `q`.
    pub open spec fn wf(&self, q: &EventQueues) -> bool {
        cursors_wf(q@, self@)
    }

    /// The cursors of a consumer that has seen nothing.
    pub fn new() -> (r: ReadCursors)
        ensures
            r@ == Seq::new(CATEGORY_COUNT as nat, |c: int| 0usize),
    {
        let mut offsets: Vec<usize> = Vec::new();
        let mut c: usize = 0;
        while c < CATEGORY_COUNT
            invariant
                c <= CATEGORY_COUNT,
                offsets@.len() == c,
                forall|k: int| 0 <= k < c ==> offsets@[k] == 0,
            decreases CATEGORY_COUNT - c,
        {
            offsets.push(0);
            c = c + 1;
        }
        let r = ReadCursors { offsets };
        assert(r@ =~= Seq::new(CATEGORY_COUNT as nat, |c: int| 0usize));
        r
    }

    /// The number of events of category `c` that the consumer has seen.
    pub fn offset(&self, c: EventCategory) -> (n: usize)
        requires
            self@.len() == CATEGORY_COUNT,
        ensures
            n == self@[c.ordinal()],
    {
        self.offsets[c.index()]
    }

    /// Marks every event of every queue as seen.
    pub fn clear(&mut self, q: &EventQueues)
        requires
            q.wf(),
            old(self)@.len() == CATEGORY_COUNT,
        ensures
            final(self)@ == caught_up(q@),
            final(self).wf(q),
    {
        let mut c: usize = 0;
        while c < CATEGORY_COUNT
            invariant
                q.wf(),
                c <= CATEGORY_COUNT,
                self.offsets@.len() == CATEGORY_COUNT,
                forall|k: int| 0 <= k < c ==> self.offsets@[k] == q@[k].len(),
            decreases CATEGORY_COUNT - c,
        {
            let n = q.queues[c].len();
            self.offsets.set(c, n);
            c = c + 1;
        }
        assert(self@ =~= caught_up(q@));
    }

    /// Reads the next event that the consumer has not seen: the oldest
    /// unseen event of the first category that has one. The event then counts
    /// as seen.
    pub fn next(&mut self, q: &EventQueues) -> (r: Option<Event>)
        requires
            q.wf(),
            old(self).wf(q),
        ensures
            final(self).wf(q),
            match r {
                Some(e) => {
                    &&& pending(q@, old(self)@).len() > 0
                    &&& e == pending(q@, old(self)@)[0]
                    &&& final(self)@ == advance_one(q@, old(self)@)
                    &&& pending(q@, final(self)@) == pending(q@, old(self)@).skip(1)
                },
                None => pending(q@, old(self)@).len() == 0 && final(self)@ == old(self)@,
            },
    {
        let mut c: usize = 0;
        while c < CATEGORY_COUNT
            invariant
                q.wf(),
                self.wf(q),
                self@ == old(self)@,
                c <= CATEGORY_COUNT,
                first_unread(q@, self@, 0) == first_unread(q@, self@, c as int),
            decreases CATEGORY_COUNT - c,
        {
            let at = self.offsets[c];
            assert(q@[c as int] == q.queues@[c as int]@);
            if at < q.queues[c].len() {
                let e = q.queues[c][at];
                self.offsets.set(c, at + 1);
                proof {
                    lemma_first_pending(q@, old(self)@, 0);
                    assert(first_unread(q@, old(self)@, c as int) == c);
                    assert(self@ =~= old(self)@.update(c as int, (at + 1) as usize));
                    assert(self@ == advance_one(q@, old(self)@));
                }
                return Some(e);
            }
            c = c + 1;
        }
        proof {
            lemma_first_pending(q@, self@, 0);
        }
        None
    }
}

} // verus!
