//! A bounded, replayable stream of control-plane events. Producers publish
//! after a state change; each event gets the next sequence number. Clients
//! read through a cursor that names the last sequence they consumed, and a
//! client that fell behind the retained history is told so.
use std::collections::VecDeque;
use vstd::prelude::*;

verus! {

/// The version tag every envelope carries.
pub const EVENT_API_VERSION: &'static str = "aura.events.v1";

/// The history a hub keeps when no capacity is named.
const DEFAULT_CAPACITY: usize = 4096;

/// The most events one read hands out.
const MAX_BATCH: usize = 4096;

/// An event with its place in the stream.
#[derive(Debug, Clone, PartialEq)]
pub struct EventEnvelope<E> {
    pub api_version: &'static str,
    pub sequence: u64,
    pub generation: u64,
    pub event: E,
}

/// Where a client stands: the last sequence it consumed.
#[derive(Debug, Clone, Copy, PartialEq, Eq)]
pub struct EventCursor {
    pub after: u64,
}

/// What one read hands out: the events, the cursor to read on from, whether
/// the client missed events that are no longer kept (it must then refresh its
/// snapshot before applying the batch), and the hub's latest sequence.
#[derive(Debug, Clone, PartialEq)]
pub struct EventBatch<E> {
    pub events: Vec<EventEnvelope<E>>,
    pub next: EventCursor,
    pub missed: bool,
    pub current_sequence: u64,
}

/// The bounded event stream.
#[derive(Debug, Clone)]
pub struct EventHub<E> {
    capacity: usize,
    next_sequence: u64,
    events: VecDeque<EventEnvelope<E>>,
}

/// The sequence after `x`; the count stops at the largest `u64`.
pub open spec fn sat_inc(x: u64) -> u64 {
    if x == u64::MAX {
        x
    } else {
        (x + 1) as u64
    }
}

/// The sequence `i` steps after `first`, stopping at the largest `u64`.
pub open spec fn stepped(first: u64, i: int) -> u64 {
    if first + i >= u64::MAX {
        u64::MAX
    } else {
        (first + i) as u64
    }
}

/// The entries of a history follow one another in sequence, the last one
/// carrying `last`.
pub open spec fn consecutive<E>(h: Seq<EventEnvelope<E>>, last: u64) -> bool {
    &&& forall|i: int| 0 <= i < h.len() ==> #[trigger] h[i].sequence == stepped(h[0].sequence, i)
    &&& h.len() > 0 ==> h[h.len() - 1].sequence == last
}

/// The entries of a history that a client at cursor `after` has not seen,
/// in order.
pub open spec fn pending<E>(h: Seq<EventEnvelope<E>>, after: u64) -> Seq<EventEnvelope<E>> {
    h.filter(|e: EventEnvelope<E>| e.sequence > after)
}

/// The number of events one read may hand out when `limit` were asked for.
pub open spec fn batch_limit(limit: usize) -> int {
    if limit == 0 {
        1
    } else if limit > 4096 {
        4096
    } else {
        limit as int
    }
}

/// The oldest sequence a hub can still hand out: that of its oldest kept
/// entry, or the one it will give next.
pub open spec fn first_available<E>(h: Seq<EventEnvelope<E>>, last: u64) -> u64 {
    if h.len() > 0 {
        h[0].sequence
    } else {
        sat_inc(last)
    }
}

/// `b` is `a` handed out again: the same place in the stream and a clone of
/// the event.
pub open spec fn same_envelope<E: Clone>(a: EventEnvelope<E>, b: EventEnvelope<E>) -> bool {
    &&& b.api_version == a.api_version
    &&& b.sequence == a.sequence
    &&& b.generation == a.generation
    &&& cloned(a.event, b.event)
}

/// What a history keeps after one more entry: the oldest entry leaves when
/// the capacity is passed.
pub open spec fn appended<E>(h: Seq<EventEnvelope<E>>, e: EventEnvelope<E>, capacity: nat) -> Seq<
    EventEnvelope<E>,
> {
    if h.len() + 1 > capacity {
        h.push(e).subrange(1, h.len() + 1 as int)
    } else {
        h.push(e)
    }
}

/// The cursor a read of `n` pending events leaves a client at.
pub open spec fn resume_point<E>(h: Seq<EventEnvelope<E>>, after: u64, n: int) -> u64 {
    if n > 0 {
        pending(h, after)[n - 1].sequence
    } else {
        after
    }
}

proof fn lemma_stepped_monotone(first: u64, i: int, j: int)
    requires
        0 <= i <= j,
    ensures
        stepped(first, i) <= stepped(first, j),
{
}

proof fn lemma_filter_all<A>(s: Seq<A>, p: spec_fn(A) -> bool)
    requires
        forall|i: int| 0 <= i < s.len() ==> #[trigger] p(s[i]),
    ensures
        s.filter(p) == s,
    decreases s.len(),
{
    reveal(Seq::filter);
    if s.len() > 0 {
        lemma_filter_all(s.drop_last(), p);
        assert(p(s[s.len() - 1]));
        assert(s.drop_last().push(s.last()) =~= s);
    }
}

proof fn lemma_filter_none<A>(s: Seq<A>, p: spec_fn(A) -> bool)
    requires
        forall|i: int| 0 <= i < s.len() ==> !#[trigger] p(s[i]),
    ensures
        s.filter(p) == Seq::<A>::empty(),
    decreases s.len(),
{
    reveal(Seq::filter);
    if s.len() > 0 {
        lemma_filter_none(s.drop_last(), p);
        assert(!p(s[s.len() - 1]));
    }
}

/// In a consecutive history, the entries a client has not seen are those
/// from the first one past its cursor on.
proof fn lemma_pending_is_suffix<E>(h: Seq<EventEnvelope<E>>, last: u64, after: u64, k: int)
    requires
        consecutive(h, last),
        0 <= k <= h.len(),
        forall|j: int| 0 <= j < k ==> #[trigger] h[j].sequence <= after,
        k < h.len() ==> h[k].sequence > after,
    ensures
        pending(h, after) == h.subrange(k, h.len() as int),
        forall|j: int| k <= j < h.len() ==> #[trigger] h[j].sequence > after,
{
    let p = |e: EventEnvelope<E>| e.sequence > after;
    assert forall|j: int| k <= j < h.len() implies #[trigger] h[j].sequence > after by {
        lemma_stepped_monotone(h[0].sequence, k, j);
        assert(h[k].sequence == stepped(h[0].sequence, k));
    }
    let a = h.subrange(0, k);
    let b = h.subrange(k, h.len() as int);
    assert(h =~= a + b);
    Seq::filter_distributes_over_add(a, b, p);
    assert forall|i: int| 0 <= i < a.len() implies !#[trigger] p(a[i]) by {
        assert(a[i] == h[i]);
    }
    lemma_filter_none(a, p);
    assert forall|i: int| 0 <= i < b.len() implies #[trigger] p(b[i]) by {
        assert(b[i] == h[k + i]);
    }
    lemma_filter_all(b, p);
    assert(a.filter(p) + b.filter(p) =~= b);
}

impl<E> EventHub<E> {
    /// The most entries the hub keeps.
    pub closed spec fn capacity_spec(&self) -> nat {
        self.capacity as nat
    }

    /// The sequence of the latest published event (0 before the first).
    pub closed spec fn sequence(&self) -> u64 {
        self.next_sequence
    }

    /// The entries the hub still keeps, oldest first.
    pub closed spec fn history(&self) -> Seq<EventEnvelope<E>> {
        self.events@
    }

    /// The hub keeps at least one and at most `capacity` entries, in
    /// consecutive sequence up to its latest.
    pub open spec fn wf(&self) -> bool {
        &&& self.capacity_spec() >= 1
        &&& self.history().len() <= self.capacity_spec()
        &&& consecutive(self.history(), self.sequence())
    }

    /// An empty hub that keeps `capacity` entries (at least one).
    pub fn new(capacity: usize) -> (r: Self)
        ensures
            r.wf(),
            r.capacity_spec() == if capacity == 0 {
                1
            } else {
                capacity as nat
            },
            r.sequence() == 0,
            r.history() == Seq::<EventEnvelope<E>>::empty(),
    {
        let capacity = if capacity == 0 {
            1
        } else {
            capacity
        };
        EventHub { capacity, next_sequence: 0, events: VecDeque::new() }
    }

    /// The sequence of the latest published event.
    pub fn current_sequence(&self) -> (r: u64)
        ensures
            r == self.sequence(),
    {
        self.next_sequence
    }

    /// Forgets the kept entries; the sequence goes on where it was.
    pub fn clear(&mut self)
        requires
            old(self).wf(),
        ensures
            final(self).wf(),
            final(self).capacity_spec() == old(self).capacity_spec(),
            final(self).sequence() == old(self).sequence(),
            final(self).history() == Seq::<EventEnvelope<E>>::empty(),
    {
        self.events.clear();
    }
}

impl<E: Clone> EventHub<E> {
    /// Publishes `event` under the next sequence and `generation`: the hub
    /// keeps it, dropping its oldest entry when the capacity is passed, and
    /// hands back a copy of the envelope.
    pub fn publish(&mut self, generation: u64, event: E) -> (r: EventEnvelope<E>)
        requires
            old(self).wf(),
        ensures
            final(self).wf(),
            final(self).capacity_spec() == old(self).capacity_spec(),
            final(self).sequence() == sat_inc(old(self).sequence()),
            final(self).history() == appended(
                old(self).history(),
                EventEnvelope {
                    api_version: EVENT_API_VERSION,
                    sequence: final(self).sequence(),
                    generation,
                    event,
                },
                old(self).capacity_spec(),
            ),
            r.api_version == EVENT_API_VERSION,
            r.sequence == final(self).sequence(),
            r.generation == generation,
            cloned(event, r.event),
    {
        let ghost h0 = self.events@;
        let next = if self.next_sequence == u64::MAX {
            self.next_sequence
        } else {
            self.next_sequence + 1
        };
        self.next_sequence = next;
        let copy = event.clone();
        let kept = EventEnvelope { api_version: EVENT_API_VERSION, sequence: next, generation, event };
        self.events.push_back(kept);
        let ghost h1 = self.events@;
        proof {
            if h0.len() > 0 {
                assert(h0[h0.len() - 1].sequence == stepped(h0[0].sequence, h0.len() - 1));
            }
            assert forall|i: int| 0 <= i < h1.len() implies #[trigger] h1[i].sequence == stepped(
                h1[0].sequence,
                i,
            ) by {
                if i < h0.len() {
                    assert(h1[i] == h0[i]);
                }
            }
        }
        if self.events.len() > self.capacity {
            let _ = self.events.pop_front();
            proof {
                let h2 = self.events@;
                assert forall|i: int| 0 <= i < h2.len() implies #[trigger] h2[i].sequence
                    == stepped(h2[0].sequence, i) by {
                    assert(h2[i] == h1[i + 1]);
                    assert(h2[0] == h1[1]);
                    assert(h1[i + 1].sequence == stepped(h1[0].sequence, i + 1));
                    assert(h1[1].sequence == stepped(h1[0].sequence, 1));
                }
            }
        }
        EventEnvelope { api_version: EVENT_API_VERSION, sequence: next, generation, event: copy }
    }

    /// Hands a client at `cursor` the events it has not seen, oldest first and
    /// at most `limit` of them (at least one and at most 4096), with the cursor
    /// to read on from. The batch says it missed events when the oldest event
    /// the hub can hand out comes later than the one after the cursor.
    pub fn subscribe_from(&self, cursor: EventCursor, limit: usize) -> (r: EventBatch<E>)
        requires
            self.wf(),
        ensures
            ({
                let f = pending(self.history(), cursor.after);
                let n = if batch_limit(limit) < f.len() {
                    batch_limit(limit)
                } else {
                    f.len() as int
                };
                &&& r.events@.len() == n
                &&& forall|i: int| 0 <= i < n ==> same_envelope(f[i], #[trigger] r.events@[i])
                &&& r.next == EventCursor {
                    after: resume_point(self.history(), cursor.after, n),
                }
                &&& r.missed == (sat_inc(cursor.after) < first_available(
                    self.history(),
                    self.sequence(),
                ))
                &&& r.current_sequence == self.sequence()
            }),
    {
        let ghost h = self.events@;
        let len = self.events.len();
        let first = if len > 0 {
            self.events[0].sequence
        } else if self.next_sequence == u64::MAX {
            self.next_sequence
        } else {
            self.next_sequence + 1
        };
        let after_next = if cursor.after == u64::MAX {
            cursor.after
        } else {
            cursor.after + 1
        };
        let missed = after_next < first;
        let lim = if limit == 0 {
            1
        } else if limit > MAX_BATCH {
            MAX_BATCH
        } else {
            limit
        };
        let mut k: usize = 0;
        while k < len && self.events[k].sequence <= cursor.after
            invariant
                h == self.events@,
                len == h.len(),
                k <= len,
                forall|j: int| 0 <= j < k ==> #[trigger] h[j].sequence <= cursor.after,
            decreases len - k,
        {
            k = k + 1;
        }
        proof {
            lemma_pending_is_suffix(h, self.next_sequence, cursor.after, k as int);
        }
        let ghost f = pending(h, cursor.after);
        let mut events: Vec<EventEnvelope<E>> = Vec::new();
        let mut i: usize = k;
        while i < len && events.len() < lim
            invariant
                h == self.events@,
                len == h.len(),
                k <= i <= len,
                f == h.subrange(k as int, len as int),
                events@.len() == i - k,
                events@.len() <= lim,
                forall|j: int| 0 <= j < events@.len() ==> same_envelope(
                    f[j],
                    #[trigger] events@[j],
                ),
            decreases len - i,
        {
            let e = &self.events[i];
            let copy = EventEnvelope {
                api_version: e.api_version,
                sequence: e.sequence,
                generation: e.generation,
                event: e.event.clone(),
            };
            events.push(copy);
            i = i + 1;
        }
        let next = if events.len() > 0 {
            EventCursor { after: events[events.len() - 1].sequence }
        } else {
            cursor
        };
        EventBatch { events, next, missed, current_sequence: self.next_sequence }
    }
}

impl<E> Default for EventHub<E> {
    /// An empty hub that keeps 4096 entries.
    fn default() -> (r: Self)
        ensures
            r.wf(),
            r.capacity_spec() == 4096,
            r.sequence() == 0,
            r.history() == Seq::<EventEnvelope<E>>::empty(),
    {
        Self::new(DEFAULT_CAPACITY)
    }
}

/// A client that reads on from the cursor a batch left it at gets exactly the
/// events after that batch: no event is handed out twice and none is skipped,
/// as long as the sequence has not reached its largest value.
pub proof fn lemma_replay_resumes<E>(h: Seq<EventEnvelope<E>>, last: u64, after: u64, n: int)
    requires
        consecutive(h, last),
        last < u64::MAX,
        0 <= n <= pending(h, after).len(),
    ensures
        pending(h, resume_point(h, after, n)) == pending(h, after).skip(n),
{
    if h.len() == 0 {
        lemma_filter_none(h, |e: EventEnvelope<E>| e.sequence > after);
        assert(pending(h, after).skip(n) =~= pending(h, after));
        return;
    }
    let first = h[0].sequence;
    let len = h.len() as int;
    assert(h[len - 1].sequence == stepped(first, len - 1));
    assert forall|i: int| 0 <= i < len implies #[trigger] h[i].sequence == first + i by {
        assert(h[i].sequence == stepped(first, i));
    }
    let k: int = if after < first {
        0
    } else if after - first + 1 < len {
        after - first + 1
    } else {
        len
    };
    assert forall|j: int| 0 <= j < k implies #[trigger] h[j].sequence <= after by {
        assert(h[j].sequence == first + j);
    }
    if k < len {
        assert(h[k].sequence == first + k);
    }
    lemma_pending_is_suffix(h, last, after, k);
    if n > 0 {
        let resume = pending(h, after)[n - 1].sequence;
        assert(pending(h, after)[n - 1] == h[k + n - 1]);
        assert(resume == first + k + n - 1);
        assert forall|j: int| 0 <= j < k + n implies #[trigger] h[j].sequence <= resume by {
            assert(h[j].sequence == first + j);
        }
        if k + n < len {
            assert(h[k + n].sequence == first + k + n);
        }
        lemma_pending_is_suffix(h, last, resume, k + n);
        assert(h.subrange(k + n, len) =~= h.subrange(k, len).skip(n));
    } else {
        assert(pending(h, after).skip(n) =~= pending(h, after));
    }
}

} // verus!
