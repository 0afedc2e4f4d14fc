//! Historical delivery for one `REQ`: limit capping and the sliding window
//! that pages backwards through the store until enough accepted events are
//! found, the history is exhausted, or the attempt bound is reached.
//!
//! The store is queried by the caller: `HistoricalPager::next_query` says
//! which window to ask for, and `HistoricalPager::on_events` takes what the
//! store returned and says which of those events to send, in order.
use vstd::prelude::*;
use crate::types::EventId;

verus! {

/// How many store queries one filter may make before its paging stops.
pub const MAX_ATTEMPTS: usize = 50;

/// What paging reads of one stored event: its id, its creation time, and
/// whether the caller's visibility predicate accepts it.
#[derive(Clone, Debug)]
pub struct StoredEvent {
    pub id: EventId,
    pub created_at: u64,
    pub accepted: bool,
}

/// One store query: the filter at `filter_index`, with its limit replaced by
/// `limit` and, when `until` is set, its upper time bound replaced by it.
#[derive(Clone, Copy, Debug, PartialEq, Eq)]
pub struct WindowQuery {
    pub filter_index: usize,
    pub until: Option<u64>,
    pub limit: usize,
}

/// The smaller of the limits that the filters give and `cap`.
pub open spec fn spec_effective_limit(limits: Seq<Option<usize>>, cap: usize) -> usize
    decreases limits.len(),
{
    if limits.len() == 0 {
        cap
    } else {
        let rest = spec_effective_limit(limits.drop_last(), cap);
        match limits.last() {
            Some(l) => if l < rest { l } else { rest },
            None => rest,
        }
    }
}

/// The limit that every filter of a `REQ` is given: the smallest limit among
/// the filters that have one, never more than `max_limit`; `max_limit` when
/// no filter has one.
pub fn effective_limit(limits: &Vec<Option<usize>>, max_limit: usize) -> (r: usize)
    ensures
        r == spec_effective_limit(limits@, max_limit),
        r <= max_limit,
        forall|i: int| 0 <= i < limits@.len() && #[trigger] limits@[i] is Some ==> r <= limits@[i]->0,
        r == max_limit || exists|i: int| 0 <= i < limits@.len() && #[trigger] limits@[i] == Some(r),
{
    let mut r = max_limit;
    let mut i: usize = 0;
    while i < limits.len()
        invariant
            i <= limits@.len(),
            r == spec_effective_limit(limits@.subrange(0, i as int), max_limit),
            r <= max_limit,
            forall|j: int| 0 <= j < i && #[trigger] limits@[j] is Some ==> r <= limits@[j]->0,
            r == max_limit || exists|j: int| 0 <= j < i && #[trigger] limits@[j] == Some(r),
        decreases limits.len() - i,
    {
        proof {
            let s = limits@.subrange(0, i as int + 1);
            assert(s.drop_last() =~= limits@.subrange(0, i as int));
            assert(s.last() == limits@[i as int]);
        }
        match limits[i] {
            Some(l) => {
                if l < r {
                    r = l;
                }
            },
            None => {},
        }
        i = i + 1;
    }
    assert(limits@.subrange(0, limits@.len() as int) =~= limits@);
    r
}

/// The ids of a sequence of events.
pub open spec fn ids_of(s: Seq<EventId>) -> Seq<Seq<char>> {
    s.map_values(|e: EventId| e@)
}

/// Whether `t` lies inside a window with upper bound `until`.
pub open spec fn in_window(until: Option<u64>, t: u64) -> bool {
    match until {
        Some(u) => t <= u,
        None => true,
    }
}

/// An event of the batch that has not been sent for this `REQ` and lies in
/// the window: it counts for the window's oldest time.
pub open spec fn is_fresh(
    events: Seq<StoredEvent>,
    seen: Seq<Seq<char>>,
    until: Option<u64>,
    i: int,
) -> bool {
    &&& 0 <= i < events.len()
    &&& !seen.contains(events[i].id@)
    &&& in_window(until, events[i].created_at)
}

/// A fresh event that the predicate accepts, at its first place in the
/// batch: it may be sent.
pub open spec fn is_candidate(
    events: Seq<StoredEvent>,
    seen: Seq<Seq<char>>,
    until: Option<u64>,
    i: int,
) -> bool {
    &&& is_fresh(events, seen, until, i)
    &&& events[i].accepted
    &&& forall|j: int| 0 <= j < i ==> events[j].id@ != events[i].id@
}

/// The oldest creation time among `prev` and the fresh events of the first
/// `n` events of the batch.
pub open spec fn oldest_after(
    events: Seq<StoredEvent>,
    seen: Seq<Seq<char>>,
    until: Option<u64>,
    prev: Option<u64>,
    n: int,
) -> Option<u64>
    decreases n,
{
    if n <= 0 {
        prev
    } else {
        let o = oldest_after(events, seen, until, prev, n - 1);
        if is_fresh(events, seen, until, n - 1) {
            match o {
                Some(t) => if events[n - 1].created_at < t { Some(events[n - 1].created_at) } else { o },
                None => Some(events[n - 1].created_at),
            }
        } else {
            o
        }
    }
}

/// The creation times of the events at the positions `picked`.
pub open spec fn times_of(events: Seq<StoredEvent>, picked: Seq<usize>) -> Seq<u64> {
    picked.map_values(|k: usize| events[k as int].created_at)
}

/// The ids of the events at the positions `picked`.
pub open spec fn picked_ids(events: Seq<StoredEvent>, picked: Seq<usize>) -> Seq<Seq<char>> {
    picked.map_values(|k: usize| events[k as int].id@)
}

/// Newest first: no time is greater than one before it.
pub open spec fn newest_first(times: Seq<u64>) -> bool {
    forall|a: int, b: int| 0 <= a < b < times.len() ==> times[a] >= times[b]
}

/// Whether a filter's paging stops after a batch of `batch_len` events:
/// the store had nothing left, the filter has sent its limit, no fresh
/// event was ever seen, or the attempt bound is reached.
pub open spec fn filter_ends(batch_len: nat, sent: int, limit: usize, oldest: Option<u64>, attempts: int) -> bool {
    batch_len == 0 || sent >= limit || oldest is None || attempts >= MAX_ATTEMPTS
}

/// The upper bound of the window after one whose oldest fresh event is at
/// `oldest`: one second earlier, never below zero.
pub open spec fn next_until(oldest: u64) -> u64 {
    if oldest >= 1 { (oldest - 1) as u64 } else { 0 }
}

/// The paging state of one `REQ`.
pub struct HistoricalPager {
    limit: usize,
    filter_count: usize,
    filter_index: usize,
    until: Option<u64>,
    sent_here: usize,
    oldest: Option<u64>,
    attempts: usize,
    seen: Vec<EventId>,
    sent_times: Ghost<Seq<u64>>,
}

impl HistoricalPager {
    /// The limit that every filter is held to.
    pub closed spec fn limit(&self) -> usize {
        self.limit
    }

    pub closed spec fn filter_count(&self) -> usize {
        self.filter_count
    }

    /// The filter being paged; `filter_count` once all are done.
    pub closed spec fn filter_index(&self) -> usize {
        self.filter_index
    }

    /// The upper bound of the next window; `None` keeps the filter's own.
    pub closed spec fn until(&self) -> Option<u64> {
        self.until
    }

    /// How many events the current filter has sent.
    pub closed spec fn sent_here(&self) -> usize {
        self.sent_here
    }

    /// The oldest creation time that the current filter has seen.
    pub closed spec fn oldest(&self) -> Option<u64> {
        self.oldest
    }

    /// How many queries the current filter has made.
    pub closed spec fn attempts(&self) -> usize {
        self.attempts
    }

    /// The ids sent for this `REQ`, in the order they were sent.
    pub closed spec fn sent_ids(&self) -> Seq<Seq<char>> {
        ids_of(self.seen@)
    }

    /// The creation times of the events that the current filter has sent,
    /// in the order they were sent.
    pub closed spec fn filter_times(&self) -> Seq<u64> {
        self.sent_times@
    }

    /// Whether every filter has been paged.
    pub open spec fn is_done(&self) -> bool {
        self.filter_index() >= self.filter_count()
    }

    pub closed spec fn wf(&self) -> bool {
        &&& self.filter_index <= self.filter_count
        &&& self.sent_here <= self.limit
        &&& self.attempts < MAX_ATTEMPTS
        &&& (self.sent_here > 0 ==> self.until is Some && self.filter_index < self.filter_count)
        &&& self.sent_times@.len() == self.sent_here
        &&& newest_first(self.sent_times@)
        &&& self.sent_ids().no_duplicates()
        &&& self.seen@.len() <= self.filter_index * self.limit + self.sent_here
        &&& (self.sent_here > 0 ==> self.oldest is Some)
        &&& (self.oldest matches Some(o) ==> forall|k: int|
            0 <= k < self.sent_times@.len() ==> o <= #[trigger] self.sent_times@[k])
        &&& (self.until matches Some(u) ==> (self.oldest matches Some(o) && u <= o))
    }

    /// Starts paging a `REQ` whose filters carry `limits`, under the
    /// configured `max_limit`.
    pub fn new(limits: &Vec<Option<usize>>, max_limit: usize) -> (r: HistoricalPager)
        ensures
            r.wf(),
            r.limit() == spec_effective_limit(limits@, max_limit),
            r.filter_count() == limits@.len(),
            r.filter_index() == 0,
            r.until() is None,
            r.sent_here() == 0,
            r.oldest() is None,
            r.attempts() == 0,
            r.sent_ids() == Seq::<Seq<char>>::empty(),
            r.filter_times() == Seq::<u64>::empty(),
    {
        let limit = effective_limit(limits, max_limit);
        let r = HistoricalPager {
            limit,
            filter_count: limits.len(),
            filter_index: 0,
            until: None,
            sent_here: 0,
            oldest: None,
            attempts: 0,
            seen: Vec::new(),
            sent_times: Ghost(Seq::empty()),
        };
        assert(r.sent_ids() =~= Seq::<Seq<char>>::empty());
        r
    }

    /// The limit that every filter is held to.
    pub fn effective_limit(&self) -> (r: usize)
        ensures
            r == self.limit(),
    {
        self.limit
    }

    /// How many events have been sent for this `REQ`.
    pub fn total_sent(&self) -> (r: usize)
        ensures
            r == self.sent_ids().len(),
    {
        self.seen.len()
    }

    /// The next store query, or `None` once every filter is done: then the
    /// end of stored events is due.
    pub fn next_query(&self) -> (r: Option<WindowQuery>)
        requires
            self.wf(),
        ensures
            self.is_done() ==> r is None,
            !self.is_done() ==> r == Some(
                WindowQuery { filter_index: self.filter_index(), until: self.until(), limit: self.limit() },
            ),
    {
        if self.filter_index < self.filter_count {
            Some(WindowQuery { filter_index: self.filter_index, until: self.until, limit: self.limit })
        } else {
            None
        }
    }

    /// Whether `id` was already sent for this `REQ`.
    fn was_sent(&self, id: &EventId) -> (r: bool)
        ensures
            r == self.sent_ids().contains(id@),
    {
        let mut i: usize = 0;
        while i < self.seen.len()
            invariant
                i <= self.seen@.len(),
                forall|j: int| 0 <= j < i ==> self.seen@[j]@ != id@,
            decreases self.seen@.len() - i,
        {
            if self.seen[i].same_as(id) {
                assert(self.sent_ids()[i as int] == id@);
                return true;
            }
            i = i + 1;
        }
        proof {
            if self.sent_ids().contains(id@) {
                let j = choose|j: int| 0 <= j < self.sent_ids().len() && self.sent_ids()[j] == id@;
                assert(self.seen@[j]@ == id@);
            }
        }
        false
    }

    /// Ends the current filter and moves to the next one.
    fn next_filter(&mut self)
        requires
            old(self).filter_index() < old(self).filter_count(),
            old(self).sent_here() <= old(self).limit(),
            old(self).sent_ids().no_duplicates(),
            old(self).seen@.len() <= old(self).filter_index * old(self).limit + old(self).sent_here,
        ensures
            final(self).wf(),
            final(self).limit() == old(self).limit(),
            final(self).filter_count() == old(self).filter_count(),
            final(self).filter_index() == old(self).filter_index() + 1,
            final(self).until() is None,
            final(self).sent_here() == 0,
            final(self).oldest() is None,
            final(self).attempts() == 0,
            final(self).sent_ids() == old(self).sent_ids(),
            final(self).filter_times() == Seq::<u64>::empty(),
    {
        proof {
            assert(self.seen@.len() <= (self.filter_index + 1) * self.limit) by (nonlinear_arith)
                requires
                    self.seen@.len() <= self.filter_index * self.limit + self.sent_here,
                    self.sent_here <= self.limit,
            ;
        }
        self.filter_index = self.filter_index + 1;
        self.until = None;
        self.sent_here = 0;
        self.oldest = None;
        self.attempts = 0;
        self.sent_times = Ghost(Seq::empty());
    }

    /// Takes the events that the store returned for the last query, newest
    /// first, and returns the positions of those to send, in the order to
    /// send them; then moves the window, or ends the current filter.
    ///
    /// An event is sent at most once per `REQ`, only if the predicate
    /// accepted it, and only if it lies inside the window that was asked
    /// for. Of the candidates, the newest are sent, newest first, until the
    /// filter has sent `limit` events. The filter ends when the store
    /// returns nothing, when it has sent `limit` events, when no fresh event
    /// was found, or after `MAX_ATTEMPTS` queries; otherwise the next window
    /// ends one second before the oldest event seen.
    pub fn on_events(&mut self, events: &Vec<StoredEvent>) -> (r: Vec<usize>)
        requires
            old(self).wf(),
            !old(self).is_done(),
        ensures
            final(self).wf(),
            final(self).limit() == old(self).limit(),
            final(self).filter_count() == old(self).filter_count(),
            // what is sent
            forall|k: int| 0 <= k < r@.len() ==> is_candidate(
                events@,
                old(self).sent_ids(),
                old(self).until(),
                #[trigger] r@[k] as int,
            ),
            r@.no_duplicates(),
            newest_first(times_of(events@, r@)),
            old(self).sent_here() + r@.len() <= old(self).limit(),
            old(self).sent_here() + r@.len() == old(self).limit() || forall|i: int|
                #[trigger] is_candidate(events@, old(self).sent_ids(), old(self).until(), i)
                    ==> r@.contains(i as usize),
            forall|i: int, k: int|
                #[trigger] is_candidate(events@, old(self).sent_ids(), old(self).until(), i) && !r@.contains(i as usize)
                    && 0 <= k < r@.len() ==> events@[i].created_at <= #[trigger] events@[r@[k] as int].created_at,
            final(self).sent_ids() == old(self).sent_ids() + picked_ids(events@, r@),
            // the sends of one filter come newest first, across its windows
            newest_first(old(self).filter_times() + times_of(events@, r@)),
            // what comes next
            ({
                let sent = old(self).sent_here() + r@.len();
                let oldest = oldest_after(events@, old(self).sent_ids(), old(self).until(), old(self).oldest(), events@.len() as int);
                let attempts = old(self).attempts() + 1;
                let ends = filter_ends(events@.len(), sent, old(self).limit(), oldest, attempts);
                &&& ends ==> (final(self).filter_index() == old(self).filter_index() + 1
                    && final(self).sent_here() == 0 && final(self).attempts() == 0
                    && final(self).until() is None && final(self).oldest() is None
                    && final(self).filter_times() == Seq::<u64>::empty())
                &&& !ends ==> (final(self).filter_index() == old(self).filter_index()
                    && final(self).sent_here() == sent && final(self).attempts() == attempts
                    && final(self).oldest() == oldest
                    && final(self).until() == Some(next_until(oldest->0))
                    && final(self).filter_times() == old(self).filter_times() + times_of(events@, r@))
            }),
    {
        let ghost seen0 = self.sent_ids();
        let ghost times0 = self.sent_times@;
        let until = self.until;
        self.attempts = self.attempts + 1;
        if events.len() == 0 {
            let r: Vec<usize> = Vec::new();
            proof {
                assert(times_of(events@, r@) =~= Seq::<u64>::empty());
                assert(picked_ids(events@, r@) =~= Seq::<Seq<char>>::empty());
                assert(seen0 + Seq::<Seq<char>>::empty() =~= seen0);
                assert(times0 + Seq::<u64>::empty() =~= times0);
                assert forall|i: int| #[trigger] is_candidate(events@, seen0, until, i) implies r@.contains(i as usize) by {}
            }
            self.next_filter();
            return r;
        }
        // Collect the candidates, newest first, and the oldest fresh time.

        let mut cands: Vec<usize> = Vec::new();
        let mut oldest = self.oldest;
        let mut i: usize = 0;
        while i < events.len()
            invariant
                i <= events@.len(),
                self.sent_ids() == seen0,
                self.until == until,
                self.limit == old(self).limit,
                self.sent_here == old(self).sent_here,
                self.filter_index == old(self).filter_index,
                self.filter_count == old(self).filter_count,
                self.attempts == old(self).attempts + 1,
                self.oldest == old(self).oldest,
                self.sent_times == old(self).sent_times,
                seen0.no_duplicates(),
                oldest == oldest_after(events@, seen0, until, self.oldest, i as int),
                forall|k: int| 0 <= k < cands@.len() ==> (#[trigger] cands@[k] as int) < i,
                forall|k: int| 0 <= k < cands@.len() ==> is_candidate(events@, seen0, until, #[trigger] cands@[k] as int),
                forall|j: int| 0 <= j < i && is_candidate(events@, seen0, until, j) ==> #[trigger] cands@.contains(j as usize),
                cands@.no_duplicates(),
                newest_first(times_of(events@, cands@)),
            decreases events@.len() - i,
        {
            let e = &events[i];
            let fresh = match until {
                Some(u) => e.created_at <= u,
                None => true,
            } && !self.was_sent(&e.id);
            if fresh {
                oldest = match oldest {
                    Some(t) => if e.created_at < t { Some(e.created_at) } else { Some(t) },
                    None => Some(e.created_at),
                };
                if e.accepted && self.first_in_batch(events, i) {
                    let ghost before = cands@;
                    self.insert_newest_first(events, &mut cands, i);
                    proof {
                        assert(is_candidate(events@, seen0, until, i as int));
                        assert forall|k: int| 0 <= k < cands@.len() implies is_candidate(events@, seen0, until, #[trigger] cands@[k] as int) by {
                            assert(cands@.contains(cands@[k]));
                            if cands@[k] != i {
                                assert(before.contains(cands@[k]));
                            }
                        }
                        assert forall|k: int| 0 <= k < cands@.len() implies (#[trigger] cands@[k] as int) < i + 1 by {}
                    }
                }
            }
            proof {
                assert forall|j: int| 0 <= j < i + 1 && is_candidate(events@, seen0, until, j) implies #[trigger] cands@.contains(j as usize) by {
                    if j < i {
                        assert(is_candidate(events@, seen0, until, j));
                    }
                }
            }
            i = i + 1;
        }
        // Send the newest candidates, up to the limit.

        let room = self.limit - self.sent_here;
        let take = if cands.len() < room { cands.len() } else { room };
        let mut r: Vec<usize> = Vec::new();
        let mut k: usize = 0;
        while k < take
            invariant
                k <= take <= cands@.len(),
                take <= room,
                room == self.limit - self.sent_here,
                self.sent_here == old(self).sent_here,
                self.limit == old(self).limit,
                self.until == until,
                self.filter_index == old(self).filter_index,
                self.filter_count == old(self).filter_count,
                self.attempts == old(self).attempts + 1,
                self.oldest == old(self).oldest,
                self.sent_times == old(self).sent_times,
                r@ == cands@.subrange(0, k as int),
                self.sent_ids() == seen0 + picked_ids(events@, r@),
                forall|q: int| 0 <= q < cands@.len() ==> (#[trigger] cands@[q] as int) < events@.len(),
            decreases take - k,
        {
            let c = cands[k];
            let ghost r_prev = r@;
            let ghost seen_prev = self.seen@;
            r.push(c);
            let id = events[c].id.duplicate();
            self.seen.push(id);
            proof {
                assert(r@ =~= cands@.subrange(0, k as int + 1));
                let lhs = ids_of(self.seen@);
                let rhs = seen0 + picked_ids(events@, r@);
                assert(ids_of(seen_prev) == seen0 + picked_ids(events@, r_prev));
                assert(self.seen@ == seen_prev.push(id));
                assert(ids_of(seen_prev).len() == seen_prev.len());
                assert(picked_ids(events@, r_prev).len() == r_prev.len());
                assert(lhs.len() == rhs.len());
                assert forall|q: int| 0 <= q < lhs.len() implies lhs[q] == rhs[q] by {
                    if q < seen_prev.len() {
                        assert(lhs[q] == ids_of(seen_prev)[q]);
                        if q >= seen0.len() {
                            assert(picked_ids(events@, r@)[q - seen0.len()] == picked_ids(events@, r_prev)[q - seen0.len()]);
                        }
                    } else {
                        assert(lhs[q] == id@);
                        assert(rhs[q] == picked_ids(events@, r@)[k as int]);
                    }
                }
                assert(lhs =~= rhs);
            }
            k = k + 1;
        }
        proof {
            Self::lemma_sent_facts(events@, seen0, until, times0, cands@, r@);
        }
        proof {
            assert(i == events@.len());
            if take == cands.len() {
                assert(r@ =~= cands@);
            }
            assert forall|j: int, k: int|
                #[trigger] is_candidate(events@, seen0, until, j) && !r@.contains(j as usize)
                    && 0 <= k < r@.len() implies events@[j].created_at <= #[trigger] events@[r@[k] as int].created_at by {
                assert(cands@.contains(j as usize));
                let q = choose|q: int| 0 <= q < cands@.len() && cands@[q] == j as usize;
                if q < take {
                    assert(r@[q] == j as usize);
                }
                assert(times_of(events@, cands@)[k] >= times_of(events@, cands@)[q]);
                assert(r@[k] == cands@[k]);
            }
        }
        self.sent_here = self.sent_here + take;
        proof {
            lemma_window_moves_older(events@, seen0, until, old(self).oldest, events@.len() as int);
            lemma_windows_newest_first(events@, seen0, until, old(self).oldest, times0, r@);
        }
        if self.sent_here >= self.limit || oldest.is_none() || self.attempts >= MAX_ATTEMPTS {
            self.next_filter();
        } else {
            self.oldest = oldest;
            self.sent_times = Ghost(times0 + times_of(events@, r@));
            let t = match oldest {
                Some(t) => t,
                None => 0,
            };
            self.until = Some(if t >= 1 { t - 1 } else { 0 });
            proof {
                let ts = times0 + times_of(events@, r@);
                assert forall|k: int| 0 <= k < ts.len() implies t <= #[trigger] ts[k] by {
                    if k >= times0.len() {
                        let c = r@[k - times0.len()] as int;
                        assert(is_candidate(events@, seen0, until, c));
                        assert(is_fresh(events@, seen0, until, c));
                    }
                }
            }
        }
        r
    }

    /// Whether no event before position `i` of the batch has the same id.
    fn first_in_batch(&self, events: &Vec<StoredEvent>, i: usize) -> (r: bool)
        requires
            i < events@.len(),
        ensures
            r == forall|j: int| 0 <= j < i ==> events@[j].id@ != events@[i as int].id@,
    {
        let mut j: usize = 0;
        while j < i
            invariant
                j <= i < events@.len(),
                forall|q: int| 0 <= q < j ==> events@[q].id@ != events@[i as int].id@,
            decreases i - j,
        {
            if events[j].id.same_as(&events[i].id) {
                return false;
            }
            j = j + 1;
        }
        true
    }

    /// Puts position `i` into `cands`, after every candidate at least as new.
    fn insert_newest_first(&self, events: &Vec<StoredEvent>, cands: &mut Vec<usize>, i: usize)
        requires
            i < events@.len(),
            forall|k: int| 0 <= k < old(cands)@.len() ==> (#[trigger] old(cands)@[k] as int) < i,
            newest_first(times_of(events@, old(cands)@)),
            old(cands)@.no_duplicates(),
        ensures
            final(cands)@.no_duplicates(),
            newest_first(times_of(events@, final(cands)@)),
            forall|x: usize| #[trigger] final(cands)@.contains(x) <==> (old(cands)@.contains(x) || x == i),
            forall|k: int| 0 <= k < final(cands)@.len() ==> (#[trigger] final(cands)@[k] as int) <= i,
    {
        let t = events[i].created_at;
        let mut pos: usize = 0;
        while pos < cands.len() && events[cands[pos]].created_at >= t
            invariant
                pos <= cands@.len(),
                i < events@.len(),
                cands@ == old(cands)@,
                forall|k: int| 0 <= k < cands@.len() ==> (#[trigger] cands@[k] as int) < i,
                forall|k: int| 0 <= k < pos ==> events@[#[trigger] cands@[k] as int].created_at >= t,
            decreases cands@.len() - pos,
        {
            pos = pos + 1;
        }
        let ghost before = cands@;
        cands.insert(pos, i);
        proof {
            let ts = times_of(events@, cands@);
            let ts0 = times_of(events@, before);
            assert(cands@ == before.insert(pos as int, i));
            assert forall|a: int, b: int| 0 <= a < b < ts.len() implies ts[a] >= ts[b] by {
                if b < pos {
                    assert(ts[a] == ts0[a] && ts[b] == ts0[b]);
                } else if b == pos {
                    assert(events@[before[a] as int].created_at >= t);
                } else if a < pos {
                    assert(ts[a] == ts0[a] && ts[b] == ts0[b - 1]);
                } else if a == pos {
                    if pos < before.len() {
                        assert(events@[before[pos as int] as int].created_at < t);
                        assert(ts0[pos as int] >= ts0[b - 1]);
                    }
                } else {
                    assert(ts[a] == ts0[a - 1] && ts[b] == ts0[b - 1]);
                }
            }
            assert forall|x: usize| #[trigger] cands@.contains(x) <==> (before.contains(x) || x == i) by {
                if cands@.contains(x) {
                    let k = choose|k: int| 0 <= k < cands@.len() && cands@[k] == x;
                    if k < pos {
                        assert(before[k] == x);
                    } else if k > pos {
                        assert(before[k - 1] == x);
                    }
                }
                if before.contains(x) {
                    let k = choose|k: int| 0 <= k < before.len() && before[k] == x;
                    if k < pos {
                        assert(cands@[k] == x);
                    } else {
                        assert(cands@[k + 1] == x);
                    }
                }
                if x == i {
                    assert(cands@[pos as int] == x);
                }
            }
            assert forall|a: int, b: int| 0 <= a < b < cands@.len() implies cands@[a] != cands@[b] by {
                if a < pos && b < pos {
                    assert(before[a] != before[b]);
                } else if a < pos && b > pos {
                    assert(before[a] != before[b - 1]);
                } else if a > pos {
                    assert(before[a - 1] != before[b - 1]);
                } else if a == pos {
                    assert(cands@[b] == before[b - 1]);
                } else {
                    assert(cands@[a] == before[a]);
                }
            }
        }
    }

    /// The positions sent from a batch are distinct candidates, newest
    /// first, and their ids are new to the `REQ`.
    proof fn lemma_sent_facts(
        events: Seq<StoredEvent>,
        seen0: Seq<Seq<char>>,
        until: Option<u64>,
        times0: Seq<u64>,
        cands: Seq<usize>,
        r: Seq<usize>,
    )
        requires
            r.len() <= cands.len(),
            r == cands.subrange(0, r.len() as int),
            forall|k: int| 0 <= k < cands.len() ==> is_candidate(events, seen0, until, #[trigger] cands[k] as int),
            cands.no_duplicates(),
            newest_first(times_of(events, cands)),
            seen0.no_duplicates(),
        ensures
            r.no_duplicates(),
            newest_first(times_of(events, r)),
            (seen0 + picked_ids(events, r)).no_duplicates(),
            forall|k: int| 0 <= k < r.len() ==> is_candidate(events, seen0, until, #[trigger] r[k] as int),
    {
        let ids = picked_ids(events, r);
        let all = seen0 + ids;
        assert forall|a: int, b: int| 0 <= a < b < all.len() implies all[a] != all[b] by {
            if b >= seen0.len() {
                let rb = r[b - seen0.len()] as int;
                assert(cands[b - seen0.len()] as int == rb);
                assert(is_candidate(events, seen0, until, rb));
                assert(all[b] == events[rb].id@);
                if a < seen0.len() {
                    assert(seen0.contains(all[a]));
                } else {
                    let ra = r[a - seen0.len()] as int;
                    assert(cands[a - seen0.len()] as int == ra);
                    assert(is_candidate(events, seen0, until, ra));
                    assert(ra != rb);
                    if ra < rb {
                        assert(events[ra].id@ != events[rb].id@);
                    } else {
                        assert(events[rb].id@ != events[ra].id@);
                    }
                }
            }
        }
        assert forall|a: int, b: int| 0 <= a < b < times_of(events, r).len() implies times_of(events, r)[a] >= times_of(events, r)[b] by {
            assert(times_of(events, r)[a] == times_of(events, cands)[a]);
            assert(times_of(events, r)[b] == times_of(events, cands)[b]);
        }
        assert forall|k: int| 0 <= k < r.len() implies is_candidate(events, seen0, until, #[trigger] r[k] as int) by {
            assert(r[k] == cands[k]);
        }
    }

}

/// The sends of one filter come newest first across its windows: a later
/// window ends before the oldest event that an earlier one saw.
proof fn lemma_windows_newest_first(
    events: Seq<StoredEvent>,
    seen0: Seq<Seq<char>>,
    until: Option<u64>,
    prev: Option<u64>,
    times0: Seq<u64>,
    r: Seq<usize>,
)
    requires
        newest_first(times0),
        newest_first(times_of(events, r)),
        forall|k: int| 0 <= k < r.len() ==> is_candidate(events, seen0, until, #[trigger] r[k] as int),
        times0.len() > 0 ==> until is Some,
        until matches Some(u) ==> (prev matches Some(o) && u <= o),
        prev matches Some(o) ==> forall|k: int| 0 <= k < times0.len() ==> o <= #[trigger] times0[k],
    ensures
        newest_first(times0 + times_of(events, r)),
{
    let tr = times_of(events, r);
    let all = times0 + tr;
    assert forall|a: int, b: int| 0 <= a < b < all.len() implies all[a] >= all[b] by {
        if a < times0.len() && b >= times0.len() {
            let c = r[b - times0.len()] as int;
            assert(is_candidate(events, seen0, until, c));
            assert(all[b] == events[c].created_at);
            assert(all[a] == times0[a]);
        } else if a >= times0.len() {
            assert(all[a] == tr[a - times0.len()]);
            assert(all[b] == tr[b - times0.len()]);
        }
    }
}

/// Rejected events still move the window: once a batch holds a fresh event,
/// accepted or not, the oldest time seen is set, is no later than before,
/// and is no later than any fresh event; the next window ends before it.
pub proof fn lemma_window_moves_older(
    events: Seq<StoredEvent>,
    seen: Seq<Seq<char>>,
    until: Option<u64>,
    prev: Option<u64>,
    n: int,
)
    requires
        0 <= n <= events.len(),
    ensures
        (prev is Some || (exists|i: int| 0 <= i < n && is_fresh(events, seen, until, i)))
            ==> oldest_after(events, seen, until, prev, n) is Some,
        oldest_after(events, seen, until, prev, n) matches Some(o) ==> (prev matches Some(p) ==> o <= p),
        oldest_after(events, seen, until, prev, n) matches Some(o) ==> forall|i: int|
            0 <= i < n && #[trigger] is_fresh(events, seen, until, i) ==> o <= events[i].created_at,
    decreases n,
{
    if n > 0 {
        lemma_window_moves_older(events, seen, until, prev, n - 1);
    }
}

/// Rejections do not end paging early: when a batch holds fresh events
/// but the filter is still short of its limit and of the attempt bound,
/// the filter goes on, and its next window ends before every fresh event
/// of the batch that is newer than one second.
pub proof fn lemma_rejections_keep_paging(
    events: Seq<StoredEvent>,
    seen: Seq<Seq<char>>,
    until: Option<u64>,
    prev: Option<u64>,
    sent: int,
    limit: usize,
    attempts: int,
)
    requires
        exists|i: int| 0 <= i < events.len() && is_fresh(events, seen, until, i),
        sent < limit,
        attempts < MAX_ATTEMPTS,
    ensures
        !filter_ends(events.len(), sent, limit, oldest_after(events, seen, until, prev, events.len() as int), attempts),
        forall|i: int| #[trigger] is_fresh(events, seen, until, i) && events[i].created_at >= 1 ==> next_until(
            oldest_after(events, seen, until, prev, events.len() as int)->0) < events[i].created_at,
{
    lemma_window_moves_older(events, seen, until, prev, events.len() as int);
}

/// Whatever limits the client asks for, a `REQ`'s limit never exceeds
/// `max_limit`.
pub proof fn lemma_limit_within_max(limits: Seq<Option<usize>>, max_limit: usize)
    ensures
        spec_effective_limit(limits, max_limit) <= max_limit,
    decreases limits.len(),
{
    if limits.len() > 0 {
        lemma_limit_within_max(limits.drop_last(), max_limit);
    }
}

/// A `REQ` whose filters carry no limit is held to `max_limit`.
pub proof fn lemma_no_limit_is_max(limits: Seq<Option<usize>>, max_limit: usize)
    requires
        forall|i: int| 0 <= i < limits.len() ==> #[trigger] limits[i] is None,
    ensures
        spec_effective_limit(limits, max_limit) == max_limit,
    decreases limits.len(),
{
    if limits.len() > 0 {
        assert forall|i: int| 0 <= i < limits.drop_last().len() implies #[trigger] limits.drop_last()[i] is None by {
            assert(limits.drop_last()[i] == limits[i]);
        }
        lemma_no_limit_is_max(limits.drop_last(), max_limit);
    }
}

impl HistoricalPager {
    /// Each filter sends at most the `REQ`'s limit, so the `REQ` sends at
    /// most that limit per filter.
    pub proof fn lemma_sent_within_limit(&self)
        requires
            self.wf(),
        ensures
            self.sent_here() <= self.limit(),
            self.sent_ids().len() <= self.filter_index() * self.limit() + self.sent_here(),
            self.sent_ids().len() <= self.filter_count() * self.limit(),
    {
        assert(self.filter_index * self.limit + self.sent_here <= self.filter_count * self.limit) by (nonlinear_arith)
            requires
                self.sent_here <= self.limit,
                self.filter_index <= self.filter_count,
                self.sent_here == 0 || self.filter_index < self.filter_count,
        {
            if self.sent_here > 0 {
                assert(self.filter_index * self.limit + self.limit <= self.filter_count * self.limit);
            }
        }
    }

    /// No event is sent twice for one `REQ`, and the events that the
    /// current filter has sent came newest first.
    pub proof fn lemma_history_order(&self)
        requires
            self.wf(),
        ensures
            self.sent_ids().no_duplicates(),
            newest_first(self.filter_times()),
            self.filter_times().len() == self.sent_here(),
    {
    }
}

} // verus!
