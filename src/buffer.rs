//! Coalescing of replaceable and addressable events: within one flush
//! interval only the latest arrival per author, kind and scope is kept.
use vstd::prelude::*;
use crate::kind::{is_coalesced_kind, spec_is_coalesced};
use crate::types::{Scope, UnsignedEvent};

verus! {

/// The identity under which events replace one another: author, kind and
/// scope.
pub type CoalesceKey = (Seq<char>, u16, Option<Seq<char>>);

/// The coalescing key of an event arriving in `scope`.
pub open spec fn key_of(event: UnsignedEvent, scope: Scope) -> CoalesceKey {
    (event.pubkey@, event.kind, scope@)
}

/// What a buffer holds after the arrivals `s`, starting empty: for each
/// key, the last replaceable or addressable arrival under it.
pub open spec fn coalesce(s: Seq<(UnsignedEvent, Scope)>) -> Map<CoalesceKey, (UnsignedEvent, Scope)>
    decreases s.len(),
{
    if s.len() == 0 {
        Map::empty()
    } else {
        let prev = coalesce(s.drop_last());
        let (e, sc) = s.last();
        if spec_is_coalesced(e.kind) {
            prev.insert(key_of(e, sc), (e, sc))
        } else {
            prev
        }
    }
}

/// Whether arrival `i` of `s` is kept under key `k`: replaceable or
/// addressable, under `k`.
pub open spec fn counts_for(s: Seq<(UnsignedEvent, Scope)>, i: int, k: CoalesceKey) -> bool {
    spec_is_coalesced(s[i].0.kind) && key_of(s[i].0, s[i].1) == k
}

/// What happens to a connection's buffer.
#[derive(Debug)]
pub enum BufferEvent {
    /// An unsigned event arrived in a scope.
    Arrived(UnsignedEvent, Scope),
    /// The flush interval elapsed.
    Tick,
    /// The connection was cancelled.
    Cancelled,
}

/// What the buffer's task does next.
#[derive(Debug)]
pub enum BufferAction {
    /// Nothing to do until the next event.
    Wait,
    /// Sign and store these events, then wait for the next event.
    Flush(Vec<(UnsignedEvent, Scope)>),
    /// Sign and store these events, then stop.
    FlushAndStop(Vec<(UnsignedEvent, Scope)>),
}

/// `out` holds exactly what `held` held, one event per key.
pub open spec fn drained(held: Map<CoalesceKey, (UnsignedEvent, Scope)>, out: Seq<(UnsignedEvent, Scope)>) -> bool {
    &&& forall|i: int, j: int| 0 <= i < j < out.len() ==> key_of(out[i].0, out[i].1) != key_of(out[j].0, out[j].1)
    &&& forall|i: int| 0 <= i < out.len() ==> #[trigger] held.contains_key(key_of(out[i].0, out[i].1))
        && held[key_of(out[i].0, out[i].1)] == out[i]
    &&& forall|k: CoalesceKey| #[trigger] held.contains_key(k) ==> exists|i: int| 0 <= i < out.len() && out[i] == held[k]
}

/// The buffer of one connection.
pub struct ReplaceableEventsBuffer {
    entries: Vec<(UnsignedEvent, Scope)>,
    contents: Ghost<Map<CoalesceKey, (UnsignedEvent, Scope)>>,
}

impl ReplaceableEventsBuffer {
    /// The latest event under each key.
    pub closed spec fn view(&self) -> Map<CoalesceKey, (UnsignedEvent, Scope)> {
        self.contents@
    }

    pub closed spec fn wf(&self) -> bool {
        &&& forall|i: int, j: int| 0 <= i < j < self.entries@.len()
            ==> key_of(self.entries@[i].0, self.entries@[i].1) != key_of(self.entries@[j].0, self.entries@[j].1)
        &&& forall|i: int| 0 <= i < self.entries@.len() ==>
            #[trigger] self.contents@.contains_key(key_of(self.entries@[i].0, self.entries@[i].1))
                && self.contents@[key_of(self.entries@[i].0, self.entries@[i].1)] == self.entries@[i]
        &&& forall|k: CoalesceKey| #[trigger] self.contents@.contains_key(k) ==> exists|i: int|
            0 <= i < self.entries@.len() && key_of(self.entries@[i].0, self.entries@[i].1) == k
        &&& forall|k: CoalesceKey| #[trigger] self.contents@.contains_key(k) ==> k == key_of(
            self.contents@[k].0, self.contents@[k].1) && spec_is_coalesced(self.contents@[k].0.kind)
    }

    pub fn new() -> (r: ReplaceableEventsBuffer)
        ensures
            r.wf(),
            r@ == Map::<CoalesceKey, (UnsignedEvent, Scope)>::empty(),
    {
        ReplaceableEventsBuffer { entries: Vec::new(), contents: Ghost(Map::empty()) }
    }

    pub fn is_empty(&self) -> (r: bool)
        requires
            self.wf(),
        ensures
            r == (self@.dom() == Set::<CoalesceKey>::empty()),
    {
        proof {
            if self.entries@.len() > 0 {
                let k = key_of(self.entries@[0].0, self.entries@[0].1);
                assert(self.contents@.contains_key(k));
                assert(self@.dom().contains(k));
            } else {
                assert(self@.dom() =~= Set::<CoalesceKey>::empty());
            }
        }
        self.entries.len() == 0
    }

    /// Takes an event that arrived in `scope`. A replaceable or addressable
    /// event replaces whatever the buffer held under its author, kind and
    /// scope; any other event is ignored.
    pub fn insert(&mut self, event: UnsignedEvent, scope: Scope)
        requires
            old(self).wf(),
        ensures
            final(self).wf(),
            spec_is_coalesced(event.kind) ==> final(self)@ == old(self)@.insert(key_of(event, scope), (event, scope)),
            !spec_is_coalesced(event.kind) ==> final(self)@ == old(self)@,
    {
        if !is_coalesced_kind(event.kind) {
            return;
        }
        let ghost k = key_of(event, scope);
        let mut i: usize = 0;
        let mut found = false;
        while i < self.entries.len() && !found
            invariant
                self.wf(),
                *self == *old(self),
                i <= self.entries@.len(),
                k == key_of(event, scope),
                found ==> i < self.entries@.len() && key_of(self.entries@[i as int].0, self.entries@[i as int].1) == k,
                !found ==> forall|j: int| 0 <= j < i ==> key_of(self.entries@[j].0, self.entries@[j].1) != k,
            decreases self.entries@.len() - i + if found { 0int } else { 1int },
        {
            let e = &self.entries[i];
            if e.0.pubkey.same_as(&event.pubkey) && e.0.kind == event.kind && e.1.same_as(&scope) {
                found = true;
            } else {
                i = i + 1;
            }
        }
        let ghost before = self.entries@;
        let ghost m = self.contents@;
        proof {
            assert(forall|x: int, y: int| 0 <= x < y < before.len()
                ==> key_of(before[x].0, before[x].1) != key_of(before[y].0, before[y].1));
        }
        if found {
            self.entries.remove(i);
        }
        let ghost mid = self.entries@;
        proof {
            assert forall|a: int| 0 <= a < mid.len() implies key_of(mid[a].0, mid[a].1) != k by {
                if found {
                    assert(key_of(before[i as int].0, before[i as int].1) == k);
                    if a < i {
                        assert(mid[a] == before[a]);
                        assert(key_of(before[a].0, before[a].1) != key_of(before[i as int].0, before[i as int].1));
                    } else {
                        assert(mid[a] == before[a + 1]);
                        assert(key_of(before[i as int].0, before[i as int].1) != key_of(before[a + 1].0, before[a + 1].1));
                    }
                } else {
                    assert(mid[a] == before[a]);
                }
            }
        }
        self.entries.push((event, scope));
        self.contents = Ghost(m.insert(k, self.entries@[self.entries@.len() - 1]));
        proof {
            let es = self.entries@;
            assert(es == mid.push(es[es.len() - 1]));
            assert forall|a: int, b: int| 0 <= a < b < es.len()
                implies key_of(es[a].0, es[a].1) != key_of(es[b].0, es[b].1) by {
                if b < mid.len() {
                    if found {
                        let a0 = if a < i { a } else { a + 1 };
                        let b0 = if b < i { b } else { b + 1 };
                        assert(mid[a] == before[a0]);
                        assert(mid[b] == before[b0]);
                    } else {
                        assert(mid[a] == before[a] && mid[b] == before[b]);
                    }
                }
            }
            assert forall|a: int| 0 <= a < es.len() implies
                #[trigger] self.contents@.contains_key(key_of(es[a].0, es[a].1))
                    && self.contents@[key_of(es[a].0, es[a].1)] == es[a] by {
                if a < mid.len() {
                    let a0 = if found && a >= i { a + 1 } else { a };
                    assert(mid[a] == before[a0]);
                    assert(m.contains_key(key_of(before[a0].0, before[a0].1)));
                }
            }
            assert forall|q: CoalesceKey| #[trigger] self.contents@.contains_key(q) implies exists|a: int|
                0 <= a < es.len() && key_of(es[a].0, es[a].1) == q by {
                if q == k {
                    assert(key_of(es[es.len() - 1].0, es[es.len() - 1].1) == q);
                } else {
                    let b = choose|b: int| 0 <= b < before.len() && key_of(before[b].0, before[b].1) == q;
                    if found {
                        assert(b != i);
                        if b < i {
                            assert(mid[b] == before[b]);
                            assert(es[b] == mid[b]);
                        } else {
                            assert(mid[b - 1] == before[b]);
                            assert(es[b - 1] == mid[b - 1]);
                        }
                    } else {
                        assert(es[b] == before[b]);
                    }
                }
            }
            assert(self.entries@[self.entries@.len() - 1] == (event, scope));
        }
    }

    /// Empties the buffer and returns what it held: one event per key.
    pub fn drain(&mut self) -> (r: Vec<(UnsignedEvent, Scope)>)
        requires
            old(self).wf(),
        ensures
            final(self).wf(),
            final(self)@ == Map::<CoalesceKey, (UnsignedEvent, Scope)>::empty(),
            forall|i: int, j: int| 0 <= i < j < r@.len() ==> key_of(r@[i].0, r@[i].1) != key_of(r@[j].0, r@[j].1),
            forall|i: int| 0 <= i < r@.len() ==> #[trigger] old(self)@.contains_key(key_of(r@[i].0, r@[i].1))
                && old(self)@[key_of(r@[i].0, r@[i].1)] == r@[i],
            forall|k: CoalesceKey| #[trigger] old(self)@.contains_key(k) ==> exists|i: int|
                0 <= i < r@.len() && r@[i] == old(self)@[k],
    {
        let mut out: Vec<(UnsignedEvent, Scope)> = Vec::new();
        std::mem::swap(&mut out, &mut self.entries);
        self.contents = Ghost(Map::empty());
        proof {
            assert forall|k: CoalesceKey| #[trigger] old(self)@.contains_key(k) implies exists|i: int|
                0 <= i < out@.len() && out@[i] == old(self)@[k] by {
                let i = choose|i: int| 0 <= i < out@.len() && key_of(out@[i].0, out@[i].1) == k;
                assert(old(self).contents@.contains_key(key_of(out@[i].0, out@[i].1)));
            }
        }
        out
    }
}

impl ReplaceableEventsBuffer {
    /// One step of the buffer's task: an arrival is coalesced and the task
    /// waits; every tick flushes what is held; cancellation flushes what is
    /// held and stops the task.
    pub fn on_event(&mut self, event: BufferEvent) -> (r: BufferAction)
        requires
            old(self).wf(),
        ensures
            final(self).wf(),
            event matches BufferEvent::Arrived(e, s) ==> r is Wait
                && (spec_is_coalesced(e.kind) ==> final(self)@ == old(self)@.insert(key_of(e, s), (e, s)))
                && (!spec_is_coalesced(e.kind) ==> final(self)@ == old(self)@),
            event is Tick ==> (r matches BufferAction::Flush(v)
                && final(self)@ == Map::<CoalesceKey, (UnsignedEvent, Scope)>::empty() && drained(old(self)@, v@)),
            event is Cancelled ==> (r matches BufferAction::FlushAndStop(v)
                && final(self)@ == Map::<CoalesceKey, (UnsignedEvent, Scope)>::empty() && drained(old(self)@, v@)),
    {
        match event {
            BufferEvent::Arrived(e, s) => {
                self.insert(e, s);
                BufferAction::Wait
            },
            BufferEvent::Tick => BufferAction::Flush(self.drain()),
            BufferEvent::Cancelled => BufferAction::FlushAndStop(self.drain()),
        }
    }
}

/// The buffer holds, for each key, exactly the last replaceable or
/// addressable arrival under it: at most one event per author, kind and
/// scope survives a flush interval, and it is the latest to arrive.
pub proof fn lemma_coalesce_keeps_latest(s: Seq<(UnsignedEvent, Scope)>, k: CoalesceKey)
    ensures
        coalesce(s).contains_key(k) <==> exists|i: int| 0 <= i < s.len() && #[trigger] counts_for(s, i, k),
        coalesce(s).contains_key(k) ==> exists|i: int|
            0 <= i < s.len() && #[trigger] counts_for(s, i, k) && coalesce(s)[k] == s[i]
                && forall|j: int| i < j < s.len() ==> !#[trigger] counts_for(s, j, k),
    decreases s.len(),
{
    if s.len() > 0 {
        let p = s.drop_last();
        lemma_coalesce_keeps_latest(p, k);
        let n = s.len() - 1;
        assert forall|i: int| 0 <= i < p.len() implies #[trigger] counts_for(p, i, k) == counts_for(s, i, k) by {
            assert(p[i] == s[i]);
        }
        if counts_for(s, n, k) {
            assert(coalesce(s)[k] == s[n]);
        } else {
            if coalesce(s).contains_key(k) {
                let i = choose|i: int|
                    0 <= i < p.len() && #[trigger] counts_for(p, i, k) && coalesce(p)[k] == p[i]
                        && forall|j: int| i < j < p.len() ==> !#[trigger] counts_for(p, j, k);
                assert(counts_for(s, i, k));
                assert forall|j: int| i < j < s.len() implies !#[trigger] counts_for(s, j, k) by {
                    if j < n {
                        assert(!counts_for(p, j, k));
                    }
                }
            }
            if exists|i: int| 0 <= i < s.len() && #[trigger] counts_for(s, i, k) {
                let i = choose|i: int| 0 <= i < s.len() && #[trigger] counts_for(s, i, k);
                assert(counts_for(p, i, k));
            }
        }
    }
}

/// A buffer fed the arrivals `s` from empty holds `coalesce(s)`.
pub proof fn lemma_insert_coalesces(
    before: Map<CoalesceKey, (UnsignedEvent, Scope)>,
    s: Seq<(UnsignedEvent, Scope)>,
    e: UnsignedEvent,
    sc: Scope,
)
    requires
        before == coalesce(s),
    ensures
        spec_is_coalesced(e.kind) ==> before.insert(key_of(e, sc), (e, sc)) == coalesce(s.push((e, sc))),
        !spec_is_coalesced(e.kind) ==> before == coalesce(s.push((e, sc))),
{
    assert(s.push((e, sc)).drop_last() =~= s);
}

} // verus!
