//! The process-wide directory of connections and their live subscriptions,
//! and the routing of a freshly stored event to every matching subscription
//! in the event's scope.
use vstd::prelude::*;
use crate::keyed::KeyedMap;
use crate::types::{PublicKey, Scope, SubscriptionId};

verus! {

/// Why a registry operation did not apply.
#[derive(Clone, Copy, Debug, PartialEq, Eq)]
pub enum RegistryError {
    /// No connection is registered under the given id.
    ConnectionNotFound,
}

/// The subscriptions of one connection, keyed by subscription id, with the
/// connection's outbound sender `S`, its authenticated key and its scope.
pub struct ConnectionSubscriptions<F, S> {
    pub subscriptions: KeyedMap<Vec<F>>,
    pub sender: S,
    pub auth_pubkey: Option<PublicKey>,
    pub subdomain: Scope,
}

impl<F, S> ConnectionSubscriptions<F, S> {
    /// The filters of each subscription.
    pub open spec fn subs(&self) -> Map<Seq<char>, Vec<F>> {
        self.subscriptions@
    }
}

/// Returned when a connection registers; hand it back to
/// `SubscriptionRegistry::remove_connection` when the connection ends.
#[derive(Debug)]
pub struct ConnectionHandle {
    pub id: String,
}

/// One send that distribution made.
#[derive(Debug)]
pub struct Delivery {
    pub connection_id: String,
    pub subscription_id: SubscriptionId,
    /// Whether the connection's sender took the message.
    pub delivered: bool,
}

/// A connection that distribution removed, with the number of
/// subscriptions that it held.
#[derive(Debug)]
pub struct ReapedConnection {
    pub connection_id: String,
    pub subscriptions: usize,
}

/// What one distribution did.
#[derive(Debug)]
pub struct DistributionReport {
    pub deliveries: Vec<Delivery>,
    pub reaped: Vec<ReapedConnection>,
}

/// Whether some filter of `filters` matched, by the matcher's own account.
pub open spec fn some_filter_matches<F, M: Fn(&F) -> bool>(matches: M, filters: Seq<F>) -> bool {
    exists|j: int| 0 <= j < filters.len() && #[trigger] matches.ensures((&filters[j],), true)
}

/// Whether two optional keys are both absent, or both present and equal.
pub open spec fn same_key(a: Option<PublicKey>, b: Option<PublicKey>) -> bool {
    match (a, b) {
        (Some(x), Some(y)) => x@ == y@,
        (None, None) => true,
        _ => false,
    }
}

/// Whether no filter of `filters` matched, by the matcher's own account.
pub open spec fn no_filter_matches<F, M: Fn(&F) -> bool>(matches: M, filters: Seq<F>) -> bool {
    forall|j: int| 0 <= j < filters.len() ==> #[trigger] matches.ensures((&filters[j],), false)
}

/// A send that distribution may make: to a subscription, of a connection
/// in the event's scope, with a filter that matched.
pub open spec fn delivered_in_scope<F, S, M: Fn(&F) -> bool>(
    before: Map<Seq<char>, ConnectionSubscriptions<F, S>>,
    scope: Option<Seq<char>>,
    matches: M,
    d: Delivery,
) -> bool {
    &&& before.contains_key(d.connection_id@)
    &&& before[d.connection_id@].subdomain@ == scope
    &&& before[d.connection_id@].subs().contains_key(d.subscription_id@)
    &&& some_filter_matches(matches, before[d.connection_id@].subs()[d.subscription_id@]@)
}

/// A recorded send says what `send` returned for that connection's sender
/// and that subscription.
pub open spec fn sent_as_reported<F, S, T: Fn(&S, &SubscriptionId) -> bool>(
    before: Map<Seq<char>, ConnectionSubscriptions<F, S>>,
    send: T,
    d: Delivery,
) -> bool {
    send.ensures((&before[d.connection_id@].sender, &d.subscription_id), d.delivered)
}

/// At most one send per subscription, and none to a connection after one
/// of its sends failed.
pub open spec fn one_per_subscription(deliveries: Seq<Delivery>) -> bool {
    forall|a: int, b: int|
        0 <= a < b < deliveries.len() && deliveries[a].connection_id@ == deliveries[b].connection_id@
            ==> deliveries[a].delivered && deliveries[a].subscription_id@ != deliveries[b].subscription_id@
}

/// Whether `id` is among the first `i` of `keys`.
pub open spec fn listed_before(keys: Seq<Seq<char>>, i: int, id: Seq<char>) -> bool {
    exists|a: int| 0 <= a < i && keys[a] == id
}

/// Whether a send to connection `k` failed.
pub open spec fn failed_send(deliveries: Seq<Delivery>, k: Seq<char>) -> bool {
    exists|q: int| 0 <= q < deliveries.len() && (#[trigger] deliveries[q]).connection_id@ == k && !deliveries[q].delivered
}

/// Subscription `sub` of connection `k` got the event, or none of its
/// filters matched.
pub open spec fn covered<F, M: Fn(&F) -> bool>(
    deliveries: Seq<Delivery>,
    matches: M,
    k: Seq<char>,
    sub: Seq<char>,
    filters: Seq<F>,
) -> bool {
    (exists|q: int| 0 <= q < deliveries.len() && (#[trigger] deliveries[q]).connection_id@ == k
        && deliveries[q].subscription_id@ == sub && deliveries[q].delivered)
    || no_filter_matches(matches, filters)
}

/// The ids of the connections found dead.
pub open spec fn dead_ids(dead: Seq<String>) -> Seq<Seq<char>> {
    dead.map_values(|s: String| s@)
}

/// Whether a send to connection `k` failed among the first `d` sends.
pub open spec fn failed_before(deliveries: Seq<Delivery>, d: int, k: Seq<char>) -> bool {
    exists|x: int| 0 <= x < d && deliveries[x].connection_id@ == k && !deliveries[x].delivered
}

/// Connection `k` has been dealt with: out of scope, found dead, or every
/// subscription covered.
pub open spec fn visited<F, S, M: Fn(&F) -> bool>(
    before: Map<Seq<char>, ConnectionSubscriptions<F, S>>,
    deliveries: Seq<Delivery>,
    dead: Seq<String>,
    scope: Option<Seq<char>>,
    matches: M,
    k: Seq<char>,
) -> bool {
    before[k].subdomain@ != scope || dead_ids(dead).contains(k) || forall|sub: Seq<char>|
        #[trigger] before[k].subs().contains_key(sub) ==> covered(deliveries, matches, k, sub, before[k].subs()[sub]@)
}

proof fn lemma_covered_grows<F, M: Fn(&F) -> bool>(
    a: Seq<Delivery>,
    b: Seq<Delivery>,
    matches: M,
    k: Seq<char>,
    sub: Seq<char>,
    filters: Seq<F>,
)
    requires
        a.len() <= b.len(),
        forall|q: int| 0 <= q < a.len() ==> b[q] == a[q],
        covered(a, matches, k, sub, filters),
    ensures
        covered(b, matches, k, sub, filters),
{
    if !no_filter_matches(matches, filters) {
        let q = choose|q: int| 0 <= q < a.len() && (#[trigger] a[q]).connection_id@ == k
            && a[q].subscription_id@ == sub && a[q].delivered;
        assert(b[q] == a[q]);
    }
}

proof fn lemma_failed_grows(a: Seq<Delivery>, b: Seq<Delivery>, k: Seq<char>)
    requires
        a.len() <= b.len(),
        forall|q: int| 0 <= q < a.len() ==> b[q] == a[q],
        failed_send(a, k),
    ensures
        failed_send(b, k),
{
    let q = choose|q: int| 0 <= q < a.len() && (#[trigger] a[q]).connection_id@ == k && !a[q].delivered;
    assert(b[q] == a[q]);
}

proof fn lemma_failed_grows_prefix(a: Seq<Delivery>, b: Seq<Delivery>, k: Seq<char>)
    requires
        a.len() <= b.len(),
        forall|q: int| 0 <= q < a.len() ==> b[q] == a[q],
    ensures
        failed_send(a, k) ==> failed_send(b, k),
{
    if failed_send(a, k) {
        lemma_failed_grows(a, b, k);
    }
}

proof fn lemma_visited_grows<F, S, M: Fn(&F) -> bool>(
    before: Map<Seq<char>, ConnectionSubscriptions<F, S>>,
    a: Seq<Delivery>,
    b: Seq<Delivery>,
    dead_a: Seq<String>,
    dead_b: Seq<String>,
    scope: Option<Seq<char>>,
    matches: M,
    k: Seq<char>,
)
    requires
        a.len() <= b.len(),
        forall|q: int| 0 <= q < a.len() ==> b[q] == a[q],
        dead_a.len() <= dead_b.len(),
        forall|q: int| 0 <= q < dead_a.len() ==> dead_b[q] == dead_a[q],
        visited(before, a, dead_a, scope, matches, k),
    ensures
        visited(before, b, dead_b, scope, matches, k),
{
    if dead_ids(dead_a).contains(k) {
        let x = choose|x: int| 0 <= x < dead_a.len() && dead_ids(dead_a)[x] == k;
        assert(dead_ids(dead_b)[x] == k);
    } else if before[k].subdomain@ == scope {
        assert forall|sub: Seq<char>| #[trigger] before[k].subs().contains_key(sub)
            implies covered(b, matches, k, sub, before[k].subs()[sub]@) by {
            lemma_covered_grows(a, b, matches, k, sub, before[k].subs()[sub]@);
        }
    }
}

/// Every connection with its subscriptions, filters of type `F` and
/// outbound senders of type `S`.
pub struct SubscriptionRegistry<F, S> {
    connections: KeyedMap<ConnectionSubscriptions<F, S>>,
}

impl<F, S> SubscriptionRegistry<F, S> {
    /// The registered connections, by connection id.
    pub closed spec fn view(&self) -> Map<Seq<char>, ConnectionSubscriptions<F, S>> {
        self.connections@
    }

    pub closed spec fn wf(&self) -> bool {
        &&& self.connections.wf()
        &&& forall|k: Seq<char>| #[trigger] self.connections@.contains_key(k)
            ==> self.connections@[k].subscriptions.wf()
    }

    pub fn new() -> (r: SubscriptionRegistry<F, S>)
        ensures
            r.wf(),
            r@ == Map::<Seq<char>, ConnectionSubscriptions<F, S>>::empty(),
    {
        SubscriptionRegistry { connections: KeyedMap::new() }
    }

    /// Registers a connection with no subscriptions, replacing any earlier
    /// connection under the same id.
    pub fn register_connection(
        &mut self,
        connection_id: String,
        sender: S,
        auth_pubkey: Option<PublicKey>,
        subdomain: Scope,
    ) -> (r: ConnectionHandle)
        requires
            old(self).wf(),
        ensures
            final(self).wf(),
            r.id@ == connection_id@,
            final(self)@.contains_key(connection_id@),
            final(self)@[connection_id@].subs() == Map::<Seq<char>, Vec<F>>::empty(),
            final(self)@[connection_id@].sender == sender,
            final(self)@[connection_id@].auth_pubkey == auth_pubkey,
            final(self)@[connection_id@].subdomain == subdomain,
            forall|k: Seq<char>| k != connection_id@ ==> #[trigger] final(self)@.contains_key(k) == old(self)@.contains_key(k),
            forall|k: Seq<char>| k != connection_id@ && #[trigger] old(self)@.contains_key(k) ==> final(self)@[k] == old(self)@[k],
    {
        let id = connection_id.clone();
        let conn = ConnectionSubscriptions { subscriptions: KeyedMap::new(), sender, auth_pubkey, subdomain };
        self.connections.insert(connection_id, conn);
        ConnectionHandle { id }
    }

    /// Whether a connection is registered under `connection_id`.
    pub fn has_connection(&self, connection_id: &str) -> (r: bool)
        requires
            self.wf(),
        ensures
            r == self@.contains_key(connection_id@),
    {
        self.connections.contains(&connection_id.to_owned())
    }

    /// Adds, or replaces, the filters of a subscription of a connection.
    /// Each success counts one more active subscription.
    pub fn add_subscription(
        &mut self,
        connection_id: &str,
        subscription_id: SubscriptionId,
        filters: Vec<F>,
    ) -> (r: Result<(), RegistryError>)
        requires
            old(self).wf(),
        ensures
            final(self).wf(),
            r is Err <==> !old(self)@.contains_key(connection_id@),
            r is Err ==> r == Err::<(), RegistryError>(RegistryError::ConnectionNotFound) && final(self)@ == old(self)@,
            r is Ok ==> ({
                let c = final(self)@[connection_id@];
                let o = old(self)@[connection_id@];
                &&& final(self)@.dom() == old(self)@.dom()
                &&& c.subs() == o.subs().insert(subscription_id@, filters)
                &&& c.sender == o.sender && c.auth_pubkey == o.auth_pubkey && c.subdomain == o.subdomain
                &&& forall|k: Seq<char>| k != connection_id@ && #[trigger] old(self)@.contains_key(k) ==> final(self)@[k] == old(self)@[k]
            }),
    {
        let key = connection_id.to_owned();
        match self.connections.remove(&key) {
            None => Err(RegistryError::ConnectionNotFound),
            Some(conn) => {
                let mut conn = conn;
                let SubscriptionId { name } = subscription_id;
                conn.subscriptions.insert(name, filters);
                self.connections.insert(key, conn);
                proof {
                    assert(old(self).connections@.remove(connection_id@).insert(connection_id@, conn).dom() =~= old(self)@.dom());
                }
                Ok(())
            },
        }
    }

    /// Removes a subscription of a connection. `Ok(true)` when there was one
    /// to remove: then one fewer subscription is active.
    pub fn remove_subscription(
        &mut self,
        connection_id: &str,
        subscription_id: &SubscriptionId,
    ) -> (r: Result<bool, RegistryError>)
        requires
            old(self).wf(),
        ensures
            final(self).wf(),
            r is Err <==> !old(self)@.contains_key(connection_id@),
            r is Err ==> r == Err::<bool, RegistryError>(RegistryError::ConnectionNotFound) && final(self)@ == old(self)@,
            r matches Ok(removed) ==> ({
                let c = final(self)@[connection_id@];
                let o = old(self)@[connection_id@];
                &&& removed == o.subs().contains_key(subscription_id@)
                &&& final(self)@.dom() == old(self)@.dom()
                &&& c.subs() == o.subs().remove(subscription_id@)
                &&& c.sender == o.sender && c.auth_pubkey == o.auth_pubkey && c.subdomain == o.subdomain
                &&& forall|k: Seq<char>| k != connection_id@ && #[trigger] old(self)@.contains_key(k) ==> final(self)@[k] == old(self)@[k]
            }),
    {
        let key = connection_id.to_owned();
        match self.connections.remove(&key) {
            None => Err(RegistryError::ConnectionNotFound),
            Some(conn) => {
                let mut conn = conn;
                let removed = conn.subscriptions.remove(&subscription_id.name).is_some();
                self.connections.insert(key, conn);
                proof {
                    assert(old(self).connections@.remove(connection_id@).insert(connection_id@, conn).dom() =~= old(self)@.dom());
                }
                Ok(removed)
            },
        }
    }

    /// The authenticated key and the scope of a connection.
    pub fn get_connection_info(&self, connection_id: &str) -> (r: Option<(Option<PublicKey>, Scope)>)
        requires
            self.wf(),
        ensures
            !self@.contains_key(connection_id@) ==> r is None,
            self@.contains_key(connection_id@) ==> r is Some && ({
                let (auth, scope) = r->0;
                scope@ == self@[connection_id@].subdomain@ && same_key(auth, self@[connection_id@].auth_pubkey)
            }),
    {
        match self.connections.get(&connection_id.to_owned()) {
            None => None,
            Some(conn) => {
                let auth = match &conn.auth_pubkey {
                    Some(k) => Some(k.duplicate()),
                    None => None,
                };
                Some((auth, conn.subdomain.duplicate()))
            },
        }
    }

    /// The number of subscriptions of a connection.
    pub fn subscription_count(&self, connection_id: &str) -> (r: Option<usize>)
        requires
            self.wf(),
        ensures
            !self@.contains_key(connection_id@) ==> r is None,
            self@.contains_key(connection_id@) ==> r == Some(self@[connection_id@].subs().len() as usize),
    {
        match self.connections.get(&connection_id.to_owned()) {
            None => None,
            Some(conn) => Some(conn.subscriptions.len()),
        }
    }

    /// Whether some filter of `filters` matches, asking `matches` of each in
    /// turn.
    fn any_filter_matches<M: Fn(&F) -> bool>(filters: &Vec<F>, matches: &M) -> (r: bool)
        requires
            forall|f: &F| #[trigger] matches.requires((f,)),
        ensures
            r ==> some_filter_matches(*matches, filters@),
            !r ==> no_filter_matches(*matches, filters@),
    {
        let mut j: usize = 0;
        while j < filters.len()
            invariant
                j <= filters@.len(),
                forall|f: &F| #[trigger] matches.requires((f,)),
                forall|q: int| 0 <= q < j ==> #[trigger] matches.ensures((&filters@[q],), false),
            decreases filters@.len() - j,
        {
            let hit = matches(&filters[j]);
            if hit {
                assert(matches.ensures((&filters@[j as int],), true));
                return true;
            }
            j = j + 1;
        }
        false
    }

    /// Hands `event`'s delivery to every subscription in `scope` that has a
    /// matching filter, once per subscription, through `send`; `matches`
    /// tells whether a filter matches the event. Connections of other
    /// scopes are never sent to, and a connection gets no further send
    /// after a failed one. Every send is recorded with what `send`
    /// returned. The registry is only read: `reap_connections` removes the
    /// connections whose send failed.
    pub fn deliver_event<M: Fn(&F) -> bool, T: Fn(&S, &SubscriptionId) -> bool>(
        &self,
        scope: &Scope,
        matches: &M,
        send: &T,
    ) -> (r: Vec<Delivery>)
        requires
            self.wf(),
            forall|f: &F| #[trigger] matches.requires((f,)),
            forall|s: &S, id: &SubscriptionId| #[trigger] send.requires((s, id)),
        ensures
            forall|q: int| 0 <= q < r@.len() ==> #[trigger] delivered_in_scope(self@, scope@, *matches, r@[q]),
            forall|q: int| 0 <= q < r@.len() ==> #[trigger] sent_as_reported(self@, *send, r@[q]),
            one_per_subscription(r@),
            forall|k: Seq<char>| #[trigger] self@.contains_key(k) && self@[k].subdomain@ == scope@
                && !failed_send(r@, k) ==> forall|sub: Seq<char>| #[trigger] self@[k].subs().contains_key(sub)
                    ==> covered(r@, *matches, k, sub, self@[k].subs()[sub]@),
    {
        let mut deliveries: Vec<Delivery> = Vec::new();
        let mut dead: Vec<String> = Vec::new();
        let n = self.connections.len();
        proof {
            self.connections.lemma_keys();
        }
        let mut i: usize = 0;
        while i < n
            invariant
                self.wf(),
                n == self.connections.keys().len(),
                i <= n,
                forall|f: &F| #[trigger] matches.requires((f,)),
                forall|s: &S, id: &SubscriptionId| #[trigger] send.requires((s, id)),
                self.connections.keys().no_duplicates(),
                forall|a: int| 0 <= a < n ==> #[trigger] self@.contains_key(self.connections.keys()[a]),
                forall|q: int| 0 <= q < deliveries@.len() ==> #[trigger] delivered_in_scope(
                    self@, scope@, *matches, deliveries@[q]),
                forall|q: int| 0 <= q < deliveries@.len() && !(#[trigger] deliveries@[q]).delivered
                    ==> dead_ids(dead@).contains(deliveries@[q].connection_id@),
                forall|d: int| 0 <= d < dead@.len() ==> self@.contains_key((#[trigger] dead@[d])@)
                    && self@[dead@[d]@].subdomain@ == scope@ && failed_send(deliveries@, dead@[d]@),
                forall|a: int| 0 <= a < i ==> #[trigger] visited(
                    self@, deliveries@, dead@, scope@, *matches, self.connections.keys()[a]),
                forall|q: int| 0 <= q < deliveries@.len() ==> #[trigger] sent_as_reported(
                    self@, *send, deliveries@[q]),
                one_per_subscription(deliveries@),
                forall|q: int| 0 <= q < deliveries@.len() ==> listed_before(
                    self.connections.keys(), i as int, (#[trigger] deliveries@[q]).connection_id@),
            decreases n - i,
        {
            let (cid, conn) = self.connections.entry_at(i);
            let ghost k = cid@;
            let ghost start_all = deliveries@;
            if conn.subdomain.same_as(scope) {
                let m = conn.subscriptions.len();
                proof {
                    conn.subscriptions.lemma_keys();
                }
                let ghost start = deliveries@;
                let mut alive = true;
                let mut j: usize = 0;
                while j < m && alive
                    invariant
                        self.wf(),
                                self@.contains_key(k),
                        self@[k] == *conn,
                        conn.subscriptions.wf(),
                        conn.subdomain@ == scope@,
                        cid@ == k,
                        m == conn.subscriptions.keys().len(),
                        j <= m,
                        forall|f: &F| #[trigger] matches.requires((f,)),
                        forall|s: &S, id: &SubscriptionId| #[trigger] send.requires((s, id)),
                        forall|b: int| 0 <= b < m ==> #[trigger] conn.subs().contains_key(conn.subscriptions.keys()[b]),
                        forall|q: int| 0 <= q < deliveries@.len() ==> #[trigger] delivered_in_scope(
                            self@, scope@, *matches, deliveries@[q]),
                        deliveries@.len() >= start.len(),
                        forall|q: int| 0 <= q < start.len() ==> deliveries@[q] == start[q],
                        alive ==> forall|q: int| start.len() <= q < deliveries@.len() ==> (#[trigger] deliveries@[q]).delivered,
                        forall|q: int| start.len() <= q < deliveries@.len() ==> (#[trigger] deliveries@[q]).connection_id@ == k,
                        forall|q: int| 0 <= q < start.len() && !(#[trigger] start[q]).delivered
                            ==> dead_ids(dead@).contains(start[q].connection_id@),
                        forall|d: int| 0 <= d < dead@.len() ==> self@.contains_key((#[trigger] dead@[d])@)
                            && self@[dead@[d]@].subdomain@ == scope@ && failed_send(start, dead@[d]@),
                        forall|a: int| 0 <= a < i ==> #[trigger] visited(
                            self@, start, dead@, scope@, *matches, self.connections.keys()[a]),
                        !alive ==> failed_send(deliveries@, k),
                        i < n,
                        self.connections.keys()[i as int] == k,
                        conn.subscriptions.keys().no_duplicates(),
                        forall|q: int| 0 <= q < deliveries@.len() ==> #[trigger] sent_as_reported(
                            self@, *send, deliveries@[q]),
                        one_per_subscription(deliveries@),
                        self.connections.keys().no_duplicates(),
                        n == self.connections.keys().len(),
                        forall|q: int| 0 <= q < start.len() ==> listed_before(
                            self.connections.keys(), i as int, (#[trigger] start[q]).connection_id@),
                        forall|q: int| start.len() <= q < deliveries@.len() ==> listed_before(
                            conn.subscriptions.keys(), j as int, (#[trigger] deliveries@[q]).subscription_id@),
                        alive ==> forall|b: int| 0 <= b < j ==> #[trigger] covered(
                            deliveries@, *matches, k, conn.subscriptions.keys()[b],
                            conn.subs()[conn.subscriptions.keys()[b]]@),
                    decreases m - j,
                {
                    let (sid, filters) = conn.subscriptions.entry_at(j);
                    if Self::any_filter_matches(filters, matches) {
                        let sub = SubscriptionId::new(sid.clone());
                        let ok = send(&conn.sender, &sub);
                        let ghost before = deliveries@;
                        deliveries.push(Delivery { connection_id: cid.clone(), subscription_id: sub, delivered: ok });
                        proof {
                            let d = deliveries@[deliveries@.len() - 1];
                            assert(delivered_in_scope(self@, scope@, *matches, d));
                            assert(sent_as_reported(self@, *send, d));
                            let last = deliveries@.len() - 1;
                            assert(d.subscription_id@ == conn.subscriptions.keys()[j as int]);
                            assert forall|a: int, b: int|
                                0 <= a < b < deliveries@.len() && deliveries@[a].connection_id@ == deliveries@[b].connection_id@
                                implies deliveries@[a].delivered && deliveries@[a].subscription_id@ != deliveries@[b].subscription_id@ by {
                                if b == last {
                                    if a < start.len() {
                                        assert(deliveries@[a] == start[a]);
                                        assert(listed_before(self.connections.keys(), i as int, start[a].connection_id@));
                                        let x = choose|x: int| 0 <= x < i && self.connections.keys()[x] == start[a].connection_id@;
                                        assert(self.connections.keys()[x] != self.connections.keys()[i as int]);
                                    } else {
                                        assert(deliveries@[a] == before[a]);
                                        assert(listed_before(conn.subscriptions.keys(), j as int, before[a].subscription_id@));
                                        let y = choose|y: int| 0 <= y < j && conn.subscriptions.keys()[y] == before[a].subscription_id@;
                                        assert(conn.subscriptions.keys()[y] != conn.subscriptions.keys()[j as int]);
                                    }
                                } else {
                                    assert(deliveries@[a] == before[a] && deliveries@[b] == before[b]);
                                }
                            }
                            assert forall|q: int| start.len() <= q < deliveries@.len() implies listed_before(
                                conn.subscriptions.keys(), j + 1, (#[trigger] deliveries@[q]).subscription_id@) by {
                                if q == last {
                                    assert(conn.subscriptions.keys()[j as int] == deliveries@[q].subscription_id@);
                                } else {
                                    assert(deliveries@[q] == before[q]);
                                    assert(listed_before(conn.subscriptions.keys(), j as int, before[q].subscription_id@));
                                    let y = choose|y: int| 0 <= y < j && conn.subscriptions.keys()[y] == before[q].subscription_id@;
                                    assert(conn.subscriptions.keys()[y] == deliveries@[q].subscription_id@);
                                }
                            }
                            assert forall|b: int| 0 <= b < j && alive implies #[trigger] covered(
                                deliveries@, *matches, k, conn.subscriptions.keys()[b],
                                conn.subs()[conn.subscriptions.keys()[b]]@) by {
                                lemma_covered_grows(before, deliveries@, *matches, k, conn.subscriptions.keys()[b],
                                    conn.subs()[conn.subscriptions.keys()[b]]@);
                            }
                            if ok {
                                assert(deliveries@[deliveries@.len() - 1].connection_id@ == k);
                                assert(covered(deliveries@, *matches, k, sid@, filters@));
                            } else {
                                assert(deliveries@[deliveries@.len() - 1].connection_id@ == k);
                                assert(failed_send(deliveries@, k));
                            }
                            if !alive {
                                lemma_failed_grows(before, deliveries@, k);
                            }
                        }
                        if !ok {
                            alive = false;
                        }
                    } else {
                        proof {
                            assert(covered(deliveries@, *matches, k, sid@, filters@));
                        }
                    }
                    j = j + 1;
                }
                if !alive {
                    let ghost dead_before = dead@;
                    dead.push(cid.clone());
                    proof {
                        assert(dead_ids(dead@) == dead_ids(dead_before).push(k));
                        assert(dead_ids(dead@).contains(k)) by {
                            assert(dead_ids(dead@)[dead_before.len() as int] == k);
                        }
                        assert forall|q: int| 0 <= q < deliveries@.len() && !(#[trigger] deliveries@[q]).delivered
                            implies dead_ids(dead@).contains(deliveries@[q].connection_id@) by {
                            if q < start.len() {
                                assert(deliveries@[q] == start[q]);
                                assert(dead_ids(dead_before).contains(deliveries@[q].connection_id@));
                                let x = choose|x: int| 0 <= x < dead_before.len() && dead_ids(dead_before)[x] == deliveries@[q].connection_id@;
                                assert(dead_ids(dead@)[x] == deliveries@[q].connection_id@);
                            } else {
                                assert(delivered_in_scope(self@, scope@, *matches, deliveries@[q]));
                                assert(deliveries@[q].connection_id@ == k);
                            }
                        }
                        assert forall|d: int| 0 <= d < dead@.len() implies self@.contains_key((#[trigger] dead@[d])@)
                            && self@[dead@[d]@].subdomain@ == scope@ && failed_send(deliveries@, dead@[d]@) by {
                            if d < dead_before.len() {
                                lemma_failed_grows_prefix(start, deliveries@, dead@[d]@);
                            }
                        }
                        assert forall|a: int| 0 <= a < i + 1 implies #[trigger] visited(
                            self@, deliveries@, dead@, scope@, *matches, self.connections.keys()[a]) by {
                            let ka = self.connections.keys()[a];
                            if a < i {
                                lemma_visited_grows(self@, start, deliveries@, dead_before, dead@, scope@, *matches, ka);
                            } else {
                                assert(dead_ids(dead@).contains(ka));
                            }
                        }
                    }
                } else {
                    proof {
                        assert forall|q: int| 0 <= q < deliveries@.len() && !(#[trigger] deliveries@[q]).delivered
                            implies dead_ids(dead@).contains(deliveries@[q].connection_id@) by {
                            assert(q < start.len());
                            assert(deliveries@[q] == start[q]);
                        }
                        assert forall|d: int| 0 <= d < dead@.len() implies self@.contains_key((#[trigger] dead@[d])@)
                            && self@[dead@[d]@].subdomain@ == scope@ && failed_send(deliveries@, dead@[d]@) by {
                            lemma_failed_grows_prefix(start, deliveries@, dead@[d]@);
                        }
                        assert forall|sub: Seq<char>| #[trigger] conn.subs().contains_key(sub)
                            implies covered(deliveries@, *matches, k, sub, conn.subs()[sub]@) by {
                            assert(conn.subscriptions.keys().contains(sub));
                            let b = choose|b: int| 0 <= b < m && conn.subscriptions.keys()[b] == sub;
                            assert(covered(deliveries@, *matches, k, conn.subscriptions.keys()[b],
                                conn.subs()[conn.subscriptions.keys()[b]]@));
                        }
                        assert forall|a: int| 0 <= a < i + 1 implies #[trigger] visited(
                            self@, deliveries@, dead@, scope@, *matches, self.connections.keys()[a]) by {
                            let ka = self.connections.keys()[a];
                            if a < i {
                                lemma_visited_grows(self@, start, deliveries@, dead@, dead@, scope@, *matches, ka);
                            }
                        }
                    }
                }
            }
            proof {
                assert forall|q: int| 0 <= q < deliveries@.len() implies listed_before(
                    self.connections.keys(), i + 1, (#[trigger] deliveries@[q]).connection_id@) by {
                    if q < start_all.len() {
                        assert(deliveries@[q] == start_all[q]);
                        assert(listed_before(self.connections.keys(), i as int, start_all[q].connection_id@));
                        let x = choose|x: int| 0 <= x < i && self.connections.keys()[x] == start_all[q].connection_id@;
                        assert(self.connections.keys()[x] == deliveries@[q].connection_id@);
                    } else {
                        assert(self.connections.keys()[i as int] == deliveries@[q].connection_id@);
                    }
                }
            }
            i = i + 1;
        }
        proof {
            assert forall|k: Seq<char>| #[trigger] self@.contains_key(k) && self@[k].subdomain@ == scope@
                && !failed_send(deliveries@, k) implies forall|sub: Seq<char>| #[trigger] self@[k].subs().contains_key(sub)
                    ==> covered(deliveries@, *matches, k, sub, self@[k].subs()[sub]@) by {
                assert(self.connections.keys().contains(k));
                let a = choose|a: int| 0 <= a < n && self.connections.keys()[a] == k;
                assert(visited(self@, deliveries@, dead@, scope@, *matches, self.connections.keys()[a]));
                if dead_ids(dead@).contains(k) {
                    let x = choose|x: int| 0 <= x < dead@.len() && dead_ids(dead@)[x] == k;
                    assert(dead@[x]@ == k);
                    assert(failed_send(deliveries@, dead@[x]@));
                }
            }
        }
        deliveries
    }

    /// Removes every connection that a send in `deliveries` failed for, and
    /// reports each one with the number of subscriptions it held.
    pub fn reap_connections(&mut self, deliveries: &Vec<Delivery>) -> (r: Vec<ReapedConnection>)
        requires
            old(self).wf(),
        ensures
            final(self).wf(),
            forall|k: Seq<char>| #[trigger] final(self)@.contains_key(k) <==> (old(self)@.contains_key(k)
                && !failed_send(deliveries@, k)),
            forall|k: Seq<char>| #[trigger] final(self)@.contains_key(k) ==> final(self)@[k] == old(self)@[k],
            forall|q: int| 0 <= q < r@.len() ==> ({
                let c = #[trigger] r@[q];
                old(self)@.contains_key(c.connection_id@) && !final(self)@.contains_key(c.connection_id@)
                    && c.subscriptions == old(self)@[c.connection_id@].subs().len()
            }),
            forall|k: Seq<char>| #[trigger] old(self)@.contains_key(k) && !final(self)@.contains_key(k)
                ==> exists|q: int| 0 <= q < r@.len() && (#[trigger] r@[q]).connection_id@ == k,
    {
        let mut reaped: Vec<ReapedConnection> = Vec::new();
        let mut d: usize = 0;
        while d < deliveries.len()
            invariant
                self.wf(),
                d <= deliveries@.len(),
                forall|k: Seq<char>| #[trigger] self@.contains_key(k) <==> (old(self)@.contains_key(k)
                    && !failed_before(deliveries@, d as int, k)),
                forall|k: Seq<char>| #[trigger] self@.contains_key(k) ==> self@[k] == old(self)@[k],
                forall|q: int| 0 <= q < reaped@.len() ==> ({
                    let c = #[trigger] reaped@[q];
                    old(self)@.contains_key(c.connection_id@) && !self@.contains_key(c.connection_id@)
                        && c.subscriptions == old(self)@[c.connection_id@].subs().len()
                }),
                forall|k: Seq<char>| #[trigger] old(self)@.contains_key(k) && !self@.contains_key(k)
                    ==> exists|q: int| 0 <= q < reaped@.len() && (#[trigger] reaped@[q]).connection_id@ == k,
            decreases deliveries@.len() - d,
        {
            let ghost prev = self@;
            let ghost reaped_prev = reaped@;
            let ghost dk = deliveries@[d as int].connection_id@;
            if !deliveries[d].delivered {
                let gone = self.connections.remove(&deliveries[d].connection_id);
                match gone {
                    Some(conn) => {
                        reaped.push(ReapedConnection {
                            connection_id: deliveries[d].connection_id.clone(),
                            subscriptions: conn.subscriptions.len(),
                        });
                        proof {
                            assert(reaped@[reaped@.len() - 1].connection_id@ == dk);
                        }
                    },
                    None => {},
                }
                proof {
                    assert forall|k: Seq<char>| #[trigger] self@.contains_key(k) <==> (old(self)@.contains_key(k)
                        && !failed_before(deliveries@, d as int + 1, k)) by {
                        if k == dk {
                            assert(0 <= d < d + 1 && deliveries@[d as int].connection_id@ == k && !deliveries@[d as int].delivered);
                        }
                        if failed_before(deliveries@, d as int + 1, k) && k != dk {
                            let x = choose|x: int| 0 <= x < d + 1 && deliveries@[x].connection_id@ == k && !deliveries@[x].delivered;
                            assert(x < d);
                        }
                        if failed_before(deliveries@, d as int, k) {
                            let x = choose|x: int| 0 <= x < d && deliveries@[x].connection_id@ == k && !deliveries@[x].delivered;
                            assert(0 <= x < d + 1);
                        }
                    }
                    assert forall|k: Seq<char>| #[trigger] old(self)@.contains_key(k) && !self@.contains_key(k)
                        implies exists|q: int| 0 <= q < reaped@.len() && (#[trigger] reaped@[q]).connection_id@ == k by {
                        if prev.contains_key(k) {
                            assert(reaped@[reaped@.len() - 1].connection_id@ == k);
                        } else {
                            let q = choose|q: int| 0 <= q < reaped_prev.len() && (#[trigger] reaped_prev[q]).connection_id@ == k;
                            assert(reaped@[q] == reaped_prev[q]);
                        }
                    }
                }
            } else {
                proof {
                    assert forall|k: Seq<char>| #[trigger] self@.contains_key(k) <==> (old(self)@.contains_key(k)
                        && !failed_before(deliveries@, d as int + 1, k)) by {
                        if failed_before(deliveries@, d as int + 1, k) {
                            let x = choose|x: int| 0 <= x < d + 1 && deliveries@[x].connection_id@ == k && !deliveries@[x].delivered;
                            assert(x < d);
                        }
                        if failed_before(deliveries@, d as int, k) {
                            let x = choose|x: int| 0 <= x < d && deliveries@[x].connection_id@ == k && !deliveries@[x].delivered;
                            assert(0 <= x < d + 1);
                        }
                    }
                }
            }
            d = d + 1;
        }
        proof {
            assert forall|k: Seq<char>| failed_before(deliveries@, deliveries@.len() as int, k) == #[trigger] failed_send(deliveries@, k) by {
                if failed_send(deliveries@, k) {
                    let x = choose|x: int| 0 <= x < deliveries@.len() && (#[trigger] deliveries@[x]).connection_id@ == k && !deliveries@[x].delivered;
                }
            }
        }
        reaped
    }

    /// `deliver_event`, then `reap_connections`: the event reaches every
    /// matching subscription of its scope, once, and the connections whose
    /// send failed are removed.
    pub fn distribute_event<M: Fn(&F) -> bool, T: Fn(&S, &SubscriptionId) -> bool>(
        &mut self,
        scope: &Scope,
        matches: &M,
        send: &T,
    ) -> (r: DistributionReport)
        requires
            old(self).wf(),
            forall|f: &F| #[trigger] matches.requires((f,)),
            forall|s: &S, id: &SubscriptionId| #[trigger] send.requires((s, id)),
        ensures
            final(self).wf(),
            forall|q: int| 0 <= q < r.deliveries@.len() ==> #[trigger] delivered_in_scope(
                old(self)@, scope@, *matches, r.deliveries@[q]),
            forall|q: int| 0 <= q < r.deliveries@.len() ==> #[trigger] sent_as_reported(
                old(self)@, *send, r.deliveries@[q]),
            one_per_subscription(r.deliveries@),
            forall|k: Seq<char>| #[trigger] final(self)@.contains_key(k) ==> old(self)@.contains_key(k)
                && final(self)@[k] == old(self)@[k],
            forall|k: Seq<char>| #[trigger] old(self)@.contains_key(k) && old(self)@[k].subdomain@ != scope@
                ==> final(self)@.contains_key(k),
            forall|q: int| 0 <= q < r.deliveries@.len() && !(#[trigger] r.deliveries@[q]).delivered
                ==> !final(self)@.contains_key(r.deliveries@[q].connection_id@),
            forall|k: Seq<char>| #[trigger] old(self)@.contains_key(k) && !final(self)@.contains_key(k)
                ==> failed_send(r.deliveries@, k),
            forall|k: Seq<char>| #[trigger] final(self)@.contains_key(k) && old(self)@[k].subdomain@ == scope@
                ==> forall|sub: Seq<char>| #[trigger] old(self)@[k].subs().contains_key(sub)
                    ==> covered(r.deliveries@, *matches, k, sub, old(self)@[k].subs()[sub]@),
            forall|q: int| 0 <= q < r.reaped@.len() ==> ({
                let c = #[trigger] r.reaped@[q];
                old(self)@.contains_key(c.connection_id@) && !final(self)@.contains_key(c.connection_id@)
                    && c.subscriptions == old(self)@[c.connection_id@].subs().len()
            }),
            forall|k: Seq<char>| #[trigger] old(self)@.contains_key(k) && !final(self)@.contains_key(k)
                ==> exists|q: int| 0 <= q < r.reaped@.len() && (#[trigger] r.reaped@[q]).connection_id@ == k,
    {
        let deliveries = self.deliver_event(scope, matches, send);
        let reaped = self.reap_connections(&deliveries);
        proof {
            assert forall|k: Seq<char>| #[trigger] old(self)@.contains_key(k) && old(self)@[k].subdomain@ != scope@
                implies self@.contains_key(k) by {
                if failed_send(deliveries@, k) {
                    let q = choose|q: int| 0 <= q < deliveries@.len() && (#[trigger] deliveries@[q]).connection_id@ == k
                        && !deliveries@[q].delivered;
                    assert(delivered_in_scope(old(self)@, scope@, *matches, deliveries@[q]));
                }
            }
            assert forall|q: int| 0 <= q < deliveries@.len() && !(#[trigger] deliveries@[q]).delivered
                implies !self@.contains_key(deliveries@[q].connection_id@) by {
                assert(failed_send(deliveries@, deliveries@[q].connection_id@));
            }
        }
        let ghost reaped_view = reaped@;
        let report = DistributionReport { deliveries, reaped };
        proof {
            assert(report.reaped@ == reaped_view);
            assert forall|k: Seq<char>| #[trigger] old(self)@.contains_key(k) && !self@.contains_key(k)
                implies exists|q: int| 0 <= q < report.reaped@.len() && (#[trigger] report.reaped@[q]).connection_id@ == k by {
                assert(exists|q: int| 0 <= q < reaped_view.len() && (#[trigger] reaped_view[q]).connection_id@ == k);
            }
        }
        report
    }

    /// Removes the connection of `handle` and returns how many
    /// subscriptions it held: the active-subscription count falls by that
    /// much. The handle is consumed, so this happens once per registration.
    pub fn remove_connection(&mut self, handle: ConnectionHandle) -> (r: usize)
        requires
            old(self).wf(),
        ensures
            final(self).wf(),
            final(self)@ == old(self)@.remove(handle.id@),
            old(self)@.contains_key(handle.id@) ==> r == old(self)@[handle.id@].subs().len(),
            !old(self)@.contains_key(handle.id@) ==> r == 0,
    {
        match self.connections.remove(&handle.id) {
            None => 0,
            Some(conn) => conn.subscriptions.len(),
        }
    }
}

} // verus!
