//! The per-connection side of the core: registration, subscription changes
//! on behalf of one connection, and the start of a `REQ`'s historical
//! paging under the configured `max_limit`.
use vstd::prelude::*;
use crate::pagination::{spec_effective_limit, HistoricalPager};
use crate::registry::{ConnectionHandle, RegistryError, SubscriptionRegistry};
use crate::types::{PublicKey, Scope, SubscriptionId};

verus! {

/// One connection's coordinator: its id and its configured `max_limit`.
pub struct SubscriptionCoordinator {
    connection_id: String,
    max_limit: usize,
}

impl SubscriptionCoordinator {
    pub closed spec fn id(&self) -> Seq<char> {
        self.connection_id@
    }

    pub closed spec fn limit_cap(&self) -> usize {
        self.max_limit
    }

    /// Registers the connection and returns its coordinator, with the
    /// handle that removes the connection again.
    pub fn new<F, S>(
        registry: &mut SubscriptionRegistry<F, S>,
        connection_id: String,
        outgoing_sender: S,
        auth_pubkey: Option<PublicKey>,
        subdomain: Scope,
        max_limit: usize,
    ) -> (r: (SubscriptionCoordinator, ConnectionHandle))
        requires
            old(registry).wf(),
        ensures
            final(registry).wf(),
            r.0.id() == connection_id@,
            r.0.limit_cap() == max_limit,
            r.1.id@ == connection_id@,
            final(registry)@.contains_key(connection_id@),
            final(registry)@[connection_id@].subs() == Map::<Seq<char>, Vec<F>>::empty(),
            final(registry)@[connection_id@].sender == outgoing_sender,
            final(registry)@[connection_id@].auth_pubkey == auth_pubkey,
            final(registry)@[connection_id@].subdomain == subdomain,
            forall|k: Seq<char>| k != connection_id@ ==> #[trigger] final(registry)@.contains_key(k) == old(registry)@.contains_key(k),
            forall|k: Seq<char>| k != connection_id@ && #[trigger] old(registry)@.contains_key(k) ==> final(registry)@[k] == old(registry)@[k],
    {
        let handle = registry.register_connection(connection_id.clone(), outgoing_sender, auth_pubkey, subdomain);
        (SubscriptionCoordinator { connection_id, max_limit }, handle)
    }

    pub fn connection_id(&self) -> (r: &String)
        ensures
            r@ == self.id(),
    {
        &self.connection_id
    }

    pub fn max_limit(&self) -> (r: usize)
        ensures
            r == self.limit_cap(),
    {
        self.max_limit
    }

    /// Adds, or replaces, a subscription of this connection.
    pub fn add_subscription<F, S>(
        &self,
        registry: &mut SubscriptionRegistry<F, S>,
        subscription_id: SubscriptionId,
        filters: Vec<F>,
    ) -> (r: Result<(), RegistryError>)
        requires
            old(registry).wf(),
        ensures
            final(registry).wf(),
            r is Err <==> !old(registry)@.contains_key(self.id()),
            r is Err ==> final(registry)@ == old(registry)@,
            r is Ok ==> final(registry)@.dom() == old(registry)@.dom()
                && final(registry)@[self.id()].subs() == old(registry)@[self.id()].subs().insert(subscription_id@, filters)
                && forall|k: Seq<char>| k != self.id() && #[trigger] old(registry)@.contains_key(k) ==> final(registry)@[k] == old(registry)@[k],
    {
        registry.add_subscription(self.connection_id.as_str(), subscription_id, filters)
    }

    /// Closes a subscription of this connection. Closing an unknown
    /// subscription, or one of a connection that is gone, is not an error;
    /// `Ok(true)` when a subscription was removed, so that one fewer is
    /// active.
    pub fn remove_subscription<F, S>(
        &self,
        registry: &mut SubscriptionRegistry<F, S>,
        subscription_id: SubscriptionId,
    ) -> (r: Result<bool, RegistryError>)
        requires
            old(registry).wf(),
        ensures
            final(registry).wf(),
            r == Ok::<bool, RegistryError>(old(registry)@.contains_key(self.id())
                && old(registry)@[self.id()].subs().contains_key(subscription_id@)),
            !old(registry)@.contains_key(self.id()) ==> final(registry)@ == old(registry)@,
            old(registry)@.contains_key(self.id()) ==> final(registry)@.dom() == old(registry)@.dom()
                && final(registry)@[self.id()].subs() == old(registry)@[self.id()].subs().remove(subscription_id@)
                && forall|k: Seq<char>| k != self.id() && #[trigger] old(registry)@.contains_key(k) ==> final(registry)@[k] == old(registry)@[k],
    {
        match registry.remove_subscription(self.connection_id.as_str(), &subscription_id) {
            Ok(removed) => Ok(removed),
            Err(_) => Ok(false),
        }
    }

    /// Starts the historical paging of a `REQ` whose filters carry `limits`.
    pub fn begin_req(&self, limits: &Vec<Option<usize>>) -> (r: HistoricalPager)
        ensures
            r.wf(),
            r.limit() == spec_effective_limit(limits@, self.limit_cap()),
            r.limit() <= self.limit_cap(),
            r.filter_count() == limits@.len(),
            r.filter_index() == 0,
            r.until() is None,
            r.sent_here() == 0,
            r.oldest() is None,
            r.attempts() == 0,
            r.sent_ids() == Seq::<Seq<char>>::empty(),
            r.filter_times() == Seq::<u64>::empty(),
    {
        proof {
            crate::pagination::lemma_limit_within_max(limits@, self.max_limit);
        }
        HistoricalPager::new(limits, self.max_limit)
    }
}

} // verus!
