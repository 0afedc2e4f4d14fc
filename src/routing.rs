//! Distribution of protocol events to subscriptions whose filters are the
//! protocol's own filters.
use vstd::prelude::*;
use nostr::filter::{Filter, MatchEventOptions};
use crate::registry::{failed_send, one_per_subscription, Delivery, DistributionReport, SubscriptionRegistry};
use crate::types::{Scope, SubscriptionId};

verus! {

#[verifier::external_type_specification]
#[verifier::external_body]
pub struct ExFilter(Filter);

#[verifier::external_type_specification]
#[verifier::external_body]
pub struct ExEvent(nostr::event::Event);

/// Whether nostr's filter matches the event, comparing every field.
pub uninterp spec fn nostr_filter_matches(filter: Filter, event: nostr::event::Event) -> bool;

/// Relies on nostr's `Filter::match_event` with the default options, which
/// compare ids, authors, kinds, time bounds, tags and search terms: the
/// answer depends on the filter and the event alone.
#[verifier::external_body]
fn filter_matches(filter: &Filter, event: &nostr::event::Event) -> (r: bool)
    ensures
        r == nostr_filter_matches(*filter, *event),
{
    filter.match_event(event, MatchEventOptions::default())
}

/// Hands `event`, stored in `scope`, to every subscription of that scope
/// with a filter that matches it, once per subscription, through `send`.
/// Every send is recorded with what `send` returned. No connection of
/// another scope is sent to or removed; a connection gets no further send
/// after a failed one, is removed, and is reported with the number of
/// subscriptions it held.
pub fn distribute_nostr_event<S, T: Fn(&S, &SubscriptionId) -> bool>(
    registry: &mut SubscriptionRegistry<Filter, S>,
    event: &nostr::event::Event,
    scope: &Scope,
    send: &T,
) -> (r: DistributionReport)
    requires
        old(registry).wf(),
        forall|s: &S, id: &SubscriptionId| #[trigger] send.requires((s, id)),
    ensures
        final(registry).wf(),
        forall|q: int| 0 <= q < r.deliveries@.len() ==> ({
            let d = #[trigger] r.deliveries@[q];
            old(registry)@.contains_key(d.connection_id@)
                && old(registry)@[d.connection_id@].subdomain@ == scope@
                && old(registry)@[d.connection_id@].subs().contains_key(d.subscription_id@)
                && (exists|j: int| 0 <= j < old(registry)@[d.connection_id@].subs()[d.subscription_id@]@.len()
                    && nostr_filter_matches(old(registry)@[d.connection_id@].subs()[d.subscription_id@]@[j], *event))
                && send.ensures((&old(registry)@[d.connection_id@].sender, &d.subscription_id), d.delivered)
        }),
        one_per_subscription(r.deliveries@),
        forall|k: Seq<char>, sub: Seq<char>, j: int|
            #[trigger] final(registry)@.contains_key(k) && old(registry)@[k].subdomain@ == scope@
                && #[trigger] old(registry)@[k].subs().contains_key(sub)
                && 0 <= j < old(registry)@[k].subs()[sub]@.len()
                && #[trigger] nostr_filter_matches(old(registry)@[k].subs()[sub]@[j], *event)
                ==> exists|q: int| 0 <= q < r.deliveries@.len() && (#[trigger] r.deliveries@[q]).connection_id@ == k
                    && r.deliveries@[q].subscription_id@ == sub && r.deliveries@[q].delivered,
        forall|k: Seq<char>| #[trigger] final(registry)@.contains_key(k) ==> old(registry)@.contains_key(k)
            && final(registry)@[k] == old(registry)@[k],
        forall|k: Seq<char>| #[trigger] old(registry)@.contains_key(k) && old(registry)@[k].subdomain@ != scope@
            ==> final(registry)@.contains_key(k),
        forall|q: int| 0 <= q < r.deliveries@.len() && !(#[trigger] r.deliveries@[q]).delivered
            ==> !final(registry)@.contains_key(r.deliveries@[q].connection_id@),
        forall|k: Seq<char>| #[trigger] old(registry)@.contains_key(k) && !final(registry)@.contains_key(k)
            ==> failed_send(r.deliveries@, k),
        forall|q: int| 0 <= q < r.reaped@.len() ==> ({
            let c = #[trigger] r.reaped@[q];
            old(registry)@.contains_key(c.connection_id@) && !final(registry)@.contains_key(c.connection_id@)
                && c.subscriptions == old(registry)@[c.connection_id@].subs().len()
        }),
        forall|k: Seq<char>| #[trigger] old(registry)@.contains_key(k) && !final(registry)@.contains_key(k)
            ==> exists|q: int| 0 <= q < r.reaped@.len() && (#[trigger] r.reaped@[q]).connection_id@ == k,
{
    let matches = |f: &Filter| -> (m: bool)
        ensures
            m == nostr_filter_matches(*f, *event),
    { filter_matches(f, event) };
    let r = registry.distribute_event(scope, &matches, send);
    proof {
        assert forall|q: int| 0 <= q < r.deliveries@.len() implies ({
            let d = #[trigger] r.deliveries@[q];
            old(registry)@.contains_key(d.connection_id@)
                && old(registry)@[d.connection_id@].subdomain@ == scope@
                && old(registry)@[d.connection_id@].subs().contains_key(d.subscription_id@)
                && (exists|j: int| 0 <= j < old(registry)@[d.connection_id@].subs()[d.subscription_id@]@.len()
                    && nostr_filter_matches(old(registry)@[d.connection_id@].subs()[d.subscription_id@]@[j], *event))
                && send.ensures((&old(registry)@[d.connection_id@].sender, &d.subscription_id), d.delivered)
        }) by {
            let d = r.deliveries@[q];
            assert(crate::registry::delivered_in_scope(old(registry)@, scope@, matches, d));
            assert(crate::registry::sent_as_reported(old(registry)@, *send, d));
            let fs = old(registry)@[d.connection_id@].subs()[d.subscription_id@]@;
            let j = choose|j: int| 0 <= j < fs.len() && #[trigger] matches.ensures((&fs[j],), true);
            assert(nostr_filter_matches(fs[j], *event));
        }
        assert forall|k: Seq<char>, sub: Seq<char>, j: int|
            #[trigger] final(registry)@.contains_key(k) && old(registry)@[k].subdomain@ == scope@
                && #[trigger] old(registry)@[k].subs().contains_key(sub)
                && 0 <= j < old(registry)@[k].subs()[sub]@.len()
                && #[trigger] nostr_filter_matches(old(registry)@[k].subs()[sub]@[j], *event)
                implies exists|q: int| 0 <= q < r.deliveries@.len() && (#[trigger] r.deliveries@[q]).connection_id@ == k
                    && r.deliveries@[q].subscription_id@ == sub && r.deliveries@[q].delivered by {
            let fs = old(registry)@[k].subs()[sub]@;
            assert(crate::registry::covered(r.deliveries@, matches, k, sub, fs));
            if crate::registry::no_filter_matches(matches, fs) {
                assert(matches.ensures((&fs[j],), false));
            }
        }
    }
    r
}

/// Hands `event`, stored in `scope`, to every subscription of that scope
/// with a filter that matches it, once per subscription, through `send`,
/// reading the registry only. Every send is recorded with what `send`
/// returned; a connection gets no further send after a failed one. Every
/// matching subscription of a connection with no failed send got the
/// event.
pub fn deliver_nostr_event<S, T: Fn(&S, &SubscriptionId) -> bool>(
    registry: &SubscriptionRegistry<Filter, S>,
    event: &nostr::event::Event,
    scope: &Scope,
    send: &T,
) -> (r: Vec<Delivery>)
    requires
        registry.wf(),
        forall|s: &S, id: &SubscriptionId| #[trigger] send.requires((s, id)),
    ensures
        forall|q: int| 0 <= q < r@.len() ==> ({
            let d = #[trigger] r@[q];
            registry@.contains_key(d.connection_id@)
                && registry@[d.connection_id@].subdomain@ == scope@
                && registry@[d.connection_id@].subs().contains_key(d.subscription_id@)
                && (exists|j: int| 0 <= j < registry@[d.connection_id@].subs()[d.subscription_id@]@.len()
                    && nostr_filter_matches(registry@[d.connection_id@].subs()[d.subscription_id@]@[j], *event))
                && send.ensures((&registry@[d.connection_id@].sender, &d.subscription_id), d.delivered)
        }),
        one_per_subscription(r@),
        forall|k: Seq<char>, sub: Seq<char>, j: int|
            #[trigger] registry@.contains_key(k) && registry@[k].subdomain@ == scope@ && !failed_send(r@, k)
                && #[trigger] registry@[k].subs().contains_key(sub)
                && 0 <= j < registry@[k].subs()[sub]@.len()
                && #[trigger] nostr_filter_matches(registry@[k].subs()[sub]@[j], *event)
                ==> exists|q: int| 0 <= q < r@.len() && (#[trigger] r@[q]).connection_id@ == k
                    && r@[q].subscription_id@ == sub && r@[q].delivered,
{
    let matches = |f: &Filter| -> (m: bool)
        ensures
            m == nostr_filter_matches(*f, *event),
    { filter_matches(f, event) };
    let r = registry.deliver_event(scope, &matches, send);
    proof {
        assert forall|q: int| 0 <= q < r@.len() implies ({
            let d = #[trigger] r@[q];
            registry@.contains_key(d.connection_id@)
                && registry@[d.connection_id@].subdomain@ == scope@
                && registry@[d.connection_id@].subs().contains_key(d.subscription_id@)
                && (exists|j: int| 0 <= j < registry@[d.connection_id@].subs()[d.subscription_id@]@.len()
                    && nostr_filter_matches(registry@[d.connection_id@].subs()[d.subscription_id@]@[j], *event))
                && send.ensures((&registry@[d.connection_id@].sender, &d.subscription_id), d.delivered)
        }) by {
            let d = r@[q];
            assert(crate::registry::delivered_in_scope(registry@, scope@, matches, d));
            assert(crate::registry::sent_as_reported(registry@, *send, d));
            let fs = registry@[d.connection_id@].subs()[d.subscription_id@]@;
            let j = choose|j: int| 0 <= j < fs.len() && #[trigger] matches.ensures((&fs[j],), true);
            assert(nostr_filter_matches(fs[j], *event));
        }
        assert forall|k: Seq<char>, sub: Seq<char>, j: int|
            #[trigger] registry@.contains_key(k) && registry@[k].subdomain@ == scope@ && !failed_send(r@, k)
                && #[trigger] registry@[k].subs().contains_key(sub)
                && 0 <= j < registry@[k].subs()[sub]@.len()
                && #[trigger] nostr_filter_matches(registry@[k].subs()[sub]@[j], *event)
                implies exists|q: int| 0 <= q < r@.len() && (#[trigger] r@[q]).connection_id@ == k
                    && r@[q].subscription_id@ == sub && r@[q].delivered by {
            let fs = registry@[k].subs()[sub]@;
            assert(crate::registry::covered(r@, matches, k, sub, fs));
            if crate::registry::no_filter_matches(matches, fs) {
                assert(matches.ensures((&fs[j],), false));
            }
        }
    }
    r
}

} // verus!
