use relay_core::coordinator::SubscriptionCoordinator;
use relay_core::registry::{RegistryError, SubscriptionRegistry};
use relay_core::types::{PublicKey, Scope, SubscriptionId};

/// A filter that matches one kind, or every kind.
#[derive(Clone, Debug)]
struct KindFilter(Option<u16>);

type Outbound = flume::Sender<String>;

fn channel() -> (Outbound, flume::Receiver<String>) {
    flume::bounded::<String>(100)
}

fn sub(name: &str) -> SubscriptionId {
    SubscriptionId::new(name.to_string())
}

fn distribute(registry: &mut SubscriptionRegistry<KindFilter, Outbound>, kind: u16, scope: &Scope, content: &str)
    -> relay_core::registry::DistributionReport {
    let matches = |f: &KindFilter| f.0.map_or(true, |k| k == kind);
    let send = |s: &Outbound, id: &SubscriptionId| s.try_send(format!("{}:{}", id.name, content)).is_ok();
    registry.distribute_event(scope, &matches, &send)
}

#[test]
fn test_connection_registration_and_cleanup() {
    let mut registry: SubscriptionRegistry<KindFilter, Outbound> = SubscriptionRegistry::new();
    let (tx, _rx) = channel();
    {
        let handle = registry.register_connection("conn1".to_string(), tx, None, Scope::Default);
        assert!(registry.has_connection("conn1"));
        registry.remove_connection(handle);
    }
    assert!(!registry.has_connection("conn1"));
}

#[test]
fn test_subscription_management() {
    let mut registry: SubscriptionRegistry<KindFilter, Outbound> = SubscriptionRegistry::new();
    let (tx, _rx) = channel();
    let _handle = registry.register_connection("conn1".to_string(), tx, None, Scope::Default);
    let sub_id = sub("sub1");
    registry.add_subscription("conn1", sub_id.clone(), vec![KindFilter(None)]).unwrap();
    registry.remove_subscription("conn1", &sub_id).unwrap();
}

#[test]
fn test_scope_aware_distribution() {
    let mut registry: SubscriptionRegistry<KindFilter, Outbound> = SubscriptionRegistry::new();
    let (tx1, rx1) = channel();
    let _h1 = registry.register_connection("conn_default".to_string(), tx1, None, Scope::Default);
    let (tx2, rx2) = channel();
    let _h2 = registry.register_connection("conn_tenant1".to_string(), tx2, None, Scope::named("tenant1".to_string()));
    registry.add_subscription("conn_default", sub("sub_default"), vec![KindFilter(None)]).unwrap();
    registry.add_subscription("conn_tenant1", sub("sub_tenant1"), vec![KindFilter(None)]).unwrap();

    distribute(&mut registry, 1, &Scope::Default, "test message");
    let msg1 = rx1.try_recv();
    let msg2 = rx2.try_recv();
    assert!(msg1.is_ok(), "Default scope connection should receive the event");
    assert!(msg2.is_err(), "Named scope connection should NOT receive the event");
    assert_eq!(msg1.unwrap(), "sub_default:test message");

    distribute(&mut registry, 1, &Scope::named("tenant1".to_string()), "test message 2");
    let msg1 = rx1.try_recv();
    let msg2 = rx2.try_recv();
    assert!(msg1.is_err(), "Default scope connection should NOT receive the tenant1 event");
    assert!(msg2.is_ok(), "Named scope connection should receive the event");
    assert_eq!(msg2.unwrap(), "sub_tenant1:test message 2");
}

#[test]
fn test_multiple_named_scopes_isolation() {
    let mut registry: SubscriptionRegistry<KindFilter, Outbound> = SubscriptionRegistry::new();
    let (tx1, rx1) = channel();
    let _h1 = registry.register_connection("conn_tenant1".to_string(), tx1, None, Scope::named("tenant1".to_string()));
    let (tx2, rx2) = channel();
    let _h2 = registry.register_connection("conn_tenant2".to_string(), tx2, None, Scope::named("tenant2".to_string()));
    let (tx3, rx3) = channel();
    let _h3 = registry.register_connection("conn_tenant3".to_string(), tx3, None, Scope::named("tenant3".to_string()));
    registry.add_subscription("conn_tenant1", sub("sub1"), vec![KindFilter(None)]).unwrap();
    registry.add_subscription("conn_tenant2", sub("sub2"), vec![KindFilter(None)]).unwrap();
    registry.add_subscription("conn_tenant3", sub("sub3"), vec![KindFilter(None)]).unwrap();

    distribute(&mut registry, 1, &Scope::named("tenant2".to_string()), "message for tenant2");
    assert!(rx1.try_recv().is_err(), "tenant1 should NOT receive tenant2's event");
    let msg2 = rx2.try_recv();
    assert!(msg2.is_ok(), "tenant2 should receive its own event");
    assert!(rx3.try_recv().is_err(), "tenant3 should NOT receive tenant2's event");
    assert_eq!(msg2.unwrap(), "sub2:message for tenant2");
}

#[test]
fn unknown_connection_is_reported() {
    let mut registry: SubscriptionRegistry<KindFilter, Outbound> = SubscriptionRegistry::new();
    assert_eq!(registry.add_subscription("nobody", sub("s"), vec![]), Err(RegistryError::ConnectionNotFound));
    assert_eq!(registry.remove_subscription("nobody", &sub("s")), Err(RegistryError::ConnectionNotFound));
    assert!(registry.get_connection_info("nobody").is_none());
    assert_eq!(registry.subscription_count("nobody"), None);
}

#[test]
fn same_subscription_id_overwrites_its_filters() {
    let mut registry: SubscriptionRegistry<KindFilter, Outbound> = SubscriptionRegistry::new();
    let (tx, rx) = channel();
    let _h = registry.register_connection("c".to_string(), tx, None, Scope::Default);
    registry.add_subscription("c", sub("s"), vec![KindFilter(Some(1))]).unwrap();
    registry.add_subscription("c", sub("s"), vec![KindFilter(Some(7))]).unwrap();
    assert_eq!(registry.subscription_count("c"), Some(1));
    distribute(&mut registry, 1, &Scope::Default, "one");
    assert!(rx.try_recv().is_err());
    distribute(&mut registry, 7, &Scope::Default, "seven");
    assert_eq!(rx.try_recv().unwrap(), "s:seven");
    assert_eq!(registry.remove_subscription("c", &sub("s")), Ok(true));
    assert_eq!(registry.remove_subscription("c", &sub("s")), Ok(false));
}

#[test]
fn one_delivery_per_subscription_whatever_the_matching_filters() {
    let mut registry: SubscriptionRegistry<KindFilter, Outbound> = SubscriptionRegistry::new();
    let (tx, rx) = channel();
    let _h = registry.register_connection("c".to_string(), tx, None, Scope::Default);
    registry.add_subscription("c", sub("s"), vec![KindFilter(None), KindFilter(Some(1)), KindFilter(Some(2))]).unwrap();
    let report = distribute(&mut registry, 1, &Scope::Default, "e");
    assert_eq!(report.deliveries.len(), 1);
    assert!(report.deliveries[0].delivered);
    assert_eq!(rx.try_recv().unwrap(), "s:e");
    assert!(rx.try_recv().is_err());
}

#[test]
fn connection_info_reports_key_and_scope() {
    let mut registry: SubscriptionRegistry<KindFilter, Outbound> = SubscriptionRegistry::new();
    let (tx, _rx) = channel();
    let key = PublicKey::new("ab".repeat(32));
    let _h = registry.register_connection("c".to_string(), tx, Some(key.clone()), Scope::named("t1".to_string()));
    let (auth, scope) = registry.get_connection_info("c").unwrap();
    assert_eq!(auth, Some(key));
    assert_eq!(scope, Scope::Named("t1".to_string()));
}

#[test]
fn connection_drop_reaps_subscriptions() {
    let mut registry: SubscriptionRegistry<KindFilter, Outbound> = SubscriptionRegistry::new();
    let (tx, rx) = channel();
    let _h = registry.register_connection("c".to_string(), tx, None, Scope::Default);
    for name in ["a", "b", "c"] {
        registry.add_subscription("c", sub(name), vec![KindFilter(None)]).unwrap();
    }
    let (tx_other, rx_other) = channel();
    let _other = registry.register_connection("other".to_string(), tx_other, None, Scope::Default);
    registry.add_subscription("other", sub("x"), vec![KindFilter(None)]).unwrap();
    drop(rx);

    let report = distribute(&mut registry, 1, &Scope::Default, "e");
    let failed: Vec<_> = report.deliveries.iter().filter(|d| !d.delivered).collect();
    assert_eq!(failed.len(), 1, "the first failed send ends the connection's deliveries");
    assert_eq!(failed[0].connection_id, "c");
    assert_eq!(report.reaped.len(), 1);
    assert_eq!(report.reaped[0].connection_id, "c");
    assert_eq!(report.reaped[0].subscriptions, 3);
    assert!(registry.get_connection_info("c").is_none());
    assert!(registry.has_connection("other"));
    assert_eq!(rx_other.try_recv().unwrap(), "x:e");
}

#[test]
fn removing_a_connection_reports_its_subscriptions() {
    let mut registry: SubscriptionRegistry<KindFilter, Outbound> = SubscriptionRegistry::new();
    let (tx, _rx) = channel();
    let handle = registry.register_connection("c".to_string(), tx, None, Scope::Default);
    for name in ["a", "b", "c"] {
        registry.add_subscription("c", sub(name), vec![KindFilter(None)]).unwrap();
    }
    assert_eq!(registry.remove_connection(handle), 3);
    assert!(!registry.has_connection("c"));
}

#[test]
fn coordinator_swallows_unknown_close() {
    let mut registry: SubscriptionRegistry<KindFilter, Outbound> = SubscriptionRegistry::new();
    let (tx, rx) = channel();
    let (coordinator, handle) =
        SubscriptionCoordinator::new(&mut registry, "c".to_string(), tx, None, Scope::Default, 100);
    assert_eq!(coordinator.remove_subscription(&mut registry, sub("never")), Ok(false));
    coordinator.add_subscription(&mut registry, sub("s"), vec![KindFilter(None)]).unwrap();
    distribute(&mut registry, 3, &Scope::Default, "e");
    assert_eq!(rx.try_recv().unwrap(), "s:e");
    assert_eq!(coordinator.remove_subscription(&mut registry, sub("s")), Ok(true));
    assert_eq!(registry.subscription_count("c"), Some(0));
    assert_eq!(registry.remove_connection(handle), 0);
    assert_eq!(coordinator.remove_subscription(&mut registry, sub("s")), Ok(false));
    assert_eq!(
        coordinator.add_subscription(&mut registry, sub("s"), vec![]),
        Err(RegistryError::ConnectionNotFound)
    );
}

#[test]
fn each_delivery_records_what_the_sender_said() {
    let mut registry: SubscriptionRegistry<KindFilter, Outbound> = SubscriptionRegistry::new();
    let (tx, rx) = flume::bounded::<String>(1);
    let _h = registry.register_connection("c".to_string(), tx, None, Scope::Default);
    for name in ["a", "b", "c"] {
        registry.add_subscription("c", sub(name), vec![KindFilter(None)]).unwrap();
    }
    // The queue takes one message: the second send fails and ends the connection.
    let report = distribute(&mut registry, 1, &Scope::Default, "e");
    let flags: Vec<bool> = report.deliveries.iter().map(|d| d.delivered).collect();
    assert_eq!(flags, vec![true, false]);
    assert_eq!(rx.try_recv().unwrap(), "a:e");
    assert!(!registry.has_connection("c"));
    assert_eq!(report.reaped[0].subscriptions, 3);
}

#[test]
fn delivery_then_reaping_in_two_steps() {
    let mut registry: SubscriptionRegistry<KindFilter, Outbound> = SubscriptionRegistry::new();
    let (tx, rx) = channel();
    let (tx_dead, rx_dead) = channel();
    let _a = registry.register_connection("a".to_string(), tx, None, Scope::Default);
    let _b = registry.register_connection("b".to_string(), tx_dead, None, Scope::Default);
    registry.add_subscription("a", sub("s"), vec![KindFilter(None)]).unwrap();
    registry.add_subscription("b", sub("s1"), vec![KindFilter(None)]).unwrap();
    registry.add_subscription("b", sub("s2"), vec![KindFilter(None)]).unwrap();
    drop(rx_dead);
    let matches = |f: &KindFilter| f.0.map_or(true, |k| k == 1);
    let send = |s: &Outbound, id: &SubscriptionId| s.try_send(id.name.clone()).is_ok();
    let deliveries = registry.deliver_event(&Scope::Default, &matches, &send);
    assert_eq!(deliveries.len(), 2);
    assert!(registry.has_connection("b"), "delivery alone removes nothing");
    let reaped = registry.reap_connections(&deliveries);
    assert_eq!(reaped.len(), 1);
    assert_eq!(reaped[0].connection_id, "b");
    assert_eq!(reaped[0].subscriptions, 2);
    assert!(!registry.has_connection("b"));
    assert_eq!(rx.try_recv().unwrap(), "s");
}
