use relay_core::coordinator::SubscriptionCoordinator;
use relay_core::pagination::{effective_limit, HistoricalPager, StoredEvent, WindowQuery, MAX_ATTEMPTS};
use relay_core::registry::SubscriptionRegistry;
use relay_core::types::{EventId, Scope};

#[derive(Clone, Debug)]
struct Stored {
    id: String,
    created_at: u64,
    group: &'static str,
    content: String,
}

#[derive(Clone, Copy)]
struct Window {
    limit: Option<usize>,
    since: Option<u64>,
    until: Option<u64>,
}

fn window(limit: Option<usize>) -> Window {
    Window { limit, since: None, until: None }
}

/// A store that answers newest first, inside the filter's bounds.
fn query(store: &[Stored], filter: &Window, q: &WindowQuery) -> Vec<Stored> {
    let until = q.until.or(filter.until);
    let mut hits: Vec<Stored> = store
        .iter()
        .filter(|e| filter.since.map_or(true, |s| e.created_at >= s))
        .filter(|e| until.map_or(true, |u| e.created_at <= u))
        .cloned()
        .collect();
    hits.sort_by(|a, b| b.created_at.cmp(&a.created_at).then(a.id.cmp(&b.id)));
    hits.truncate(q.limit);
    hits
}

/// Runs one REQ to its end of stored events and returns what was sent,
/// with the number of store queries made.
fn run_req(
    store: &[Stored],
    filters: &[Window],
    max_limit: usize,
    accept: fn(&Stored) -> bool,
) -> (Vec<Stored>, usize) {
    let limits: Vec<Option<usize>> = filters.iter().map(|f| f.limit).collect();
    let mut pager = HistoricalPager::new(&limits, max_limit);
    let mut sent = Vec::new();
    let mut queries = 0;
    while let Some(q) = pager.next_query() {
        queries += 1;
        let batch = query(store, &filters[q.filter_index], &q);
        let infos: Vec<StoredEvent> = batch
            .iter()
            .map(|e| StoredEvent { id: EventId::new(e.id.clone()), created_at: e.created_at, accepted: accept(e) })
            .collect();
        for i in pager.on_events(&infos) {
            sent.push(batch[i].clone());
        }
    }
    (sent, queries)
}

const BASE: u64 = 1700000000;

fn ten_alternating() -> Vec<Stored> {
    (0..10u64)
        .map(|i| Stored {
            id: format!("{i:064x}"),
            created_at: BASE + i * 10,
            group: if i % 2 == 0 { "public" } else { "private" },
            content: format!("Event {i}"),
        })
        .collect()
}

fn public_only(e: &Stored) -> bool {
    e.group == "public"
}

fn everything(_: &Stored) -> bool {
    true
}

fn strictly_descending(events: &[Stored]) -> bool {
    events.windows(2).all(|w| w[0].created_at > w[1].created_at)
}

#[test]
fn test_window_sliding_limit_only() {
    let store = ten_alternating();
    let (received_events, _) = run_req(&store, &[window(Some(5))], 1000, public_only);
    assert_eq!(received_events.len(), 5, "Should receive exactly 5 public events through pagination");
    for event in &received_events {
        assert!(event.group == "public", "All events should be from public group");
    }
}

#[test]
fn test_window_sliding_until_limit() {
    let store = ten_alternating();
    let filter = Window { limit: Some(5), since: None, until: Some(BASE + 80) };
    let (received_events, _) = run_req(&store, &[filter], 1000, public_only);
    assert_eq!(received_events.len(), 5, "Should receive 5 public events");
    assert!(strictly_descending(&received_events), "Events should be in reverse chronological order");
}

#[test]
fn test_window_sliding_since_limit() {
    let store = ten_alternating();
    let filter = Window { limit: Some(5), since: Some(BASE + 20), until: None };
    let (received_events, _) = run_req(&store, &[filter], 1000, public_only);
    assert_eq!(received_events.len(), 4, "Should receive 4 public events with timestamps >= 20");
    assert!(strictly_descending(&received_events), "Events should be in descending chronological order");
    for event in &received_events {
        assert!(event.created_at >= BASE + 20, "All events should have timestamp >= since filter");
    }
}

#[test]
fn test_pagination_bug_scenario() {
    let mut store = vec![Stored {
        id: format!("{:064x}", 100),
        created_at: BASE,
        group: "public",
        content: "Old accessible event".to_string(),
    }];
    for i in 0..5u64 {
        store.push(Stored {
            id: format!("{i:064x}"),
            created_at: BASE + 100 + i * 10,
            group: "private",
            content: format!("Private {i}"),
        });
    }
    let (received_events, _) = run_req(&store, &[window(Some(5))], 1000, public_only);
    assert_eq!(received_events.len(), 1, "Should find the old accessible event through pagination");
    assert_eq!(received_events[0].content, "Old accessible event");
}

#[test]
fn test_exponential_buffer_since_until_limit() {
    let store: Vec<Stored> = (0..20u64)
        .map(|i| Stored {
            id: format!("{i:064x}"),
            created_at: BASE + i * 5,
            group: if i % 2 == 0 { "public" } else { "private" },
            content: format!("Event {i}"),
        })
        .collect();
    let filter = Window { limit: Some(5), since: Some(BASE + 25), until: Some(BASE + 75) };
    let (received_events, _) = run_req(&store, &[filter], 1000, public_only);
    assert_eq!(received_events.len(), 5, "Should receive exactly 5 public events in the time window");
    for event in &received_events {
        assert!(event.group == "public", "All events should be from public group");
        assert!(
            event.created_at >= BASE + 25 && event.created_at <= BASE + 75,
            "Event timestamp should be within the requested window"
        );
    }
}

fn same_second(n: u64) -> Vec<Stored> {
    (0..n)
        .map(|i| Stored { id: format!("{i:064x}"), created_at: BASE, group: "public", content: format!("Event {i}") })
        .collect()
}

#[test]
fn test_max_limit_enforcement() {
    let max_limit = 10;
    let store = same_second(30);
    let (events, _) = run_req(&store, &[window(Some(100))], max_limit, everything);
    assert_eq!(events.len(), max_limit, "Should receive exactly max_limit events even though 100 were requested");
}

#[test]
fn test_multiple_filters_smallest_limit() {
    let store = same_second(20);
    let filters = [window(Some(50)), window(Some(5)), window(Some(20))];
    let (events, _) = run_req(&store, &filters, 1000, everything);
    assert_eq!(events.len(), 5, "Should receive exactly 5 events (the smallest limit among filters)");
}

#[test]
fn effective_limit_cases() {
    assert_eq!(effective_limit(&vec![Some(50), Some(5), Some(20)], 1000), 5);
    assert_eq!(effective_limit(&vec![Some(100)], 10), 10);
    assert_eq!(effective_limit(&vec![None, None], 7), 7);
    assert_eq!(effective_limit(&vec![], 7), 7);
    assert_eq!(effective_limit(&vec![None, Some(3)], 7), 3);
    assert_eq!(effective_limit(&vec![Some(0)], 7), 0);
}

#[test]
fn no_limit_caps_at_max_limit() {
    let store = same_second(30);
    let (events, _) = run_req(&store, &[window(None)], 12, everything);
    assert_eq!(events.len(), 12);
}

#[test]
fn rejected_prefix_is_paged_through_in_order() {
    // The newest fifteen are private; three older public events follow.
    let mut store: Vec<Stored> = (0..15u64)
        .map(|i| Stored { id: format!("{i:064x}"), created_at: 1000 + i, group: "private", content: String::new() })
        .collect();
    for i in 0..3u64 {
        store.push(Stored { id: format!("{:064x}", 100 + i), created_at: 10 + i, group: "public", content: String::new() });
    }
    let (events, _) = run_req(&store, &[window(Some(5))], 5, public_only);
    let times: Vec<u64> = events.iter().map(|e| e.created_at).collect();
    assert_eq!(times, vec![12, 11, 10]);
}

#[test]
fn paging_stops_after_the_attempt_bound() {
    // One event per second, all rejected: every query moves one window back.
    let store: Vec<Stored> = (0..200u64)
        .map(|i| Stored { id: format!("{i:064x}"), created_at: 10_000 + i, group: "private", content: String::new() })
        .collect();
    let (events, queries) = run_req(&store, &[window(Some(1))], 1, public_only);
    assert!(events.is_empty());
    assert_eq!(queries, MAX_ATTEMPTS);
}

#[test]
fn no_event_twice_across_filters() {
    let store = ten_alternating();
    let (events, _) = run_req(&store, &[window(Some(3)), window(Some(3))], 1000, everything);
    let mut ids: Vec<&String> = events.iter().map(|e| &e.id).collect();
    ids.sort();
    ids.dedup();
    assert_eq!(ids.len(), events.len());
    // The second filter finds only what the first already sent.
    assert_eq!(events.len(), 3);
}

#[test]
fn window_moves_below_the_oldest_event_seen() {
    let mut pager = HistoricalPager::new(&vec![Some(2)], 100);
    let q = pager.next_query().unwrap();
    assert_eq!(q, WindowQuery { filter_index: 0, until: None, limit: 2 });
    let batch = vec![
        StoredEvent { id: EventId::new("b".to_string()), created_at: 50, accepted: false },
        StoredEvent { id: EventId::new("a".to_string()), created_at: 40, accepted: true },
    ];
    assert_eq!(pager.on_events(&batch), vec![1]);
    assert_eq!(pager.next_query(), Some(WindowQuery { filter_index: 0, until: Some(39), limit: 2 }));
    // An event above the window, or one already sent, is not sent again.
    let batch = vec![
        StoredEvent { id: EventId::new("a".to_string()), created_at: 40, accepted: true },
        StoredEvent { id: EventId::new("c".to_string()), created_at: 30, accepted: true },
    ];
    assert_eq!(pager.on_events(&batch), vec![1]);
    assert_eq!(pager.next_query(), None);
    assert_eq!(pager.total_sent(), 2);
}

#[test]
fn candidates_go_out_newest_first() {
    let mut pager = HistoricalPager::new(&vec![Some(2)], 100);
    let batch = vec![
        StoredEvent { id: EventId::new("x".to_string()), created_at: 10, accepted: true },
        StoredEvent { id: EventId::new("y".to_string()), created_at: 30, accepted: true },
        StoredEvent { id: EventId::new("z".to_string()), created_at: 20, accepted: true },
        StoredEvent { id: EventId::new("y".to_string()), created_at: 30, accepted: true },
    ];
    assert_eq!(pager.on_events(&batch), vec![1, 2]);
    assert_eq!(pager.next_query(), None);
}

#[test]
fn empty_store_ends_each_filter() {
    let mut pager = HistoricalPager::new(&vec![Some(2), None], 100);
    assert_eq!(pager.effective_limit(), 2);
    assert_eq!(pager.on_events(&vec![]), Vec::<usize>::new());
    assert_eq!(pager.next_query(), Some(WindowQuery { filter_index: 1, until: None, limit: 2 }));
    assert_eq!(pager.on_events(&vec![]), Vec::<usize>::new());
    assert_eq!(pager.next_query(), None);
}

#[test]
fn coordinator_caps_its_reqs() {
    let mut registry: SubscriptionRegistry<u8, u8> = SubscriptionRegistry::new();
    let (coordinator, _handle) =
        SubscriptionCoordinator::new(&mut registry, "test_conn".to_string(), 0, None, Scope::Default, 10);
    assert_eq!(coordinator.max_limit(), 10);
    assert_eq!(coordinator.connection_id().as_str(), "test_conn");
    let pager = coordinator.begin_req(&vec![Some(100)]);
    assert_eq!(pager.effective_limit(), 10);
}

#[test]
fn pagination_through_rejections() {
    let mut store: Vec<Stored> = [100u64, 110, 120, 130, 140]
        .iter()
        .map(|t| Stored { id: format!("{t:064x}"), created_at: *t, group: "private", content: String::new() })
        .collect();
    store.push(Stored { id: format!("{:064x}", 1), created_at: 0, group: "public", content: "public".to_string() });
    let (events, _) = run_req(&store, &[window(Some(5))], 1000, public_only);
    assert_eq!(events.len(), 1);
    assert_eq!(events[0].created_at, 0);
}
