use netsim::events::{EventQueue, EventType, SimEvent};

fn traffic(id: &str) -> EventType {
    EventType::TrafficStart { generator_id: id.to_string() }
}

fn id_of(e: &SimEvent) -> String {
    match &e.event_type {
        EventType::TrafficStart { generator_id } => generator_id.clone(),
        _ => String::new(),
    }
}

#[test]
fn new_queue_is_empty() {
    let q = EventQueue::new();
    assert!(q.is_empty());
    assert_eq!(q.len(), 0);
}

#[test]
fn drain_releases_due_events_in_tick_then_priority_order() {
    let mut q = EventQueue::new();
    q.schedule(5, 1, traffic("late"));
    q.schedule(2, 7, traffic("b"));
    q.schedule(2, 3, traffic("a"));
    q.schedule(3, 0, traffic("c"));
    assert_eq!(q.len(), 4);

    let due = q.drain_for_tick(3);
    let ids: Vec<String> = due.iter().map(id_of).collect();
    assert_eq!(ids, vec!["a", "b", "c"]);
    assert_eq!(q.len(), 1);

    let rest = q.drain_for_tick(4);
    assert!(rest.is_empty());
    let last = q.drain_for_tick(5);
    assert_eq!(last.len(), 1);
    assert_eq!(id_of(&last[0]), "late");
    assert!(q.is_empty());
}

#[test]
fn equal_tick_and_priority_keep_insertion_order() {
    let mut q = EventQueue::new();
    q.push(SimEvent { scheduled_tick: 1, priority: 2, event_type: traffic("first") });
    q.push(SimEvent { scheduled_tick: 1, priority: 2, event_type: traffic("second") });
    q.push(SimEvent { scheduled_tick: 1, priority: 1, event_type: traffic("urgent") });
    let due = q.drain_for_tick(1);
    let ids: Vec<String> = due.iter().map(id_of).collect();
    assert_eq!(ids, vec!["urgent", "first", "second"]);
}

#[test]
fn drain_before_any_due_tick_takes_nothing() {
    let mut q = EventQueue::new();
    q.schedule(10, 0, traffic("x"));
    assert!(q.drain_for_tick(9).is_empty());
    assert_eq!(q.len(), 1);
}
