use pixel_canvas::broadcast::Broadcaster;
use pixel_canvas::broadcast::Subscriber;
use pixel_canvas::store::CanvasStore;
use pixel_canvas::types::CanvasError;
use pixel_canvas::types::ChangeLogEntry;
use spacetimedb::Identity;
use spacetimedb::Timestamp;

fn observer(tag: u8) -> Identity {
    Identity::from_byte_array([tag; 32])
}

fn change(sequence: u64, x: u32, y: u32, color: &str) -> ChangeLogEntry {
    ChangeLogEntry {
        sequence,
        sender: observer(9),
        x,
        y,
        color: String::from(color),
        commit_time: Timestamp::from_micros_since_unix_epoch(sequence as i64),
    }
}

#[test]
fn subscribe_hands_out_snapshot_and_fresh_handles() {
    let mut store = CanvasStore::new(10, 10);
    store.set(1, 2, String::from("red")).unwrap();
    let mut broadcaster = Broadcaster::new(1);
    assert!(broadcaster.has_free_handle());
    let (snapshot, first) = broadcaster.subscribe(observer(1), &store);
    let (_, second) = broadcaster.subscribe(observer(2), &store);
    assert_eq!(snapshot.len(), 1);
    assert_eq!(snapshot[0].x, 1);
    assert_eq!(snapshot[0].y, 2);
    assert_eq!(snapshot[0].color, "red");
    assert_eq!(first, 1);
    assert_eq!(second, 2);
    assert_eq!(broadcaster.subscriber_count(), 2);
    assert_eq!(
        broadcaster.subscriber(first),
        Some(Subscriber {
            handle: 1,
            identity: observer(1),
            since: 1,
            last_delivered_sequence: 1
        })
    );
}

#[test]
fn commit_reaches_every_subscriber_in_order() {
    let store = CanvasStore::new(10, 10);
    let mut broadcaster = Broadcaster::new(0);
    let (_, h1) = broadcaster.subscribe(observer(1), &store);
    let (_, h2) = broadcaster.subscribe(observer(2), &store);
    let mut seen_by_1: Vec<u64> = Vec::new();
    let mut seen_by_2: Vec<u64> = Vec::new();
    for n in 1..=5u64 {
        let deliveries = broadcaster.on_commit(&change(n, 0, 0, "c"));
        assert_eq!(deliveries.len(), 2);
        for d in deliveries.iter() {
            assert_eq!(d.entry, change(n, 0, 0, "c"));
            if d.handle == h1 {
                seen_by_1.push(d.entry.sequence);
            }
            if d.handle == h2 {
                seen_by_2.push(d.entry.sequence);
            }
        }
    }
    assert_eq!(seen_by_1, vec![1, 2, 3, 4, 5]);
    assert_eq!(seen_by_2, seen_by_1);
    assert_eq!(broadcaster.head(), 5);
    assert_eq!(broadcaster.subscriber(h1).unwrap().last_delivered_sequence, 5);
    assert_eq!(broadcaster.subscriber(h2).unwrap().since, 0);
}

#[test]
fn late_subscriber_shares_the_later_changes() {
    let store = CanvasStore::new(10, 10);
    let mut broadcaster = Broadcaster::new(0);
    let (_, early) = broadcaster.subscribe(observer(1), &store);
    let mut seen_early: Vec<u64> = Vec::new();
    let mut seen_late: Vec<u64> = Vec::new();
    for n in 1..=2u64 {
        for d in broadcaster.on_commit(&change(n, 1, 1, "c")).iter() {
            assert_eq!(d.handle, early);
            seen_early.push(d.entry.sequence);
        }
    }
    let (_, late) = broadcaster.subscribe(observer(2), &store);
    assert_eq!(broadcaster.subscriber(late).unwrap().since, 2);
    for n in 3..=4u64 {
        for d in broadcaster.on_commit(&change(n, 1, 1, "c")).iter() {
            if d.handle == early {
                seen_early.push(d.entry.sequence);
            } else {
                assert_eq!(d.handle, late);
                seen_late.push(d.entry.sequence);
            }
        }
    }
    assert_eq!(seen_early, vec![1, 2, 3, 4]);
    assert_eq!(seen_late, vec![3, 4]);
    assert_eq!(&seen_early[2..], &seen_late[..]);
}

#[test]
fn commit_without_subscribers_delivers_nothing() {
    let mut broadcaster = Broadcaster::new(0);
    assert!(broadcaster.on_commit(&change(1, 0, 0, "c")).is_empty());
    assert_eq!(broadcaster.head(), 1);
}

#[test]
fn unsubscribe_is_idempotent() {
    let store = CanvasStore::new(10, 10);
    let mut broadcaster = Broadcaster::new(0);
    let (_, h1) = broadcaster.subscribe(observer(1), &store);
    let (_, h2) = broadcaster.subscribe(observer(2), &store);
    let (_, h3) = broadcaster.subscribe(observer(3), &store);
    assert!(broadcaster.unsubscribe(h2));
    assert!(!broadcaster.unsubscribe(h2));
    assert!(!broadcaster.unsubscribe(77));
    assert_eq!(broadcaster.subscriber_count(), 2);
    assert_eq!(broadcaster.subscriber(h2), None);
    let deliveries = broadcaster.on_commit(&change(1, 0, 0, "c"));
    let handles: Vec<u64> = deliveries.iter().map(|d| d.handle).collect();
    assert_eq!(handles, vec![h1, h3]);
    let (_, h4) = broadcaster.subscribe(observer(2), &store);
    assert_eq!(h4, 4);
}

#[test]
fn unavailable_subscriber_is_dropped() {
    let store = CanvasStore::new(10, 10);
    let mut broadcaster = Broadcaster::new(0);
    let (_, h1) = broadcaster.subscribe(observer(1), &store);
    let (_, h2) = broadcaster.subscribe(observer(2), &store);
    assert!(!broadcaster.report_delivery(h1, Ok(())));
    assert!(!broadcaster.report_delivery(h1, Err(CanvasError::InvalidRequest)));
    assert_eq!(broadcaster.subscriber_count(), 2);
    assert!(broadcaster.report_delivery(h1, Err(CanvasError::SubscriberUnavailable)));
    assert!(!broadcaster.report_delivery(h1, Err(CanvasError::SubscriberUnavailable)));
    assert_eq!(broadcaster.subscriber_count(), 1);
    let deliveries = broadcaster.on_commit(&change(1, 0, 0, "c"));
    assert_eq!(deliveries.len(), 1);
    assert_eq!(deliveries[0].handle, h2);
}
