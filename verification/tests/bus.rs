use duniter_ledger::bus::Subscribers;
use duniter_ledger::transaction::{duplicate_batch, Event};

fn upsert(k: u8) -> Event {
    Event::Upsert { key: vec![k], value: vec![k, k] }
}

fn remove(k: u8) -> Event {
    Event::Remove { key: vec![k] }
}

fn said(batch: &[Event]) -> Vec<String> {
    batch.iter().map(|e| format!("{:?}", e)).collect()
}

#[test]
fn every_subscriber_is_sent_every_batch_once_and_in_order() {
    let mut bus = Subscribers::new();
    let first = bus.subscribe();
    let second = bus.subscribe();
    assert_eq!((first, second), (0, 1));
    let commits = [vec![upsert(1), remove(2)], vec![remove(1)], vec![upsert(3)]];
    for batch in &commits {
        bus.publish(batch);
    }
    for id in [second, first] {
        for batch in &commits {
            assert_eq!(said(&bus.take(id).expect("a batch")), said(batch));
        }
        assert!(bus.take(id).is_none());
    }
}

#[test]
fn a_subscriber_is_sent_what_is_published_after_it_subscribed() {
    let mut bus = Subscribers::new();
    bus.publish(&[upsert(0)]);
    let early = bus.subscribe();
    bus.publish(&[upsert(1)]);
    let late = bus.subscribe();
    bus.publish(&[upsert(2)]);
    assert_eq!(said(&bus.take(early).expect("a batch")), said(&[upsert(1)]));
    assert_eq!(said(&bus.take(early).expect("a batch")), said(&[upsert(2)]));
    assert!(bus.take(early).is_none());
    assert_eq!(said(&bus.take(late).expect("a batch")), said(&[upsert(2)]));
    assert!(bus.take(late).is_none());
}

#[test]
fn an_empty_batch_is_not_sent() {
    let mut bus = Subscribers::new();
    let id = bus.subscribe();
    bus.publish(&[]);
    assert!(bus.take(id).is_none());
    assert!(bus.take(id + 1).is_none());
}

#[test]
fn a_subscriber_who_left_is_sent_nothing() {
    let mut bus = Subscribers::new();
    let leaver = bus.subscribe();
    let stayer = bus.subscribe();
    bus.publish(&[upsert(1)]);
    assert!(bus.unsubscribe(leaver));
    assert!(!bus.unsubscribe(leaver));
    assert!(!bus.unsubscribe(17));
    bus.publish(&[upsert(2)]);
    assert!(bus.take(leaver).is_none());
    assert_eq!(said(&bus.take(stayer).expect("a batch")), said(&[upsert(1)]));
    assert_eq!(said(&bus.take(stayer).expect("a batch")), said(&[upsert(2)]));
    // Numbers are not given twice.
    assert_eq!(bus.subscribe(), 2);
}

#[test]
fn a_copy_of_a_batch_says_the_same() {
    let batch = vec![upsert(1), remove(2), upsert(3)];
    assert_eq!(said(&duplicate_batch(&batch)), said(&batch));
    assert_eq!(format!("{:?}", remove(9).duplicate()), format!("{:?}", remove(9)));
    assert!(duplicate_batch(&[]).is_empty());
}
