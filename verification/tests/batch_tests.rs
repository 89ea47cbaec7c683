use partition_sink::batch::{Batch, BatchSettings, Event, PushResult};

fn ev(key: u64, value: u64, byte_size: usize) -> Event {
    Event { key, value, byte_size }
}

#[test]
fn generate_config() {
    let settings = BatchSettings::default().events(10).bytes(9999);
    assert_eq!(settings.max_events, 10);
    assert_eq!(settings.max_bytes, 9999);
    let defaults = BatchSettings::default();
    assert_eq!(defaults.max_events, usize::MAX);
    assert_eq!(defaults.max_bytes, usize::MAX);
}

#[test]
fn push_fits_until_event_limit() {
    let settings = BatchSettings::default().events(2).bytes(9999);
    let mut batch = Batch::new(settings);
    assert!(matches!(batch.push(ev(0, 1, 10)), PushResult::Fits));
    assert!(!batch.was_full());
    assert!(matches!(batch.push(ev(0, 2, 10)), PushResult::Fits));
    assert!(batch.was_full());
    assert_eq!(batch.num_items(), 2);
}

#[test]
fn push_overflow_leaves_batch_unchanged() {
    let settings = BatchSettings::default().events(2).bytes(9999);
    let mut batch = Batch::new(settings);
    assert!(matches!(batch.push(ev(0, 1, 10)), PushResult::Fits));
    assert!(matches!(batch.push(ev(0, 2, 10)), PushResult::Fits));
    let items_before: Vec<u64> = batch.items.iter().map(|e| e.value).collect();
    let bytes_before = batch.bytes;
    let was_full_before = batch.was_full();
    match batch.push(ev(0, 3, 10)) {
        PushResult::Overflow(e) => assert_eq!(e.value, 3),
        PushResult::Fits => panic!("third event must overflow"),
    }
    let items_after: Vec<u64> = batch.items.iter().map(|e| e.value).collect();
    assert_eq!(items_before, items_after);
    assert_eq!(bytes_before, batch.bytes);
    assert!(was_full_before);
    assert!(batch.was_full());
}

#[test]
fn push_overflow_on_byte_limit() {
    let settings = BatchSettings::default().events(100).bytes(25);
    let mut batch = Batch::new(settings);
    assert!(matches!(batch.push(ev(0, 1, 10)), PushResult::Fits));
    assert!(matches!(batch.push(ev(0, 2, 10)), PushResult::Fits));
    match batch.push(ev(0, 3, 10)) {
        PushResult::Overflow(e) => assert_eq!(e.value, 3),
        PushResult::Fits => panic!("byte limit must refuse the third event"),
    }
    assert!(batch.was_full());
    assert_eq!(batch.num_items(), 2);
    assert_eq!(batch.bytes, 20);
}

#[test]
fn empty_batch_accepts_oversize_event() {
    let settings = BatchSettings::default().events(10).bytes(5);
    let mut batch = Batch::new(settings);
    assert!(matches!(batch.push(ev(0, 1, 100)), PushResult::Fits));
    assert_eq!(batch.num_items(), 1);
    assert_eq!(batch.bytes, 100);
}

#[test]
fn fresh_batch_is_empty_and_not_full() {
    let settings = BatchSettings::default().events(1).bytes(9999);
    let mut batch = Batch::new(settings);
    assert!(matches!(batch.push(ev(0, 1, 10)), PushResult::Fits));
    assert!(batch.was_full());
    let fresh = batch.fresh();
    assert!(fresh.is_empty());
    assert!(!fresh.was_full());
    assert_eq!(fresh.num_items(), 0);
    assert_eq!(fresh.settings, settings);
}

#[test]
fn finish_reports_count_and_bytes() {
    let settings = BatchSettings::default().events(10).bytes(9999);
    let mut batch = Batch::new(settings);
    assert!(matches!(batch.push(ev(7, 1, 10)), PushResult::Fits));
    assert!(matches!(batch.push(ev(7, 2, 12)), PushResult::Fits));
    let encoded = batch.finish();
    assert_eq!(encoded.count, 2);
    assert_eq!(encoded.byte_size, 22);
    let values: Vec<u64> = encoded.items.iter().map(|e| e.value).collect();
    assert_eq!(values, vec![1, 2]);
}

#[test]
fn empty_batch_never_reports_full() {
    let settings = BatchSettings::default().events(1).bytes(1);
    let batch = Batch::new(settings);
    assert!(batch.is_empty());
    assert!(!batch.was_full());
}
