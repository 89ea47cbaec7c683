use partition_sink::batch::{BatchSettings, Event};
use partition_sink::service::{DispatchRequest, ServiceConn, ServiceSink};
use partition_sink::sink::{BatchSink, PartitionBatchSink, SinkPoll};
use partition_sink::status::{BasicResponse, EventStatus, ServiceLogic, SinkError, StdServiceLogic};

type PSink = PartitionBatchSink<StdServiceLogic<BasicResponse>>;
type BSink = BatchSink<StdServiceLogic<BasicResponse>>;

const TIMEOUT: u64 = 10_000;

fn conn() -> ServiceConn {
    ServiceConn::always_ready()
}

fn ev(key: u64, value: u64) -> Event {
    Event {
        key,
        value,
        byte_size: 16,
    }
}

fn values(d: &DispatchRequest) -> Vec<u64> {
    d.items.iter().map(|e| e.value).collect()
}

fn keyed(d: &DispatchRequest) -> Vec<(u64, u64)> {
    d.items.iter().map(|e| (e.key, e.value)).collect()
}

fn bsend(sink: &mut BSink, value: u64, now: u64, out: &mut Vec<DispatchRequest>) {
    let mut c = conn();
    let r = sink.poll_ready(now, &mut c);
    assert!(matches!(r.poll, SinkPoll::Ready));
    out.extend(r.dispatches);
    sink.start_send(ev(0, value), now);
}

fn psend(sink: &mut PSink, e: Event, now: u64, out: &mut Vec<DispatchRequest>) {
    let mut c = conn();
    let r = sink.poll_ready(now, &mut c);
    assert!(matches!(r.poll, SinkPoll::Ready));
    out.extend(r.dispatches);
    sink.start_send(e, now);
}

/// Drive `poll_close` to quiescence, completing every dispatch as soon as it
/// is handed out. Returns the total ack count released.
fn bdrain(sink: &mut BSink, now: u64, out: &mut Vec<DispatchRequest>) -> usize {
    let mut acks = 0usize;
    for _ in 0..100 {
        let mut c = conn();
        let r = sink.poll_close(now, &mut c);
        for d in r.dispatches {
            acks += sink.complete(d.seqno);
            out.push(d);
        }
        if matches!(r.poll, SinkPoll::Ready) {
            return acks;
        }
    }
    panic!("sink did not reach quiescence");
}

fn pdrain(sink: &mut PSink, now: u64, out: &mut Vec<DispatchRequest>) -> usize {
    let mut acks = 0usize;
    for _ in 0..100 {
        let mut c = conn();
        let r = sink.poll_close(now, &mut c);
        for d in r.dispatches {
            acks += sink.complete(d.seqno);
            out.push(d);
        }
        if matches!(r.poll, SinkPoll::Ready) {
            return acks;
        }
    }
    panic!("sink did not reach quiescence");
}

#[test]
fn batch_sink_acking_sequential() {
    let settings = BatchSettings::default().bytes(9999).events(10);
    let mut sink = BSink::new(settings, TIMEOUT);
    let mut dispatches = Vec::new();
    for v in 0..22 {
        bsend(&mut sink, v, 0, &mut dispatches);
    }
    let mut acks = 0usize;
    for d in &dispatches {
        acks += sink.complete(d.seqno);
    }
    acks += bdrain(&mut sink, 0, &mut dispatches);
    assert_eq!(acks, 22);
}

#[test]
fn batch_sink_acking_unordered() {
    let settings = BatchSettings::default().bytes(9999).events(1);
    let mut sink = BSink::new(settings, TIMEOUT);
    let mut dispatches = Vec::new();
    for v in 0..3 {
        bsend(&mut sink, v, 0, &mut dispatches);
    }
    // Clear the internal buffer: the last event's request goes out too, and
    // with requests 0..=2 still in flight the sink is not quiescent.
    let mut c = conn();
    let r = sink.poll_flush(0, &mut c);
    dispatches.extend(r.dispatches);
    assert!(matches!(r.poll, SinkPoll::Pending));
    let mut acks = 0usize;
    assert_eq!(acks, 0);

    // One second later all three requests have completed.
    acks += sink.complete(0);
    acks += sink.complete(1);
    acks += sink.complete(2);
    let mut c = conn();
    assert!(matches!(sink.poll_flush(0, &mut c).poll, SinkPoll::Ready));
    let mut c = conn();
    assert!(matches!(sink.poll_flush(0, &mut c).poll, SinkPoll::Ready));
    let mut c = conn();
    assert!(matches!(sink.poll_flush(0, &mut c).poll, SinkPoll::Ready));
    assert_eq!(acks, 3);

    for v in 3..6 {
        bsend(&mut sink, v, 0, &mut dispatches);
    }
    let mut c = conn();
    let r = sink.poll_flush(0, &mut c);
    dispatches.extend(r.dispatches);
    assert!(matches!(r.poll, SinkPoll::Pending));
    assert_eq!(acks, 3);

    // The fourth request (sequence number 3) has a latency spike: requests 4
    // and 5 complete first, and their acks are held back.
    acks += sink.complete(4);
    acks += sink.complete(5);
    let mut c = conn();
    assert!(matches!(sink.poll_flush(0, &mut c).poll, SinkPoll::Pending));
    assert_eq!(acks, 3);

    // Once request 3 completes, the acks for 3, 4 and 5 are released
    // together.
    acks += sink.complete(3);
    let mut c = conn();
    assert!(matches!(sink.poll_flush(0, &mut c).poll, SinkPoll::Ready));
    let mut c = conn();
    assert!(matches!(sink.poll_flush(0, &mut c).poll, SinkPoll::Ready));
    let mut c = conn();
    assert!(matches!(sink.poll_flush(0, &mut c).poll, SinkPoll::Ready));
    assert_eq!(acks, 6);
}

#[test]
fn batch_sink_buffers_messages_until_limit() {
    let settings = BatchSettings::default().bytes(9999).events(10);
    let mut sink = BSink::new(settings, TIMEOUT);
    let mut dispatches = Vec::new();
    for v in 0..22 {
        bsend(&mut sink, v, 0, &mut dispatches);
    }
    for d in &dispatches {
        sink.complete(d.seqno);
    }
    bdrain(&mut sink, 0, &mut dispatches);
    let output: Vec<Vec<u64>> = dispatches.iter().map(values).collect();
    assert_eq!(
        output,
        vec![
            vec![0, 1, 2, 3, 4, 5, 6, 7, 8, 9],
            vec![10, 11, 12, 13, 14, 15, 16, 17, 18, 19],
            vec![20, 21]
        ]
    );
}

#[test]
fn batch_sink_flushes_below_min_on_close() {
    let settings = BatchSettings::default().bytes(9999).events(10);
    let mut sink = BSink::new(settings, TIMEOUT);
    let mut dispatches = Vec::new();
    bsend(&mut sink, 0, 0, &mut dispatches);
    bsend(&mut sink, 1, 0, &mut dispatches);
    assert!(dispatches.is_empty());
    bdrain(&mut sink, 0, &mut dispatches);
    let output: Vec<Vec<u64>> = dispatches.iter().map(values).collect();
    assert_eq!(output, vec![vec![0, 1]]);
}

#[test]
fn batch_sink_expired_linger() {
    let settings = BatchSettings::default().bytes(9999).events(10);
    let mut sink = BSink::new(settings, TIMEOUT);
    let mut dispatches = Vec::new();
    bsend(&mut sink, 0, 0, &mut dispatches);
    bsend(&mut sink, 1, 0, &mut dispatches);
    assert!(dispatches.is_empty());

    // Move the clock forward by the linger timeout plus one second; the
    // flush must then dispatch immediately and return quickly.
    let now = TIMEOUT + 1_000;
    let start = std::time::Instant::now();
    let mut c = conn();
    let r = sink.poll_flush(now, &mut c);
    dispatches.extend(r.dispatches);
    for d in &dispatches {
        sink.complete(d.seqno);
    }
    let mut c = conn();
    let r2 = sink.poll_flush(now, &mut c);
    assert!(matches!(r2.poll, SinkPoll::Ready));
    assert!(start.elapsed() < std::time::Duration::from_millis(200));

    let output: Vec<Vec<u64>> = dispatches.iter().map(values).collect();
    assert_eq!(output, vec![vec![0, 1]]);
}

#[test]
fn partition_batch_sink_buffers_messages_until_limit() {
    let settings = BatchSettings::default().bytes(9999).events(10);
    let mut sink = PSink::new(settings, TIMEOUT);
    let mut dispatches = Vec::new();
    for v in 0..22 {
        psend(&mut sink, ev(0, v), 0, &mut dispatches);
    }
    for d in &dispatches {
        sink.complete(d.seqno);
    }
    pdrain(&mut sink, 0, &mut dispatches);
    let output: Vec<Vec<u64>> = dispatches.iter().map(values).collect();
    assert_eq!(
        output,
        vec![
            vec![0, 1, 2, 3, 4, 5, 6, 7, 8, 9],
            vec![10, 11, 12, 13, 14, 15, 16, 17, 18, 19],
            vec![20, 21]
        ]
    );
}

#[test]
fn partition_batch_sink_buffers_by_partition_buffer_size_one() {
    let settings = BatchSettings::default().bytes(9999).events(1);
    let mut sink = PSink::new(settings, TIMEOUT);
    let mut dispatches = Vec::new();
    psend(&mut sink, ev(0, 0), 0, &mut dispatches);
    psend(&mut sink, ev(1, 1), 0, &mut dispatches);
    pdrain(&mut sink, 0, &mut dispatches);
    let mut output: Vec<Vec<(u64, u64)>> = dispatches.iter().map(keyed).collect();
    output.sort();
    assert_eq!(output, vec![vec![(0, 0)], vec![(1, 1)]]);
}

#[test]
fn partition_batch_sink_buffers_by_partition_buffer_size_two() {
    let settings = BatchSettings::default().bytes(9999).events(2);
    let mut sink = PSink::new(settings, TIMEOUT);
    let mut dispatches = Vec::new();
    psend(&mut sink, ev(0, 0), 0, &mut dispatches);
    psend(&mut sink, ev(1, 1), 0, &mut dispatches);
    psend(&mut sink, ev(0, 2), 0, &mut dispatches);
    psend(&mut sink, ev(1, 3), 0, &mut dispatches);
    pdrain(&mut sink, 0, &mut dispatches);
    let mut output: Vec<Vec<(u64, u64)>> = dispatches.iter().map(keyed).collect();
    output.sort();
    assert_eq!(output, vec![vec![(0, 0), (0, 2)], vec![(1, 1), (1, 3)]]);
}

#[test]
fn partition_batch_sink_submits_after_linger() {
    let settings = BatchSettings::default().bytes(9999).events(10);
    let mut sink = PSink::new(settings, TIMEOUT);
    let mut dispatches = Vec::new();
    psend(&mut sink, ev(0, 1), 0, &mut dispatches);
    let mut c = conn();
    let r = sink.poll_flush(0, &mut c);
    assert!(matches!(r.poll, SinkPoll::Pending));
    assert!(r.dispatches.is_empty());

    let now = TIMEOUT + 1_000;
    let start = std::time::Instant::now();
    let mut c = conn();
    let r = sink.poll_flush(now, &mut c);
    dispatches.extend(r.dispatches);
    for d in &dispatches {
        sink.complete(d.seqno);
    }
    let mut c = conn();
    assert!(matches!(sink.poll_flush(now, &mut c).poll, SinkPoll::Ready));
    assert!(start.elapsed() < std::time::Duration::from_millis(200));

    let output: Vec<Vec<u64>> = dispatches.iter().map(values).collect();
    assert_eq!(output, vec![vec![1]]);
}

#[test]
fn service_sink_doesnt_propagate_error() {
    let mut sink: ServiceSink<StdServiceLogic<BasicResponse>> = ServiceSink::new();
    let logic = StdServiceLogic::<BasicResponse>::default();
    let req = |n: u64| {
        let items: Vec<Event> = (0..n).map(|v| ev(0, v)).collect();
        partition_sink::batch::EncodedBatch {
            count: items.len(),
            byte_size: items.len() * 16,
            items,
        }
    };

    // Send some initial requests.
    let s1 = sink.call(&req(1));
    let s2 = sink.call(&req(2));
    let mut acks = 0usize;
    assert_eq!(acks, 0);
    acks += sink.complete(s1);
    acks += sink.complete(s2);
    assert_eq!(acks, 3);

    // One request fails, one succeeds: the failure becomes an event status,
    // not a sink error, and ordered acking advances over both.
    let s3 = sink.call(&req(3));
    let s4 = sink.call(&req(4));
    let bad = logic.result_status(Err(SinkError::new("bad".to_string())));
    let good = logic.result_status(Ok(BasicResponse {
        ok: true,
        retryable: true,
    }));
    assert_eq!(bad, EventStatus::Errored);
    assert_eq!(good, EventStatus::Delivered);
    acks += sink.complete(s3);
    acks += sink.complete(s4);
    assert_eq!(acks, 10);
}

#[test]
fn partition_batch_sink_ordering_per_partition() {
    let settings = BatchSettings::default().bytes(9999).events(10);
    let mut sink = PSink::new(settings, TIMEOUT);
    sink.ordered();

    let mut dispatches = Vec::new();
    for v in 0..20 {
        psend(&mut sink, ev(0, v), 0, &mut dispatches);
    }
    for v in 0..20 {
        psend(&mut sink, ev(1, v), 0, &mut dispatches);
    }
    // By now the first full batch of each partition has been dispatched:
    // sequence number 0 for partition 0, sequence number 1 for partition 1.
    let sent_so_far: Vec<Vec<(u64, u64)>> = dispatches.iter().map(keyed).collect();
    assert_eq!(sent_so_far.len(), 2);
    assert_eq!(sent_so_far[0], (0..10).map(|i| (0, i)).collect::<Vec<_>>());
    assert_eq!(sent_so_far[1], (1..=1).flat_map(|_| (0..10).map(|i| (1, i))).collect::<Vec<_>>());

    // The very first request is slow; every other request completes at
    // once. `sent` records batches in the order the downstream finishes
    // them.
    let mut sent: Vec<Vec<(u64, u64)>> = Vec::new();
    let slow = dispatches[0].seqno;
    sink.complete(dispatches[1].seqno);
    sent.push(keyed(&dispatches[1]));

    // Closing dispatches partition 1's second batch (its first has
    // resolved) but must hold partition 0's second batch back.
    let mut c = conn();
    let r = sink.poll_close(0, &mut c);
    assert!(matches!(r.poll, SinkPoll::Pending));
    assert_eq!(r.dispatches.len(), 1);
    assert_eq!(r.dispatches[0].key, 1);
    sink.complete(r.dispatches[0].seqno);
    sent.push(keyed(&r.dispatches[0]));

    // Still held back while the slow request is outstanding.
    let mut c = conn();
    let r = sink.poll_close(0, &mut c);
    assert!(matches!(r.poll, SinkPoll::Pending));
    assert!(r.dispatches.is_empty());

    // The slow request finally completes; partition 0's second batch may go.
    sink.complete(slow);
    sent.push(keyed(&dispatches[0]));
    let mut c = conn();
    let r = sink.poll_close(0, &mut c);
    assert_eq!(r.dispatches.len(), 1);
    assert_eq!(r.dispatches[0].key, 0);
    sink.complete(r.dispatches[0].seqno);
    sent.push(keyed(&r.dispatches[0]));
    let mut c = conn();
    let r = sink.poll_close(0, &mut c);
    assert!(matches!(r.poll, SinkPoll::Ready));

    assert_eq!(
        sent,
        vec![
            (0..10).map(|i| (1, i)).collect::<Vec<_>>(),
            (10..20).map(|i| (1, i)).collect(),
            (0..10).map(|i| (0, i)).collect(),
            (10..20).map(|i| (0, i)).collect(),
        ]
    );
}

#[test]
fn max_events_one_dispatches_on_every_accept() {
    let settings = BatchSettings::default().bytes(9999).events(1);
    let mut sink = PSink::new(settings, TIMEOUT);
    // The linger never decides: the batch is full the moment the event is
    // accepted, so a flush at time zero already dispatches it.
    for v in 0..4 {
        let mut dispatches = Vec::new();
        psend(&mut sink, ev(0, v), 0, &mut dispatches);
        let mut c = conn();
        let r = sink.poll_flush(0, &mut c);
        dispatches.extend(r.dispatches);
        assert_eq!(dispatches.len(), 1);
        assert_eq!(values(&dispatches[0]), vec![v]);
        sink.complete(dispatches[0].seqno);
    }
}

#[test]
fn reappearing_partition_gets_fresh_batch_and_linger() {
    let settings = BatchSettings::default().bytes(9999).events(10);
    let mut sink = PSink::new(settings, TIMEOUT);
    let mut dispatches = Vec::new();

    // First appearance at time zero; dispatched by linger expiry.
    psend(&mut sink, ev(0, 1), 0, &mut dispatches);
    let mut c = conn();
    let r = sink.poll_flush(TIMEOUT, &mut c);
    dispatches.extend(r.dispatches);
    assert_eq!(dispatches.len(), 1);
    sink.complete(dispatches[0].seqno);

    // The key reappears at time 5000 + TIMEOUT: a fresh batch whose linger
    // restarts from the reappearance, not from the first creation.
    let t1 = TIMEOUT + 5_000;
    psend(&mut sink, ev(0, 2), t1, &mut dispatches);
    let mut c = conn();
    let r = sink.poll_flush(t1 + TIMEOUT - 1, &mut c);
    assert!(matches!(r.poll, SinkPoll::Pending));
    assert!(r.dispatches.is_empty());
    let mut c = conn();
    let r = sink.poll_flush(t1 + TIMEOUT, &mut c);
    assert_eq!(r.dispatches.len(), 1);
    assert_eq!(values(&r.dispatches[0]), vec![2]);
}

#[test]
fn linger_armed_at_partition_creation_not_last_push() {
    let settings = BatchSettings::default().bytes(9999).events(10);
    let mut sink = PSink::new(settings, TIMEOUT);
    let mut dispatches = Vec::new();
    psend(&mut sink, ev(0, 1), 0, &mut dispatches);
    // A second push just before the deadline does not re-arm the linger.
    psend(&mut sink, ev(0, 2), TIMEOUT - 1, &mut dispatches);
    let mut c = conn();
    let r = sink.poll_flush(TIMEOUT, &mut c);
    assert_eq!(r.dispatches.len(), 1);
    assert_eq!(values(&r.dispatches[0]), vec![1, 2]);
}

#[test]
fn service_ready_error_surfaces_and_preserves_events() {
    let settings = BatchSettings::default().bytes(9999).events(1);
    let mut sink = PSink::new(settings, TIMEOUT);
    let mut dispatches = Vec::new();
    psend(&mut sink, ev(0, 1), 0, &mut dispatches);
    assert!(dispatches.is_empty());

    let mut c = ServiceConn::failed(SinkError::new("connection refused".to_string()));
    let r = sink.poll_flush(0, &mut c);
    match r.poll {
        SinkPoll::Failed(e) => assert_eq!(e.message(), "connection refused"),
        _ => panic!("readiness failure must surface"),
    }
    assert!(r.dispatches.is_empty());

    // The event was not lost: a healthy connection dispatches it.
    let mut c = conn();
    let r = sink.poll_flush(0, &mut c);
    assert_eq!(r.dispatches.len(), 1);
    assert_eq!(values(&r.dispatches[0]), vec![1]);
}

#[test]
fn service_backpressure_holds_dispatches() {
    let settings = BatchSettings::default().bytes(9999).events(1);
    let mut sink = PSink::new(settings, TIMEOUT);
    let mut dispatches = Vec::new();
    psend(&mut sink, ev(0, 1), 0, &mut dispatches);
    psend(&mut sink, ev(1, 2), 0, &mut dispatches);
    assert!(dispatches.is_empty());

    // A service with no capacity dispatches nothing.
    let mut c = ServiceConn::with_budget(0);
    let r = sink.poll_flush(0, &mut c);
    assert!(matches!(r.poll, SinkPoll::Pending));
    assert!(r.dispatches.is_empty());

    // Capacity for one request lets exactly one batch through.
    let mut c = ServiceConn::with_budget(1);
    let r = sink.poll_flush(0, &mut c);
    assert!(matches!(r.poll, SinkPoll::Pending));
    assert_eq!(r.dispatches.len(), 1);
    assert_eq!(c.budget, 0);
}

#[test]
fn close_accounts_for_every_accepted_event() {
    let settings = BatchSettings::default().bytes(9999).events(4);
    let mut sink = PSink::new(settings, TIMEOUT);
    let mut dispatches = Vec::new();
    for v in 0..22 {
        psend(&mut sink, ev(v % 3, v), 0, &mut dispatches);
    }
    let mut acks = 0usize;
    for d in &dispatches {
        acks += sink.complete(d.seqno);
    }
    acks += pdrain(&mut sink, 0, &mut dispatches);
    // No event is lost or duplicated, and the full ack count is released.
    assert_eq!(acks, 22);
    let mut seen: Vec<u64> = dispatches.iter().flat_map(|d| d.items.iter().map(|e| e.value)).collect();
    seen.sort();
    let expected: Vec<u64> = (0..22).collect();
    assert_eq!(seen, expected);
    // Within each partition the order of acceptance is kept.
    for key in 0..3 {
        let per_key: Vec<u64> = dispatches
            .iter()
            .flat_map(|d| d.items.iter())
            .filter(|e| e.key == key)
            .map(|e| e.value)
            .collect();
        let expected: Vec<u64> = (0..22).filter(|v| v % 3 == key).collect();
        assert_eq!(per_key, expected);
    }
}

#[test]
fn batch_resolution_assigns_one_status_to_all_events() {
    let items: Vec<Event> = (0..5).map(|v| ev(2, v)).collect();
    let d = DispatchRequest {
        seqno: 9,
        key: 2,
        count: items.len(),
        byte_size: items.len() * 16,
        items,
    };
    let resolved = d.resolve(EventStatus::Failed);
    assert_eq!(resolved.len(), 5);
    for (i, (value, status)) in resolved.iter().enumerate() {
        assert_eq!(*value, i as u64);
        assert_eq!(*status, EventStatus::Failed);
    }
}

#[test]
fn std_service_logic_maps_results_to_statuses() {
    let logic = StdServiceLogic::<BasicResponse>::default();
    let delivered = logic.result_status(Ok(BasicResponse {
        ok: true,
        retryable: false,
    }));
    assert_eq!(delivered, EventStatus::Delivered);
    let errored = logic.result_status(Ok(BasicResponse {
        ok: false,
        retryable: true,
    }));
    assert_eq!(errored, EventStatus::Errored);
    let failed = logic.result_status(Ok(BasicResponse {
        ok: false,
        retryable: false,
    }));
    assert_eq!(failed, EventStatus::Failed);
    let request_error = logic.result_status(Err(SinkError::new("timed out".to_string())));
    assert_eq!(request_error, EventStatus::Errored);
}

#[test]
fn unit_response_reports_success() {
    let logic = StdServiceLogic::<()>::default();
    assert_eq!(logic.result_status(Ok(())), EventStatus::Delivered);
    assert_eq!(
        logic.result_status(Err(SinkError::new("boom".to_string()))),
        EventStatus::Errored
    );
}

#[test]
fn internal_event_records_hold_their_fields() {
    let received = partition_sink::internal_events::EventStoreDbMetricsReceived::new(12, 3400);
    assert_eq!(received.count, 12);
    assert_eq!(received.byte_size, 3400);
    let http_error = partition_sink::internal_events::EventStoreDbMetricsHttpError::new(
        SinkError::new("status 500".to_string()),
    );
    assert_eq!(http_error.error.message(), "status 500");
}

#[test]
fn service_error_does_not_crash_sink() {
    // Four events through one-event batches; the service fails on the
    // third request. The failure becomes that batch's event status, and the
    // ordered ack stream still releases all four events.
    let settings = BatchSettings::default().bytes(9999).events(1);
    let mut sink = PSink::new(settings, TIMEOUT);
    let logic = StdServiceLogic::<BasicResponse>::default();
    let mut dispatches = Vec::new();
    for v in 0..4 {
        psend(&mut sink, ev(0, v), 0, &mut dispatches);
    }
    let mut acks = 0usize;
    for d in &dispatches {
        acks += sink.complete(d.seqno);
    }
    acks += pdrain(&mut sink, 0, &mut dispatches);
    assert_eq!(dispatches.len(), 4);
    assert_eq!(acks, 4);

    let mut statuses = Vec::new();
    for d in &dispatches {
        let result = if values(d) == vec![3] {
            Err(SinkError::new("bad".to_string()))
        } else {
            Ok(BasicResponse { ok: true, retryable: true })
        };
        let status = logic.result_status(result);
        for (_, s) in d.resolve(status) {
            statuses.push(s);
        }
    }
    assert_eq!(
        statuses,
        vec![
            EventStatus::Delivered,
            EventStatus::Delivered,
            EventStatus::Delivered,
            EventStatus::Errored
        ]
    );
}
