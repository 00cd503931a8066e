use datadog_apm::batcher::Batcher;
use datadog_apm::endpoint::Endpoint;
use datadog_apm::model::{Config, Span, TimeSpan, Trace};
use datadog_apm::transport::{Response, ShouldRetry, Transport, MAX_RETRIES};

fn one_span_trace(id: u64) -> Trace {
    Trace {
        id,
        priority: 1,
        spans: vec![Span {
            id: id + 100,
            name: String::from("request"),
            resource: String::from("/home"),
            span_type: String::from("web"),
            start: TimeSpan::new(1_600_000_000, 0),
            duration: TimeSpan::from_millis(50),
            parent_id: None,
            http: None,
            error: None,
            sql: None,
            tags: Vec::new(),
        }],
    }
}

fn transport() -> Transport {
    Transport::new(&Config { service: String::from("service_name"), ..Default::default() })
}

fn run_cycle(t: &mut Transport, responses: &[Response]) -> (u32, Vec<String>) {
    let mut made: u32 = 0;
    let mut tried = Vec::new();
    for r in responses {
        tried.push(t.endpoint.endpoint().to_string());
        made += 1;
        if !t.next_attempt(made, *r) {
            break;
        }
    }
    (made, tried)
}

#[test]
fn endpoint_chain_is_newest_first() {
    let e = Endpoint::create_traces_endpoint("localhost", "8126");
    assert_eq!(e.endpoint(), "http://localhost:8126/v0.4/traces");
    let e3 = e.fallback().as_ref().unwrap();
    assert_eq!(e3.endpoint(), "http://localhost:8126/v0.3/traces");
    let e2 = e3.fallback().as_ref().unwrap();
    assert_eq!(e2.endpoint(), "http://localhost:8126/v0.2/traces");
    assert!(e2.fallback().is_none());
}

#[test]
fn endpoint_new_keeps_its_parts() {
    let e = Endpoint::new(String::from("a"), Some(Endpoint::new(String::from("b"), None)));
    assert_eq!(e.endpoint(), "a");
    assert_eq!(e.fallback().as_ref().unwrap().endpoint(), "b");
}

#[test]
fn full_batch_flushes_at_once() {
    let t0 = TimeSpan::new(1_600_000_000, 0);
    let mut b = Batcher::new(2, TimeSpan::from_millis(200), t0);
    assert!(b.step(Some(one_span_trace(1)), t0).is_none());
    let batch = b.step(Some(one_span_trace(2)), t0).unwrap();
    assert_eq!(batch.len(), 2);
    assert_eq!(batch[0].id, 1);
    assert_eq!(batch[1].id, 2);
    assert!(b.buffer.is_empty());

    let tr = transport();
    let req = tr.build_request(&batch).unwrap();
    assert_eq!(req.method, "POST");
    assert_eq!(req.trace_count, 2);
    assert_eq!(req.content_type, "application/msgpack");
    assert_eq!(req.content_length, req.body.len());
    assert_eq!(req.uri, "http://localhost:8126/v0.4/traces");
    let mut rd: &[u8] = &req.body[..];
    assert_eq!(rmp::decode::read_array_len(&mut rd).unwrap(), 2);
    assert_eq!(rmp::decode::read_array_len(&mut rd).unwrap(), 1);
    assert_eq!(rmp::decode::read_map_len(&mut rd).unwrap(), 12);
}

#[test]
fn lone_trace_flushes_after_the_interval() {
    let t0 = TimeSpan::new(1_600_000_000, 0);
    let mut b = Batcher::new(200, TimeSpan::from_millis(200), t0);
    assert!(b.step(Some(one_span_trace(1)), TimeSpan::new(1_600_000_000, 1_000_000)).is_none());
    assert!(b.step(None, TimeSpan::new(1_600_000_000, 200_000_000)).is_none());
    let batch = b.step(None, TimeSpan::new(1_600_000_000, 200_000_001)).unwrap();
    assert_eq!(batch.len(), 1);
    assert_eq!(batch[0].id, 1);
    b.mark_flushed(TimeSpan::new(1_600_000_000, 250_000_000));
    assert!(b.step(None, TimeSpan::new(1_600_000_009, 0)).is_none());
}

#[test]
fn empty_batch_never_flushes() {
    let t0 = TimeSpan::new(10, 0);
    let mut b = Batcher::new(200, TimeSpan::from_millis(200), t0);
    assert!(!b.should_flush(TimeSpan::new(1000, 0)));
    assert!(!b.flush_max_interval_has_passed(TimeSpan::new(1000, 0)));
    assert!(b.step(None, TimeSpan::new(1000, 0)).is_none());
}

#[test]
fn clock_before_last_flush_is_not_elapsed() {
    let mut b = Batcher::new(200, TimeSpan::from_millis(200), TimeSpan::new(10, 0));
    b.push(one_span_trace(1));
    assert!(!b.should_flush(TimeSpan::new(9, 0)));
    assert!(b.should_flush(TimeSpan::new(11, 0)));
    let batch = b.take_batch();
    assert_eq!(batch.len(), 1);
    assert!(b.buffer.is_empty());
}

#[test]
fn downgrade_then_success_takes_two_attempts() {
    let mut t = transport();
    let (made, tried) = run_cycle(&mut t, &[Response::Status(404), Response::Status(200)]);
    assert_eq!(made, 2);
    assert_eq!(
        tried,
        vec![
            String::from("http://localhost:8126/v0.4/traces"),
            String::from("http://localhost:8126/v0.3/traces"),
        ]
    );
    assert_eq!(t.endpoint.endpoint(), "http://localhost:8126/v0.3/traces");
}

#[test]
fn repeated_not_found_walks_the_chain_and_stops() {
    let mut t = transport();
    let responses = [Response::Status(404); 8];
    let (made, tried) = run_cycle(&mut t, &responses);
    assert_eq!(made, 3);
    assert_eq!(
        tried,
        vec![
            String::from("http://localhost:8126/v0.4/traces"),
            String::from("http://localhost:8126/v0.3/traces"),
            String::from("http://localhost:8126/v0.2/traces"),
        ]
    );
    assert_eq!(t.endpoint.endpoint(), "http://localhost:8126/v0.2/traces");
    assert!(t.endpoint.fallback().is_none());
    let (made, _) = run_cycle(&mut t, &responses);
    assert_eq!(made, 1);
    assert_eq!(t.endpoint.endpoint(), "http://localhost:8126/v0.2/traces");
}

#[test]
fn response_classes() {
    let mut t = transport();
    assert_eq!(t.handle_response(Response::Status(200)), ShouldRetry::False);
    assert_eq!(t.handle_response(Response::Status(299)), ShouldRetry::False);
    assert_eq!(t.handle_response(Response::Status(500)), ShouldRetry::False);
    assert_eq!(t.handle_response(Response::Failed), ShouldRetry::False);
    assert_eq!(t.endpoint.endpoint(), "http://localhost:8126/v0.4/traces");
    assert!(t.should_downgrade(404));
    assert!(t.should_downgrade(415));
    assert!(!t.should_downgrade(400));
    assert_eq!(t.handle_response(Response::Status(415)), ShouldRetry::True);
    assert_eq!(t.endpoint.endpoint(), "http://localhost:8126/v0.3/traces");
    t.downgrade();
    assert_eq!(t.endpoint.endpoint(), "http://localhost:8126/v0.2/traces");
    assert!(!t.should_downgrade(404));
    assert_eq!(t.handle_response(Response::Status(404)), ShouldRetry::False);
}

#[test]
fn attempts_are_capped() {
    assert_eq!(MAX_RETRIES, 5);
    let mut t = transport();
    assert!(t.next_attempt(4, Response::Status(404)));
    assert!(!t.next_attempt(5, Response::Status(404)));
    assert_eq!(t.endpoint.endpoint(), "http://localhost:8126/v0.2/traces");
}

#[test]
fn transport_stamps_service_and_env() {
    let t = Transport::new(&Config {
        service: String::from("svc"),
        env: Some(String::from("staging")),
        host: String::from("agent"),
        port: String::from("9000"),
        ..Default::default()
    });
    assert_eq!(t.endpoint.endpoint(), "http://agent:9000/v0.4/traces");
    let raws = t.project_batch(&vec![one_span_trace(1), one_span_trace(2)]);
    assert_eq!(raws.len(), 2);
    assert_eq!(raws[1][0].service, "svc");
    assert_eq!(raws[1][0].trace_id, 2);
    assert_eq!(raws[0][0].meta, vec![(String::from("env"), String::from("staging"))]);
}

#[test]
fn full_queue_rejects_the_newest() {
    let (mut sender, mut receiver) = tokio::sync::mpsc::channel::<Trace>(2);
    assert!(sender.try_send(one_span_trace(1)).is_ok());
    assert!(sender.try_send(one_span_trace(2)).is_ok());
    assert!(sender.try_send(one_span_trace(3)).is_err());
    assert_eq!(receiver.try_recv().unwrap().id, 1);
    assert_eq!(receiver.try_recv().unwrap().id, 2);
    assert!(receiver.try_recv().is_err());
    assert!(sender.try_send(one_span_trace(4)).is_ok());
    assert_eq!(receiver.try_recv().unwrap().id, 4);
}

#[test]
fn crate_root_names_the_model() {
    let config = datadog_apm::Config { service: String::from("svc"), ..Default::default() };
    let trace: datadog_apm::Trace = one_span_trace(7);
    assert_eq!(config.service, "svc");
    assert_eq!(trace.spans.len(), 1);
}
