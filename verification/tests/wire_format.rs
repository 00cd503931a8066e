use datadog_apm::model::RawSpan;
use datadog_apm::wire::{encode_record, encode_trace, serialize_as_msgpack};

fn fixstr(s: &str) -> Vec<u8> {
    assert!(s.len() < 32);
    let mut out = vec![0xa0u8 | (s.len() as u8)];
    out.extend_from_slice(s.as_bytes());
    out
}

fn small_span() -> RawSpan {
    RawSpan {
        service: String::from("s"),
        name: String::from("n"),
        resource: String::from("r"),
        trace_id: 1,
        span_id: 2,
        parent_id: None,
        start: 3,
        duration: 4,
        error: 0,
        meta: Vec::new(),
        metrics: Vec::new(),
        span_type: String::from("t"),
    }
}

fn small_span_bytes() -> Vec<u8> {
    let mut e: Vec<u8> = vec![0x8c];
    e.extend(fixstr("service"));
    e.extend(fixstr("s"));
    e.extend(fixstr("name"));
    e.extend(fixstr("n"));
    e.extend(fixstr("resource"));
    e.extend(fixstr("r"));
    e.extend(fixstr("trace_id"));
    e.push(0x01);
    e.extend(fixstr("span_id"));
    e.push(0x02);
    e.extend(fixstr("parent_id"));
    e.push(0xc0);
    e.extend(fixstr("start"));
    e.push(0x03);
    e.extend(fixstr("duration"));
    e.push(0x04);
    e.extend(fixstr("error"));
    e.push(0x00);
    e.extend(fixstr("meta"));
    e.push(0x80);
    e.extend(fixstr("metrics"));
    e.push(0x80);
    e.extend(fixstr("type"));
    e.extend(fixstr("t"));
    e
}

fn generate_span(trace_id: u64, span_id: u64) -> RawSpan {
    RawSpan {
        trace_id,
        span_id,
        parent_id: None,
        name: String::from("request"),
        resource: String::from("/home"),
        service: String::from("service_name"),
        span_type: String::from("web"),
        start: 1_600_000_000 * 1_000_000_000,
        duration: 4853472865,
        error: 0,
        meta: Vec::new(),
        metrics: Vec::new(),
    }
}

fn read_string(rd: &mut &[u8]) -> String {
    let len = rmp::decode::read_str_len(rd).unwrap() as usize;
    let (head, tail) = rd.split_at(len);
    let s = String::from_utf8(head.to_vec()).unwrap();
    *rd = tail;
    s
}

fn read_key(rd: &mut &[u8], key: &str) {
    assert_eq!(read_string(rd), key);
}

fn read_u64(rd: &mut &[u8]) -> u64 {
    rmp::decode::read_int(rd).unwrap()
}

fn read_record(rd: &mut &[u8]) -> (RawSpan, Vec<(String, f64)>) {
    assert_eq!(rmp::decode::read_map_len(rd).unwrap(), 12);
    read_key(rd, "service");
    let service = read_string(rd);
    read_key(rd, "name");
    let name = read_string(rd);
    read_key(rd, "resource");
    let resource = read_string(rd);
    read_key(rd, "trace_id");
    let trace_id = read_u64(rd);
    read_key(rd, "span_id");
    let span_id = read_u64(rd);
    read_key(rd, "parent_id");
    let parent_id = if rd[0] == 0xc0 {
        *rd = &rd[1..];
        None
    } else {
        Some(read_u64(rd))
    };
    read_key(rd, "start");
    let start = read_u64(rd);
    read_key(rd, "duration");
    let duration = read_u64(rd);
    read_key(rd, "error");
    let error: i32 = rmp::decode::read_int(rd).unwrap();
    read_key(rd, "meta");
    let n_meta = rmp::decode::read_map_len(rd).unwrap();
    let mut meta = Vec::new();
    for _ in 0..n_meta {
        let k = read_string(rd);
        let v = read_string(rd);
        meta.push((k, v));
    }
    read_key(rd, "metrics");
    let n_metrics = rmp::decode::read_map_len(rd).unwrap();
    let mut doubles = Vec::new();
    for _ in 0..n_metrics {
        let k = read_string(rd);
        let v: f64 = rmp::decode::read_f64(rd).unwrap();
        doubles.push((k, v));
    }
    read_key(rd, "type");
    let span_type = read_string(rd);
    let raw = RawSpan {
        service,
        name,
        resource,
        trace_id,
        span_id,
        parent_id,
        start,
        duration,
        error,
        meta,
        metrics: Vec::new(),
        span_type,
    };
    (raw, doubles)
}

fn same_record(decoded: &(RawSpan, Vec<(String, f64)>), want: &RawSpan) {
    let got = &decoded.0;
    assert_eq!(got.service, want.service);
    assert_eq!(got.name, want.name);
    assert_eq!(got.resource, want.resource);
    assert_eq!(got.trace_id, want.trace_id);
    assert_eq!(got.span_id, want.span_id);
    assert_eq!(got.parent_id, want.parent_id);
    assert_eq!(got.start, want.start);
    assert_eq!(got.duration, want.duration);
    assert_eq!(got.error, want.error);
    assert_eq!(got.meta, want.meta);
    assert_eq!(got.span_type, want.span_type);
    assert_eq!(decoded.1.len(), want.metrics.len());
    for (d, w) in decoded.1.iter().zip(want.metrics.iter()) {
        assert_eq!(d.0, w.0);
        assert_eq!(d.1, f64::from(w.1));
    }
}

#[test]
fn test_message_pack_serialization() {
    let traces: Vec<Vec<RawSpan>> = vec![
        vec![generate_span(0x1122_3344_5566_7788, 7)],
        vec![generate_span(u64::MAX, 300)],
        vec![generate_span(70_000, 5_000_000_000)],
    ];
    let result = serialize_as_msgpack(&traces).unwrap();

    let mut rd: &[u8] = &result[..];
    assert_eq!(rmp::decode::read_array_len(&mut rd).unwrap(), 3);
    for spans in &traces {
        assert_eq!(rmp::decode::read_array_len(&mut rd).unwrap(), 1);
        for span in spans {
            let decoded = read_record(&mut rd);
            same_record(&decoded, span);
        }
    }
    assert!(rd.is_empty());
}

#[test]
fn record_has_exact_bytes() {
    let mut buf: Vec<u8> = vec![0xff];
    assert!(encode_record(&mut buf, &small_span()));
    let mut want = vec![0xffu8];
    want.extend(small_span_bytes());
    assert_eq!(buf, want);
}

#[test]
fn empty_batch_is_an_empty_array() {
    let traces: Vec<Vec<RawSpan>> = Vec::new();
    assert_eq!(serialize_as_msgpack(&traces).unwrap(), vec![0x90u8]);
}

#[test]
fn batch_frames_two_levels_of_arrays() {
    let traces = vec![vec![small_span(), small_span()], vec![], vec![small_span()]];
    let bytes = serialize_as_msgpack(&traces).unwrap();
    let mut want = vec![0x93u8, 0x92];
    want.extend(small_span_bytes());
    want.extend(small_span_bytes());
    want.push(0x90);
    want.push(0x91);
    want.extend(small_span_bytes());
    assert_eq!(bytes, want);
}

#[test]
fn sixteen_spans_take_a_two_byte_length() {
    let mut spans = Vec::new();
    for _ in 0..16 {
        spans.push(small_span());
    }
    let mut buf = Vec::new();
    assert!(encode_trace(&mut buf, &spans));
    assert_eq!(&buf[..3], &[0xdcu8, 0x00, 0x10][..]);
    assert_eq!(buf.len(), 3 + 16 * small_span_bytes().len());
}

#[test]
fn unsigned_values_take_the_shortest_form() {
    let mut span = small_span();
    span.trace_id = 127;
    span.span_id = 128;
    span.parent_id = Some(256);
    span.start = 65_536;
    span.duration = 4_294_967_296;
    span.error = 1;
    let mut buf = Vec::new();
    assert!(encode_record(&mut buf, &span));
    let mut e: Vec<u8> = vec![0x8c];
    e.extend(fixstr("service"));
    e.extend(fixstr("s"));
    e.extend(fixstr("name"));
    e.extend(fixstr("n"));
    e.extend(fixstr("resource"));
    e.extend(fixstr("r"));
    e.extend(fixstr("trace_id"));
    e.push(0x7f);
    e.extend(fixstr("span_id"));
    e.extend_from_slice(&[0xcc, 0x80]);
    e.extend(fixstr("parent_id"));
    e.extend_from_slice(&[0xcd, 0x01, 0x00]);
    e.extend(fixstr("start"));
    e.extend_from_slice(&[0xce, 0x00, 0x01, 0x00, 0x00]);
    e.extend(fixstr("duration"));
    e.extend_from_slice(&[0xcf, 0, 0, 0, 1, 0, 0, 0, 0]);
    e.extend(fixstr("error"));
    e.push(0x01);
    e.extend(fixstr("meta"));
    e.push(0x80);
    e.extend(fixstr("metrics"));
    e.push(0x80);
    e.extend(fixstr("type"));
    e.extend(fixstr("t"));
    assert_eq!(buf, e);
}

#[test]
fn strings_take_the_shortest_header() {
    let mut span = small_span();
    span.service = "a".repeat(31);
    span.name = "b".repeat(32);
    span.resource = "c".repeat(256);
    span.span_type = "é".repeat(40000);
    let mut buf = Vec::new();
    assert!(encode_record(&mut buf, &span));
    let mut rd: &[u8] = &buf[..];
    assert_eq!(rd[0], 0x8c);
    rd = &rd[1..];
    read_key(&mut rd, "service");
    assert_eq!(rd[0], 0xa0 | 31);
    assert_eq!(read_string(&mut rd), span.service);
    read_key(&mut rd, "name");
    assert_eq!(&rd[..2], &[0xd9u8, 32][..]);
    assert_eq!(read_string(&mut rd), span.name);
    read_key(&mut rd, "resource");
    assert_eq!(&rd[..3], &[0xdau8, 0x01, 0x00][..]);
    assert_eq!(read_string(&mut rd), span.resource);
    let tail = &buf[buf.len() - 80000 - 5..];
    assert_eq!(&tail[..5], &[0xdbu8, 0x00, 0x01, 0x38, 0x80][..]);
    assert_eq!(&tail[5..7], "é".as_bytes());
}

#[test]
fn maps_are_written_in_order_with_doubles() {
    let mut span = small_span();
    span.meta = vec![
        (String::from("env"), String::from("staging")),
        (String::from("http.url"), String::from("/home")),
    ];
    span.metrics = vec![(String::from("_sampling_priority_v1"), 1)];
    let mut buf = Vec::new();
    assert!(encode_record(&mut buf, &span));
    let mut meta = vec![0x82u8];
    meta.extend(fixstr("env"));
    meta.extend(fixstr("staging"));
    meta.extend(fixstr("http.url"));
    meta.extend(fixstr("/home"));
    let mut metrics = vec![0x81u8];
    metrics.extend(fixstr("_sampling_priority_v1"));
    metrics.extend_from_slice(&[0xcb, 0x3f, 0xf0, 0, 0, 0, 0, 0, 0]);
    let mut tail = fixstr("meta");
    tail.extend(meta);
    tail.extend(fixstr("metrics"));
    tail.extend(metrics);
    tail.extend(fixstr("type"));
    tail.extend(fixstr("t"));
    assert!(buf.ends_with(&tail));

    let mut rd: &[u8] = &buf[..];
    let decoded = read_record(&mut rd);
    same_record(&decoded, &span);
    assert!(rd.is_empty());
}

#[test]
fn present_parent_is_an_integer() {
    let mut span = small_span();
    span.parent_id = Some(9);
    let mut buf = Vec::new();
    assert!(encode_record(&mut buf, &span));
    let mut rd: &[u8] = &buf[..];
    let decoded = read_record(&mut rd);
    assert_eq!(decoded.0.parent_id, Some(9));
}
