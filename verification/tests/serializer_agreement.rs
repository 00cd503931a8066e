use std::collections::HashMap;

use datadog_apm::model::RawSpan;
use datadog_apm::wire::serialize_as_msgpack;
use serde::ser::SerializeStruct;
use serde::Serialize;

/// The record as a generic serializer sees it.
struct Record {
    service: String,
    name: String,
    resource: String,
    trace_id: u64,
    span_id: u64,
    parent_id: Option<u64>,
    start: u64,
    duration: u64,
    error: i32,
    meta: HashMap<String, String>,
    metrics: HashMap<String, f64>,
    span_type: String,
}

impl Serialize for Record {
    fn serialize<S: serde::Serializer>(&self, serializer: S) -> Result<S::Ok, S::Error> {
        let mut st = serializer.serialize_struct("RawSpan", 12)?;
        st.serialize_field("service", &self.service)?;
        st.serialize_field("name", &self.name)?;
        st.serialize_field("resource", &self.resource)?;
        st.serialize_field("trace_id", &self.trace_id)?;
        st.serialize_field("span_id", &self.span_id)?;
        st.serialize_field("parent_id", &self.parent_id)?;
        st.serialize_field("start", &self.start)?;
        st.serialize_field("duration", &self.duration)?;
        st.serialize_field("error", &self.error)?;
        st.serialize_field("meta", &self.meta)?;
        st.serialize_field("metrics", &self.metrics)?;
        st.serialize_field("type", &self.span_type)?;
        st.end()
    }
}

fn record_of(raw: &RawSpan) -> Record {
    Record {
        service: raw.service.clone(),
        name: raw.name.clone(),
        resource: raw.resource.clone(),
        trace_id: raw.trace_id,
        span_id: raw.span_id,
        parent_id: raw.parent_id,
        start: raw.start,
        duration: raw.duration,
        error: raw.error,
        meta: raw.meta.iter().cloned().collect(),
        metrics: raw.metrics.iter().map(|(k, v)| (k.clone(), f64::from(*v))).collect(),
        span_type: raw.span_type.clone(),
    }
}

fn with_generic_serializer(traces: &[Vec<RawSpan>]) -> Vec<u8> {
    let mut buf = Vec::new();
    rmp::encode::write_array_len(&mut buf, traces.len() as u32).unwrap();
    for spans in traces {
        rmp::encode::write_array_len(&mut buf, spans.len() as u32).unwrap();
        for span in spans {
            let mut se = rmp_serde::Serializer::new(&mut buf).with_struct_map();
            record_of(span).serialize(&mut se).unwrap();
        }
    }
    buf
}

fn span(trace_id: u64, span_id: u64, parent_id: Option<u64>, error: i32) -> RawSpan {
    RawSpan {
        service: String::from("service_name"),
        name: String::from("request"),
        resource: "/home/".repeat(50),
        trace_id,
        span_id,
        parent_id,
        start: 1_600_000_000_123_456_789,
        duration: 4853472865,
        error,
        meta: vec![(String::from("env"), String::from("staging"))],
        metrics: vec![(String::from("_sampling_priority_v1"), 2)],
        span_type: String::from("web"),
    }
}

#[test]
fn bytes_agree_with_a_struct_map_serializer() {
    let mut many = Vec::new();
    for i in 0..20u64 {
        many.push(span(i, 1 << (3 * i), Some(i * 1000), (i % 2) as i32));
    }
    let traces = vec![
        vec![span(1, 2, None, 0)],
        vec![],
        many,
        vec![span(u64::MAX, 255, Some(65535), 1), span(128, 4_294_967_295, Some(4_294_967_296), 0)],
    ];
    assert_eq!(serialize_as_msgpack(&traces).unwrap(), with_generic_serializer(&traces));
}

#[test]
fn priorities_agree_with_doubles() {
    for p in [0u32, 1, 2, 3, 100, 65_537, u32::MAX] {
        let mut s = span(1, 2, None, 0);
        s.metrics = vec![(String::from("_sampling_priority_v1"), p)];
        let traces = vec![vec![s]];
        assert_eq!(serialize_as_msgpack(&traces).unwrap(), with_generic_serializer(&traces));
    }
}
