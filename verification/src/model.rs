//! The values that instrumentation code builds: traces, spans and the
//! optional details attached to a span, plus the client's configuration.

use vstd::prelude::*;

verus! {

/// A length of time, or an instant counted from the Unix epoch: whole
/// seconds and the nanoseconds beyond them.
#[derive(Debug, Clone, Copy)]
pub struct TimeSpan {
    pub secs: u64,
    pub subsec_nanos: u32,
}

impl TimeSpan {
    /// The whole value in nanoseconds.
    pub open spec fn nanos(&self) -> int {
        self.secs * 1_000_000_000 + self.subsec_nanos
    }

    pub fn new(secs: u64, subsec_nanos: u32) -> (r: TimeSpan)
        ensures
            r.secs == secs,
            r.subsec_nanos == subsec_nanos,
    {
        TimeSpan { secs, subsec_nanos }
    }

    pub fn from_secs(secs: u64) -> (r: TimeSpan)
        ensures
            r.secs == secs,
            r.subsec_nanos == 0,
            r.nanos() == secs * 1_000_000_000,
    {
        TimeSpan { secs, subsec_nanos: 0 }
    }

    pub fn from_millis(millis: u64) -> (r: TimeSpan)
        ensures
            r.secs == millis / 1000,
            r.subsec_nanos == (millis % 1000) * 1_000_000,
            r.nanos() == millis * 1_000_000,
    {
        let secs: u64 = millis / 1000;
        let rest: u64 = millis % 1000;
        let subsec_nanos: u32 = (rest * 1_000_000) as u32;
        TimeSpan { secs, subsec_nanos }
    }

    /// The whole value in nanoseconds, in a width that always holds it.
    pub fn total_nanos(&self) -> (r: u128)
        ensures
            r == self.nanos(),
    {
        (self.secs as u128) * 1_000_000_000u128 + (self.subsec_nanos as u128)
    }
}

/// Configuration settings for the client.
#[derive(Debug, Clone)]
pub struct Config {
    /// Service name reported with every span.
    pub service: String,
    /// Environment reported with every span, if any.
    pub env: Option<String>,
    /// Agent host, `localhost` by default.
    pub host: String,
    /// Agent port, `8126` by default.
    pub port: String,
    /// How many traces may wait in the queue before new ones are dropped.
    pub buffer_queue_capacity: u16,
    /// How many traces go into one request to the agent.
    pub buffer_size: u16,
    /// The longest time a non-empty batch waits before it is sent.
    pub buffer_flush_max_interval: TimeSpan,
}

impl Default for Config {
    fn default() -> (r: Config)
        ensures
            r.service@ == ""@,
            r.env is None,
            r.host@ == "localhost"@,
            r.port@ == "8126"@,
            r.buffer_queue_capacity == 65535,
            r.buffer_size == 200,
            r.buffer_flush_max_interval.nanos() == 200_000_000,
    {
        Config {
            env: None,
            host: "localhost".to_owned(),
            port: "8126".to_owned(),
            service: "".to_owned(),
            buffer_queue_capacity: u16::MAX,
            buffer_size: 200,
            buffer_flush_max_interval: TimeSpan::from_millis(200),
        }
    }
}

#[derive(Debug, Clone)]
pub struct Trace {
    pub id: u64,
    pub spans: Vec<Span>,
    pub priority: u32,
}

#[derive(Debug, Clone)]
pub struct Span {
    pub id: u64,
    pub name: String,
    pub resource: String,
    pub parent_id: Option<u64>,
    /// When the work began, counted from the Unix epoch.
    pub start: TimeSpan,
    pub duration: TimeSpan,
    pub error: Option<ErrorInfo>,
    pub http: Option<HttpInfo>,
    pub sql: Option<SqlInfo>,
    /// Free-form category such as `web` or `db`.
    pub span_type: String,
    /// Caller's tags as key and value; a later entry replaces an earlier
    /// one with the same key.
    pub tags: Vec<(String, String)>,
}

#[derive(Debug, Clone)]
pub struct ErrorInfo {
    pub error_type: String,
    pub msg: String,
    pub stack: String,
}

#[derive(Debug, Clone)]
pub struct HttpInfo {
    pub url: String,
    pub status_code: String,
    pub method: String,
}

#[derive(Debug, Clone)]
pub struct SqlInfo {
    pub query: String,
    pub rows: String,
    pub db: String,
}

/// A span in the shape the agent reads.
#[derive(Debug, Clone)]
pub struct RawSpan {
    pub service: String,
    pub name: String,
    pub resource: String,
    pub trace_id: u64,
    pub span_id: u64,
    pub parent_id: Option<u64>,
    /// Nanoseconds since the Unix epoch.
    pub start: u64,
    /// Nanoseconds.
    pub duration: u64,
    /// 1 if the span carries an error, else 0.
    pub error: i32,
    /// String annotations, each key once.
    pub meta: Vec<(String, String)>,
    /// Numeric annotations; each integer stands for the double equal to it.
    pub metrics: Vec<(String, u32)>,
    pub span_type: String,
}

impl RawSpan {
    /// The error flag is 0 or 1.
    pub open spec fn wf(&self) -> bool {
        self.error == 0 || self.error == 1
    }
}

/// Pairs of strings as values: keys and values in order.
pub open spec fn entries(v: Seq<(String, String)>) -> Seq<(Seq<char>, Seq<char>)> {
    Seq::new(v.len(), |i: int| (v[i].0@, v[i].1@))
}

/// Keyed numbers as values, in order.
pub open spec fn numbers(v: Seq<(String, u32)>) -> Seq<(Seq<char>, u32)> {
    Seq::new(v.len(), |i: int| (v[i].0@, v[i].1))
}

/// What a wire record says, field by field.
pub struct RawSpanView {
    pub service: Seq<char>,
    pub name: Seq<char>,
    pub resource: Seq<char>,
    pub trace_id: u64,
    pub span_id: u64,
    pub parent_id: Option<u64>,
    pub start: u64,
    pub duration: u64,
    pub error: i32,
    pub meta: Seq<(Seq<char>, Seq<char>)>,
    pub metrics: Seq<(Seq<char>, u32)>,
    pub span_type: Seq<char>,
}

impl View for RawSpan {
    type V = RawSpanView;

    open spec fn view(&self) -> RawSpanView {
        RawSpanView {
            service: self.service@,
            name: self.name@,
            resource: self.resource@,
            trace_id: self.trace_id,
            span_id: self.span_id,
            parent_id: self.parent_id,
            start: self.start,
            duration: self.duration,
            error: self.error,
            meta: entries(self.meta@),
            metrics: numbers(self.metrics@),
            span_type: self.span_type@,
        }
    }
}

/// What the records of one trace say.
pub open spec fn views(spans: Seq<RawSpan>) -> Seq<RawSpanView> {
    Seq::new(spans.len(), |i: int| spans[i]@)
}

/// What the records of a batch say, trace by trace.
pub open spec fn batch_views(traces: Seq<Vec<RawSpan>>) -> Seq<Seq<RawSpanView>> {
    Seq::new(traces.len(), |i: int| views(traces[i]@))
}

} // verus!
