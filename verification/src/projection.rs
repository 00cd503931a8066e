//! From a trace as the caller built it to the records the agent reads.

use vstd::prelude::*;
use crate::model::{entries, numbers, views, RawSpan, RawSpanView, Span, TimeSpan, Trace};

verus! {

/// An annotation map as a value: keys and values in insertion order.
pub type Entries = Seq<(Seq<char>, Seq<char>)>;

/// The first position at or after `from` that holds key `k`, or the length
/// if there is none.
pub open spec fn key_index(m: Entries, k: Seq<char>, from: int) -> int
    decreases m.len() - from,
{
    if from < 0 || from >= m.len() {
        m.len() as int
    } else if m[from].0 == k {
        from
    } else {
        key_index(m, k, from + 1)
    }
}

/// The value stored under `k`, if any.
pub open spec fn lookup(m: Entries, k: Seq<char>) -> Option<Seq<char>> {
    let i = key_index(m, k, 0);
    if i < m.len() {
        Some(m[i].1)
    } else {
        None
    }
}

/// `m` with `k` set to `v`: the value is replaced where the key stands,
/// else the pair is added at the end.
pub open spec fn put(m: Entries, k: Seq<char>, v: Seq<char>) -> Entries {
    let i = key_index(m, k, 0);
    if i < m.len() {
        m.update(i, (k, v))
    } else {
        m.push((k, v))
    }
}

/// No key stands twice.
pub open spec fn distinct_keys(m: Entries) -> bool {
    forall|i: int, j: int| 0 <= i < j < m.len() ==> (#[trigger] m[i]).0 != (#[trigger] m[j]).0
}

/// Where `key_index` points: at the first pair from `from` on that holds
/// the key, or past the end if none does.
pub proof fn lemma_key_index(m: Entries, k: Seq<char>, from: int)
    requires
        0 <= from <= m.len(),
    ensures
        from <= key_index(m, k, from) <= m.len(),
        key_index(m, k, from) < m.len() ==> m[key_index(m, k, from)].0 == k,
        forall|j: int| from <= j < key_index(m, k, from) ==> (#[trigger] m[j]).0 != k,
    decreases m.len() - from,
{
    if from < m.len() && m[from].0 != k {
        lemma_key_index(m, k, from + 1);
    }
}

/// Last write wins: after `put`, the key holds the new value, and every
/// other key holds what it held before.
pub proof fn lemma_put_lookup(m: Entries, k: Seq<char>, v: Seq<char>, other: Seq<char>)
    ensures
        lookup(put(m, k, v), k) == Some(v),
        other != k ==> lookup(put(m, k, v), other) == lookup(m, other),
        put(m, k, v).len() == (if lookup(m, k) is Some { m.len() } else { m.len() + 1 }),
{
    let after = put(m, k, v);
    lemma_key_index(m, k, 0);
    lemma_key_index(after, k, 0);
    lemma_key_index(m, other, 0);
    lemma_key_index(after, other, 0);
    let i = key_index(m, k, 0);
    let i2 = key_index(after, k, 0);
    assert(after[i].0 == k);
    if i2 < i {
        assert(after[i2] == m[i2]);
    }
    if other != k {
        let a = key_index(m, other, 0);
        let b = key_index(after, other, 0);
        if a < m.len() {
            assert(after[a] == m[a]);
            assert(after[a].0 == other);
            assert(b <= a);
        }
        if b < after.len() {
            assert(after[b].0 == other);
            assert(b != i);
            assert(b < m.len());
            assert(after[b] == m[b]);
            assert(a <= b);
        }
    }
}

/// `put` keeps every key single.
pub proof fn lemma_put_keeps_keys_distinct(m: Entries, k: Seq<char>, v: Seq<char>)
    requires
        distinct_keys(m),
    ensures
        distinct_keys(put(m, k, v)),
{
    let after = put(m, k, v);
    lemma_key_index(m, k, 0);
    let i = key_index(m, k, 0);
    assert forall|a: int, b: int| 0 <= a < b < after.len() implies (#[trigger] after[a]).0 != (
    #[trigger] after[b]).0 by {
        if i < m.len() {
            assert(after[a].0 == m[a].0);
            assert(after[b].0 == m[b].0);
        } else if b == m.len() {
            assert(after[a] == m[a]);
        } else {
            assert(after[a] == m[a]);
            assert(after[b] == m[b]);
        }
    }
}

/// Setting tags one after another keeps every key single.
pub proof fn lemma_tags_keep_keys_distinct(m: Entries, tags: Seq<(String, String)>, n: nat)
    requires
        distinct_keys(m),
    ensures
        distinct_keys(with_tags(m, tags, n)),
    decreases n,
{
    if n != 0 && n <= tags.len() {
        lemma_tags_keep_keys_distinct(m, tags, (n - 1) as nat);
        lemma_put_keeps_keys_distinct(
            with_tags(m, tags, (n - 1) as nat),
            tags[n - 1].0@,
            tags[n - 1].1@,
        );
    }
}

/// In the annotations of a span every key stands once, and a tag of the
/// caller holds the tag's value, whatever a fixed field had put under the
/// same key, unless a later tag has the same key.
pub proof fn lemma_meta_keys_are_distinct(span: Span, env: Option<Seq<char>>)
    ensures
        distinct_keys(meta_of(span, env)),
        span.tags@.len() > 0 ==> lookup(meta_of(span, env), span.tags@.last().0@) == Some(
            span.tags@.last().1@,
        ),
{
    let e0 = with_env(env);
    match env {
        Some(e) => {
            lemma_put_keeps_keys_distinct(Seq::empty(), "env"@, e);
        },
        None => {},
    }
    let e1 = with_http(e0, span);
    match span.http {
        Some(h) => {
            let a = put(e0, "http.status_code"@, h.status_code@);
            let b = put(a, "http.method"@, h.method@);
            lemma_put_keeps_keys_distinct(e0, "http.status_code"@, h.status_code@);
            lemma_put_keeps_keys_distinct(a, "http.method"@, h.method@);
            lemma_put_keeps_keys_distinct(b, "http.url"@, h.url@);
        },
        None => {},
    }
    let e2 = with_error(e1, span);
    match span.error {
        Some(x) => {
            let a = put(e1, "error.type"@, x.error_type@);
            let b = put(a, "error.msg"@, x.msg@);
            lemma_put_keeps_keys_distinct(e1, "error.type"@, x.error_type@);
            lemma_put_keeps_keys_distinct(a, "error.msg"@, x.msg@);
            lemma_put_keeps_keys_distinct(b, "error.stack"@, x.stack@);
        },
        None => {},
    }
    let e3 = with_sql(e2, span);
    match span.sql {
        Some(q) => {
            let a = put(e2, "sql.query"@, q.query@);
            let b = put(a, "sql.rows"@, q.rows@);
            lemma_put_keeps_keys_distinct(e2, "sql.query"@, q.query@);
            lemma_put_keeps_keys_distinct(a, "sql.rows"@, q.rows@);
            lemma_put_keeps_keys_distinct(b, "sql.db"@, q.db@);
        },
        None => {},
    }
    lemma_tags_keep_keys_distinct(e3, span.tags@, span.tags@.len());
    if span.tags@.len() > 0 {
        let n = span.tags@.len();
        lemma_put_lookup(
            with_tags(e3, span.tags@, (n - 1) as nat),
            span.tags@[n - 1].0@,
            span.tags@[n - 1].1@,
            span.tags@[n - 1].0@,
        );
    }
}

/// Sets `key` to `value`, replacing an earlier value for the same key.
pub fn insert(meta: &mut Vec<(String, String)>, key: String, value: String)
    ensures
        entries(final(meta)@) == put(entries(old(meta)@), key@, value@),
{
    let ghost e = entries(meta@);
    let n: usize = meta.len();
    let mut i: usize = 0;
    while i < n
        invariant
            i <= n,
            n == meta@.len(),
            meta@ == old(meta)@,
            e == entries(meta@),
            key_index(e, key@, 0) == key_index(e, key@, i as int),
        decreases n - i,
    {
        if meta[i].0 == key {
            meta.set(i, (key, value));
            proof {
                assert(entries(meta@) =~= e.update(i as int, (key@, value@)));
            }
            return ;
        }
        i += 1;
    }
    meta.push((key, value));
    proof {
        assert(entries(meta@) =~= e.push((key@, value@)));
    }
}

/// The value of an optional string.
pub open spec fn opt_view(s: Option<String>) -> Option<Seq<char>> {
    match s {
        Some(x) => Some(x@),
        None => None,
    }
}

/// The annotations that the environment alone gives.
pub open spec fn with_env(env: Option<Seq<char>>) -> Entries {
    match env {
        Some(e) => put(Seq::empty(), "env"@, e),
        None => Seq::empty(),
    }
}

/// `m` after the HTTP details were set, if the span has any.
pub open spec fn with_http(m: Entries, span: Span) -> Entries {
    match span.http {
        Some(h) => put(
            put(put(m, "http.status_code"@, h.status_code@), "http.method"@, h.method@),
            "http.url"@,
            h.url@,
        ),
        None => m,
    }
}

/// `m` after the error details were set, if the span has any.
pub open spec fn with_error(m: Entries, span: Span) -> Entries {
    match span.error {
        Some(e) => put(
            put(put(m, "error.type"@, e.error_type@), "error.msg"@, e.msg@),
            "error.stack"@,
            e.stack@,
        ),
        None => m,
    }
}

/// `m` after the SQL details were set, if the span has any.
pub open spec fn with_sql(m: Entries, span: Span) -> Entries {
    match span.sql {
        Some(q) => put(put(put(m, "sql.query"@, q.query@), "sql.rows"@, q.rows@), "sql.db"@, q.db@),
        None => m,
    }
}

/// `m` after the first `n` tags were set, in order.
pub open spec fn with_tags(m: Entries, tags: Seq<(String, String)>, n: nat) -> Entries
    decreases n,
{
    if n == 0 || n > tags.len() {
        m
    } else {
        put(with_tags(m, tags, (n - 1) as nat), tags[n - 1].0@, tags[n - 1].1@)
    }
}

/// The string annotations of a span: the environment, then the fields of
/// the HTTP, error and SQL details, then the caller's tags, each set in
/// turn so that a later one replaces an earlier one under the same key.
pub open spec fn meta_of(span: Span, env: Option<Seq<char>>) -> Entries {
    with_tags(
        with_sql(with_error(with_http(with_env(env), span), span), span),
        span.tags@,
        span.tags@.len(),
    )
}

/// Builds the string annotations of a span.
pub fn fill_meta(span: &Span, env: Option<String>) -> (meta: Vec<(String, String)>)
    ensures
        entries(meta@) == meta_of(*span, opt_view(env)),
        distinct_keys(entries(meta@)),
{
    proof {
        lemma_meta_keys_are_distinct(*span, opt_view(env));
    }
    let mut meta: Vec<(String, String)> = Vec::new();
    proof {
        assert(entries(meta@) =~= Seq::empty());
    }
    if let Some(env) = env {
        insert(&mut meta, "env".to_owned(), env);
    }
    if let Some(http) = &span.http {
        insert(&mut meta, "http.status_code".to_owned(), http.status_code.clone());
        insert(&mut meta, "http.method".to_owned(), http.method.clone());
        insert(&mut meta, "http.url".to_owned(), http.url.clone());
    }
    if let Some(error) = &span.error {
        insert(&mut meta, "error.type".to_owned(), error.error_type.clone());
        insert(&mut meta, "error.msg".to_owned(), error.msg.clone());
        insert(&mut meta, "error.stack".to_owned(), error.stack.clone());
    }
    if let Some(sql) = &span.sql {
        insert(&mut meta, "sql.query".to_owned(), sql.query.clone());
        insert(&mut meta, "sql.rows".to_owned(), sql.rows.clone());
        insert(&mut meta, "sql.db".to_owned(), sql.db.clone());
    }
    let ghost base = entries(meta@);
    let n: usize = span.tags.len();
    let mut i: usize = 0;
    while i < n
        invariant
            i <= n,
            n == span.tags@.len(),
            entries(meta@) == with_tags(base, span.tags@, i as nat),
        decreases n - i,
    {
        insert(&mut meta, span.tags[i].0.clone(), span.tags[i].1.clone());
        i += 1;
    }
    meta
}

/// The numeric annotations of every span of a trace: the sampling priority
/// under its fixed key, and nothing else.
pub open spec fn metrics_of(priority: u32) -> Seq<(Seq<char>, u32)> {
    seq![("_sampling_priority_v1"@, priority)]
}

/// Builds the numeric annotations of a span.
pub fn fill_metrics(priority: u32) -> (metrics: Vec<(String, u32)>)
    ensures
        numbers(metrics@) == metrics_of(priority),
{
    let mut metrics: Vec<(String, u32)> = Vec::new();
    metrics.push(("_sampling_priority_v1".to_owned(), priority));
    proof {
        assert(numbers(metrics@) =~= metrics_of(priority));
    }
    metrics
}

/// A time in whole nanoseconds.
pub fn duration_to_nanos(duration: TimeSpan) -> (nanos: u64)
    requires
        duration.nanos() <= u64::MAX,
    ensures
        nanos == duration.nanos(),
{
    duration.secs * 1_000_000_000 + (duration.subsec_nanos as u64)
}

/// Whether a span's times can be said in 64-bit nanoseconds.
pub open spec fn span_in_range(span: Span) -> bool {
    span.start.nanos() <= u64::MAX && span.duration.nanos() <= u64::MAX
}

/// The record of `span` within `trace`, with the given environment and
/// service.
pub open spec fn project(trace: Trace, span: Span, env: Option<Seq<char>>, service: Seq<char>) -> RawSpanView {
    RawSpanView {
        service,
        name: span.name@,
        resource: span.resource@,
        trace_id: trace.id,
        span_id: span.id,
        parent_id: span.parent_id,
        start: span.start.nanos() as u64,
        duration: span.duration.nanos() as u64,
        error: if span.error is Some { 1i32 } else { 0i32 },
        meta: meta_of(span, env),
        metrics: metrics_of(trace.priority),
        span_type: span.span_type@,
    }
}

/// The records of a trace: one per span, in the trace's order.
pub open spec fn project_trace(trace: Trace, env: Option<Seq<char>>, service: Seq<char>) -> Seq<RawSpanView> {
    Seq::new(trace.spans@.len(), |j: int| project(trace, trace.spans@[j], env, service))
}

/// A copy of an optional string.
pub(crate) fn clone_opt(s: &Option<String>) -> (r: Option<String>)
    ensures
        opt_view(r) == opt_view(*s),
{
    match s {
        Some(x) => Some(x.clone()),
        None => None,
    }
}

/// One record per span, in the trace's order, with the service and the
/// environment that are current now.
pub fn map_to_raw_spans(trace: &Trace, env: Option<String>, service: String) -> (raws: Vec<RawSpan>)
    requires
        forall|i: int| 0 <= i < trace.spans@.len() ==> span_in_range(#[trigger] trace.spans@[i]),
    ensures
        views(raws@) == project_trace(*trace, opt_view(env), service@),
        forall|i: int| 0 <= i < raws@.len() ==> (#[trigger] raws@[i]).wf(),
{
    let mut raws: Vec<RawSpan> = Vec::new();
    let n: usize = trace.spans.len();
    let mut i: usize = 0;
    while i < n
        invariant
            i <= n,
            n == trace.spans@.len(),
            raws@.len() == i,
            forall|k: int| 0 <= k < trace.spans@.len() ==> span_in_range(#[trigger] trace.spans@[k]),
            forall|k: int|
                0 <= k < i ==> (#[trigger] raws@[k])@ == project(
                    *trace,
                    trace.spans@[k],
                    opt_view(env),
                    service@,
                ),
            forall|k: int| 0 <= k < i ==> (#[trigger] raws@[k]).wf(),
        decreases n - i,
    {
        let span = &trace.spans[i];
        assert(span_in_range(trace.spans@[i as int]));
        let raw = RawSpan {
            service: service.clone(),
            trace_id: trace.id,
            span_id: span.id,
            name: span.name.clone(),
            resource: span.resource.clone(),
            parent_id: span.parent_id,
            start: duration_to_nanos(span.start),
            duration: duration_to_nanos(span.duration),
            error: if span.error.is_some() { 1 } else { 0 },
            span_type: span.span_type.clone(),
            meta: fill_meta(span, clone_opt(&env)),
            metrics: fill_metrics(trace.priority),
        };
        raws.push(raw);
        i += 1;
    }
    proof {
        assert(views(raws@) =~= project_trace(*trace, opt_view(env), service@));
    }
    raws
}

} // verus!
