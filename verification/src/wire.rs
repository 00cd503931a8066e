//! MessagePack framing of a batch: an array of traces, each an array of
//! span records, each record a map of twelve keys.

use vstd::prelude::*;
use vstd::arithmetic::power2::pow2;
use vstd::utf8::encode_utf8;
use crate::model::{batch_views, entries, numbers, views, RawSpan, RawSpanView};
use crate::reading::{batch_as_read, flag_ok, flags_ok, lemma_payload_reads_back, read_payload};

verus! {

/// The low `n` bytes of `v`, most significant first.
pub open spec fn be_bytes(v: int, n: nat) -> Seq<u8>
    decreases n,
{
    if n == 0 {
        Seq::empty()
    } else {
        be_bytes(v / 256, (n - 1) as nat).push((v % 256) as u8)
    }
}

/// Header of an array of `len` elements.
pub open spec fn array_header(len: u32) -> Seq<u8> {
    if len < 16 {
        seq![(0x90 + len) as u8]
    } else if len < 65536 {
        seq![0xdcu8] + be_bytes(len as int, 2)
    } else {
        seq![0xddu8] + be_bytes(len as int, 4)
    }
}

/// Header of a map of `len` entries.
pub open spec fn map_header(len: u32) -> Seq<u8> {
    if len < 16 {
        seq![(0x80 + len) as u8]
    } else if len < 65536 {
        seq![0xdeu8] + be_bytes(len as int, 2)
    } else {
        seq![0xdfu8] + be_bytes(len as int, 4)
    }
}

/// Header of a string of `len` bytes.
pub open spec fn str_header(len: u32) -> Seq<u8> {
    if len < 32 {
        seq![(0xa0 + len) as u8]
    } else if len < 256 {
        seq![0xd9u8] + be_bytes(len as int, 1)
    } else if len < 65536 {
        seq![0xdau8] + be_bytes(len as int, 2)
    } else {
        seq![0xdbu8] + be_bytes(len as int, 4)
    }
}

/// Whether a string's UTF-8 length can be written in a string header.
pub open spec fn str_fits(s: Seq<char>) -> bool {
    encode_utf8(s).len() <= u32::MAX
}

/// A string on the wire: header, then its UTF-8 bytes.
pub open spec fn str_bytes(s: Seq<char>) -> Seq<u8> {
    str_header(encode_utf8(s).len() as u32) + encode_utf8(s)
}

/// An unsigned integer on the wire, in the shortest form that holds it.
pub open spec fn uint_bytes(v: u64) -> Seq<u8> {
    if v < 128 {
        seq![v as u8]
    } else if v < 256 {
        seq![0xccu8] + be_bytes(v as int, 1)
    } else if v < 65536 {
        seq![0xcdu8] + be_bytes(v as int, 2)
    } else if v < 4294967296 {
        seq![0xceu8] + be_bytes(v as int, 4)
    } else {
        seq![0xcfu8] + be_bytes(v as int, 8)
    }
}

/// The absent value on the wire.
pub open spec fn nil_bytes() -> Seq<u8> {
    seq![0xc0u8]
}

/// The position of the highest set bit of `v`, counted from 0.
pub open spec fn floor_log2(v: nat) -> nat
    decreases v,
{
    if v <= 1 {
        0
    } else {
        1 + floor_log2(v / 2)
    }
}

/// The 64 bits of the double that equals `value`: zero for zero, else the
/// exponent of the highest set bit, biased by 1023, above the 52 fraction
/// bits, which hold the lower bits of `value` from the top.
pub open spec fn double_bits(value: u32) -> int {
    if value == 0 {
        0
    } else {
        let e = floor_log2(value as nat);
        (1023 + e) * pow2(52) + (value - pow2(e)) * pow2((52 - e) as nat)
    }
}

/// The eight bytes, most significant first, of the double that equals `value`.
pub open spec fn double_bytes(value: u32) -> Seq<u8> {
    be_bytes(double_bits(value), 8)
}

/// Calls `rmp::encode::write_array_len` on the buffer. Trusted: it appends
/// the fixarray, array16 or array32 header, whichever is the shortest that
/// holds `len`, and leaves what was written before in place.
#[verifier::external_body]
fn write_array_len(buf: &mut Vec<u8>, len: u32)
    ensures
        final(buf)@ == old(buf)@ + array_header(len),
{
    rmp::encode::write_array_len(buf, len).unwrap();
}

/// Calls `rmp::encode::write_map_len` on the buffer. Trusted: it appends
/// the fixmap, map16 or map32 header, whichever is the shortest that holds
/// `len`.
#[verifier::external_body]
fn write_map_len(buf: &mut Vec<u8>, len: u32)
    ensures
        final(buf)@ == old(buf)@ + map_header(len),
{
    rmp::encode::write_map_len(buf, len).unwrap();
}

/// Calls `rmp::encode::write_str` on the buffer. Trusted: it appends the
/// shortest string header for the byte length of `s`, then the UTF-8 bytes
/// of `s`. Longer strings are left out because the outside function cuts
/// their length to 32 bits.
#[verifier::external_body]
fn write_str(buf: &mut Vec<u8>, s: &str)
    requires
        str_fits(s@),
    ensures
        final(buf)@ == old(buf)@ + str_bytes(s@),
{
    rmp::encode::write_str(buf, s).unwrap();
}

/// Calls `rmp::encode::write_uint` on the buffer. Trusted: it appends `v`
/// as a positive fixint, or as the shortest of the four unsigned forms.
#[verifier::external_body]
fn write_uint(buf: &mut Vec<u8>, v: u64)
    ensures
        final(buf)@ == old(buf)@ + uint_bytes(v),
{
    rmp::encode::write_uint(buf, v).unwrap();
}

/// Calls `rmp::encode::write_sint` on the buffer, for the values that are
/// written as a positive fixint. Trusted: it appends the one byte `v`.
#[verifier::external_body]
fn write_sint(buf: &mut Vec<u8>, v: i64)
    requires
        0 <= v < 128,
    ensures
        final(buf)@ == old(buf)@ + seq![v as u8],
{
    rmp::encode::write_sint(buf, v).unwrap();
}

/// Calls `rmp::encode::write_nil` on the buffer. Trusted: it appends the
/// one byte that stands for the absent value.
#[verifier::external_body]
fn write_nil(buf: &mut Vec<u8>)
    ensures
        final(buf)@ == old(buf)@ + nil_bytes(),
{
    rmp::encode::write_nil(buf).unwrap();
}

/// Calls `rmp::encode::write_f64` on the buffer with the double that equals
/// `value`; every 32-bit integer has one. Trusted: it appends the marker of
/// a 64-bit float and then the eight bytes of that double in the binary64
/// form, most significant first.
#[verifier::external_body]
fn write_double(buf: &mut Vec<u8>, value: u32)
    ensures
        final(buf)@ == old(buf)@ + seq![0xcbu8] + double_bytes(value),
{
    rmp::encode::write_f64(buf, value.into()).unwrap();
}


/// A literal key fits a string header.
proof fn lemma_ascii_fits(s: Seq<char>)
    requires
        vstd::utf8::is_ascii_chars(s),
        s.len() < 32,
    ensures
        str_fits(s),
{
    vstd::utf8::is_ascii_chars_encode_utf8(s);
}

/// Appends a string if its length can be framed.
fn put_str(buf: &mut Vec<u8>, s: &str) -> (ok: bool)
    ensures
        ok == str_fits(s@),
        ok ==> final(buf)@ == old(buf)@ + str_bytes(s@),
{
    if s.as_bytes().len() > 0xFFFF_FFFF {
        false
    } else {
        write_str(buf, s);
        true
    }
}

/// An optional unsigned integer on the wire.
pub open spec fn opt_uint_bytes(v: Option<u64>) -> Seq<u8> {
    match v {
        Some(x) => uint_bytes(x),
        None => nil_bytes(),
    }
}

/// The first `n` entries of a string map, key then value, in order.
pub open spec fn pairs_bytes(m: Seq<(Seq<char>, Seq<char>)>, n: nat) -> Seq<u8>
    decreases n,
{
    if n == 0 || n > m.len() {
        Seq::empty()
    } else {
        pairs_bytes(m, (n - 1) as nat) + str_bytes(m[n - 1].0) + str_bytes(m[n - 1].1)
    }
}

/// Whether a string map can be framed.
pub open spec fn pairs_fit(m: Seq<(Seq<char>, Seq<char>)>) -> bool {
    &&& m.len() <= u32::MAX
    &&& forall|i: int| 0 <= i < m.len() ==> str_fits((#[trigger] m[i]).0) && str_fits(m[i].1)
}

/// A string map on the wire.
pub open spec fn meta_bytes(m: Seq<(Seq<char>, Seq<char>)>) -> Seq<u8> {
    map_header(m.len() as u32) + pairs_bytes(m, m.len())
}

/// The first `n` entries of a numeric map, key then double, in order.
pub open spec fn numbers_bytes(m: Seq<(Seq<char>, u32)>, n: nat) -> Seq<u8>
    decreases n,
{
    if n == 0 || n > m.len() {
        Seq::empty()
    } else {
        numbers_bytes(m, (n - 1) as nat) + str_bytes(m[n - 1].0) + seq![0xcbu8] + double_bytes(
            m[n - 1].1,
        )
    }
}

/// Whether a numeric map can be framed.
pub open spec fn numbers_fit(m: Seq<(Seq<char>, u32)>) -> bool {
    &&& m.len() <= u32::MAX
    &&& forall|i: int| 0 <= i < m.len() ==> str_fits((#[trigger] m[i]).0)
}

/// A numeric map on the wire.
pub open spec fn metrics_bytes(m: Seq<(Seq<char>, u32)>) -> Seq<u8> {
    map_header(m.len() as u32) + numbers_bytes(m, m.len())
}

/// Whether every string and count of a record can be framed.
pub open spec fn record_fits(r: RawSpanView) -> bool {
    &&& str_fits(r.service)
    &&& str_fits(r.name)
    &&& str_fits(r.resource)
    &&& pairs_fit(r.meta)
    &&& numbers_fit(r.metrics)
    &&& str_fits(r.span_type)
}

/// One span record on the wire: a map of twelve keys in a fixed order.
pub open spec fn record_bytes(r: RawSpanView) -> Seq<u8> {
    map_header(12)
        + str_bytes("service"@) + str_bytes(r.service)
        + str_bytes("name"@) + str_bytes(r.name)
        + str_bytes("resource"@) + str_bytes(r.resource)
        + str_bytes("trace_id"@) + uint_bytes(r.trace_id)
        + str_bytes("span_id"@) + uint_bytes(r.span_id)
        + str_bytes("parent_id"@) + opt_uint_bytes(r.parent_id)
        + str_bytes("start"@) + uint_bytes(r.start)
        + str_bytes("duration"@) + uint_bytes(r.duration)
        + str_bytes("error"@) + seq![r.error as u8]
        + str_bytes("meta"@) + meta_bytes(r.meta)
        + str_bytes("metrics"@) + metrics_bytes(r.metrics)
        + str_bytes("type"@) + str_bytes(r.span_type)
}

/// Appends a key and a string value.
fn put_str_field(buf: &mut Vec<u8>, key: &str, val: &str, Ghost(pre): Ghost<Seq<u8>>, Ghost(acc): Ghost<Seq<u8>>) -> (ok: bool)
    requires
        old(buf)@ == pre + acc,
        str_fits(key@),
    ensures
        ok == str_fits(val@),
        ok ==> final(buf)@ == pre + (acc + str_bytes(key@) + str_bytes(val@)),
{
    write_str(buf, key);
    let ok = put_str(buf, val);
    proof {
        if ok {
            assert(buf@ =~= pre + (acc + str_bytes(key@) + str_bytes(val@)));
        }
    }
    ok
}

/// Appends a key and an unsigned value.
fn put_uint_field(buf: &mut Vec<u8>, key: &str, val: u64, Ghost(pre): Ghost<Seq<u8>>, Ghost(acc): Ghost<Seq<u8>>)
    requires
        old(buf)@ == pre + acc,
        str_fits(key@),
    ensures
        final(buf)@ == pre + (acc + str_bytes(key@) + uint_bytes(val)),
{
    write_str(buf, key);
    write_uint(buf, val);
    proof {
        assert(buf@ =~= pre + (acc + str_bytes(key@) + uint_bytes(val)));
    }
}

/// Appends the entries of a string map after its header.
fn put_meta(buf: &mut Vec<u8>, meta: &Vec<(String, String)>) -> (ok: bool)
    ensures
        ok == pairs_fit(entries(meta@)),
        ok ==> final(buf)@ == old(buf)@ + meta_bytes(entries(meta@)),
{
    let n: usize = meta.len();
    if n > 0xFFFF_FFFF {
        return false;
    }
    write_map_len(buf, n as u32);
    let ghost pre = old(buf)@;
    let mut i: usize = 0;
    while i < n
        invariant
            i <= n,
            n == meta@.len(),
            n <= u32::MAX,
            buf@ == pre + (map_header(n as u32) + pairs_bytes(entries(meta@), i as nat)),
            forall|j: int|
                0 <= j < i ==> str_fits((#[trigger] entries(meta@)[j]).0) && str_fits(
                    entries(meta@)[j].1,
                ),
        decreases n - i,
    {
        assert(entries(meta@)[i as int] == (meta@[i as int].0@, meta@[i as int].1@));
        if !put_str(buf, meta[i].0.as_str()) {
            return false;
        }
        if !put_str(buf, meta[i].1.as_str()) {
            return false;
        }
        proof {
            assert(buf@ =~= pre + (map_header(n as u32) + pairs_bytes(
                entries(meta@),
                (i + 1) as nat,
            )));
        }
        i += 1;
    }
    true
}

/// Appends the entries of a numeric map after its header.
fn put_metrics(buf: &mut Vec<u8>, metrics: &Vec<(String, u32)>) -> (ok: bool)
    ensures
        ok == numbers_fit(numbers(metrics@)),
        ok ==> final(buf)@ == old(buf)@ + metrics_bytes(numbers(metrics@)),
{
    let n: usize = metrics.len();
    if n > 0xFFFF_FFFF {
        return false;
    }
    write_map_len(buf, n as u32);
    let ghost pre = old(buf)@;
    let mut i: usize = 0;
    while i < n
        invariant
            i <= n,
            n == metrics@.len(),
            n <= u32::MAX,
            buf@ == pre + (map_header(n as u32) + numbers_bytes(numbers(metrics@), i as nat)),
            forall|j: int| 0 <= j < i ==> str_fits((#[trigger] numbers(metrics@)[j]).0),
        decreases n - i,
    {
        assert(numbers(metrics@)[i as int] == (metrics@[i as int].0@, metrics@[i as int].1));
        if !put_str(buf, metrics[i].0.as_str()) {
            return false;
        }
        write_double(buf, metrics[i].1);
        proof {
            assert(buf@ =~= pre + (map_header(n as u32) + numbers_bytes(
                numbers(metrics@),
                (i + 1) as nat,
            )));
        }
        i += 1;
    }
    true
}

/// Every key of a span record fits a string header.
pub(crate) proof fn lemma_keys_fit()
    ensures
        str_fits("service"@),
        str_fits("name"@),
        str_fits("resource"@),
        str_fits("trace_id"@),
        str_fits("span_id"@),
        str_fits("parent_id"@),
        str_fits("start"@),
        str_fits("duration"@),
        str_fits("error"@),
        str_fits("meta"@),
        str_fits("metrics"@),
        str_fits("type"@),
{
    reveal_strlit("service");
    reveal_strlit("name");
    reveal_strlit("resource");
    reveal_strlit("trace_id");
    reveal_strlit("span_id");
    reveal_strlit("parent_id");
    reveal_strlit("start");
    reveal_strlit("duration");
    reveal_strlit("error");
    reveal_strlit("meta");
    reveal_strlit("metrics");
    reveal_strlit("type");
    lemma_ascii_fits("service"@);
    lemma_ascii_fits("name"@);
    lemma_ascii_fits("resource"@);
    lemma_ascii_fits("trace_id"@);
    lemma_ascii_fits("span_id"@);
    lemma_ascii_fits("parent_id"@);
    lemma_ascii_fits("start"@);
    lemma_ascii_fits("duration"@);
    lemma_ascii_fits("error"@);
    lemma_ascii_fits("meta"@);
    lemma_ascii_fits("metrics"@);
    lemma_ascii_fits("type"@);
}

/// Appends a key and an optional unsigned value.
fn put_opt_uint_field(buf: &mut Vec<u8>, key: &str, val: Option<u64>, Ghost(pre): Ghost<Seq<u8>>, Ghost(acc): Ghost<Seq<u8>>)
    requires
        old(buf)@ == pre + acc,
        str_fits(key@),
    ensures
        final(buf)@ == pre + (acc + str_bytes(key@) + opt_uint_bytes(val)),
{
    write_str(buf, key);
    match val {
        Some(id) => write_uint(buf, id),
        None => write_nil(buf),
    }
    proof {
        assert(buf@ =~= pre + (acc + str_bytes(key@) + opt_uint_bytes(val)));
    }
}

/// Appends a key and a flag that is 0 or 1.
fn put_flag_field(buf: &mut Vec<u8>, key: &str, val: i32, Ghost(pre): Ghost<Seq<u8>>, Ghost(acc): Ghost<Seq<u8>>)
    requires
        old(buf)@ == pre + acc,
        str_fits(key@),
        val == 0 || val == 1,
    ensures
        final(buf)@ == pre + (acc + str_bytes(key@) + seq![val as u8]),
{
    write_str(buf, key);
    write_sint(buf, val as i64);
    proof {
        assert(buf@ =~= pre + (acc + str_bytes(key@) + seq![val as u8]));
    }
}

/// Appends a key and a string map.
fn put_meta_field(buf: &mut Vec<u8>, key: &str, val: &Vec<(String, String)>, Ghost(pre): Ghost<Seq<u8>>, Ghost(acc): Ghost<Seq<u8>>) -> (ok: bool)
    requires
        old(buf)@ == pre + acc,
        str_fits(key@),
    ensures
        ok == pairs_fit(entries(val@)),
        ok ==> final(buf)@ == pre + (acc + str_bytes(key@) + meta_bytes(entries(val@))),
{
    write_str(buf, key);
    let ok = put_meta(buf, val);
    proof {
        if ok {
            assert(buf@ =~= pre + (acc + str_bytes(key@) + meta_bytes(entries(val@))));
        }
    }
    ok
}

/// Appends a key and a numeric map.
fn put_metrics_field(buf: &mut Vec<u8>, key: &str, val: &Vec<(String, u32)>, Ghost(pre): Ghost<Seq<u8>>, Ghost(acc): Ghost<Seq<u8>>) -> (ok: bool)
    requires
        old(buf)@ == pre + acc,
        str_fits(key@),
    ensures
        ok == numbers_fit(numbers(val@)),
        ok ==> final(buf)@ == pre + (acc + str_bytes(key@) + metrics_bytes(numbers(val@))),
{
    write_str(buf, key);
    let ok = put_metrics(buf, val);
    proof {
        if ok {
            assert(buf@ =~= pre + (acc + str_bytes(key@) + metrics_bytes(numbers(val@))));
        }
    }
    ok
}

/// Appends one span record, if all of it can be framed.
#[verifier::rlimit(50)]
pub fn encode_record(buf: &mut Vec<u8>, r: &RawSpan) -> (ok: bool)
    requires
        r.wf(),
    ensures
        ok == record_fits(r@),
        ok ==> final(buf)@ == old(buf)@ + record_bytes(r@),
{
    let ghost pre = buf@;
    proof {
        lemma_keys_fit();
    }
    write_map_len(buf, 12);
    let ghost a0 = map_header(12);
    if !put_str_field(buf, "service", r.service.as_str(), Ghost(pre), Ghost(a0)) {
        return false;
    }
    let ghost a1 = a0 + str_bytes("service"@) + str_bytes(r.service@);
    if !put_str_field(buf, "name", r.name.as_str(), Ghost(pre), Ghost(a1)) {
        return false;
    }
    let ghost a2 = a1 + str_bytes("name"@) + str_bytes(r.name@);
    if !put_str_field(buf, "resource", r.resource.as_str(), Ghost(pre), Ghost(a2)) {
        return false;
    }
    let ghost a3 = a2 + str_bytes("resource"@) + str_bytes(r.resource@);
    put_uint_field(buf, "trace_id", r.trace_id, Ghost(pre), Ghost(a3));
    let ghost a4 = a3 + str_bytes("trace_id"@) + uint_bytes(r.trace_id);
    put_uint_field(buf, "span_id", r.span_id, Ghost(pre), Ghost(a4));
    let ghost a5 = a4 + str_bytes("span_id"@) + uint_bytes(r.span_id);
    put_opt_uint_field(buf, "parent_id", r.parent_id, Ghost(pre), Ghost(a5));
    let ghost a6 = a5 + str_bytes("parent_id"@) + opt_uint_bytes(r.parent_id);
    put_uint_field(buf, "start", r.start, Ghost(pre), Ghost(a6));
    let ghost a7 = a6 + str_bytes("start"@) + uint_bytes(r.start);
    put_uint_field(buf, "duration", r.duration, Ghost(pre), Ghost(a7));
    let ghost a8 = a7 + str_bytes("duration"@) + uint_bytes(r.duration);
    put_flag_field(buf, "error", r.error, Ghost(pre), Ghost(a8));
    let ghost a9 = a8 + str_bytes("error"@) + seq![r.error as u8];
    if !put_meta_field(buf, "meta", &r.meta, Ghost(pre), Ghost(a9)) {
        return false;
    }
    let ghost a10 = a9 + str_bytes("meta"@) + meta_bytes(entries(r.meta@));
    if !put_metrics_field(buf, "metrics", &r.metrics, Ghost(pre), Ghost(a10)) {
        return false;
    }
    let ghost a11 = a10 + str_bytes("metrics"@) + metrics_bytes(numbers(r.metrics@));
    put_str_field(buf, "type", r.span_type.as_str(), Ghost(pre), Ghost(a11))
}


/// Concatenation may be grouped either way.
pub(crate) proof fn lemma_assoc(a: Seq<u8>, b: Seq<u8>, c: Seq<u8>)
    ensures
        (a + b) + c == a + (b + c),
{
    assert((a + b) + c =~= a + (b + c));
}

/// The first `n` records of a trace, in order.
pub open spec fn spans_bytes(spans: Seq<RawSpanView>, n: nat) -> Seq<u8>
    decreases n,
{
    if n == 0 || n > spans.len() {
        Seq::empty()
    } else {
        spans_bytes(spans, (n - 1) as nat) + record_bytes(spans[n - 1])
    }
}

/// One trace on the wire: an array header with the span count, then the records.
pub open spec fn trace_bytes(spans: Seq<RawSpanView>) -> Seq<u8> {
    array_header(spans.len() as u32) + spans_bytes(spans, spans.len())
}

/// Whether a trace can be framed.
pub open spec fn trace_fits(spans: Seq<RawSpanView>) -> bool {
    &&& spans.len() <= u32::MAX
    &&& forall|i: int| 0 <= i < spans.len() ==> record_fits(#[trigger] spans[i])
}

/// The first `n` traces of a batch, in order.
pub open spec fn traces_bytes(traces: Seq<Seq<RawSpanView>>, n: nat) -> Seq<u8>
    decreases n,
{
    if n == 0 || n > traces.len() {
        Seq::empty()
    } else {
        traces_bytes(traces, (n - 1) as nat) + trace_bytes(traces[n - 1])
    }
}

/// A batch on the wire: an array header with the trace count, then each
/// trace as an array of its own.
pub open spec fn payload_bytes(traces: Seq<Seq<RawSpanView>>) -> Seq<u8> {
    array_header(traces.len() as u32) + traces_bytes(traces, traces.len())
}

/// Whether a batch can be framed.
pub open spec fn payload_fits(traces: Seq<Seq<RawSpanView>>) -> bool {
    &&& traces.len() <= u32::MAX
    &&& forall|i: int| 0 <= i < traces.len() ==> trace_fits(#[trigger] traces[i])
}

/// Every record of the batch has a valid error flag.
pub open spec fn payload_wf(traces: Seq<Vec<RawSpan>>) -> bool {
    forall|i: int, j: int|
        0 <= i < traces.len() && 0 <= j < traces[i]@.len() ==> (#[trigger] traces[i]@[j]).wf()
}

/// Why a batch could not be written.
#[derive(Debug, Clone, Copy, PartialEq, Eq, Structural)]
pub enum EncodeError {
    /// A string is longer, or a trace, a map or the batch has more
    /// elements, than a 32-bit length can say.
    TooLarge,
}

/// Appends one trace: its span count, then each record.
#[verifier::rlimit(50)]
pub fn encode_trace(buf: &mut Vec<u8>, spans: &Vec<RawSpan>) -> (ok: bool)
    requires
        forall|j: int| 0 <= j < spans@.len() ==> (#[trigger] spans@[j]).wf(),
    ensures
        ok == trace_fits(views(spans@)),
        ok ==> final(buf)@ == old(buf)@ + trace_bytes(views(spans@)),
{
    let n: usize = spans.len();
    if n > 0xFFFF_FFFF {
        return false;
    }
    let ghost pre = buf@;
    write_array_len(buf, n as u32);
    let mut j: usize = 0;
    while j < n
        invariant
            j <= n,
            n == spans@.len(),
            n <= u32::MAX,
            forall|k: int| 0 <= k < spans@.len() ==> (#[trigger] spans@[k]).wf(),
            buf@ == pre + (array_header(n as u32) + spans_bytes(views(spans@), j as nat)),
            forall|k: int| 0 <= k < j ==> record_fits(#[trigger] views(spans@)[k]),
        decreases n - j,
    {
        assert(views(spans@)[j as int] == spans@[j as int]@);
        if !encode_record(buf, &spans[j]) {
            return false;
        }
        proof {
            let head = array_header(n as u32);
            let done = spans_bytes(views(spans@), j as nat);
            let next = record_bytes(spans@[j as int]@);
            lemma_assoc(pre, head + done, next);
            lemma_assoc(head, done, next);
        }
        j += 1;
    }
    true
}

/// Writes the batch into a fresh buffer: the trace count, then each trace.
#[verifier::rlimit(50)]
fn encode_payload(traces: &Vec<Vec<RawSpan>>) -> (r: Result<Vec<u8>, EncodeError>)
    requires
        payload_wf(traces@),
    ensures
        r is Ok <==> payload_fits(batch_views(traces@)),
        r matches Ok(bytes) ==> bytes@ == payload_bytes(batch_views(traces@)),
        r matches Err(e) ==> e == EncodeError::TooLarge,
{
    let n: usize = traces.len();
    if n > 0xFFFF_FFFF {
        return Err(EncodeError::TooLarge);
    }
    let mut buf: Vec<u8> = Vec::new();
    write_array_len(&mut buf, n as u32);
    proof {
        assert(buf@ =~= array_header(n as u32) + traces_bytes(batch_views(traces@), 0));
    }
    let mut i: usize = 0;
    while i < n
        invariant
            i <= n,
            n == traces@.len(),
            n <= u32::MAX,
            payload_wf(traces@),
            buf@ == array_header(n as u32) + traces_bytes(batch_views(traces@), i as nat),
            forall|k: int| 0 <= k < i ==> trace_fits(#[trigger] batch_views(traces@)[k]),
        decreases n - i,
    {
        assert(batch_views(traces@)[i as int] == views(traces@[i as int]@));
        if !encode_trace(&mut buf, &traces[i]) {
            return Err(EncodeError::TooLarge);
        }
        proof {
            lemma_assoc(
                array_header(n as u32),
                traces_bytes(batch_views(traces@), i as nat),
                trace_bytes(views(traces@[i as int]@)),
            );
        }
        i += 1;
    }
    Ok(buf)
}

/// Writes a batch as an array of per-trace arrays of span records. The two
/// levels of array framing are written here, length first; each record is a
/// map of its twelve fields. What was written reads back as the batch.
#[verifier::rlimit(50)]
pub fn serialize_as_msgpack(traces: &Vec<Vec<RawSpan>>) -> (r: Result<Vec<u8>, EncodeError>)
    requires
        payload_wf(traces@),
    ensures
        r is Ok <==> payload_fits(batch_views(traces@)),
        r matches Ok(bytes) ==> bytes@ == payload_bytes(batch_views(traces@)),
        r matches Ok(bytes) ==> read_payload(bytes@) == Some(
            batch_as_read(batch_views(traces@)),
        ),
        r matches Err(e) ==> e == EncodeError::TooLarge,
{
    proof {
        if payload_fits(batch_views(traces@)) {
            assert forall|i: int| 0 <= i < batch_views(traces@).len() implies flags_ok(
                #[trigger] batch_views(traces@)[i],
            ) by {
                assert forall|j: int| 0 <= j < batch_views(traces@)[i].len() implies flag_ok(
                    #[trigger] batch_views(traces@)[i][j],
                ) by {
                    assert(traces@[i]@[j].wf());
                }
            }
            lemma_payload_reads_back(batch_views(traces@));
        }
    }
    encode_payload(traces)
}

} // verus!
