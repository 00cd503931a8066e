//! Reading the wire format back: what a reader finds in the bytes that the
//! encoder wrote. Nothing here runs; these functions say what the bytes
//! mean, and the laws say that nothing is lost in writing.

use vstd::prelude::*;
use vstd::utf8::encode_utf8;
use crate::model::RawSpanView;
use crate::wire::{
    array_header, be_bytes, double_bytes, map_header, meta_bytes, metrics_bytes, numbers_bytes,
    numbers_fit, opt_uint_bytes, pairs_bytes, pairs_fit, payload_bytes, payload_fits,
    record_bytes, record_fits, spans_bytes, str_bytes, str_fits, trace_bytes, trace_fits,
    traces_bytes, uint_bytes,
};

verus! {

/// Reads an array header at the front of `b`: the length it says, and the
/// bytes that follow it.
pub open spec fn read_array_header(b: Seq<u8>) -> Option<(u32, Seq<u8>)> {
    if b.len() >= 1 && 0x90 <= b[0] <= 0x9f {
        Some(((b[0] - 0x90) as u32, b.skip(1)))
    } else if b.len() >= 3 && b[0] == 0xdc {
        Some(((b[1] * 256 + b[2]) as u32, b.skip(3)))
    } else if b.len() >= 5 && b[0] == 0xdd {
        Some(((b[1] * 16777216 + b[2] * 65536 + b[3] * 256 + b[4]) as u32, b.skip(5)))
    } else {
        None
    }
}

/// An array header reads back as the length it was written for, and
/// leaves what follows it untouched.
pub proof fn lemma_array_header_reads_back(len: u32, rest: Seq<u8>)
    ensures
        read_array_header(array_header(len) + rest) == Some((len, rest)),
{
    let h = array_header(len);
    let b = h + rest;
    reveal_with_fuel(be_bytes, 5);
    let v = len as int;
    if len < 16 {
        assert(h.len() == 1);
        assert(b[0] == h[0]);
        assert(b.skip(1) =~= rest);
    } else if len < 65536 {
        assert(be_bytes(v, 2) =~= seq![((v / 256) % 256) as u8, (v % 256) as u8]);
        assert(h =~= seq![0xdcu8, ((v / 256) % 256) as u8, (v % 256) as u8]);
        assert(b[0] == h[0] && b[1] == h[1] && b[2] == h[2]);
        assert(b.skip(3) =~= rest);
    } else {
        assert(be_bytes(v, 4) =~= seq![
            ((v / 16777216) % 256) as u8,
            ((v / 65536) % 256) as u8,
            ((v / 256) % 256) as u8,
            (v % 256) as u8,
        ]) by {
            assert(v / 256 / 256 == v / 65536);
            assert(v / 256 / 256 / 256 == v / 16777216);
        }
        assert(h =~= seq![
            0xddu8,
            ((v / 16777216) % 256) as u8,
            ((v / 65536) % 256) as u8,
            ((v / 256) % 256) as u8,
            (v % 256) as u8,
        ]);
        assert(b[0] == h[0] && b[1] == h[1] && b[2] == h[2] && b[3] == h[3] && b[4] == h[4]);
        assert(b.skip(5) =~= rest);
    }
}

/// Whether `v` can be said in `n` bytes.
pub open spec fn fits_bytes(v: int, n: nat) -> bool
    decreases n,
{
    if n == 0 {
        v == 0
    } else {
        v >= 0 && fits_bytes(v / 256, (n - 1) as nat)
    }
}

/// The number that the first `n` bytes of `b` say, most significant first.
pub open spec fn be_value(b: Seq<u8>, n: nat) -> int
    decreases n,
{
    if n == 0 || n > b.len() {
        0
    } else {
        be_value(b, (n - 1) as nat) * 256 + b[n - 1]
    }
}

/// The bytes of a number say that number, whatever follows them.
pub proof fn lemma_be_reads_back(v: int, n: nat, rest: Seq<u8>)
    requires
        fits_bytes(v, n),
    ensures
        be_bytes(v, n).len() == n,
        be_value(be_bytes(v, n) + rest, n) == v,
    decreases n,
{
    if n > 0 {
        let p = be_bytes(v / 256, (n - 1) as nat);
        let x = (v % 256) as u8;
        lemma_be_reads_back(v / 256, (n - 1) as nat, seq![x] + rest);
        assert(be_bytes(v, n) + rest =~= p + (seq![x] + rest));
        assert((be_bytes(v, n) + rest)[n - 1] == x);
    }
}

/// Reads an unsigned integer at the front of `b`: its value, and the bytes
/// that follow it.
pub open spec fn read_uint(b: Seq<u8>) -> Option<(u64, Seq<u8>)> {
    if b.len() >= 1 && b[0] < 0x80 {
        Some((b[0] as u64, b.skip(1)))
    } else if b.len() >= 2 && b[0] == 0xcc {
        Some((be_value(b.skip(1), 1) as u64, b.skip(2)))
    } else if b.len() >= 3 && b[0] == 0xcd {
        Some((be_value(b.skip(1), 2) as u64, b.skip(3)))
    } else if b.len() >= 5 && b[0] == 0xce {
        Some((be_value(b.skip(1), 4) as u64, b.skip(5)))
    } else if b.len() >= 9 && b[0] == 0xcf {
        Some((be_value(b.skip(1), 8) as u64, b.skip(9)))
    } else {
        None
    }
}

/// An unsigned integer reads back as itself, and leaves what follows it
/// untouched.
pub proof fn lemma_uint_reads_back(v: u64, rest: Seq<u8>)
    ensures
        read_uint(uint_bytes(v) + rest) == Some((v, rest)),
{
    let b = uint_bytes(v) + rest;
    reveal_with_fuel(fits_bytes, 9);
    if v < 128 {
        assert(b[0] == v as u8);
        assert(b.skip(1) =~= rest);
    } else {
        let n: nat = if v < 256 {
            1
        } else if v < 65536 {
            2
        } else if v < 4294967296 {
            4
        } else {
            8
        };
        assert(fits_bytes(v as int, n));
        lemma_be_reads_back(v as int, n, rest);
        assert(b.skip(1) =~= be_bytes(v as int, n) + rest);
        assert(b.skip(1 + n as int) =~= rest);
    }
}

/// Reads a string at the front of `b`: its characters, and the bytes that
/// follow it.
pub open spec fn read_str(b: Seq<u8>) -> Option<(Seq<char>, Seq<u8>)> {
    let header: Option<(int, Seq<u8>)> = if b.len() >= 1 && 0xa0 <= b[0] <= 0xbf {
        Some((b[0] - 0xa0, b.skip(1)))
    } else if b.len() >= 2 && b[0] == 0xd9 {
        Some((be_value(b.skip(1), 1), b.skip(2)))
    } else if b.len() >= 3 && b[0] == 0xda {
        Some((be_value(b.skip(1), 2), b.skip(3)))
    } else if b.len() >= 5 && b[0] == 0xdb {
        Some((be_value(b.skip(1), 4), b.skip(5)))
    } else {
        None
    };
    match header {
        Some((len, after)) => if 0 <= len <= after.len() {
            Some((vstd::utf8::decode_utf8(after.take(len)), after.skip(len)))
        } else {
            None
        },
        None => None,
    }
}

/// A string that fits reads back as itself, and leaves what follows it
/// untouched.
pub proof fn lemma_str_reads_back(s: Seq<char>, rest: Seq<u8>)
    requires
        str_fits(s),
    ensures
        read_str(str_bytes(s) + rest) == Some((s, rest)),
{
    let body = encode_utf8(s);
    let len = body.len() as int;
    let b = str_bytes(s) + rest;
    vstd::utf8::encode_utf8_decode_utf8(s);
    reveal_with_fuel(fits_bytes, 5);
    if len < 32 {
        assert(b[0] == (0xa0 + len) as u8);
        assert(b.skip(1) =~= body + rest);
        assert(b.skip(1).take(len) =~= body);
        assert(b.skip(1).skip(len) =~= rest);
    } else {
        let n: nat = if len < 256 {
            1
        } else if len < 65536 {
            2
        } else {
            4
        };
        assert(fits_bytes(len, n));
        lemma_be_reads_back(len, n, body + rest);
        assert(b.skip(1) =~= be_bytes(len, n) + (body + rest));
        assert(b.skip(1 + n as int) =~= body + rest);
        assert(b.skip(1 + n as int).take(len) =~= body);
        assert(b.skip(1 + n as int).skip(len) =~= rest);
    }
}

/// Reads a map header at the front of `b`: the number of entries it says,
/// and the bytes that follow it.
pub open spec fn read_map_header(b: Seq<u8>) -> Option<(u32, Seq<u8>)> {
    if b.len() >= 1 && 0x80 <= b[0] <= 0x8f {
        Some(((b[0] - 0x80) as u32, b.skip(1)))
    } else if b.len() >= 3 && b[0] == 0xde {
        Some((be_value(b.skip(1), 2) as u32, b.skip(3)))
    } else if b.len() >= 5 && b[0] == 0xdf {
        Some((be_value(b.skip(1), 4) as u32, b.skip(5)))
    } else {
        None
    }
}

/// A map header reads back as the count it was written for.
pub proof fn lemma_map_header_reads_back(len: u32, rest: Seq<u8>)
    ensures
        read_map_header(map_header(len) + rest) == Some((len, rest)),
{
    let b = map_header(len) + rest;
    reveal_with_fuel(fits_bytes, 5);
    if len < 16 {
        assert(b[0] == (0x80 + len) as u8);
        assert(b.skip(1) =~= rest);
    } else {
        let n: nat = if len < 65536 {
            2
        } else {
            4
        };
        assert(fits_bytes(len as int, n));
        lemma_be_reads_back(len as int, n, rest);
        assert(b.skip(1) =~= be_bytes(len as int, n) + rest);
        assert(b.skip(1 + n as int) =~= rest);
    }
}

/// Reads an integer or the absent value at the front of `b`.
pub open spec fn read_opt_uint(b: Seq<u8>) -> Option<(Option<u64>, Seq<u8>)> {
    if b.len() >= 1 && b[0] == 0xc0 {
        Some((None, b.skip(1)))
    } else {
        match read_uint(b) {
            Some((v, after)) => Some((Some(v), after)),
            None => None,
        }
    }
}

/// An optional integer reads back as itself.
pub proof fn lemma_opt_uint_reads_back(v: Option<u64>, rest: Seq<u8>)
    ensures
        read_opt_uint(opt_uint_bytes(v) + rest) == Some((v, rest)),
{
    let b = opt_uint_bytes(v) + rest;
    match v {
        Some(x) => {
            lemma_uint_reads_back(x, rest);
            assert(b[0] == uint_bytes(x)[0]);
        },
        None => {
            assert(b[0] == 0xc0);
            assert(b.skip(1) =~= rest);
        },
    }
}

/// Reads `n` pairs of strings at the front of `b`.
pub open spec fn read_pairs(b: Seq<u8>, n: nat) -> Option<(Seq<(Seq<char>, Seq<char>)>, Seq<u8>)>
    decreases n,
{
    if n == 0 {
        Some((Seq::empty(), b))
    } else {
        match read_pairs(b, (n - 1) as nat) {
            Some((m, b1)) => match read_str(b1) {
                Some((k, b2)) => match read_str(b2) {
                    Some((v, b3)) => Some((m.push((k, v)), b3)),
                    None => None,
                },
                None => None,
            },
            None => None,
        }
    }
}

/// The first `n` pairs of a map that fits read back as themselves.
pub proof fn lemma_pairs_read_back(m: Seq<(Seq<char>, Seq<char>)>, n: nat, rest: Seq<u8>)
    requires
        pairs_fit(m),
        n <= m.len(),
    ensures
        read_pairs(pairs_bytes(m, n) + rest, n) == Some((m.take(n as int), rest)),
    decreases n,
{
    if n == 0 {
        assert(pairs_bytes(m, 0) + rest =~= rest);
        assert(m.take(0) =~= Seq::empty());
    } else {
        let k = m[n - 1].0;
        let v = m[n - 1].1;
        let tail = str_bytes(k) + (str_bytes(v) + rest);
        lemma_pairs_read_back(m, (n - 1) as nat, tail);
        assert(pairs_bytes(m, n) + rest =~= pairs_bytes(m, (n - 1) as nat) + tail);
        lemma_str_reads_back(k, str_bytes(v) + rest);
        lemma_str_reads_back(v, rest);
        assert(m.take(n - 1).push((k, v)) =~= m.take(n as int));
    }
}

/// Reads `n` keyed doubles at the front of `b`, each double as its eight
/// bytes.
pub open spec fn read_numbers(b: Seq<u8>, n: nat) -> Option<(Seq<(Seq<char>, Seq<u8>)>, Seq<u8>)>
    decreases n,
{
    if n == 0 {
        Some((Seq::empty(), b))
    } else {
        match read_numbers(b, (n - 1) as nat) {
            Some((m, b1)) => match read_str(b1) {
                Some((k, b2)) => if b2.len() >= 9 && b2[0] == 0xcb {
                    Some((m.push((k, b2.subrange(1, 9))), b2.skip(9)))
                } else {
                    None
                },
                None => None,
            },
            None => None,
        }
    }
}

/// The numeric annotations as a reader finds them: each value as the
/// eight bytes of its double.
pub open spec fn numbers_as_read(m: Seq<(Seq<char>, u32)>) -> Seq<(Seq<char>, Seq<u8>)> {
    Seq::new(m.len(), |i: int| (m[i].0, double_bytes(m[i].1)))
}

/// A number written in `n` bytes takes `n` bytes.
pub proof fn lemma_be_len(v: int, n: nat)
    ensures
        be_bytes(v, n).len() == n,
    decreases n,
{
    if n > 0 {
        lemma_be_len(v / 256, (n - 1) as nat);
    }
}

/// The first `n` entries of a numeric map that fits read back as
/// themselves.
pub proof fn lemma_numbers_read_back(m: Seq<(Seq<char>, u32)>, n: nat, rest: Seq<u8>)
    requires
        numbers_fit(m),
        n <= m.len(),
    ensures
        read_numbers(numbers_bytes(m, n) + rest, n) == Some(
            (numbers_as_read(m).take(n as int), rest),
        ),
    decreases n,
{
    if n == 0 {
        assert(numbers_bytes(m, 0) + rest =~= rest);
        assert(numbers_as_read(m).take(0) =~= Seq::empty());
    } else {
        let k = m[n - 1].0;
        let d = double_bytes(m[n - 1].1);
        lemma_be_len(crate::wire::double_bits(m[n - 1].1), 8);
        let value = seq![0xcbu8] + d + rest;
        let tail = str_bytes(k) + value;
        lemma_numbers_read_back(m, (n - 1) as nat, tail);
        assert(numbers_bytes(m, n) + rest =~= numbers_bytes(m, (n - 1) as nat) + tail);
        lemma_str_reads_back(k, value);
        assert(value[0] == 0xcb);
        assert(value.subrange(1, 9) =~= d);
        assert(value.skip(9) =~= rest);
        assert(numbers_as_read(m).take(n - 1).push((k, d)) =~= numbers_as_read(m).take(n as int));
    }
}

/// Reads the key `key` at the front of `b`, and gives the bytes after it.
pub open spec fn read_key(b: Seq<u8>, key: Seq<char>) -> Option<Seq<u8>> {
    match read_str(b) {
        Some((k, after)) => if k == key {
            Some(after)
        } else {
            None
        },
        None => None,
    }
}

/// Reads the key `key` and a string value.
pub open spec fn read_str_field(b: Seq<u8>, key: Seq<char>) -> Option<(Seq<char>, Seq<u8>)> {
    match read_key(b, key) {
        Some(after) => read_str(after),
        None => None,
    }
}

/// Reads the key `key` and an unsigned value.
pub open spec fn read_uint_field(b: Seq<u8>, key: Seq<char>) -> Option<(u64, Seq<u8>)> {
    match read_key(b, key) {
        Some(after) => read_uint(after),
        None => None,
    }
}

/// Reads the key `key` and an optional unsigned value.
pub open spec fn read_opt_uint_field(b: Seq<u8>, key: Seq<char>) -> Option<(Option<u64>, Seq<u8>)> {
    match read_key(b, key) {
        Some(after) => read_opt_uint(after),
        None => None,
    }
}

/// Reads the key `key` and a string map.
pub open spec fn read_meta_field(b: Seq<u8>, key: Seq<char>) -> Option<
    (Seq<(Seq<char>, Seq<char>)>, Seq<u8>),
> {
    match read_key(b, key) {
        Some(after) => match read_map_header(after) {
            Some((n, entries)) => read_pairs(entries, n as nat),
            None => None,
        },
        None => None,
    }
}

/// Reads the key `key` and a numeric map.
pub open spec fn read_metrics_field(b: Seq<u8>, key: Seq<char>) -> Option<
    (Seq<(Seq<char>, Seq<u8>)>, Seq<u8>),
> {
    match read_key(b, key) {
        Some(after) => match read_map_header(after) {
            Some((n, entries)) => read_numbers(entries, n as nat),
            None => None,
        },
        None => None,
    }
}

/// A key and its string value read back.
proof fn lemma_str_field(key: Seq<char>, val: Seq<char>, tail: Seq<u8>)
    requires
        str_fits(key),
        str_fits(val),
    ensures
        read_str_field((str_bytes(key) + str_bytes(val)) + tail, key) == Some((val, tail)),
{
    assert((str_bytes(key) + str_bytes(val)) + tail =~= str_bytes(key) + (str_bytes(val) + tail));
    lemma_str_reads_back(key, str_bytes(val) + tail);
    lemma_str_reads_back(val, tail);
}

/// A key and its unsigned value read back.
proof fn lemma_uint_field(key: Seq<char>, val: u64, tail: Seq<u8>)
    requires
        str_fits(key),
    ensures
        read_uint_field((str_bytes(key) + uint_bytes(val)) + tail, key) == Some((val, tail)),
{
    assert((str_bytes(key) + uint_bytes(val)) + tail =~= str_bytes(key) + (uint_bytes(val) + tail));
    lemma_str_reads_back(key, uint_bytes(val) + tail);
    lemma_uint_reads_back(val, tail);
}

/// A key and its optional unsigned value read back.
proof fn lemma_opt_uint_field(key: Seq<char>, val: Option<u64>, tail: Seq<u8>)
    requires
        str_fits(key),
    ensures
        read_opt_uint_field((str_bytes(key) + opt_uint_bytes(val)) + tail, key) == Some(
            (val, tail),
        ),
{
    assert((str_bytes(key) + opt_uint_bytes(val)) + tail =~= str_bytes(key) + (opt_uint_bytes(val)
        + tail));
    lemma_str_reads_back(key, opt_uint_bytes(val) + tail);
    lemma_opt_uint_reads_back(val, tail);
}

/// A key and its flag read back.
proof fn lemma_flag_field(key: Seq<char>, val: i32, tail: Seq<u8>)
    requires
        str_fits(key),
        val == 0 || val == 1,
    ensures
        read_uint_field((str_bytes(key) + seq![val as u8]) + tail, key) == Some(
            (val as u64, tail),
        ),
{
    assert(seq![val as u8] =~= uint_bytes(val as u64));
    lemma_uint_field(key, val as u64, tail);
}

/// A key and its string map read back.
proof fn lemma_meta_field(key: Seq<char>, m: Seq<(Seq<char>, Seq<char>)>, tail: Seq<u8>)
    requires
        str_fits(key),
        pairs_fit(m),
    ensures
        read_meta_field((str_bytes(key) + meta_bytes(m)) + tail, key) == Some((m, tail)),
{
    let body = pairs_bytes(m, m.len()) + tail;
    let value = map_header(m.len() as u32) + body;
    assert((str_bytes(key) + meta_bytes(m)) + tail =~= str_bytes(key) + value);
    lemma_str_reads_back(key, value);
    lemma_map_header_reads_back(m.len() as u32, body);
    lemma_pairs_read_back(m, m.len(), tail);
    assert(m.take(m.len() as int) =~= m);
}

/// A key and its numeric map read back.
proof fn lemma_metrics_field(key: Seq<char>, m: Seq<(Seq<char>, u32)>, tail: Seq<u8>)
    requires
        str_fits(key),
        numbers_fit(m),
    ensures
        read_metrics_field((str_bytes(key) + metrics_bytes(m)) + tail, key) == Some(
            (numbers_as_read(m), tail),
        ),
{
    let body = numbers_bytes(m, m.len()) + tail;
    let value = map_header(m.len() as u32) + body;
    assert((str_bytes(key) + metrics_bytes(m)) + tail =~= str_bytes(key) + value);
    lemma_str_reads_back(key, value);
    lemma_map_header_reads_back(m.len() as u32, body);
    lemma_numbers_read_back(m, m.len(), tail);
    assert(numbers_as_read(m).take(m.len() as int) =~= numbers_as_read(m));
}

/// A field written after `a` may be grouped with what follows it.
proof fn lemma_field_assoc(a: Seq<u8>, k: Seq<u8>, v: Seq<u8>, t: Seq<u8>)
    ensures
        (a + k + v) + t == a + ((k + v) + t),
{
    assert((a + k + v) + t =~= a + ((k + v) + t));
}

/// A span record as a reader finds it: every field as written, each
/// numeric annotation as the eight bytes of its double.
pub struct ReadSpan {
    pub service: Seq<char>,
    pub name: Seq<char>,
    pub resource: Seq<char>,
    pub trace_id: u64,
    pub span_id: u64,
    pub parent_id: Option<u64>,
    pub start: u64,
    pub duration: u64,
    pub error: u64,
    pub meta: Seq<(Seq<char>, Seq<char>)>,
    pub metrics: Seq<(Seq<char>, Seq<u8>)>,
    pub span_type: Seq<char>,
}

/// What a reader finds of the record `r`.
pub open spec fn as_read(r: RawSpanView) -> ReadSpan {
    ReadSpan {
        service: r.service,
        name: r.name,
        resource: r.resource,
        trace_id: r.trace_id,
        span_id: r.span_id,
        parent_id: r.parent_id,
        start: r.start,
        duration: r.duration,
        error: r.error as u64,
        meta: r.meta,
        metrics: numbers_as_read(r.metrics),
        span_type: r.span_type,
    }
}

/// Whether the error flag of a record is 0 or 1.
pub open spec fn flag_ok(r: RawSpanView) -> bool {
    r.error == 0 || r.error == 1
}

/// Reads one span record at the front of `b`: a map of the twelve keys in
/// their order.
pub open spec fn read_record(b: Seq<u8>) -> Option<(ReadSpan, Seq<u8>)> {
    let header = read_map_header(b);
    let service = read_str_field(header.unwrap().1, "service"@);
    let name = read_str_field(service.unwrap().1, "name"@);
    let resource = read_str_field(name.unwrap().1, "resource"@);
    let trace_id = read_uint_field(resource.unwrap().1, "trace_id"@);
    let span_id = read_uint_field(trace_id.unwrap().1, "span_id"@);
    let parent_id = read_opt_uint_field(span_id.unwrap().1, "parent_id"@);
    let start = read_uint_field(parent_id.unwrap().1, "start"@);
    let duration = read_uint_field(start.unwrap().1, "duration"@);
    let error = read_uint_field(duration.unwrap().1, "error"@);
    let meta = read_meta_field(error.unwrap().1, "meta"@);
    let metrics = read_metrics_field(meta.unwrap().1, "metrics"@);
    let span_type = read_str_field(metrics.unwrap().1, "type"@);
    if header is Some && header.unwrap().0 == 12 && service is Some && name is Some && resource is Some && trace_id is Some && span_id is Some && parent_id is Some && start is Some && duration is Some && error is Some && meta is Some && metrics is Some && span_type is Some {
        Some(
            (
                ReadSpan {
                    service: service.unwrap().0,
                    name: name.unwrap().0,
                    resource: resource.unwrap().0,
                    trace_id: trace_id.unwrap().0,
                    span_id: span_id.unwrap().0,
                    parent_id: parent_id.unwrap().0,
                    start: start.unwrap().0,
                    duration: duration.unwrap().0,
                    error: error.unwrap().0,
                    meta: meta.unwrap().0,
                    metrics: metrics.unwrap().0,
                    span_type: span_type.unwrap().0,
                },
                span_type.unwrap().1,
            ),
        )
    } else {
        None
    }
}

/// A record that fits reads back field for field, and leaves what follows
/// it untouched.
#[verifier::rlimit(50)]
pub proof fn lemma_record_reads_back(r: RawSpanView, rest: Seq<u8>)
    requires
        record_fits(r),
        flag_ok(r),
    ensures
        read_record(record_bytes(r) + rest) == Some((as_read(r), rest)),
{
    crate::wire::lemma_keys_fit();
    let t12 = rest;
    let t11 = (str_bytes("type"@) + str_bytes(r.span_type)) + t12;
    let t10 = (str_bytes("metrics"@) + metrics_bytes(r.metrics)) + t11;
    let t9 = (str_bytes("meta"@) + meta_bytes(r.meta)) + t10;
    let t8 = (str_bytes("error"@) + seq![r.error as u8]) + t9;
    let t7 = (str_bytes("duration"@) + uint_bytes(r.duration)) + t8;
    let t6 = (str_bytes("start"@) + uint_bytes(r.start)) + t7;
    let t5 = (str_bytes("parent_id"@) + opt_uint_bytes(r.parent_id)) + t6;
    let t4 = (str_bytes("span_id"@) + uint_bytes(r.span_id)) + t5;
    let t3 = (str_bytes("trace_id"@) + uint_bytes(r.trace_id)) + t4;
    let t2 = (str_bytes("resource"@) + str_bytes(r.resource)) + t3;
    let t1 = (str_bytes("name"@) + str_bytes(r.name)) + t2;
    let t0 = (str_bytes("service"@) + str_bytes(r.service)) + t1;
    let a0 = map_header(12);
    let a1 = a0 + str_bytes("service"@) + str_bytes(r.service);
    let a2 = a1 + str_bytes("name"@) + str_bytes(r.name);
    let a3 = a2 + str_bytes("resource"@) + str_bytes(r.resource);
    let a4 = a3 + str_bytes("trace_id"@) + uint_bytes(r.trace_id);
    let a5 = a4 + str_bytes("span_id"@) + uint_bytes(r.span_id);
    let a6 = a5 + str_bytes("parent_id"@) + opt_uint_bytes(r.parent_id);
    let a7 = a6 + str_bytes("start"@) + uint_bytes(r.start);
    let a8 = a7 + str_bytes("duration"@) + uint_bytes(r.duration);
    let a9 = a8 + str_bytes("error"@) + seq![r.error as u8];
    let a10 = a9 + str_bytes("meta"@) + meta_bytes(r.meta);
    let a11 = a10 + str_bytes("metrics"@) + metrics_bytes(r.metrics);
    let a12 = a11 + str_bytes("type"@) + str_bytes(r.span_type);
    lemma_field_assoc(a0, str_bytes("service"@), str_bytes(r.service), t1);
    lemma_field_assoc(a1, str_bytes("name"@), str_bytes(r.name), t2);
    lemma_field_assoc(a2, str_bytes("resource"@), str_bytes(r.resource), t3);
    lemma_field_assoc(a3, str_bytes("trace_id"@), uint_bytes(r.trace_id), t4);
    lemma_field_assoc(a4, str_bytes("span_id"@), uint_bytes(r.span_id), t5);
    lemma_field_assoc(a5, str_bytes("parent_id"@), opt_uint_bytes(r.parent_id), t6);
    lemma_field_assoc(a6, str_bytes("start"@), uint_bytes(r.start), t7);
    lemma_field_assoc(a7, str_bytes("duration"@), uint_bytes(r.duration), t8);
    lemma_field_assoc(a8, str_bytes("error"@), seq![r.error as u8], t9);
    lemma_field_assoc(a9, str_bytes("meta"@), meta_bytes(r.meta), t10);
    lemma_field_assoc(a10, str_bytes("metrics"@), metrics_bytes(r.metrics), t11);
    lemma_field_assoc(a11, str_bytes("type"@), str_bytes(r.span_type), t12);
    assert(record_bytes(r) + rest == a0 + t0);
    lemma_map_header_reads_back(12, t0);
    lemma_str_field("service"@, r.service, t1);
    lemma_str_field("name"@, r.name, t2);
    lemma_str_field("resource"@, r.resource, t3);
    lemma_uint_field("trace_id"@, r.trace_id, t4);
    lemma_uint_field("span_id"@, r.span_id, t5);
    lemma_opt_uint_field("parent_id"@, r.parent_id, t6);
    lemma_uint_field("start"@, r.start, t7);
    lemma_uint_field("duration"@, r.duration, t8);
    lemma_flag_field("error"@, r.error, t9);
    lemma_meta_field("meta"@, r.meta, t10);
    lemma_metrics_field("metrics"@, r.metrics, t11);
    lemma_str_field("type"@, r.span_type, t12);
}

/// What a reader finds of the records of one trace.
pub open spec fn spans_as_read(spans: Seq<RawSpanView>) -> Seq<ReadSpan> {
    Seq::new(spans.len(), |i: int| as_read(spans[i]))
}

/// What a reader finds of a batch.
pub open spec fn batch_as_read(traces: Seq<Seq<RawSpanView>>) -> Seq<Seq<ReadSpan>> {
    Seq::new(traces.len(), |i: int| spans_as_read(traces[i]))
}

/// Reads `n` span records at the front of `b`.
pub open spec fn read_spans(b: Seq<u8>, n: nat) -> Option<(Seq<ReadSpan>, Seq<u8>)>
    decreases n,
{
    if n == 0 {
        Some((Seq::empty(), b))
    } else {
        match read_spans(b, (n - 1) as nat) {
            Some((spans, b1)) => match read_record(b1) {
                Some((span, b2)) => Some((spans.push(span), b2)),
                None => None,
            },
            None => None,
        }
    }
}

/// Reads one trace at the front of `b`: an array of span records.
pub open spec fn read_trace(b: Seq<u8>) -> Option<(Seq<ReadSpan>, Seq<u8>)> {
    match read_array_header(b) {
        Some((n, records)) => read_spans(records, n as nat),
        None => None,
    }
}

/// Reads `n` traces at the front of `b`.
pub open spec fn read_traces(b: Seq<u8>, n: nat) -> Option<(Seq<Seq<ReadSpan>>, Seq<u8>)>
    decreases n,
{
    if n == 0 {
        Some((Seq::empty(), b))
    } else {
        match read_traces(b, (n - 1) as nat) {
            Some((traces, b1)) => match read_trace(b1) {
                Some((trace, b2)) => Some((traces.push(trace), b2)),
                None => None,
            },
            None => None,
        }
    }
}

/// Reads a whole batch: an array of traces, with nothing after it.
pub open spec fn read_payload(b: Seq<u8>) -> Option<Seq<Seq<ReadSpan>>> {
    match read_array_header(b) {
        Some((n, traces)) => match read_traces(traces, n as nat) {
            Some((batch, after)) => if after.len() == 0 {
                Some(batch)
            } else {
                None
            },
            None => None,
        },
        None => None,
    }
}

/// Nothing before `rest` is `rest`.
proof fn lemma_nothing_before(rest: Seq<u8>)
    ensures
        Seq::<u8>::empty() + rest == rest,
{
    assert(Seq::<u8>::empty() + rest =~= rest);
}

/// Nothing after `body` is `body`.
proof fn lemma_nothing_after(body: Seq<u8>)
    ensures
        body + Seq::<u8>::empty() == body,
{
    assert(body + Seq::<u8>::empty() =~= body);
}

/// The first elements, as many as there are, are all of them.
proof fn lemma_take_all<T>(s: Seq<T>)
    ensures
        s.take(s.len() as int) == s,
{
    assert(s.take(s.len() as int) =~= s);
}

/// The first no elements are none.
proof fn lemma_take_none<T>(s: Seq<T>)
    ensures
        s.take(0) == Seq::<T>::empty(),
{
    assert(s.take(0) =~= Seq::<T>::empty());
}

/// The first `n` elements are the first `n - 1` and one more.
proof fn lemma_take_one_more<T>(s: Seq<T>, n: int)
    requires
        0 < n <= s.len(),
    ensures
        s.take(n - 1).push(s[n - 1]) == s.take(n),
{
    assert(s.take(n - 1).push(s[n - 1]) =~= s.take(n));
}

/// Every record of the trace has an error flag of 0 or 1.
pub open spec fn flags_ok(spans: Seq<RawSpanView>) -> bool {
    forall|i: int| 0 <= i < spans.len() ==> flag_ok(#[trigger] spans[i])
}

/// The first `n` records of a trace that fits read back as themselves.
#[verifier::rlimit(50)]
pub proof fn lemma_spans_read_back(spans: Seq<RawSpanView>, n: nat, rest: Seq<u8>)
    requires
        trace_fits(spans),
        flags_ok(spans),
        n <= spans.len(),
    ensures
        read_spans(spans_bytes(spans, n) + rest, n) == Some(
            (spans_as_read(spans).take(n as int), rest),
        ),
    decreases n,
{
    if n == 0 {
        lemma_nothing_before(rest);
        lemma_take_none(spans_as_read(spans));
    } else {
        let tail = record_bytes(spans[n - 1]) + rest;
        lemma_spans_read_back(spans, (n - 1) as nat, tail);
        crate::wire::lemma_assoc(
            spans_bytes(spans, (n - 1) as nat),
            record_bytes(spans[n - 1]),
            rest,
        );
        lemma_record_reads_back(spans[n - 1], rest);
        lemma_take_one_more(spans_as_read(spans), n as int);
    }
}

/// A trace that fits reads back as itself.
#[verifier::rlimit(50)]
pub proof fn lemma_trace_reads_back(spans: Seq<RawSpanView>, rest: Seq<u8>)
    requires
        trace_fits(spans),
        flags_ok(spans),
    ensures
        read_trace(trace_bytes(spans) + rest) == Some((spans_as_read(spans), rest)),
{
    let body = spans_bytes(spans, spans.len()) + rest;
    crate::wire::lemma_assoc(
        array_header(spans.len() as u32),
        spans_bytes(spans, spans.len()),
        rest,
    );
    lemma_array_header_reads_back(spans.len() as u32, body);
    lemma_spans_read_back(spans, spans.len(), rest);
    lemma_take_all(spans_as_read(spans));
}

/// The first `n` traces of a batch that fits read back as themselves.
#[verifier::rlimit(50)]
pub proof fn lemma_traces_read_back(traces: Seq<Seq<RawSpanView>>, n: nat, rest: Seq<u8>)
    requires
        payload_fits(traces),
        forall|i: int| 0 <= i < traces.len() ==> flags_ok(#[trigger] traces[i]),
        n <= traces.len(),
    ensures
        read_traces(traces_bytes(traces, n) + rest, n) == Some(
            (batch_as_read(traces).take(n as int), rest),
        ),
    decreases n,
{
    if n == 0 {
        lemma_nothing_before(rest);
        lemma_take_none(batch_as_read(traces));
    } else {
        let tail = trace_bytes(traces[n - 1]) + rest;
        lemma_traces_read_back(traces, (n - 1) as nat, tail);
        crate::wire::lemma_assoc(
            traces_bytes(traces, (n - 1) as nat),
            trace_bytes(traces[n - 1]),
            rest,
        );
        lemma_trace_reads_back(traces[n - 1], rest);
        lemma_take_one_more(batch_as_read(traces), n as int);
    }
}

/// Encoding can be undone: reading the bytes of a batch that fits gives an
/// array of arrays of records that agree with the batch field for field,
/// each numeric annotation by the eight bytes of its double.
#[verifier::rlimit(50)]
pub proof fn lemma_payload_reads_back(traces: Seq<Seq<RawSpanView>>)
    requires
        payload_fits(traces),
        forall|i: int| 0 <= i < traces.len() ==> flags_ok(#[trigger] traces[i]),
    ensures
        read_payload(payload_bytes(traces)) == Some(batch_as_read(traces)),
{
    let body = traces_bytes(traces, traces.len());
    lemma_array_header_reads_back(traces.len() as u32, body);
    lemma_nothing_after(body);
    lemma_traces_read_back(traces, traces.len(), Seq::empty());
    lemma_take_all(batch_as_read(traces));
}

} // verus!
