//! The batch that the sending task fills from the queue, and the rule
//! that says when it is due.

use vstd::prelude::*;
use crate::model::{TimeSpan, Trace};

verus! {

/// The traces gathered since the last flush, and when that flush was.
#[derive(Debug)]
pub struct Batcher {
    pub buffer: Vec<Trace>,
    /// The batch is sent as soon as it holds this many traces.
    pub buffer_size: usize,
    /// A batch that is not empty waits no longer than this.
    pub flush_max_interval: TimeSpan,
    /// The time of the last flush, counted from the Unix epoch.
    pub last_flushed_at: TimeSpan,
}

/// Whether a batch of `len` traces, last flushed at `last`, has waited
/// longer than `interval` at the time `now`. An empty batch never has.
pub open spec fn interval_passed(len: nat, last: TimeSpan, interval: TimeSpan, now: TimeSpan) -> bool {
    len > 0 && now.nanos() - last.nanos() > interval.nanos()
}

/// The flush rule: the batch is full, or it is not empty and has waited
/// longer than the interval.
pub open spec fn flush_due(
    len: nat,
    buffer_size: nat,
    last: TimeSpan,
    interval: TimeSpan,
    now: TimeSpan,
) -> bool {
    len == buffer_size || interval_passed(len, last, interval, now)
}

/// The batch after an arrival, if there was one.
pub open spec fn with_arrival(buffer: Seq<Trace>, arrival: Option<Trace>) -> Seq<Trace> {
    match arrival {
        Some(trace) => buffer.push(trace),
        None => buffer,
    }
}

impl Batcher {
    /// Whether a flush is due at the time `now`.
    pub open spec fn due(&self, now: TimeSpan) -> bool {
        flush_due(
            self.buffer@.len(),
            self.buffer_size as nat,
            self.last_flushed_at,
            self.flush_max_interval,
            now,
        )
    }

    /// An empty batch whose last flush is taken to be `now`.
    pub fn new(buffer_size: usize, flush_max_interval: TimeSpan, now: TimeSpan) -> (r: Batcher)
        ensures
            r.buffer@.len() == 0,
            r.buffer_size == buffer_size,
            r.flush_max_interval == flush_max_interval,
            r.last_flushed_at == now,
    {
        Batcher {
            buffer: Vec::with_capacity(buffer_size),
            buffer_size,
            flush_max_interval,
            last_flushed_at: now,
        }
    }

    pub fn flush_max_interval_has_passed(&self, now: TimeSpan) -> (r: bool)
        ensures
            r == interval_passed(
                self.buffer@.len(),
                self.last_flushed_at,
                self.flush_max_interval,
                now,
            ),
    {
        let now_nanos: u128 = now.total_nanos();
        let last_nanos: u128 = self.last_flushed_at.total_nanos();
        self.buffer.len() > 0 && now_nanos > last_nanos && now_nanos - last_nanos
            > self.flush_max_interval.total_nanos()
    }

    pub fn should_flush(&self, now: TimeSpan) -> (r: bool)
        ensures
            r == self.due(now),
    {
        self.buffer.len() == self.buffer_size || self.flush_max_interval_has_passed(now)
    }

    /// Adds a trace at the end of the batch.
    pub fn push(&mut self, trace: Trace)
        ensures
            final(self).buffer@ == old(self).buffer@.push(trace),
            final(self).buffer_size == old(self).buffer_size,
            final(self).flush_max_interval == old(self).flush_max_interval,
            final(self).last_flushed_at == old(self).last_flushed_at,
    {
        self.buffer.push(trace);
    }

    /// Hands out the whole batch and leaves an empty one.
    pub fn take_batch(&mut self) -> (batch: Vec<Trace>)
        ensures
            batch@ == old(self).buffer@,
            final(self).buffer@.len() == 0,
            final(self).buffer_size == old(self).buffer_size,
            final(self).flush_max_interval == old(self).flush_max_interval,
            final(self).last_flushed_at == old(self).last_flushed_at,
    {
        let mut batch: Vec<Trace> = Vec::new();
        core::mem::swap(&mut self.buffer, &mut batch);
        batch
    }

    /// Records that the flush cycle ended at `now`, whatever its outcome.
    pub fn mark_flushed(&mut self, now: TimeSpan)
        ensures
            final(self).last_flushed_at == now,
            final(self).buffer == old(self).buffer,
            final(self).buffer_size == old(self).buffer_size,
            final(self).flush_max_interval == old(self).flush_max_interval,
    {
        self.last_flushed_at = now;
    }

    /// One turn of the loop: takes in what the queue gave, if anything,
    /// and hands out the whole batch when a flush is due at `now`.
    pub fn step(&mut self, arrival: Option<Trace>, now: TimeSpan) -> (batch: Option<Vec<Trace>>)
        ensures
            batch is Some <==> flush_due(
                with_arrival(old(self).buffer@, arrival).len(),
                old(self).buffer_size as nat,
                old(self).last_flushed_at,
                old(self).flush_max_interval,
                now,
            ),
            batch matches Some(b) ==> b@ == with_arrival(old(self).buffer@, arrival)
                && final(self).buffer@.len() == 0,
            batch is None ==> final(self).buffer@ == with_arrival(old(self).buffer@, arrival),
            final(self).buffer_size == old(self).buffer_size,
            final(self).flush_max_interval == old(self).flush_max_interval,
            final(self).last_flushed_at == old(self).last_flushed_at,
    {
        if let Some(trace) = arrival {
            self.push(trace);
        }
        if self.should_flush(now) {
            Some(self.take_batch())
        } else {
            None
        }
    }
}

/// A batch that has reached the configured size is due, however little
/// time has passed.
pub proof fn lemma_full_batch_is_due(b: Batcher, now: TimeSpan)
    requires
        b.buffer@.len() == b.buffer_size,
    ensures
        b.due(now),
{
}

/// A batch that is not empty is due once more than the interval has
/// passed since the last flush. An empty batch is never due, unless the
/// configured size is zero.
pub proof fn lemma_interval_rule(b: Batcher, now: TimeSpan)
    ensures
        b.buffer@.len() > 0 && now.nanos() - b.last_flushed_at.nanos()
            > b.flush_max_interval.nanos() ==> b.due(now),
        b.buffer@.len() == 0 && b.buffer_size > 0 ==> !b.due(now),
{
}

/// A trace that was taken in is in the next batch handed out, and that
/// batch is handed out by the first turn that comes after more than the
/// interval has passed since the last flush.
pub proof fn lemma_taken_trace_is_flushed(
    buffer: Seq<Trace>,
    trace: Trace,
    buffer_size: nat,
    last: TimeSpan,
    interval: TimeSpan,
    now: TimeSpan,
)
    requires
        now.nanos() - last.nanos() > interval.nanos(),
    ensures
        flush_due(buffer.push(trace).len(), buffer_size, last, interval, now),
        buffer.push(trace).contains(trace),
{
    assert(buffer.push(trace)[buffer.len() as int] == trace);
}

} // verus!
