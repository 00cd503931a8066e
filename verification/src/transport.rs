//! What one submission carries, how its outcome is read, and when the
//! endpoint cursor moves to an older protocol version.

use vstd::prelude::*;
use crate::endpoint::Endpoint;
use crate::model::{batch_views, views, Config, RawSpan, RawSpanView, Trace};
use crate::projection::{clone_opt, map_to_raw_spans, opt_view, project_trace, span_in_range};
use crate::wire::{payload_bytes, payload_fits, serialize_as_msgpack, EncodeError};

verus! {

/// How many attempts one batch gets, downgrades included.
pub const MAX_RETRIES: u32 = 5;

/// Whether the same batch is to be sent again.
#[derive(Debug, Clone, Copy, PartialEq, Eq, Structural)]
pub enum ShouldRetry {
    True,
    False,
}

/// What one attempt gave: the agent's status code, or no answer at all.
#[derive(Debug, Clone, Copy, PartialEq, Eq, Structural)]
pub enum Response {
    Status(u16),
    Failed,
}

/// The parts of one POST to the agent.
#[derive(Debug)]
pub struct Request {
    /// The HTTP method, always `POST`.
    pub method: String,
    pub uri: String,
    /// Value of the `content-type` header.
    pub content_type: String,
    /// Value of the `content-length` header.
    pub content_length: usize,
    /// Value of the `X-Datadog-Trace-Count` header.
    pub trace_count: usize,
    pub body: Vec<u8>,
}

/// The sending side's state: what is stamped on every span, and the
/// endpoint cursor. It has one owner, the task that sends.
#[derive(Debug)]
pub struct Transport {
    pub env: Option<String>,
    pub service: String,
    pub endpoint: Endpoint,
}

/// Whether a status code reports success.
pub open spec fn is_success(status: u16) -> bool {
    200 <= status < 300
}

/// Whether a status code tells that the agent does not speak this version.
pub open spec fn is_version_mismatch(status: u16) -> bool {
    status == 404 || status == 415
}

/// The cursor and the verdict after one attempt.
pub open spec fn after_response(e: Endpoint, response: Response) -> (Endpoint, ShouldRetry) {
    match response {
        Response::Status(status) => {
            if !is_success(status) && is_version_mismatch(status) && (*e.fallback) is Some {
                ((*e.fallback)->0, ShouldRetry::True)
            } else {
                (e, ShouldRetry::False)
            }
        },
        Response::Failed => (e, ShouldRetry::False),
    }
}

/// The cursor and the number of attempts made when a flush cycle ends,
/// given the responses that its attempts meet, in order, and the attempts
/// made before.
pub open spec fn run_cycle(e: Endpoint, responses: Seq<Response>, made: nat) -> (Endpoint, nat)
    decreases responses.len(),
{
    if responses.len() == 0 || made >= MAX_RETRIES {
        (e, made)
    } else {
        let (next, retry) = after_response(e, responses[0]);
        if retry == ShouldRetry::True {
            run_cycle(next, responses.skip(1), made + 1)
        } else {
            (next, made + 1)
        }
    }
}

/// Whether `a` is what is left of `b` after some of its first elements.
pub open spec fn is_suffix(a: Seq<Seq<char>>, b: Seq<Seq<char>>) -> bool {
    a.len() <= b.len() && a == b.skip(b.len() - a.len())
}

/// The records of a batch, trace by trace.
pub open spec fn project_all(traces: Seq<Trace>, env: Option<Seq<char>>, service: Seq<char>) -> Seq<
    Seq<RawSpanView>,
> {
    Seq::new(traces.len(), |i: int| project_trace(traces[i], env, service))
}

/// Every span of the batch has times that fit 64-bit nanoseconds.
pub open spec fn batch_in_range(traces: Seq<Trace>) -> bool {
    forall|i: int, j: int|
        0 <= i < traces.len() && 0 <= j < traces[i].spans@.len() ==> span_in_range(
            #[trigger] traces[i].spans@[j],
        )
}

impl Transport {
    /// A transport at the newest endpoint of the configured agent.
    pub fn new(config: &Config) -> (r: Transport)
        ensures
            opt_view(r.env) == opt_view(config.env),
            r.service@ == config.service@,
            r.endpoint.chain() == seq![
                crate::endpoint::traces_url(config.host@, config.port@, "v0.4"@),
                crate::endpoint::traces_url(config.host@, config.port@, "v0.3"@),
                crate::endpoint::traces_url(config.host@, config.port@, "v0.2"@),
            ],
    {
        Transport {
            env: clone_opt(&config.env),
            service: config.service.clone(),
            endpoint: Endpoint::create_traces_endpoint(config.host.as_str(), config.port.as_str()),
        }
    }

    /// Projects every trace of the batch with the current service and
    /// environment.
    pub fn project_batch(&self, traces: &Vec<Trace>) -> (raws: Vec<Vec<RawSpan>>)
        requires
            batch_in_range(traces@),
        ensures
            batch_views(raws@) == project_all(traces@, opt_view(self.env), self.service@),
            crate::wire::payload_wf(raws@),
    {
        let mut raws: Vec<Vec<RawSpan>> = Vec::new();
        let n: usize = traces.len();
        let mut i: usize = 0;
        while i < n
            invariant
                i <= n,
                n == traces@.len(),
                raws@.len() == i,
                batch_in_range(traces@),
                forall|k: int|
                    0 <= k < i ==> views((#[trigger] raws@[k])@) == project_trace(
                        traces@[k],
                        opt_view(self.env),
                        self.service@,
                    ),
                crate::wire::payload_wf(raws@),
            decreases n - i,
        {
            let env = clone_opt(&self.env);
            let trace = &traces[i];
            assert forall|j: int| 0 <= j < trace.spans@.len() implies span_in_range(
                #[trigger] trace.spans@[j],
            ) by {
                assert(span_in_range(traces@[i as int].spans@[j]));
            }
            let one = map_to_raw_spans(trace, env, self.service.clone());
            raws.push(one);
            i += 1;
        }
        proof {
            assert(batch_views(raws@) =~= project_all(
                traces@,
                opt_view(self.env),
                self.service@,
            ));
        }
        raws
    }

    /// The request that carries the batch to the current endpoint, or the
    /// reason why the batch cannot be written.
    pub fn build_request(&self, traces: &Vec<Trace>) -> (r: Result<Request, EncodeError>)
        requires
            batch_in_range(traces@),
        ensures
            r is Ok <==> payload_fits(project_all(traces@, opt_view(self.env), self.service@)),
            r matches Ok(req) ==> {
                &&& req.method@ == "POST"@
                &&& req.uri@ == self.endpoint.endpoint@
                &&& req.content_type@ == "application/msgpack"@
                &&& req.trace_count == traces@.len()
                &&& req.content_length == req.body@.len()
                &&& req.body@ == payload_bytes(
                    project_all(traces@, opt_view(self.env), self.service@),
                )
            },
            r matches Err(e) ==> e == EncodeError::TooLarge,
    {
        let raws = self.project_batch(traces);
        let trace_count: usize = raws.len();
        assert(batch_views(raws@).len() == raws@.len());
        match serialize_as_msgpack(&raws) {
            Ok(body) => Ok(
                Request {
                    method: "POST".to_owned(),
                    uri: self.endpoint.endpoint().to_owned(),
                    content_type: "application/msgpack".to_owned(),
                    content_length: body.len(),
                    trace_count,
                    body,
                },
            ),
            Err(e) => Err(e),
        }
    }

    pub fn should_downgrade(&self, status: u16) -> (r: bool)
        ensures
            r == (is_version_mismatch(status) && (*self.endpoint.fallback) is Some),
    {
        (status == 404 || status == 415) && self.endpoint.fallback().is_some()
    }

    /// Moves the cursor to the next older endpoint, for good.
    pub fn downgrade(&mut self)
        requires
            (*old(self).endpoint.fallback) is Some,
        ensures
            final(self).endpoint == (*old(self).endpoint.fallback)->0,
            final(self).endpoint.chain() == old(self).endpoint.chain().skip(1),
            final(self).env == old(self).env,
            final(self).service == old(self).service,
    {
        proof {
            old(self).endpoint.lemma_chain_head();
        }
        let mut current = Endpoint::new(String::new(), None);
        core::mem::swap(&mut self.endpoint, &mut current);
        let Endpoint { endpoint, fallback } = current;
        match *fallback {
            Some(next) => {
                self.endpoint = next;
            },
            None => {
                self.endpoint = Endpoint::new(endpoint, None);
            },
        }
    }

    /// Reads the outcome of one attempt: success and every failure but a
    /// version mismatch end the cycle; a version mismatch moves the cursor
    /// and asks for another attempt, if an older endpoint is left.
    pub fn handle_response(&mut self, response: Response) -> (retry: ShouldRetry)
        ensures
            (final(self).endpoint, retry) == after_response(old(self).endpoint, response),
            final(self).env == old(self).env,
            final(self).service == old(self).service,
    {
        match response {
            Response::Status(status) => {
                if 200 <= status && status < 300 {
                    ShouldRetry::False
                } else if self.should_downgrade(status) {
                    self.downgrade();
                    ShouldRetry::True
                } else {
                    ShouldRetry::False
                }
            },
            Response::Failed => ShouldRetry::False,
        }
    }

    /// Decides after the attempt number `made` (counted from 1) whether
    /// the batch gets another one.
    pub fn next_attempt(&mut self, made: u32, response: Response) -> (again: bool)
        ensures
            final(self).endpoint == after_response(old(self).endpoint, response).0,
            again == (after_response(old(self).endpoint, response).1 == ShouldRetry::True && made
                < MAX_RETRIES),
            final(self).env == old(self).env,
            final(self).service == old(self).service,
    {
        match self.handle_response(response) {
            ShouldRetry::True => made < MAX_RETRIES,
            ShouldRetry::False => false,
        }
    }
}

/// One attempt never moves the cursor back: the chain after it is the
/// chain before, or that chain without its head. It asks for a retry only
/// when it moved the cursor. At the last endpoint nothing moves and no
/// retry is asked for, whatever the response.
pub proof fn lemma_attempt_only_advances(e: Endpoint, response: Response)
    ensures
        ({
            let (next, retry) = after_response(e, response);
            &&& retry == ShouldRetry::False ==> next == e
            &&& retry == ShouldRetry::True ==> next.chain() == e.chain().skip(1)
            &&& is_suffix(next.chain(), e.chain())
            &&& e.chain().len() == 1 ==> next == e && retry == ShouldRetry::False
        }),
{
    e.lemma_chain_head();
    let (next, retry) = after_response(e, response);
    if retry == ShouldRetry::True {
        next.lemma_chain_head();
        assert(next.chain() == e.chain().skip(1));
    } else {
        assert(e.chain().skip(0) =~= e.chain());
    }
}

/// Over a whole flush cycle, whatever the responses: at most five attempts
/// are made, and the chain at the end is what is left of the chain at the
/// start after some of its first elements, so the cursor never goes back.
pub proof fn lemma_cycle_only_advances(e: Endpoint, responses: Seq<Response>, made: nat)
    requires
        made <= MAX_RETRIES,
    ensures
        ({
            let (last, total) = run_cycle(e, responses, made);
            &&& made <= total <= MAX_RETRIES
            &&& total <= made + responses.len()
            &&& is_suffix(last.chain(), e.chain())
            &&& last.chain().len() >= 1
        }),
    decreases responses.len(),
{
    e.lemma_chain_head();
    if responses.len() == 0 || made >= MAX_RETRIES {
        assert(e.chain().skip(0) =~= e.chain());
    } else {
        let (next, retry) = after_response(e, responses[0]);
        lemma_attempt_only_advances(e, responses[0]);
        next.lemma_chain_head();
        if retry == ShouldRetry::True {
            lemma_cycle_only_advances(next, responses.skip(1), made + 1);
            let (last, total) = run_cycle(next, responses.skip(1), made + 1);
            let a = last.chain();
            let b = next.chain();
            let c = e.chain();
            assert(a =~= c.skip(c.len() - a.len())) by {
                assert(b == c.skip(1));
                assert(a == b.skip(b.len() - a.len()));
            }
        }
    }
}

/// What is sent can be read back: the body of a request for a batch reads
/// as an array of arrays of records that agree field for field with the
/// records of the batch's traces, each numeric annotation by the eight
/// bytes of its double.
pub proof fn lemma_body_reads_back(traces: Seq<Trace>, env: Option<Seq<char>>, service: Seq<char>)
    requires
        payload_fits(project_all(traces, env, service)),
    ensures
        crate::reading::read_payload(payload_bytes(project_all(traces, env, service))) == Some(
            crate::reading::batch_as_read(project_all(traces, env, service)),
        ),
{
    let batch = project_all(traces, env, service);
    assert forall|i: int| 0 <= i < batch.len() implies crate::reading::flags_ok(
        #[trigger] batch[i],
    ) by {
        assert forall|j: int| 0 <= j < batch[i].len() implies crate::reading::flag_ok(
            #[trigger] batch[i][j],
        ) by {}
    }
    crate::reading::lemma_payload_reads_back(batch);
}

} // verus!
