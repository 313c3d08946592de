//! The parsed HTTP transcript and its reveal planner: the requests sent and
//! the responses received, and the walk that commits exactly the byte ranges
//! establishing the declared structure.

use vstd::prelude::*;
use crate::errors::ParseError;
use crate::http::{lower_seq, Body, BodyContent, Header, Request, Response};
use crate::http_parse::{
    parse_requests, parse_responses, requests_at, requests_stream_ok, responses_at,
    responses_stream_ok,
};
use crate::json_commit::{commit_structure_walk, json_plan};
use crate::json::JsonValue;
use crate::ranges::{rs_difference, rs_set};
use crate::span::Span;
use crate::http::{request_in_buf, response_in_buf};
use crate::transcript::{
    filled, Direction, PartialTranscript, Transcript, TranscriptCommitmentBuilder,
    TranscriptCommitmentBuilderError,
};

verus! {

broadcast use vstd::std_specs::vec::axiom_vec_index_decreases;

/// The kind of HTTP message.
#[derive(Debug, Clone, Copy, PartialEq, Eq, Hash, Structural)]
pub enum MessageKind {
    /// An HTTP request.
    Request,
    /// An HTTP response.
    Response,
}

/// The byte overwritten into unauthenticated positions before parsing: an
/// ASCII asterisk, valid inside header values and recognized as a redaction
/// sentinel by the parsers.
pub open spec fn sentinel_fill_byte() -> u8 {
    42
}

/// Every unauthenticated position of a filled buffer holds the sentinel:
/// together with the parser's guarantee that an all-sentinel value position
/// parses redacted, a JSON value whose bytes are all unauthenticated
/// surfaces as a redacted node after `parse_partial`.
pub proof fn lemma_unauthed_fill_is_sentinel(buf: Seq<u8>, authed: Set<int>, j: int)
    requires
        0 <= j < buf.len(),
        !authed.contains(j),
    ensures
        crate::json_parse::is_sentinel(filled(buf, authed, sentinel_fill_byte())[j]),
{
}

/// The name `host` as bytes.
pub open spec fn host_name() -> Seq<u8> {
    seq![104u8, 111u8, 115u8, 116u8]
}

/// The name `content-length` as bytes.
pub open spec fn content_length_name() -> Seq<u8> {
    seq![99u8, 111u8, 110u8, 116u8, 101u8, 110u8, 116u8, 45u8, 108u8, 101u8, 110u8, 103u8, 116u8, 104u8]
}

/// The name `content-type` as bytes.
pub open spec fn content_type_name() -> Seq<u8> {
    seq![99u8, 111u8, 110u8, 116u8, 101u8, 110u8, 116u8, 45u8, 116u8, 121u8, 112u8, 101u8]
}

/// The name `transfer-encoding` as bytes.
pub open spec fn transfer_encoding_name() -> Seq<u8> {
    seq![116u8, 114u8, 97u8, 110u8, 115u8, 102u8, 101u8, 114u8, 45u8, 101u8, 110u8, 99u8, 111u8, 100u8, 105u8, 110u8, 103u8]
}

/// Whether a header name, compared without regard to ASCII case, is one of
/// the framing-critical names: `host`, `content-length`, `content-type`,
/// `transfer-encoding`.
pub open spec fn is_framing_name(name: Seq<u8>) -> bool {
    ||| lower_seq(name) == host_name()
    ||| lower_seq(name) == content_length_name()
    ||| lower_seq(name) == content_type_name()
    ||| lower_seq(name) == transfer_encoding_name()
}

/// Whether a header name is framing-critical.
pub fn framing_name(name: &[u8]) -> (r: bool)
    ensures
        r == is_framing_name(name@),
{
    let host: Vec<u8> = vec![104u8, 111, 115, 116];
    let cl: Vec<u8> = vec![99u8, 111, 110, 116, 101, 110, 116, 45, 108, 101, 110, 103, 116, 104];
    let ct: Vec<u8> = vec![99u8, 111, 110, 116, 101, 110, 116, 45, 116, 121, 112, 101];
    let te: Vec<u8> = vec![
        116u8,
        114,
        97,
        110,
        115,
        102,
        101,
        114,
        45,
        101,
        110,
        99,
        111,
        100,
        105,
        110,
        103,
    ];
    proof {
        assert(host@ =~= host_name());
        assert(cl@ =~= content_length_name());
        assert(ct@ =~= content_type_name());
        assert(te@ =~= transfer_encoding_name());
        assert(lower_seq(host_name()) =~= host_name());
        assert(lower_seq(content_length_name()) =~= content_length_name());
        assert(lower_seq(content_type_name()) =~= content_type_name());
        assert(lower_seq(transfer_encoding_name()) =~= transfer_encoding_name());
    }
    let r = crate::http::bytes_eq_ci(name, host.as_slice()) || crate::http::bytes_eq_ci(
        name,
        cl.as_slice(),
    ) || crate::http::bytes_eq_ci(name, ct.as_slice()) || crate::http::bytes_eq_ci(
        name,
        te.as_slice(),
    );
    r
}

/// The commitment emitted for one header: framing-critical headers are
/// committed whole, name and value; all others without their value.
pub open spec fn header_commit(h: Header, d: Direction) -> (Set<int>, Direction) {
    if is_framing_name(h.name.data@) {
        (h.span.set(), d)
    } else {
        (h.without_value_set(), d)
    }
}

/// The commitments of the first `n` headers.
pub open spec fn headers_commits(hs: Seq<Header>, n: int, d: Direction) -> Seq<
    (Set<int>, Direction),
>
    decreases n,
{
    if n <= 0 {
        Seq::empty()
    } else {
        headers_commits(hs, n - 1, d) + seq![header_commit(hs[n - 1], d)]
    }
}

/// The header commitments number one per header and stand in header order.
proof fn lemma_headers_commits_full(hs: Seq<Header>, n: int, d: Direction)
    requires
        0 <= n,
    ensures
        headers_commits(hs, n, d).len() == n,
        forall|j: int| 0 <= j < n ==> headers_commits(hs, n, d)[j] == header_commit(hs[j], d),
    decreases n,
{
    if n > 0 {
        lemma_headers_commits_full(hs, n - 1, d);
    }
}

/// The positions covered by the first `n` boundary spans.
pub open spec fn boundaries_union(bs: Seq<Span>, n: int) -> Set<int>
    decreases n,
{
    if n <= 0 {
        Set::<int>::empty()
    } else {
        boundaries_union(bs, n - 1).union(bs[n - 1].set())
    }
}

/// The commitments of the first `n` boundary spans.
pub open spec fn boundaries_commits(bs: Seq<Span>, n: int) -> Seq<(Set<int>, Direction)>
    decreases n,
{
    if n <= 0 {
        Seq::empty()
    } else {
        boundaries_commits(bs, n - 1) + seq![(bs[n - 1].set(), Direction::Received)]
    }
}

/// The commitments of the first `n` trailers: each without its value.
pub open spec fn trailers_commits(ts: Seq<Header>, n: int) -> Seq<(Set<int>, Direction)>
    decreases n,
{
    if n <= 0 {
        Seq::empty()
    } else {
        trailers_commits(ts, n - 1) + seq![(ts[n - 1].without_value_set(), Direction::Received)]
    }
}

/// The boundary commitments number one per boundary span, in order.
proof fn lemma_boundaries_commits_full(bs: Seq<Span>, n: int)
    requires
        0 <= n,
    ensures
        boundaries_commits(bs, n).len() == n,
        forall|j: int|
            0 <= j < n ==> boundaries_commits(bs, n)[j] == (bs[j].set(), Direction::Received),
    decreases n,
{
    if n > 0 {
        lemma_boundaries_commits_full(bs, n - 1);
    }
}

/// The trailer commitments number one per trailer, in order.
proof fn lemma_trailers_commits_full(ts: Seq<Header>, n: int)
    requires
        0 <= n,
    ensures
        trailers_commits(ts, n).len() == n,
        forall|j: int|
            0 <= j < n ==> trailers_commits(ts, n)[j] == (
                ts[j].without_value_set(),
                Direction::Received,
            ),
    decreases n,
{
    if n > 0 {
        lemma_trailers_commits_full(ts, n - 1);
    }
}

/// The commitments for a request body: a JSON body contributes its
/// structural plan; an unknown body is committed whole.
pub open spec fn request_body_plan(b: Option<Body>) -> Seq<(Set<int>, Direction)> {
    match b {
        Option::None => Seq::empty(),
        Option::Some(b) => match b.content {
            BodyContent::Json(v) => json_plan(v, Direction::Sent),
            BodyContent::Unknown(sp) => seq![(sp.set(), Direction::Sent)],
        },
    }
}

/// The reveal plan of one request: its structural envelope, its full target,
/// its headers (framing-critical ones whole), and its body's structure.
pub open spec fn request_plan(r: Request) -> Seq<(Set<int>, Direction)> {
    seq![
        (r.without_data_set(), Direction::Sent),
        (r.request.target.set(), Direction::Sent),
    ] + headers_commits(r.headers@, r.headers@.len() as int, Direction::Sent) + request_body_plan(
        r.body,
    )
}

/// The commitments for a response body: a JSON body contributes its
/// structural plan; an unknown body is committed whole, minus the chunk
/// boundaries, which are committed on their own.
pub open spec fn response_body_plan(r: Response) -> Seq<(Set<int>, Direction)> {
    match r.body {
        Option::None => Seq::empty(),
        Option::Some(b) => match b.content {
            BodyContent::Json(v) => json_plan(v, Direction::Received),
            BodyContent::Unknown(sp) => seq![
                (sp.set().difference(r.all_boundaries_union()), Direction::Received),
            ],
        },
    }
}

impl Response {
    /// The positions covered by the chunk boundaries, if any.
    pub open spec fn all_boundaries_union(self) -> Set<int> {
        match self.boundaries {
            Option::Some(bs) => boundaries_union(bs@, bs@.len() as int),
            Option::None => Set::<int>::empty(),
        }
    }
}

/// The reveal plan of one response: its structural envelope, its headers
/// (framing-critical ones whole), its body's structure, its chunk
/// boundaries, and its trailers without their values.
pub open spec fn response_plan(r: Response) -> Seq<(Set<int>, Direction)> {
    seq![(r.without_data_set(), Direction::Received)] + headers_commits(
        r.headers@,
        r.headers@.len() as int,
        Direction::Received,
    ) + response_body_plan(r) + (match r.boundaries {
        Option::Some(bs) => boundaries_commits(bs@, bs@.len() as int),
        Option::None => Seq::empty(),
    }) + (match r.trailers {
        Option::Some(ts) => trailers_commits(ts@, ts@.len() as int),
        Option::None => Seq::empty(),
    })
}

/// The concatenated plans of the first `n` requests.
pub open spec fn requests_plan(rs: Seq<Request>, n: int) -> Seq<(Set<int>, Direction)>
    decreases n,
{
    if n <= 0 {
        Seq::empty()
    } else {
        requests_plan(rs, n - 1) + request_plan(rs[n - 1])
    }
}

/// The concatenated plans of the first `n` responses.
pub open spec fn responses_plan(rs: Seq<Response>, n: int) -> Seq<(Set<int>, Direction)>
    decreases n,
{
    if n <= 0 {
        Seq::empty()
    } else {
        responses_plan(rs, n - 1) + response_plan(rs[n - 1])
    }
}

proof fn lemma_requests_plan_len_mono(rs: Seq<Request>, i: int, n: int)
    requires
        0 <= i <= n <= rs.len(),
    ensures
        requests_plan(rs, i).len() <= requests_plan(rs, n).len(),
    decreases n,
{
    if n > i {
        lemma_requests_plan_len_mono(rs, i, n - 1);
    }
}

proof fn lemma_requests_plan_take_mid(rs: Seq<Request>, i: int, n: int, j: int)
    requires
        0 <= i < n <= rs.len(),
        0 <= j <= request_plan(rs[i]).len(),
    ensures
        requests_plan(rs, n).take(requests_plan(rs, i).len() + j) == requests_plan(rs, i)
            + request_plan(rs[i]).take(j),
    decreases n,
{
    if n == i + 1 {
        crate::json_commit::lemma_take_concat(requests_plan(rs, i), request_plan(rs[i]), j);
    } else {
        lemma_requests_plan_take_mid(rs, i, n - 1, j);
        lemma_requests_plan_len_mono(rs, i + 1, n - 1);
        assert(requests_plan(rs, i + 1).len() == requests_plan(rs, i).len() + request_plan(
            rs[i],
        ).len());
        crate::json_commit::lemma_take_concat_left(
            requests_plan(rs, n - 1),
            request_plan(rs[n - 1]),
            requests_plan(rs, i).len() + j,
        );
    }
}

proof fn lemma_responses_plan_len_mono(rs: Seq<Response>, i: int, n: int)
    requires
        0 <= i <= n <= rs.len(),
    ensures
        responses_plan(rs, i).len() <= responses_plan(rs, n).len(),
    decreases n,
{
    if n > i {
        lemma_responses_plan_len_mono(rs, i, n - 1);
    }
}

proof fn lemma_responses_plan_take_mid(rs: Seq<Response>, i: int, n: int, j: int)
    requires
        0 <= i < n <= rs.len(),
        0 <= j <= response_plan(rs[i]).len(),
    ensures
        responses_plan(rs, n).take(responses_plan(rs, i).len() + j) == responses_plan(rs, i)
            + response_plan(rs[i]).take(j),
    decreases n,
{
    if n == i + 1 {
        crate::json_commit::lemma_take_concat(responses_plan(rs, i), response_plan(rs[i]), j);
    } else {
        lemma_responses_plan_take_mid(rs, i, n - 1, j);
        lemma_responses_plan_len_mono(rs, i + 1, n - 1);
        assert(responses_plan(rs, i + 1).len() == responses_plan(rs, i).len() + response_plan(
            rs[i],
        ).len());
        crate::json_commit::lemma_take_concat_left(
            responses_plan(rs, n - 1),
            response_plan(rs[n - 1]),
            responses_plan(rs, i).len() + j,
        );
    }
}

/// An HTTP transcript: the requests sent to the server and the responses
/// received from it.
#[derive(Debug)]
pub struct HttpTranscript {
    /// The requests sent to the server.
    pub requests: Vec<Request>,
    /// The responses received from the server.
    pub responses: Vec<Response>,
}

impl HttpTranscript {
    /// Every message is well formed and the messages of each direction stand
    /// in source order without overlap.
    pub open spec fn wf(self) -> bool {
        &&& (forall|i: int| 0 <= i < self.requests@.len() ==> (#[trigger] self.requests@[i]).wf())
        &&& (forall|i: int, j: int|
            0 <= i < j < self.requests@.len() ==> (#[trigger] self.requests@[i]).span.end
                <= (#[trigger] self.requests@[j]).span.start)
        &&& (forall|i: int| 0 <= i < self.responses@.len() ==> (#[trigger] self.responses@[i]).wf())
        &&& (forall|i: int, j: int|
            0 <= i < j < self.responses@.len() ==> (#[trigger] self.responses@[i]).span.end
                <= (#[trigger] self.responses@[j]).span.start)
    }

    /// The transcript's spans are absolute into the two buffers it was
    /// parsed from, and its messages cover each buffer contiguously from the
    /// first byte to the last.
    pub open spec fn in_buffers(self, sent: Seq<u8>, received: Seq<u8>) -> bool {
        &&& (forall|i: int|
            0 <= i < self.requests@.len() ==> request_in_buf(#[trigger] self.requests@[i], sent))
        &&& (forall|i: int|
            0 <= i < self.responses@.len() ==> response_in_buf(
                #[trigger] self.responses@[i],
                received,
            ))
        &&& (self.requests@.len() > 0 ==> self.requests@[0].span.start == 0)
        &&& (forall|i: int|
            0 <= i < self.requests@.len() - 1 ==> (#[trigger] self.requests@[i + 1]).span.start
                == self.requests@[i].span.end)
        &&& (self.requests@.len() > 0 ==> self.requests@[self.requests@.len() - 1].span.end
            == sent.len())
        &&& (self.requests@.len() == 0 <==> sent.len() == 0)
        &&& (self.responses@.len() > 0 ==> self.responses@[0].span.start == 0)
        &&& (forall|i: int|
            0 <= i < self.responses@.len() - 1 ==> (#[trigger] self.responses@[i + 1]).span.start
                == self.responses@[i].span.end)
        &&& (self.responses@.len() > 0 ==> self.responses@[self.responses@.len() - 1].span.end
            == received.len())
        &&& (self.responses@.len() == 0 <==> received.len() == 0)
    }

    /// The reveal plan of the whole transcript: requests before responses,
    /// each in source order.
    pub open spec fn reveal_plan(self) -> Seq<(Set<int>, Direction)> {
        requests_plan(self.requests@, self.requests@.len() as int) + responses_plan(
            self.responses@,
            self.responses@.len() as int,
        )
    }

    /// Parses the HTTP transcript from the provided transcript.  Succeeds
    /// exactly when the sent bytes are a gapless sequence of requests of the
    /// grammar and the received bytes a gapless sequence of responses.
    pub fn parse(transcript: &Transcript) -> (r: Result<HttpTranscript, ParseError>)
        ensures
            r is Ok <==> (requests_stream_ok(transcript.sent@, 0) && responses_stream_ok(
                transcript.received@,
                0,
            )),
            r matches Ok(t) ==> t.wf() && t.in_buffers(transcript.sent@, transcript.received@),
            r matches Ok(t) ==> requests_at(transcript.sent@, t.requests@) && responses_at(
                transcript.received@,
                t.responses@,
            ),
            transcript.sent@.len() == 0 && transcript.received@.len() == 0 ==> r is Ok,
    {
        let requests = match parse_requests(transcript.sent()) {
            Ok(rs) => rs,
            Err(e) => {
                return Err(e);
            },
        };
        let responses = match parse_responses(transcript.received()) {
            Ok(rs) => rs,
            Err(e) => {
                return Err(e);
            },
        };
        Ok(HttpTranscript { requests, responses })
    }

    /// Parses the HTTP transcript from the provided partial transcript,
    /// overwriting all unauthenticated data with the sentinel byte first.
    /// The spans of the result are absolute into the filled buffers, and
    /// parsing succeeds exactly when the filled buffers are of the grammar.
    pub fn parse_partial(transcript: &PartialTranscript) -> (r: Result<HttpTranscript, ParseError>)
        ensures
            r is Ok <==> (requests_stream_ok(
                filled(transcript.sent@, rs_set(transcript.authed_sent), sentinel_fill_byte()),
                0,
            ) && responses_stream_ok(
                filled(
                    transcript.received@,
                    rs_set(transcript.authed_received),
                    sentinel_fill_byte(),
                ),
                0,
            )),
            r matches Ok(t) ==> t.wf() && t.in_buffers(
                filled(transcript.sent@, rs_set(transcript.authed_sent), sentinel_fill_byte()),
                filled(
                    transcript.received@,
                    rs_set(transcript.authed_received),
                    sentinel_fill_byte(),
                ),
            ),
            r matches Ok(t) ==> requests_at(
                filled(transcript.sent@, rs_set(transcript.authed_sent), sentinel_fill_byte()),
                t.requests@,
            ) && responses_at(
                filled(
                    transcript.received@,
                    rs_set(transcript.authed_received),
                    sentinel_fill_byte(),
                ),
                t.responses@,
            ),
            transcript.sent@.len() == 0 && transcript.received@.len() == 0 ==> r is Ok,
    {
        let mut parseable = transcript.duplicate();
        parseable.set_unauthed(42);
        let requests = match parse_requests(parseable.sent_unsafe()) {
            Ok(rs) => rs,
            Err(e) => {
                return Err(e);
            },
        };
        let responses = match parse_responses(parseable.received_unsafe()) {
            Ok(rs) => rs,
            Err(e) => {
                return Err(e);
            },
        };
        Ok(HttpTranscript { requests, responses })
    }

    /// Reveals the structure of a JSON body: its delimiters, separators, and
    /// keys, but none of its data bytes.  On failure, the commitments made
    /// are exactly a proper prefix of the plan — the failed call committed
    /// nothing and nothing was committed after it — and the builder's
    /// attempts show the rejected call, so the reveal fails only when the
    /// builder rejected a commitment.
    pub fn reveal_json_structure<C: TranscriptCommitmentBuilder>(
        &self,
        builder: &mut C,
        direction: Direction,
        json: &JsonValue,
    ) -> (r: Result<(), TranscriptCommitmentBuilderError>)
        requires
            crate::json::json_wf(*json),
        ensures
            r is Ok ==> final(builder).trace() == old(builder).trace() + json_plan(
                *json,
                direction,
            ) && final(builder).attempts() == old(builder).attempts() + json_plan(
                *json,
                direction,
            ),
            r is Err ==> exists|k: int|
                0 <= k < json_plan(*json, direction).len() && final(builder).trace() == old(
                    builder,
                ).trace() + json_plan(*json, direction).take(k) && final(builder).attempts()
                    == old(builder).attempts() + json_plan(*json, direction).take(k + 1),
            old(builder).trace().is_prefix_of(final(builder).trace()),
    {
        commit_structure_walk(builder, direction, json)
    }

    /// Reveals the structure of the whole transcript: for each message its
    /// structural envelope, its full target (requests), each header without
    /// its value — the framing-critical headers `host`, `content-length`,
    /// `content-type` and `transfer-encoding` whole instead — the structure
    /// of each JSON body, unknown bodies whole, and the chunk boundaries and
    /// trailers of chunked responses.  On success the builder's trace grows
    /// by exactly the transcript's reveal plan; on failure the commitments
    /// made are exactly a proper prefix of the plan — the failed call
    /// committed nothing and nothing was committed after it — so a
    /// transcript with an empty plan always succeeds.
    pub fn reveal_structure<C: TranscriptCommitmentBuilder>(&self, builder: &mut C) -> (r: Result<
        (),
        TranscriptCommitmentBuilderError,
    >)
        requires
            self.wf(),
        ensures
            r is Ok ==> final(builder).trace() == old(builder).trace() + self.reveal_plan()
                && final(builder).attempts() == old(builder).attempts() + self.reveal_plan(),
            r is Err ==> exists|k: int|
                0 <= k < self.reveal_plan().len() && final(builder).trace() == old(
                    builder,
                ).trace() + self.reveal_plan().take(k),
            r is Err ==> final(builder).attempts().len() == old(builder).attempts().len()
                + final(builder).trace().len() - old(builder).trace().len() + 1,
            old(builder).trace().is_prefix_of(final(builder).trace()),
    {
        let ghost t0 = builder.trace();
        let ghost a0 = builder.attempts();
        let mut i: usize = 0;
        while i < self.requests.len()
            invariant
                i <= self.requests@.len(),
                t0 == old(builder).trace(),
                a0 == old(builder).attempts(),
                self.wf(),
                builder.trace() == t0 + requests_plan(self.requests@, i as int),
                builder.attempts() == a0 + requests_plan(self.requests@, i as int),
            decreases self.requests@.len() - i,
        {
            let ghost ti = builder.trace();
            match reveal_request(builder, &self.requests[i]) {
                Ok(()) => {},
                Err(e) => {
                    proof {
                        assert(t0.is_prefix_of(builder.trace())) by {
                            assert(t0 =~= builder.trace().subrange(0, t0.len() as int));
                        }
                        let rs = self.requests@;
                        let nn = rs.len() as int;
                        let leni = requests_plan(rs, i as int).len() as int;
                        let kc = choose|kc: int|
                            0 <= kc < request_plan(rs[i as int]).len() && builder.trace() == ti
                                + request_plan(rs[i as int]).take(kc);
                        lemma_requests_plan_take_mid(rs, i as int, nn, kc);
                        lemma_requests_plan_len_mono(rs, i + 1 as int, nn);
                        assert(requests_plan(rs, i + 1 as int).len() == leni + request_plan(
                            rs[i as int],
                        ).len());
                        crate::json_commit::lemma_take_concat_left(
                            requests_plan(rs, nn),
                            responses_plan(self.responses@, self.responses@.len() as int),
                            leni + kc,
                        );
                        assert(builder.trace() =~= t0 + self.reveal_plan().take(leni + kc));
                        assert(leni + kc < self.reveal_plan().len());
                    }
                    return Err(e);
                },
            }
            proof {
                assert(builder.trace() =~= t0 + requests_plan(self.requests@, i + 1 as int));
                assert(builder.attempts() =~= a0 + requests_plan(self.requests@, i + 1 as int));
            }
            i = i + 1;
        }
        let ghost t1 = builder.trace();
        let ghost a1 = builder.attempts();
        let mut i: usize = 0;
        while i < self.responses.len()
            invariant
                i <= self.responses@.len(),
                t0 == old(builder).trace(),
                a0 == old(builder).attempts(),
                t1 == t0 + requests_plan(self.requests@, self.requests@.len() as int),
                a1 == a0 + requests_plan(self.requests@, self.requests@.len() as int),
                self.wf(),
                builder.trace() == t1 + responses_plan(self.responses@, i as int),
                builder.attempts() == a1 + responses_plan(self.responses@, i as int),
            decreases self.responses@.len() - i,
        {
            let ghost ti = builder.trace();
            match reveal_response(builder, &self.responses[i]) {
                Ok(()) => {},
                Err(e) => {
                    proof {
                        assert(t0.is_prefix_of(builder.trace())) by {
                            assert(t0 =~= builder.trace().subrange(0, t0.len() as int));
                        }
                        let rs = self.responses@;
                        let nn = rs.len() as int;
                        let rql = requests_plan(self.requests@, self.requests@.len() as int).len() as int;
                        let leni = responses_plan(rs, i as int).len() as int;
                        let kc = choose|kc: int|
                            0 <= kc < response_plan(rs[i as int]).len() && builder.trace() == ti
                                + response_plan(rs[i as int]).take(kc);
                        lemma_responses_plan_take_mid(rs, i as int, nn, kc);
                        lemma_responses_plan_len_mono(rs, i + 1 as int, nn);
                        assert(responses_plan(rs, i + 1 as int).len() == leni + response_plan(
                            rs[i as int],
                        ).len());
                        crate::json_commit::lemma_take_concat(
                            requests_plan(self.requests@, self.requests@.len() as int),
                            responses_plan(rs, nn),
                            leni + kc,
                        );
                        assert(builder.trace() =~= t0 + self.reveal_plan().take(rql + leni + kc));
                        assert(rql + leni + kc < self.reveal_plan().len());
                    }
                    return Err(e);
                },
            }
            proof {
                assert(builder.trace() =~= t1 + responses_plan(self.responses@, i + 1 as int));
                assert(builder.attempts() =~= a1 + responses_plan(self.responses@, i + 1 as int));
            }
            i = i + 1;
        }
        proof {
            assert(builder.trace() =~= t0 + self.reveal_plan());
            assert(builder.attempts() =~= a0 + self.reveal_plan());
            assert(t0.is_prefix_of(builder.trace())) by {
                assert(t0 =~= builder.trace().subrange(0, t0.len() as int));
            }
        }
        Ok(())
    }
}

/// Emits the commitments of one header.
fn commit_header<C: TranscriptCommitmentBuilder>(builder: &mut C, h: &Header) -> (r: Result<
    (),
    TranscriptCommitmentBuilderError,
>)
    requires
        h.wf(),
    ensures
        r is Ok ==> final(builder).trace() == old(builder).trace().push(
            header_commit(*h, Direction::Sent),
        ),
        r is Err ==> final(builder).trace() == old(builder).trace(),
        final(builder).attempts() == old(builder).attempts().push(
            header_commit(*h, Direction::Sent),
        ),
{
    if framing_name(h.name.as_bytes()) {
        builder.commit(&h.span.to_range_set(), Direction::Sent)
    } else {
        builder.commit(&h.without_value(), Direction::Sent)
    }
}

/// Emits the reveal plan of one request.  On failure the commitments made
/// are exactly a proper prefix of the request's plan.
fn reveal_request<C: TranscriptCommitmentBuilder>(builder: &mut C, r: &Request) -> (res: Result<
    (),
    TranscriptCommitmentBuilderError,
>)
    requires
        r.wf(),
    ensures
        res is Ok ==> final(builder).trace() == old(builder).trace() + request_plan(*r)
            && final(builder).attempts() == old(builder).attempts() + request_plan(*r),
        res is Err ==> exists|k: int|
            0 <= k < request_plan(*r).len() && final(builder).trace() == old(builder).trace()
                + request_plan(*r).take(k),
        res is Err ==> final(builder).attempts().len() == old(builder).attempts().len()
            + final(builder).trace().len() - old(builder).trace().len() + 1,
        old(builder).trace().is_prefix_of(final(builder).trace()),
{
    let ghost t0 = builder.trace();
    let ghost a0 = builder.attempts();
    let wd = r.without_data();
    match builder.commit(&wd, Direction::Sent) {
        Ok(()) => {},
        Err(e) => {
            proof {
                assert(t0.is_prefix_of(builder.trace())) by {
                    assert(t0 =~= builder.trace().subrange(0, t0.len() as int));
                }
                assert(builder.trace() =~= t0 + request_plan(*r).take(0));
                assert(0 < request_plan(*r).len());
            }
            return Err(e);
        },
    }
    match builder.commit(&r.request.target.to_range_set(), Direction::Sent) {
        Ok(()) => {},
        Err(e) => {
            proof {
                assert(t0.is_prefix_of(builder.trace())) by {
                    assert(t0 =~= builder.trace().subrange(0, t0.len() as int));
                }
                assert(builder.trace() =~= t0 + request_plan(*r).take(1));
                assert(1 < request_plan(*r).len());
            }
            return Err(e);
        },
    }
    let ghost hdr0 = builder.trace();
    let ghost ahdr0 = builder.attempts();
    proof {
        assert(hdr0 =~= t0 + seq![
            (r.without_data_set(), Direction::Sent),
            (r.request.target.set(), Direction::Sent),
        ]);
        assert(ahdr0 =~= a0 + seq![
            (r.without_data_set(), Direction::Sent),
            (r.request.target.set(), Direction::Sent),
        ]);
        assert(builder.trace() =~= hdr0 + headers_commits(r.headers@, 0int, Direction::Sent));
        assert(builder.attempts() =~= ahdr0 + headers_commits(r.headers@, 0int, Direction::Sent));
    }
    let mut i: usize = 0;
    while i < r.headers.len()
        invariant
            i <= r.headers@.len(),
            r.wf(),
            hdr0 == t0 + seq![
                (r.without_data_set(), Direction::Sent),
                (r.request.target.set(), Direction::Sent),
            ],
            ahdr0 == a0 + seq![
                (r.without_data_set(), Direction::Sent),
                (r.request.target.set(), Direction::Sent),
            ],
            t0 == old(builder).trace(),
            a0 == old(builder).attempts(),
            builder.trace() == hdr0 + headers_commits(r.headers@, i as int, Direction::Sent),
            builder.attempts() == ahdr0 + headers_commits(r.headers@, i as int, Direction::Sent),
        decreases r.headers@.len() - i,
    {
        match commit_header(builder, &r.headers[i]) {
            Ok(()) => {},
            Err(e) => {
                proof {
                    assert(t0.is_prefix_of(builder.trace())) by {
                        assert(t0 =~= builder.trace().subrange(0, t0.len() as int));
                    }
                    lemma_headers_commits_full(
                        r.headers@,
                        r.headers@.len() as int,
                        Direction::Sent,
                    );
                    lemma_headers_commits_full(r.headers@, i as int, Direction::Sent);
                    assert(builder.trace() =~= t0 + request_plan(*r).take(2 + i));
                    assert(2 + i < request_plan(*r).len());
                }
                return Err(e);
            },
        }
        proof {
            assert(builder.trace() =~= hdr0 + headers_commits(
                r.headers@,
                i + 1 as int,
                Direction::Sent,
            ));
            assert(builder.attempts() =~= ahdr0 + headers_commits(
                r.headers@,
                i + 1 as int,
                Direction::Sent,
            ));
        }
        i = i + 1;
    }
    match &r.body {
        None => {
            proof {
                assert(builder.trace() =~= t0 + request_plan(*r));
                assert(builder.attempts() =~= a0 + request_plan(*r));
                assert(t0.is_prefix_of(builder.trace())) by {
                    assert(t0 =~= builder.trace().subrange(0, t0.len() as int));
                }
            }
            Ok(())
        },
        Some(b) => {
            let ghost bt = builder.trace();
            let ghost ba = builder.attempts();
            match &b.content {
                BodyContent::Json(v) => {
                    match commit_structure_walk(builder, Direction::Sent, v) {
                        Ok(()) => {
                            proof {
                                assert(builder.trace() =~= t0 + request_plan(*r));
                                assert(builder.attempts() =~= a0 + request_plan(*r));
                                assert(t0.is_prefix_of(builder.trace())) by {
                                    assert(t0 =~= builder.trace().subrange(0, t0.len() as int));
                                }
                            }
                            Ok(())
                        },
                        Err(e) => {
                            proof {
                                assert(t0.is_prefix_of(builder.trace())) by {
                                    assert(t0 =~= builder.trace().subrange(0, t0.len() as int));
                                }
                                let hn = r.headers@.len() as int;
                                lemma_headers_commits_full(r.headers@, hn, Direction::Sent);
                                let kc = choose|kc: int|
                                    0 <= kc < json_plan(*v, Direction::Sent).len()
                                        && builder.trace() == bt + json_plan(
                                        *v,
                                        Direction::Sent,
                                    ).take(kc) && builder.attempts() == ba + json_plan(
                                        *v,
                                        Direction::Sent,
                                    ).take(kc + 1);
                                assert(builder.trace() =~= t0 + request_plan(*r).take(
                                    2 + hn + kc,
                                ));
                                assert(2 + hn + kc < request_plan(*r).len());
                                assert(builder.attempts().len() == a0.len() + builder.trace().len()
                                    - t0.len() + 1);
                            }
                            Err(e)
                        },
                    }
                },
                BodyContent::Unknown(sp) => {
                    match builder.commit(&sp.to_range_set(), Direction::Sent) {
                        Ok(()) => {
                            proof {
                                assert(builder.trace() =~= t0 + request_plan(*r));
                                assert(builder.attempts() =~= a0 + request_plan(*r));
                                assert(t0.is_prefix_of(builder.trace())) by {
                                    assert(t0 =~= builder.trace().subrange(0, t0.len() as int));
                                }
                            }
                            Ok(())
                        },
                        Err(e) => {
                            proof {
                                assert(t0.is_prefix_of(builder.trace())) by {
                                    assert(t0 =~= builder.trace().subrange(0, t0.len() as int));
                                }
                                let hn = r.headers@.len() as int;
                                lemma_headers_commits_full(r.headers@, hn, Direction::Sent);
                                assert(builder.trace() =~= t0 + request_plan(*r).take(2 + hn));
                                assert(2 + hn < request_plan(*r).len());
                            }
                            Err(e)
                        },
                    }
                },
            }
        },
    }
}

/// Emits the commitments of one response header.
fn commit_header_received<C: TranscriptCommitmentBuilder>(builder: &mut C, h: &Header) -> (r:
    Result<(), TranscriptCommitmentBuilderError>)
    requires
        h.wf(),
    ensures
        r is Ok ==> final(builder).trace() == old(builder).trace().push(
            header_commit(*h, Direction::Received),
        ),
        r is Err ==> final(builder).trace() == old(builder).trace(),
        final(builder).attempts() == old(builder).attempts().push(
            header_commit(*h, Direction::Received),
        ),
{
    if framing_name(h.name.as_bytes()) {
        builder.commit(&h.span.to_range_set(), Direction::Received)
    } else {
        builder.commit(&h.without_value(), Direction::Received)
    }
}

/// Emits the reveal plan of one response.  On failure the commitments made
/// are exactly a proper prefix of the response's plan.
#[verifier::rlimit(100)]
fn reveal_response<C: TranscriptCommitmentBuilder>(builder: &mut C, r: &Response) -> (res: Result<
    (),
    TranscriptCommitmentBuilderError,
>)
    requires
        r.wf(),
    ensures
        res is Ok ==> final(builder).trace() == old(builder).trace() + response_plan(*r)
            && final(builder).attempts() == old(builder).attempts() + response_plan(*r),
        res is Err ==> exists|k: int|
            0 <= k < response_plan(*r).len() && final(builder).trace() == old(builder).trace()
                + response_plan(*r).take(k),
        res is Err ==> final(builder).attempts().len() == old(builder).attempts().len()
            + final(builder).trace().len() - old(builder).trace().len() + 1,
        old(builder).trace().is_prefix_of(final(builder).trace()),
{
    let ghost t0 = builder.trace();
    let ghost a0 = builder.attempts();
    let wd = r.without_data();
    match builder.commit(&wd, Direction::Received) {
        Ok(()) => {},
        Err(e) => {
            proof {
                assert(t0.is_prefix_of(builder.trace())) by {
                    assert(t0 =~= builder.trace().subrange(0, t0.len() as int));
                }
                assert(builder.trace() =~= t0 + response_plan(*r).take(0));
                assert(0 < response_plan(*r).len());
            }
            return Err(e);
        },
    }
    let ghost hdr0 = builder.trace();
    let ghost ahdr0 = builder.attempts();
    proof {
        assert(hdr0 =~= t0 + seq![(r.without_data_set(), Direction::Received)]);
        assert(ahdr0 =~= a0 + seq![(r.without_data_set(), Direction::Received)]);
        assert(builder.trace() =~= hdr0 + headers_commits(r.headers@, 0int, Direction::Received));
        assert(builder.attempts() =~= ahdr0 + headers_commits(
            r.headers@,
            0int,
            Direction::Received,
        ));
    }
    let mut i: usize = 0;
    while i < r.headers.len()
        invariant
            i <= r.headers@.len(),
            r.wf(),
            hdr0 == t0 + seq![(r.without_data_set(), Direction::Received)],
            ahdr0 == a0 + seq![(r.without_data_set(), Direction::Received)],
            t0 == old(builder).trace(),
            a0 == old(builder).attempts(),
            builder.trace() == hdr0 + headers_commits(r.headers@, i as int, Direction::Received),
            builder.attempts() == ahdr0 + headers_commits(
                r.headers@,
                i as int,
                Direction::Received,
            ),
        decreases r.headers@.len() - i,
    {
        match commit_header_received(builder, &r.headers[i]) {
            Ok(()) => {},
            Err(e) => {
                proof {
                    assert(t0.is_prefix_of(builder.trace())) by {
                        assert(t0 =~= builder.trace().subrange(0, t0.len() as int));
                    }
                    lemma_headers_commits_full(
                        r.headers@,
                        r.headers@.len() as int,
                        Direction::Received,
                    );
                    lemma_headers_commits_full(r.headers@, i as int, Direction::Received);
                    assert(builder.trace() =~= t0 + response_plan(*r).take(1 + i));
                    assert(1 + i < response_plan(*r).len());
                }
                return Err(e);
            },
        }
        proof {
            assert(builder.trace() =~= hdr0 + headers_commits(
                r.headers@,
                i + 1 as int,
                Direction::Received,
            ));
            assert(builder.attempts() =~= ahdr0 + headers_commits(
                r.headers@,
                i + 1 as int,
                Direction::Received,
            ));
        }
        i = i + 1;
    }
    // The body.
    let ghost bt = builder.trace();
    let ghost ba = builder.attempts();
    match &r.body {
        None => {},
        Some(b) => {
            match &b.content {
                BodyContent::Json(v) => {
                    match commit_structure_walk(builder, Direction::Received, v) {
                        Ok(()) => {},
                        Err(e) => {
                            proof {
                                assert(t0.is_prefix_of(builder.trace())) by {
                                    assert(t0 =~= builder.trace().subrange(0, t0.len() as int));
                                }
                                let hn = r.headers@.len() as int;
                                lemma_headers_commits_full(r.headers@, hn, Direction::Received);
                                let kc = choose|kc: int|
                                    0 <= kc < json_plan(*v, Direction::Received).len()
                                        && builder.trace() == bt + json_plan(
                                        *v,
                                        Direction::Received,
                                    ).take(kc) && builder.attempts() == ba + json_plan(
                                        *v,
                                        Direction::Received,
                                    ).take(kc + 1);
                                assert(builder.trace() =~= t0 + response_plan(*r).take(
                                    1 + hn + kc,
                                ));
                                assert(1 + hn + kc < response_plan(*r).len());
                                assert(builder.attempts().len() == a0.len() + builder.trace().len()
                                    - t0.len() + 1);
                            }
                            return Err(e);
                        },
                    }
                },
                BodyContent::Unknown(sp) => {
                    let mut content = sp.to_range_set();
                    match &r.boundaries {
                        Some(bs) => {
                            let mut k: usize = 0;
                            while k < bs.len()
                                invariant
                                    k <= bs@.len(),
                                    r.boundaries matches Option::Some(bb) && bb == *bs,
                                    rs_set(content) == sp.set().difference(
                                        boundaries_union(bs@, k as int),
                                    ),
                                decreases bs@.len() - k,
                            {
                                content = rs_difference(&content, &bs[k].to_range_set());
                                proof {
                                    assert(sp.set().difference(boundaries_union(bs@, k as int))
                                        .difference(bs@[k as int].set()) =~= sp.set().difference(
                                        boundaries_union(bs@, k + 1 as int),
                                    ));
                                }
                                k = k + 1;
                            }
                        },
                        None => {
                            proof {
                                assert(rs_set(content) =~= sp.set().difference(
                                    r.all_boundaries_union(),
                                ));
                            }
                        },
                    }
                    match builder.commit(&content, Direction::Received) {
                        Ok(()) => {},
                        Err(e) => {
                            proof {
                                assert(t0.is_prefix_of(builder.trace())) by {
                                    assert(t0 =~= builder.trace().subrange(0, t0.len() as int));
                                }
                                let hn = r.headers@.len() as int;
                                lemma_headers_commits_full(r.headers@, hn, Direction::Received);
                                assert(builder.trace() =~= t0 + response_plan(*r).take(1 + hn));
                                assert(1 + hn < response_plan(*r).len());
                            }
                            return Err(e);
                        },
                    }
                },
            }
        },
    }
    let ghost bodyt = builder.trace();
    let ghost abodyt = builder.attempts();
    proof {
        assert(bodyt =~= hdr0 + headers_commits(
            r.headers@,
            r.headers@.len() as int,
            Direction::Received,
        ) + response_body_plan(*r));
        assert(abodyt =~= ahdr0 + headers_commits(
            r.headers@,
            r.headers@.len() as int,
            Direction::Received,
        ) + response_body_plan(*r));
        assert(builder.trace() =~= bodyt + boundaries_commits(
            match r.boundaries {
                Option::Some(bs) => bs@,
                Option::None => Seq::<Span>::empty(),
            },
            0int,
        ));
    }
    proof {
        assert(t0.is_prefix_of(bodyt)) by {
            assert(t0 =~= bodyt.subrange(0, t0.len() as int));
        }
    }
    // The chunk boundaries.
    match &r.boundaries {
        None => {},
        Some(bs) => {
            let mut k: usize = 0;
            while k < bs.len()
                invariant
                    k <= bs@.len(),
                    t0 == old(builder).trace(),
                    t0.is_prefix_of(bodyt),
                    r.wf(),
                    r.boundaries matches Option::Some(bb) && bb == *bs,
                    bodyt == t0 + seq![(r.without_data_set(), Direction::Received)]
                        + headers_commits(
                        r.headers@,
                        r.headers@.len() as int,
                        Direction::Received,
                    ) + response_body_plan(*r),
                    abodyt == a0 + seq![(r.without_data_set(), Direction::Received)]
                        + headers_commits(
                        r.headers@,
                        r.headers@.len() as int,
                        Direction::Received,
                    ) + response_body_plan(*r),
                    a0 == old(builder).attempts(),
                    builder.trace() == bodyt + boundaries_commits(bs@, k as int),
                    builder.attempts() == abodyt + boundaries_commits(bs@, k as int),
                decreases bs@.len() - k,
            {
                match builder.commit(&bs[k].to_range_set(), Direction::Received) {
                    Ok(()) => {},
                    Err(e) => {
                        proof {
                            assert(t0.is_prefix_of(builder.trace())) by {
                                assert(t0 =~= builder.trace().subrange(0, t0.len() as int));
                            }
                            let hn = r.headers@.len() as int;
                            let bpl = response_body_plan(*r).len() as int;
                            lemma_headers_commits_full(r.headers@, hn, Direction::Received);
                            lemma_boundaries_commits_full(bs@, bs@.len() as int);
                            lemma_boundaries_commits_full(bs@, k as int);
                            assert(builder.trace() =~= t0 + response_plan(*r).take(
                                1 + hn + bpl + k,
                            ));
                            assert(1 + hn + bpl + k < response_plan(*r).len());
                        }
                        return Err(e);
                    },
                }
                proof {
                    assert(builder.trace() =~= bodyt + boundaries_commits(bs@, k + 1 as int));
                    assert(builder.attempts() =~= abodyt + boundaries_commits(bs@, k + 1 as int));
                }
                k = k + 1;
            }
        },
    }
    let ghost boundt = builder.trace();
    let ghost aboundt = builder.attempts();
    proof {
        assert(t0.is_prefix_of(boundt)) by {
            assert(t0 =~= boundt.subrange(0, t0.len() as int));
        }
        assert(boundt =~= t0 + seq![(r.without_data_set(), Direction::Received)]
            + headers_commits(r.headers@, r.headers@.len() as int, Direction::Received)
            + response_body_plan(*r) + (match r.boundaries {
            Option::Some(bs) => boundaries_commits(bs@, bs@.len() as int),
            Option::None => Seq::empty(),
        }));
        assert(aboundt =~= a0 + seq![(r.without_data_set(), Direction::Received)]
            + headers_commits(r.headers@, r.headers@.len() as int, Direction::Received)
            + response_body_plan(*r) + (match r.boundaries {
            Option::Some(bs) => boundaries_commits(bs@, bs@.len() as int),
            Option::None => Seq::empty(),
        }));
    }
    // The trailers.
    match &r.trailers {
        None => {},
        Some(ts) => {
            let mut k: usize = 0;
            while k < ts.len()
                invariant
                    k <= ts@.len(),
                    t0 == old(builder).trace(),
                    t0.is_prefix_of(boundt),
                    r.wf(),
                    r.trailers matches Option::Some(tt) && tt == *ts,
                    boundt == t0 + seq![(r.without_data_set(), Direction::Received)]
                        + headers_commits(
                        r.headers@,
                        r.headers@.len() as int,
                        Direction::Received,
                    ) + response_body_plan(*r) + (match r.boundaries {
                        Option::Some(bs) => boundaries_commits(bs@, bs@.len() as int),
                        Option::None => Seq::empty(),
                    }),
                    aboundt == a0 + seq![(r.without_data_set(), Direction::Received)]
                        + headers_commits(
                        r.headers@,
                        r.headers@.len() as int,
                        Direction::Received,
                    ) + response_body_plan(*r) + (match r.boundaries {
                        Option::Some(bs) => boundaries_commits(bs@, bs@.len() as int),
                        Option::None => Seq::empty(),
                    }),
                    a0 == old(builder).attempts(),
                    builder.trace() == boundt + trailers_commits(ts@, k as int),
                    builder.attempts() == aboundt + trailers_commits(ts@, k as int),
                decreases ts@.len() - k,
            {
                match builder.commit(&ts[k].without_value(), Direction::Received) {
                    Ok(()) => {},
                    Err(e) => {
                        proof {
                            assert(t0.is_prefix_of(builder.trace())) by {
                                assert(t0 =~= builder.trace().subrange(0, t0.len() as int));
                            }
                            let hn = r.headers@.len() as int;
                            let bpl = response_body_plan(*r).len() as int;
                            let bcl: int = match &r.boundaries {
                                Option::Some(bb) => bb@.len() as int,
                                Option::None => 0,
                            };
                            lemma_headers_commits_full(r.headers@, hn, Direction::Received);
                            match &r.boundaries {
                                Option::Some(bb) => {
                                    lemma_boundaries_commits_full(bb@, bb@.len() as int);
                                },
                                Option::None => {},
                            }
                            lemma_trailers_commits_full(ts@, ts@.len() as int);
                            lemma_trailers_commits_full(ts@, k as int);
                            assert(builder.trace() =~= t0 + response_plan(*r).take(
                                1 + hn + bpl + bcl + k,
                            ));
                            assert(1 + hn + bpl + bcl + k < response_plan(*r).len());
                        }
                        return Err(e);
                    },
                }
                proof {
                    assert(builder.trace() =~= boundt + trailers_commits(ts@, k + 1 as int));
                    assert(builder.attempts() =~= aboundt + trailers_commits(ts@, k + 1 as int));
                }
                k = k + 1;
            }
        },
    }
    proof {
        assert(builder.trace() =~= t0 + response_plan(*r));
        assert(builder.attempts() =~= a0 + response_plan(*r));
        assert(t0.is_prefix_of(builder.trace())) by {
            assert(t0 =~= builder.trace().subrange(0, t0.len() as int));
        }
    }
    Ok(())
}

} // verus!
