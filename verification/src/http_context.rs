//! The HTTP context record: the frozen result of enforcement, with plain
//! string fields ready for serialization.

use vstd::prelude::*;
use crate::errors::EnforceError;
use crate::http::{lower_seq, Body, BodyContent, Header, Request, Response};
use crate::http_enforce::{is_valid_method_text, status_ok};
use crate::http_parse::{requests_at, requests_stream_ok, responses_at, responses_stream_ok};
use crate::http_transcript::sentinel_fill_byte;
use crate::ranges::rs_set;
use crate::transcript::filled;
use crate::http_transcript::{content_length_name, HttpTranscript};
use crate::json_context::JsonContext;
use crate::transcript::PartialTranscript;
use vstd::string::StringSliceAdditionalSpecFns;

verus! {

broadcast use vstd::std_specs::vec::axiom_vec_index_decreases;

/// The characters decoded from a byte string, with invalid sequences
/// replaced.
pub uninterp spec fn lossy_of(b: Seq<u8>) -> Seq<char>;

/// Relies on `String::from_utf8_lossy`: the decoding is a pure function of
/// the bytes.
#[verifier::external_body]
pub fn utf8_lossy(b: &[u8]) -> (r: String)
    ensures
        r@ == lossy_of(b@),
{
    String::from_utf8_lossy(b).to_string()
}

/// Whether `b` may appear in an HTTP method token.
pub open spec fn is_method_char(b: u8) -> bool {
    ||| 48 <= b <= 57
    ||| 97 <= b <= 122
    ||| 65 <= b <= 90
    ||| b == 33
    ||| b == 35
    ||| b == 36
    ||| b == 37
    ||| b == 38
    ||| b == 39
    ||| b == 42
    ||| b == 43
    ||| b == 45
    ||| b == 46
    ||| b == 94
    ||| b == 95
    ||| b == 96
    ||| b == 124
    ||| b == 126
}

/// Relies on `http::Method::from_str` and `Method::as_str`: parsing succeeds
/// exactly on a non-empty string of method token bytes, and the parsed
/// method renders back as the same string.
#[verifier::external_body]
pub fn parse_method(s: &str) -> (r: Option<String>)
    ensures
        r matches Some(m) ==> m@ == s@,
        r is Some <==> (s.spec_bytes().len() > 0 && forall|i: int|
            0 <= i < s.spec_bytes().len() ==> is_method_char(#[trigger] s.spec_bytes()[i])),
{
    match <http::Method as core::str::FromStr>::from_str(s) {
        Ok(m) => Some(m.as_str().to_string()),
        Err(_) => None,
    }
}

/// Relies on `http::StatusCode::from_str` and `StatusCode::as_u16`: parsing
/// succeeds exactly on three decimal digits with a non-zero first digit, and
/// returns their value.
#[verifier::external_body]
pub fn parse_status(s: &str) -> (r: Option<u16>)
    ensures
        r matches Some(n) ==> (s.spec_bytes().len() == 3 && n == (s.spec_bytes()[0] - 48) * 100 + (
        s.spec_bytes()[1] - 48) * 10 + (s.spec_bytes()[2] - 48)),
        r is Some <==> (s.spec_bytes().len() == 3 && 49 <= s.spec_bytes()[0] <= 57 && 48
            <= s.spec_bytes()[1] <= 57 && 48 <= s.spec_bytes()[2] <= 57),
{
    match <http::StatusCode as core::str::FromStr>::from_str(s) {
        Ok(c) => Some(c.as_u16()),
        Err(_) => None,
    }
}

/// The context of a body: the enforced JSON value, or the raw bytes.
#[derive(Debug)]
pub enum BodyContext {
    /// The body is JSON.
    Json(JsonContext),
    /// The body is unknown.
    Unknown(Vec<u8>),
}

/// The context of a request.
#[derive(Debug)]
pub struct RequestContext {
    /// The request target, decoded from its bytes.
    pub target: String,
    /// The method token.
    pub method: String,
    /// The emitted headers, as decoded name and value pairs.
    pub headers: Vec<(String, String)>,
    /// The body context, if any.
    pub body: Option<BodyContext>,
}

/// The context of a response.
#[derive(Debug)]
pub struct ResponseContext {
    /// The three-digit status code.
    pub status: u16,
    /// The emitted headers, as decoded name and value pairs.
    pub headers: Vec<(String, String)>,
    /// The body context, if any.
    pub body: Option<BodyContext>,
}

/// The emitted context of a whole conversation.
#[derive(Debug)]
pub struct HttpContext {
    /// One context per request, in source order.
    pub requests: Vec<RequestContext>,
    /// One context per response, in source order.
    pub responses: Vec<ResponseContext>,
}

/// The body context a body maps to.
pub open spec fn body_context_rel(b: Body, c: BodyContext) -> bool {
    match b.content {
        BodyContent::Json(v) => c matches BodyContext::Json(jc) && jc.value == v,
        BodyContent::Unknown(sp) => c matches BodyContext::Unknown(bytes) && bytes@ == sp.data@,
    }
}

/// Turns a parsed body into its context.
pub fn body_context(b: Body) -> (r: BodyContext)
    ensures
        body_context_rel(b, r),
{
    match b.content {
        BodyContent::Json(v) => BodyContext::Json(JsonContext { value: v }),
        BodyContent::Unknown(sp) => BodyContext::Unknown(sp.data),
    }
}

/// The decoded name and value pairs of the first `n` headers, skipping
/// `content-length` when asked to.
pub open spec fn ctx_headers(hs: Seq<Header>, n: int, skip_cl: bool) -> Seq<(Seq<char>, Seq<char>)>
    decreases n,
{
    if n <= 0 {
        Seq::empty()
    } else {
        ctx_headers(hs, n - 1, skip_cl) + (if skip_cl && lower_seq(hs[n - 1].name.data@)
            == content_length_name() {
            Seq::empty()
        } else {
            seq![(lossy_of(hs[n - 1].name.data@), lossy_of(hs[n - 1].value.data@))]
        })
    }
}

/// The view of a list of decoded header pairs.
pub open spec fn pairs_view(ps: Seq<(String, String)>) -> Seq<(Seq<char>, Seq<char>)> {
    ps.map_values(|p: (String, String)| (p.0@, p.1@))
}

/// Collects the decoded header pairs, skipping `content-length` when asked
/// to.
pub fn collect_headers(hs: &Vec<Header>, skip_cl: bool) -> (r: Vec<(String, String)>)
    ensures
        pairs_view(r@) == ctx_headers(hs@, hs@.len() as int, skip_cl),
{
    let mut out: Vec<(String, String)> = Vec::new();
    let cl: Vec<u8> = vec![99u8, 111, 110, 116, 101, 110, 116, 45, 108, 101, 110, 103, 116, 104];
    proof {
        assert(cl@ =~= content_length_name());
        assert(lower_seq(content_length_name()) =~= content_length_name());
        assert(pairs_view(out@) =~= ctx_headers(hs@, 0int, skip_cl));
    }
    let mut i: usize = 0;
    while i < hs.len()
        invariant
            i <= hs@.len(),
            cl@ == content_length_name(),
            pairs_view(out@) == ctx_headers(hs@, i as int, skip_cl),
        decreases hs@.len() - i,
    {
        let h = &hs[i];
        let skip = skip_cl && crate::http::bytes_eq_ci(h.name.as_bytes(), cl.as_slice());
        proof {
            assert(lower_seq(cl@) =~= content_length_name());
        }
        if !skip {
            let name = utf8_lossy(h.name.as_bytes());
            let value = utf8_lossy(h.value.as_bytes());
            out.push((name, value));
        }
        proof {
            assert(pairs_view(out@) =~= ctx_headers(hs@, i + 1 as int, skip_cl));
        }
        i = i + 1;
    }
    out
}

/// Builder for [`HttpContext`]: emits the full context of a partial
/// transcript without enforcing a structure template.
#[derive(Debug)]
pub struct HttpContextBuilder {
    /// The partial transcript to parse.
    pub transcript: PartialTranscript,
}

/// The relation between a parsed request and its emitted context when no
/// structure template is enforced: all headers but `content-length` decoded,
/// the method validated, the body carried over.
pub open spec fn plain_request_ctx(r: Request, c: RequestContext) -> bool {
    &&& c.target@ == lossy_of(r.request.target.data@)
    &&& lossy_of(r.request.method.data@) == c.method@
    &&& pairs_view(c.headers@) == ctx_headers(r.headers@, r.headers@.len() as int, true)
    &&& match r.body {
        Option::Some(b) => c.body matches Option::Some(bc) && body_context_rel(b, bc),
        Option::None => c.body is None,
    }
}

/// The relation between a parsed response and its emitted context when no
/// structure template is enforced.
pub open spec fn plain_response_ctx(r: Response, c: ResponseContext) -> bool {
    &&& (r.status.code.data@.len() == 3 && 49 <= r.status.code.data@[0] <= 57 && 48
        <= r.status.code.data@[1] <= 57 && 48 <= r.status.code.data@[2] <= 57)
    &&& c.status == (r.status.code.data@[0] - 48) * 100 + (r.status.code.data@[1] - 48) * 10 + (
    r.status.code.data@[2] - 48)
    &&& pairs_view(c.headers@) == ctx_headers(r.headers@, r.headers@.len() as int, false)
    &&& match r.body {
        Option::Some(b) => c.body matches Option::Some(bc) && body_context_rel(b, bc),
        Option::None => c.body is None,
    }
}

impl HttpContextBuilder {
    /// Creates a new builder over the given partial transcript.
    pub fn new(transcript: PartialTranscript) -> (r: HttpContextBuilder)
        ensures
            r.transcript == transcript,
    {
        HttpContextBuilder { transcript }
    }

    /// Parses the partial transcript with sentinel fill and emits the
    /// context of everything in it: for each request its target, its
    /// validated method, and its headers except `content-length`; for each
    /// response its status code and all its headers; and each body as JSON
    /// or raw bytes.  Fails on a parse error, on a method token the HTTP
    /// library rejects, or on a status code that is not three digits.
    pub fn build(self) -> (r: Result<HttpContext, EnforceError>)
        ensures
            r matches Ok(ctx) ==> exists|t: HttpTranscript|
                (#[trigger] t.wf()) && t.in_buffers(
                    filled(
                        self.transcript.sent@,
                        rs_set(self.transcript.authed_sent),
                        sentinel_fill_byte(),
                    ),
                    filled(
                        self.transcript.received@,
                        rs_set(self.transcript.authed_received),
                        sentinel_fill_byte(),
                    ),
                ) && requests_at(
                    filled(
                        self.transcript.sent@,
                        rs_set(self.transcript.authed_sent),
                        sentinel_fill_byte(),
                    ),
                    t.requests@,
                ) && responses_at(
                    filled(
                        self.transcript.received@,
                        rs_set(self.transcript.authed_received),
                        sentinel_fill_byte(),
                    ),
                    t.responses@,
                ) && contexts_rel(t, ctx) && requests_methods_ok(t.requests@)
                    && responses_statuses_ok(t.responses@),
            r matches Err(e) ==> (e is Parse || e is MethodMismatch || e is StatusMismatch),
            match r {
                Result::Ok(_) => requests_stream_ok(
                    filled(
                        self.transcript.sent@,
                        rs_set(self.transcript.authed_sent),
                        sentinel_fill_byte(),
                    ),
                    0,
                ) && responses_stream_ok(
                    filled(
                        self.transcript.received@,
                        rs_set(self.transcript.authed_received),
                        sentinel_fill_byte(),
                    ),
                    0,
                ),
                Result::Err(e) => (e is Parse <==> !(requests_stream_ok(
                    filled(
                        self.transcript.sent@,
                        rs_set(self.transcript.authed_sent),
                        sentinel_fill_byte(),
                    ),
                    0,
                ) && responses_stream_ok(
                    filled(
                        self.transcript.received@,
                        rs_set(self.transcript.authed_received),
                        sentinel_fill_byte(),
                    ),
                    0,
                ))),
            },
            self.transcript.sent@.len() == 0 && self.transcript.received@.len() == 0 ==> r is Ok,
    {
        let transcript = match HttpTranscript::parse_partial(&self.transcript) {
            Ok(t) => t,
            Err(e) => {
                return Err(EnforceError::Parse(e));
            },
        };
        let ghost tg = transcript;
        let r = contexts_of(transcript);
        match r {
            Ok(ctx) => {
                proof {
                    assert(tg.wf() && tg.in_buffers(
                        filled(
                            self.transcript.sent@,
                            rs_set(self.transcript.authed_sent),
                            sentinel_fill_byte(),
                        ),
                        filled(
                            self.transcript.received@,
                            rs_set(self.transcript.authed_received),
                            sentinel_fill_byte(),
                        ),
                    ) && requests_at(
                        filled(
                            self.transcript.sent@,
                            rs_set(self.transcript.authed_sent),
                            sentinel_fill_byte(),
                        ),
                        tg.requests@,
                    ) && responses_at(
                        filled(
                            self.transcript.received@,
                            rs_set(self.transcript.authed_received),
                            sentinel_fill_byte(),
                        ),
                        tg.responses@,
                    ) && contexts_rel(tg, ctx) && requests_methods_ok(tg.requests@)
                        && responses_statuses_ok(tg.responses@));
                }
                Ok(ctx)
            },
            Err(e) => Err(e),
        }
    }
}

/// The emitted context mirrors the parsed transcript message for message.
pub open spec fn contexts_rel(t: HttpTranscript, ctx: HttpContext) -> bool {
    &&& ctx.requests@.len() == t.requests@.len()
    &&& ctx.responses@.len() == t.responses@.len()
    &&& (forall|i: int|
        0 <= i < t.requests@.len() ==> plain_request_ctx(
            t.requests@[i],
            #[trigger] ctx.requests@[i],
        ))
    &&& (forall|i: int|
        0 <= i < t.responses@.len() ==> plain_response_ctx(
            t.responses@[i],
            #[trigger] ctx.responses@[i],
        ))
}

/// Every request's method token is one the HTTP library accepts.
pub open spec fn requests_methods_ok(rs: Seq<Request>) -> bool {
    forall|i: int|
        0 <= i < rs.len() ==> is_valid_method_text((#[trigger] rs[i]).request.method.data@)
}

/// Every response's status code is three digits with a non-zero first digit.
pub open spec fn responses_statuses_ok(rs: Seq<Response>) -> bool {
    forall|i: int| 0 <= i < rs.len() ==> status_ok((#[trigger] rs[i]).status.code.data@)
}

/// Emits the plain context of every message of the transcript.  Succeeds
/// exactly when every method and every status code is valid.
pub fn contexts_of(transcript: HttpTranscript) -> (r: Result<HttpContext, EnforceError>)
    ensures
        r is Ok <==> (requests_methods_ok(transcript.requests@) && responses_statuses_ok(
            transcript.responses@,
        )),
        r matches Ok(ctx) ==> contexts_rel(transcript, ctx),
        r matches Err(e) ==> (e is MethodMismatch || e is StatusMismatch),
{
    let HttpTranscript { requests, responses } = transcript;
    let ghost orig_reqs = requests@;
    let ghost orig_resps = responses@;
    let mut request_contexts: Vec<RequestContext> = Vec::new();
    let mut rest = requests;
    while rest.len() > 0
        invariant
            orig_reqs == transcript.requests@,
            orig_resps == transcript.responses@,
            request_contexts@.len() + rest@.len() == orig_reqs.len(),
            rest@ == orig_reqs.skip(request_contexts@.len() as int),
            forall|j: int|
                0 <= j < request_contexts@.len() ==> is_valid_method_text(
                    (#[trigger] orig_reqs[j]).request.method.data@,
                ),
            forall|j: int|
                0 <= j < request_contexts@.len() ==> plain_request_ctx(
                    orig_reqs[j],
                    #[trigger] request_contexts@[j],
                ),
        decreases rest@.len(),
    {
        let ghost k = request_contexts@.len() as int;
        let req = rest.remove(0);
        proof {
            assert(req == orig_reqs[k]);
            assert(rest@ =~= orig_reqs.skip(k + 1));
        }
        match plain_request_context(req) {
            Ok(c) => {
                request_contexts.push(c);
            },
            Err(e) => {
                proof {
                    assert(!is_valid_method_text(orig_reqs[k].request.method.data@));
                    assert(!requests_methods_ok(transcript.requests@));
                }
                return Err(e);
            },
        }
    }
    proof {
        assert(requests_methods_ok(transcript.requests@));
    }
    let mut response_contexts: Vec<ResponseContext> = Vec::new();
    let mut rest = responses;
    while rest.len() > 0
        invariant
            orig_reqs == transcript.requests@,
            orig_resps == transcript.responses@,
            requests_methods_ok(transcript.requests@),
            request_contexts@.len() == orig_reqs.len(),
            response_contexts@.len() + rest@.len() == orig_resps.len(),
            rest@ == orig_resps.skip(response_contexts@.len() as int),
            forall|j: int|
                0 <= j < response_contexts@.len() ==> status_ok(
                    (#[trigger] orig_resps[j]).status.code.data@,
                ),
            forall|j: int|
                0 <= j < response_contexts@.len() ==> plain_response_ctx(
                    orig_resps[j],
                    #[trigger] response_contexts@[j],
                ),
            forall|j: int|
                0 <= j < request_contexts@.len() ==> plain_request_ctx(
                    orig_reqs[j],
                    #[trigger] request_contexts@[j],
                ),
        decreases rest@.len(),
    {
        let ghost k = response_contexts@.len() as int;
        let resp = rest.remove(0);
        proof {
            assert(resp == orig_resps[k]);
            assert(rest@ =~= orig_resps.skip(k + 1));
        }
        match plain_response_context(resp) {
            Ok(c) => {
                response_contexts.push(c);
            },
            Err(e) => {
                proof {
                    assert(!status_ok(orig_resps[k].status.code.data@));
                    assert(!responses_statuses_ok(transcript.responses@));
                }
                return Err(e);
            },
        }
    }
    proof {
        assert(responses_statuses_ok(transcript.responses@));
    }
    Ok(HttpContext { requests: request_contexts, responses: response_contexts })
}

/// Emits the plain context of one request.  Succeeds exactly when the
/// method token is one the HTTP library accepts.
pub fn plain_request_context(r: Request) -> (res: Result<RequestContext, EnforceError>)
    ensures
        res is Ok <==> is_valid_method_text(r.request.method.data@),
        res matches Ok(c) ==> plain_request_ctx(r, c),
        res matches Err(e) ==> e is MethodMismatch,
{
    let target = utf8_lossy(r.request.target.as_bytes());
    let method_text = utf8_lossy(r.request.method.as_bytes());
    let method = match parse_method(method_text.as_str()) {
        Some(m) => m,
        None => {
            return Err(EnforceError::MethodMismatch);
        },
    };
    let headers = collect_headers(&r.headers, true);
    let body = match r.body {
        Some(b) => Some(body_context(b)),
        None => None,
    };
    Ok(RequestContext { target, method, headers, body })
}

/// Emits the plain context of one response.  Succeeds exactly when the
/// status code is three decimal digits with a non-zero first digit.
pub fn plain_response_context(r: Response) -> (res: Result<ResponseContext, EnforceError>)
    ensures
        res is Ok <==> status_ok(r.status.code.data@),
        res matches Ok(c) ==> plain_response_ctx(r, c),
        res matches Err(e) ==> e is StatusMismatch,
{
    let status = match bytes_as_str(r.status.code.as_bytes()) {
        Some(t) => match parse_status(t) {
            Some(n) => n,
            None => {
                return Err(EnforceError::StatusMismatch);
            },
        },
        None => {
            return Err(EnforceError::StatusMismatch);
        },
    };
    let headers = collect_headers(&r.headers, false);
    let body = match r.body {
        Some(b) => Some(body_context(b)),
        None => None,
    };
    Ok(ResponseContext { status, headers, body })
}

/// The characters a byte string decodes to when it is valid UTF-8.
pub uninterp spec fn utf8_of(b: Seq<u8>) -> Option<Seq<char>>;

/// Relies on `core::str::from_utf8`: decoding succeeds exactly on valid
/// UTF-8 and returns a view of the same bytes.
#[verifier::external_body]
pub fn bytes_as_str(b: &[u8]) -> (r: Option<&str>)
    ensures
        match r {
            Option::Some(s) => utf8_of(b@) == Option::Some(s@) && s.spec_bytes() == b@,
            Option::None => utf8_of(b@) is None,
        },
{
    match core::str::from_utf8(b) {
        Ok(s) => Some(s),
        Err(_) => None,
    }
}

} // verus!
