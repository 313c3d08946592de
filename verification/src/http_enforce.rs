//! The HTTP structural engine: walks a structure template and a parsed
//! candidate transcript in lockstep, enforcing methods, targets, headers and
//! bodies, and emits the context of the accepted candidate.

use vstd::prelude::*;
use crate::errors::{EnforceError, Side};
use crate::http::{find_header, lower_seq, Body, BodyContent, Header, Request, Response};
use crate::http_context::{
    body_context_rel, bytes_as_str, is_method_char, lossy_of, pairs_view, parse_method,
    parse_status, utf8_lossy, utf8_of, BodyContext, HttpContext, RequestContext, ResponseContext,
};
use crate::http_parse::{requests_at, requests_stream_ok, responses_at, responses_stream_ok};
use crate::http_transcript::{content_length_name, sentinel_fill_byte, HttpTranscript, MessageKind};
use crate::json_enforce::json_matches;
use crate::json_context::JsonContext;
use crate::span::bytes_eq;
use crate::ranges::rs_set;
use crate::transcript::{filled, PartialTranscript};
use vstd::slice::slice_to_vec;

verus! {

broadcast use vstd::std_specs::vec::axiom_vec_index_decreases;

/// The parts of a resolved request target.
#[derive(Debug)]
pub struct TargetParts {
    /// The path of the resolved URL.
    pub path: String,
    /// Its query, if any.
    pub query: Option<String>,
    /// Its host, if any.
    pub host: Option<String>,
}

/// The path, query and host that a target string resolves to against a base
/// URL, when it resolves at all.
pub uninterp spec fn resolved_target(base: Seq<char>, target: Seq<char>) -> Option<
    (Seq<char>, Option<Seq<char>>, Option<Seq<char>>),
>;

/// Relies on `url::Url::parse`, `Url::join`, `Url::path`, `Url::query` and
/// `Url::host_str`: resolving a target against a base URL is a pure function
/// of the two strings.
#[verifier::external_body]
fn resolve_target(base: &str, target: &str) -> (r: Option<TargetParts>)
    ensures
        match r {
            Option::None => resolved_target(base@, target@) is None,
            Option::Some(p) => resolved_target(base@, target@) matches Option::Some(t) && p.path@
                == t.0 && (match p.query {
                Option::Some(q) => t.1 matches Option::Some(qq) && q@ == qq,
                Option::None => t.1 is None,
            }) && (match p.host {
                Option::Some(h) => t.2 matches Option::Some(hh) && h@ == hh,
                Option::None => t.2 is None,
            }),
        },
{
    let base_url = match url::Url::parse(base) {
        Ok(u) => u,
        Err(_) => return None,
    };
    let u = match base_url.join(target) {
        Ok(u) => u,
        Err(_) => return None,
    };
    Some(
        TargetParts {
            path: u.path().to_string(),
            query: u.query().map(|q| q.to_string()),
            host: u.host_str().map(|h| h.to_string()),
        },
    )
}

/// The dummy base that targets resolve against.
pub open spec fn base_chars() -> Seq<char> {
    seq![
        'h', 't', 't', 'p', 's', ':', '/', '/', 'e', 'x', 'a', 'm', 'p', 'l', 'e', '.', 'c', 'o',
        'm',
    ]
}

/// Whether the target is origin-form: it begins with a slash.
pub open spec fn starts_with_slash(b: Seq<u8>) -> bool {
    b.len() > 0 && b[0] == 47
}

/// The target comparison: both targets resolve against the dummy base, their
/// paths and queries agree exactly, and, when the structure target is not
/// origin-form, their hosts agree as well.
pub open spec fn target_accepts(sb: Seq<u8>, cb: Seq<u8>) -> bool {
    match (utf8_of(sb), utf8_of(cb)) {
        (Option::Some(st), Option::Some(ct)) => match (
            resolved_target(base_chars(), st),
            resolved_target(base_chars(), ct),
        ) {
            (Option::Some(sp), Option::Some(cp)) => sp.0 == cp.0 && sp.1 == cp.1 && (
            starts_with_slash(sb) || sp.2 == cp.2),
            _ => false,
        },
        _ => false,
    }
}

/// Whether the structure header pins its value: it holds at least one byte
/// other than the asterisk sentinel.  An all-sentinel value is a wildcard.
pub open spec fn header_value_pinned(h: Header) -> bool {
    exists|i: int| 0 <= i < h.value.data@.len() && #[trigger] h.value.data@[i] != 42
}

/// Whether every byte of `v` is the asterisk sentinel.
fn all_asterisks(v: &[u8]) -> (r: bool)
    ensures
        r == forall|j: int| 0 <= j < v@.len() ==> #[trigger] v@[j] == 42,
{
    let mut i: usize = 0;
    while i < v.len()
        invariant
            i <= v@.len(),
            forall|j: int| 0 <= j < i ==> #[trigger] v@[j] == 42,
        decreases v@.len() - i,
    {
        if v[i] != 42 {
            return false;
        }
        i = i + 1;
    }
    true
}

/// Whether a structure header is ignored by enforcement: `content-length` is
/// always ignored.
pub open spec fn header_skipped(h: Header) -> bool {
    lower_seq(h.name.data@) == content_length_name()
}

/// Whether one structure header is satisfied by the candidate headers: it is
/// skipped, or the first candidate header of the same name exists and, when
/// the value is pinned, carries exactly the same bytes.
pub open spec fn header_accepts(sh: Header, cs: Seq<Header>) -> bool {
    ||| header_skipped(sh)
    ||| match find_header(cs, sh.name.data@) {
        Option::Some(i) => !header_value_pinned(sh) || cs[i].value.data@ == sh.value.data@,
        Option::None => false,
    }
}

/// Wildcard acceptance for headers: a structure header whose value is
/// entirely sentinels accepts any candidate value, as long as a header of
/// that name is present.
pub proof fn lemma_wildcard_header_accepts(sh: Header, cs: Seq<Header>)
    requires
        !header_value_pinned(sh),
        find_header(cs, sh.name.data@) is Some,
    ensures
        header_accepts(sh, cs),
{
}

/// The first `n` structure headers are satisfied.
pub open spec fn headers_accept(ss: Seq<Header>, cs: Seq<Header>, n: int) -> bool
    decreases n,
{
    if n <= 0 {
        true
    } else {
        headers_accept(ss, cs, n - 1) && header_accepts(ss[n - 1], cs)
    }
}

proof fn lemma_headers_accept_iff(ss: Seq<Header>, cs: Seq<Header>, n: int)
    requires
        0 <= n <= ss.len(),
    ensures
        headers_accept(ss, cs, n) <==> (forall|i: int|
            0 <= i < n ==> header_accepts(#[trigger] ss[i], cs)),
    decreases n,
{
    if n > 0 {
        lemma_headers_accept_iff(ss, cs, n - 1);
    }
}

/// Whether a body of the structure accepts a body of the candidate.
pub open spec fn content_accepts(s: BodyContent, c: BodyContent) -> bool {
    match (s, c) {
        (BodyContent::Json(sv), BodyContent::Json(cv)) => json_matches(sv, cv),
        (BodyContent::Unknown(ss), BodyContent::Unknown(cs)) => ss.data@ == cs.data@,
        _ => false,
    }
}

/// Whether the candidate body satisfies the structure body: a structure
/// without a body ignores the candidate's; a structure with a body requires
/// one of the same content class that matches.
pub open spec fn body_accepts(sb: Option<Body>, cb: Option<Body>) -> bool {
    match sb {
        Option::None => true,
        Option::Some(s) => match cb {
            Option::None => false,
            Option::Some(c) => content_accepts(s.content, c.content),
        },
    }
}

/// The error of the first unsatisfied structure header: the lowest-index
/// structure header that the candidate headers fail names the error —
/// `HeaderMissing` with its name when no candidate header of that name
/// exists, `HeaderValueMismatch` with its name otherwise.
pub open spec fn header_err(ss: Seq<Header>, cs: Seq<Header>, e: EnforceError) -> bool {
    exists|i: int|
        0 <= i < ss.len() && !header_accepts(#[trigger] ss[i], cs) && (forall|j: int|
            0 <= j < i ==> header_accepts(#[trigger] ss[j], cs)) && (match find_header(
            cs,
            ss[i].name.data@,
        ) {
            Option::None => e matches EnforceError::HeaderMissing { name } && name@
                == ss[i].name.data@,
            Option::Some(_) => e matches EnforceError::HeaderValueMismatch { name } && name@
                == ss[i].name.data@,
        })
}

/// The error a body pair produces, by cause: a candidate without the
/// declared body is `BodyMissing` on the candidate side; otherwise the
/// content classes decide.
pub open spec fn body_err(sb: Option<Body>, cb: Option<Body>, e: EnforceError) -> bool {
    match sb {
        Option::None => false,
        Option::Some(s) => match cb {
            Option::None => e matches EnforceError::BodyMissing { side } && side is Candidate,
            Option::Some(c) => content_err(s.content, c.content, e),
        },
    }
}

/// The error a body content pair produces, by cause: diverging JSON trees
/// give `StructureMismatch` with the dotted path of the first divergence,
/// unequal unknown bytes give `BodyContentMismatch`, and mixed classes give
/// `BodyTypeMismatch`.
pub open spec fn content_err(s: BodyContent, c: BodyContent, e: EnforceError) -> bool {
    match (s, c) {
        (BodyContent::Json(sv), BodyContent::Json(cv)) => e
            matches EnforceError::StructureMismatch { path } && path@
            == crate::json_enforce::mismatch_path(sv, cv),
        (BodyContent::Unknown(_), BodyContent::Unknown(_)) => e is BodyContentMismatch,
        _ => e is BodyTypeMismatch,
    }
}

/// The error one request pair produces, by cause and in check order: method
/// bytes first, then the target, then the headers, then the method token's
/// validity, then the body.
pub open spec fn request_err(s: Request, c: Request, e: EnforceError) -> bool {
    if c.request.method.data@ != s.request.method.data@ {
        e is MethodMismatch
    } else if !target_accepts(s.request.target.data@, c.request.target.data@) {
        e is TargetMismatch
    } else if !headers_accept(s.headers@, c.headers@, s.headers@.len() as int) {
        header_err(s.headers@, c.headers@, e)
    } else if !is_valid_method_text(c.request.method.data@) {
        e is MethodMismatch
    } else {
        body_err(s.body, c.body, e)
    }
}

/// The error one response pair produces, by cause and in check order: status
/// bytes first, then the status's validity, then the headers, then the body.
pub open spec fn response_err(s: Response, c: Response, e: EnforceError) -> bool {
    if c.status.code.data@ != s.status.code.data@ {
        e is StatusMismatch
    } else if !status_ok(c.status.code.data@) {
        e is StatusMismatch
    } else if !headers_accept(s.headers@, c.headers@, s.headers@.len() as int) {
        header_err(s.headers@, c.headers@, e)
    } else {
        body_err(s.body, c.body, e)
    }
}

/// Whether a method token survives decoding and HTTP method validation.
pub open spec fn is_valid_method_text(b: Seq<u8>) -> bool {
    let sb = vstd::utf8::encode_utf8(lossy_of(b));
    sb.len() > 0 && forall|i: int| 0 <= i < sb.len() ==> is_method_char(#[trigger] sb[i])
}

/// Whether a status code is three decimal digits with a non-zero first
/// digit, in valid UTF-8.
pub open spec fn status_ok(b: Seq<u8>) -> bool {
    match utf8_of(b) {
        Option::Some(t) => {
            let sb = vstd::utf8::encode_utf8(t);
            sb.len() == 3 && 49 <= sb[0] <= 57 && 48 <= sb[1] <= 57 && 48 <= sb[2] <= 57
        },
        Option::None => false,
    }
}

/// Whether the candidate request satisfies the structure request.
pub open spec fn request_accepts(s: Request, c: Request) -> bool {
    &&& c.request.method.data@ == s.request.method.data@
    &&& is_valid_method_text(c.request.method.data@)
    &&& target_accepts(s.request.target.data@, c.request.target.data@)
    &&& headers_accept(s.headers@, c.headers@, s.headers@.len() as int)
    &&& body_accepts(s.body, c.body)
}

/// Whether the candidate response satisfies the structure response.
pub open spec fn response_accepts(s: Response, c: Response) -> bool {
    &&& c.status.code.data@ == s.status.code.data@
    &&& status_ok(c.status.code.data@)
    &&& headers_accept(s.headers@, c.headers@, s.headers@.len() as int)
    &&& body_accepts(s.body, c.body)
}

/// The first `n` candidate requests satisfy their structure requests.
pub open spec fn requests_accept(ss: Seq<Request>, cs: Seq<Request>, n: int) -> bool
    decreases n,
{
    if n <= 0 {
        true
    } else {
        requests_accept(ss, cs, n - 1) && request_accepts(ss[n - 1], cs[n - 1])
    }
}

/// The first `n` candidate responses satisfy their structure responses.
pub open spec fn responses_accept(ss: Seq<Response>, cs: Seq<Response>, n: int) -> bool
    decreases n,
{
    if n <= 0 {
        true
    } else {
        responses_accept(ss, cs, n - 1) && response_accepts(ss[n - 1], cs[n - 1])
    }
}

proof fn lemma_requests_accept_iff(ss: Seq<Request>, cs: Seq<Request>, n: int)
    requires
        0 <= n <= ss.len(),
        n <= cs.len(),
    ensures
        requests_accept(ss, cs, n) <==> (forall|i: int|
            0 <= i < n ==> request_accepts(#[trigger] ss[i], cs[i])),
    decreases n,
{
    if n > 0 {
        lemma_requests_accept_iff(ss, cs, n - 1);
    }
}

proof fn lemma_responses_accept_iff(ss: Seq<Response>, cs: Seq<Response>, n: int)
    requires
        0 <= n <= ss.len(),
        n <= cs.len(),
    ensures
        responses_accept(ss, cs, n) <==> (forall|i: int|
            0 <= i < n ==> response_accepts(#[trigger] ss[i], cs[i])),
    decreases n,
{
    if n > 0 {
        lemma_responses_accept_iff(ss, cs, n - 1);
    }
}

/// The error of the first failing message pair, checked in lockstep source
/// order with requests before responses: some request pair fails, every
/// earlier request pair passes, and the pair's cause names the error; or
/// every request pair passes and the first failing response pair does so.
pub open spec fn first_violation(s: HttpTranscript, c: HttpTranscript, e: EnforceError) -> bool {
    ||| exists|i: int|
        0 <= i < s.requests@.len() && !request_accepts(s.requests@[i], c.requests@[i]) && (forall|
            j: int,
        |
            0 <= j < i ==> request_accepts(
                #[trigger] s.requests@[j],
                c.requests@[j],
            )) && #[trigger] request_err(s.requests@[i], c.requests@[i], e)
    ||| ((forall|j: int|
        0 <= j < s.requests@.len() ==> request_accepts(#[trigger] s.requests@[j], c.requests@[j]))
        && exists|i: int|
        0 <= i < s.responses@.len() && !response_accepts(s.responses@[i], c.responses@[i]) && (
        forall|j: int|
            0 <= j < i ==> response_accepts(
                #[trigger] s.responses@[j],
                c.responses@[j],
            )) && #[trigger] response_err(s.responses@[i], c.responses@[i], e))
}

/// Whether the whole candidate transcript satisfies the whole structure: the
/// message counts agree and every message pair matches.
pub open spec fn transcript_accepts(s: HttpTranscript, c: HttpTranscript) -> bool {
    &&& s.requests@.len() == c.requests@.len()
    &&& s.responses@.len() == c.responses@.len()
    &&& requests_accept(s.requests@, c.requests@, s.requests@.len() as int)
    &&& responses_accept(s.responses@, c.responses@, s.responses@.len() as int)
}

/// The headers the context keeps: for each structure header that is neither
/// skipped nor wildcarded, the first matching candidate header, decoded.
pub open spec fn enforced_ctx_headers(ss: Seq<Header>, cs: Seq<Header>, n: int) -> Seq<
    (Seq<char>, Seq<char>),
>
    decreases n,
{
    if n <= 0 {
        Seq::empty()
    } else {
        enforced_ctx_headers(ss, cs, n - 1) + (if header_skipped(ss[n - 1])
            || !header_value_pinned(ss[n - 1]) {
            Seq::empty()
        } else {
            match find_header(cs, ss[n - 1].name.data@) {
                Option::Some(i) => seq![
                    (lossy_of(cs[i].name.data@), lossy_of(cs[i].value.data@)),
                ],
                Option::None => Seq::empty(),
            }
        })
    }
}

/// The relation between an accepted request pair and the emitted request
/// context.
pub open spec fn enforced_request_ctx(s: Request, c: Request, ctx: RequestContext) -> bool {
    &&& ctx.target@ == lossy_of(c.request.target.data@)
    &&& ctx.method@ == lossy_of(c.request.method.data@)
    &&& pairs_view(ctx.headers@) == enforced_ctx_headers(s.headers@, c.headers@, s.headers@.len() as int)
    &&& match s.body {
        Option::None => ctx.body is None,
        Option::Some(_) => c.body matches Option::Some(b) && (ctx.body matches Option::Some(bc)
            && body_context_rel(b, bc)),
    }
}

/// The relation between an accepted response pair and the emitted response
/// context.
pub open spec fn enforced_response_ctx(s: Response, c: Response, ctx: ResponseContext) -> bool {
    &&& status_ok(c.status.code.data@) ==> ({
        let sb = vstd::utf8::encode_utf8(utf8_of(c.status.code.data@)->Some_0);
        ctx.status == (sb[0] - 48) * 100 + (sb[1] - 48) * 10 + (sb[2] - 48)
    })
    &&& pairs_view(ctx.headers@) == enforced_ctx_headers(s.headers@, c.headers@, s.headers@.len() as int)
    &&& match s.body {
        Option::None => ctx.body is None,
        Option::Some(_) => c.body matches Option::Some(b) && (ctx.body matches Option::Some(bc)
            && body_context_rel(b, bc)),
    }
}

/// The relation between the accepted transcript pair and the emitted
/// context.
pub open spec fn enforced_contexts_rel(s: HttpTranscript, c: HttpTranscript, ctx: HttpContext) -> bool {
    &&& ctx.requests@.len() == c.requests@.len()
    &&& ctx.responses@.len() == c.responses@.len()
    &&& (forall|i: int|
        0 <= i < c.requests@.len() ==> enforced_request_ctx(
            s.requests@[i],
            c.requests@[i],
            #[trigger] ctx.requests@[i],
        ))
    &&& (forall|i: int|
        0 <= i < c.responses@.len() ==> enforced_response_ctx(
            s.responses@[i],
            c.responses@[i],
            #[trigger] ctx.responses@[i],
        ))
}

/// Enforcer for an HTTP structure template over a partial transcript.
#[derive(Debug)]
pub struct HttpEnforcer {
    /// The partial transcript the candidate is parsed from.
    pub transcript: PartialTranscript,
    /// The structure template.
    pub structure: HttpTranscript,
}

impl HttpEnforcer {
    /// Creates a new enforcer.
    pub fn new(transcript: PartialTranscript, structure: HttpTranscript) -> (r: HttpEnforcer)
        ensures
            r.transcript == transcript,
            r.structure == structure,
    {
        HttpEnforcer { transcript, structure }
    }

    /// Parses the partial transcript with sentinel fill and enforces the
    /// structure template against it.  Succeeds exactly when the parsed
    /// candidate satisfies the template, and then emits its context.
    pub fn build(self) -> (r: Result<HttpContext, EnforceError>)
        ensures
            r matches Ok(ctx) ==> exists|c: HttpTranscript|
                (#[trigger] c.wf()) && c.in_buffers(
                    filled(
                        self.transcript.sent@,
                        rs_set(self.transcript.authed_sent),
                        sentinel_fill_byte(),
                    ),
                    filled(
                        self.transcript.received@,
                        rs_set(self.transcript.authed_received),
                        sentinel_fill_byte(),
                    ),
                ) && requests_at(
                    filled(
                        self.transcript.sent@,
                        rs_set(self.transcript.authed_sent),
                        sentinel_fill_byte(),
                    ),
                    c.requests@,
                ) && responses_at(
                    filled(
                        self.transcript.received@,
                        rs_set(self.transcript.authed_received),
                        sentinel_fill_byte(),
                    ),
                    c.responses@,
                ) && transcript_accepts(self.structure, c) && enforced_contexts_rel(
                    self.structure,
                    c,
                    ctx,
                ),
            match r {
                Result::Ok(_) => requests_stream_ok(
                    filled(
                        self.transcript.sent@,
                        rs_set(self.transcript.authed_sent),
                        sentinel_fill_byte(),
                    ),
                    0,
                ) && responses_stream_ok(
                    filled(
                        self.transcript.received@,
                        rs_set(self.transcript.authed_received),
                        sentinel_fill_byte(),
                    ),
                    0,
                ),
                Result::Err(e) => (e is Parse <==> !(requests_stream_ok(
                    filled(
                        self.transcript.sent@,
                        rs_set(self.transcript.authed_sent),
                        sentinel_fill_byte(),
                    ),
                    0,
                ) && responses_stream_ok(
                    filled(
                        self.transcript.received@,
                        rs_set(self.transcript.authed_received),
                        sentinel_fill_byte(),
                    ),
                    0,
                ))),
            },
            self.transcript.sent@.len() == 0 && self.transcript.received@.len() == 0
                && self.structure.requests@.len() == 0 && self.structure.responses@.len() == 0
                ==> r is Ok,
    {
        let candidate = match HttpTranscript::parse_partial(&self.transcript) {
            Ok(t) => t,
            Err(e) => {
                return Err(EnforceError::Parse(e));
            },
        };
        let ghost cg = candidate;
        match enforce_structure(&self.structure, candidate) {
            Ok(ctx) => {
                proof {
                    assert(cg.wf() && cg.in_buffers(
                        filled(
                            self.transcript.sent@,
                            rs_set(self.transcript.authed_sent),
                            sentinel_fill_byte(),
                        ),
                        filled(
                            self.transcript.received@,
                            rs_set(self.transcript.authed_received),
                            sentinel_fill_byte(),
                        ),
                    ) && requests_at(
                        filled(
                            self.transcript.sent@,
                            rs_set(self.transcript.authed_sent),
                            sentinel_fill_byte(),
                        ),
                        cg.requests@,
                    ) && responses_at(
                        filled(
                            self.transcript.received@,
                            rs_set(self.transcript.authed_received),
                            sentinel_fill_byte(),
                        ),
                        cg.responses@,
                    ) && transcript_accepts(self.structure, cg) && enforced_contexts_rel(
                        self.structure,
                        cg,
                        ctx,
                    ));
                }
                Ok(ctx)
            },
            Err(e) => Err(e),
        }
    }
}

/// Compares the request targets after resolving both against the dummy base.
fn enforce_request_target(s: &Request, c: &Request) -> (r: Result<(), EnforceError>)
    ensures
        r is Ok <==> target_accepts(s.request.target.data@, c.request.target.data@),
        r matches Err(e) ==> e is TargetMismatch,
{
    let ghost sb = s.request.target.data@;
    let ghost cb = c.request.target.data@;
    let base = "https://example.com";
    proof {
        reveal_strlit("https://example.com");
        assert(base@ =~= base_chars());
    }
    let st = match bytes_as_str(s.request.target.as_bytes()) {
        Some(t) => t,
        None => {
            return Err(EnforceError::TargetMismatch);
        },
    };
    let ct = match bytes_as_str(c.request.target.as_bytes()) {
        Some(t) => t,
        None => {
            return Err(EnforceError::TargetMismatch);
        },
    };
    let ghost sres = resolved_target(base_chars(), st@);
    let ghost cres = resolved_target(base_chars(), ct@);
    proof {
        assert(utf8_of(sb) == Option::Some(st@));
        assert(utf8_of(cb) == Option::Some(ct@));
    }
    let sp = match resolve_target(base, st) {
        Some(p) => p,
        None => {
            proof {
                assert(sres is None);
                assert(!target_accepts(sb, cb));
            }
            return Err(EnforceError::TargetMismatch);
        },
    };
    let cp = match resolve_target(base, ct) {
        Some(p) => p,
        None => {
            proof {
                assert(cres is None);
                assert(!target_accepts(sb, cb));
            }
            return Err(EnforceError::TargetMismatch);
        },
    };
    proof {
        assert(sres matches Option::Some(t) && sp.path@ == t.0);
        assert(cres matches Option::Some(t) && cp.path@ == t.0);
        assert(target_accepts(sb, cb) == (sres->Some_0.0 == cres->Some_0.0 && sres->Some_0.1
            == cres->Some_0.1 && (starts_with_slash(sb) || sres->Some_0.2 == cres->Some_0.2)));
    }
    if !str_eq_string(&sp.path, &cp.path) {
        proof {
            assert(sres->Some_0.0 != cres->Some_0.0);
        }
        return Err(EnforceError::TargetMismatch);
    }
    let queries_equal = opt_string_eq(&sp.query, &cp.query);
    proof {
        assert(queries_equal == (sres->Some_0.1 =~= cres->Some_0.1)) by {
            match (sp.query, cp.query) {
                (Option::Some(_), Option::Some(_)) => {},
                _ => {},
            }
        }
    }
    if !queries_equal {
        return Err(EnforceError::TargetMismatch);
    }
    let tb = s.request.target.as_bytes();
    let origin_form = tb.len() > 0 && tb[0] == 47;
    if origin_form {
        proof {
            assert(starts_with_slash(sb));
            assert(target_accepts(sb, cb));
        }
        return Ok(());
    }
    let hosts_equal = opt_string_eq(&sp.host, &cp.host);
    proof {
        assert(hosts_equal == (sres->Some_0.2 =~= cres->Some_0.2)) by {
            match (sp.host, cp.host) {
                (Option::Some(_), Option::Some(_)) => {},
                _ => {},
            }
        }
        assert(!starts_with_slash(sb));
    }
    if hosts_equal {
        Ok(())
    } else {
        Err(EnforceError::TargetMismatch)
    }
}

/// Equality of two strings.
fn str_eq_string(a: &String, b: &String) -> (r: bool)
    ensures
        r == (a@ == b@),
{
    a.eq(b)
}

/// Equality of two optional strings.
fn opt_string_eq(a: &Option<String>, b: &Option<String>) -> (r: bool)
    ensures
        r == (match (a, b) {
            (Option::Some(x), Option::Some(y)) => x@ == y@,
            (Option::None, Option::None) => true,
            _ => false,
        }),
{
    match (a, b) {
        (Some(x), Some(y)) => str_eq_string(x, y),
        (None, None) => true,
        _ => false,
    }
}

/// Enforces the structure headers against the candidate headers and collects
/// the pinned ones into context pairs.
fn enforce_headers(ss: &Vec<Header>, cs: &Vec<Header>) -> (r: Result<
    Vec<(String, String)>,
    EnforceError,
>)
    ensures
        r is Ok <==> headers_accept(ss@, cs@, ss@.len() as int),
        r matches Ok(out) ==> pairs_view(out@) == enforced_ctx_headers(ss@, cs@, ss@.len() as int),
        r matches Err(e) ==> (e is HeaderMissing || e is HeaderValueMismatch),
        r matches Err(e) ==> header_err(ss@, cs@, e),
{
    let mut out: Vec<(String, String)> = Vec::new();
    let cl: Vec<u8> = vec![99u8, 111, 110, 116, 101, 110, 116, 45, 108, 101, 110, 103, 116, 104];
    proof {
        assert(cl@ =~= content_length_name());
        assert(lower_seq(content_length_name()) =~= content_length_name());
        assert(pairs_view(out@) =~= enforced_ctx_headers(ss@, cs@, 0int));
    }
    let mut i: usize = 0;
    while i < ss.len()
        invariant
            i <= ss@.len(),
            cl@ == content_length_name(),
            forall|j: int| 0 <= j < i ==> header_accepts(#[trigger] ss@[j], cs@),
            pairs_view(out@) == enforced_ctx_headers(ss@, cs@, i as int),
        decreases ss@.len() - i,
    {
        let sh = &ss[i];
        let skipped = crate::http::bytes_eq_ci(sh.name.as_bytes(), cl.as_slice());
        proof {
            assert(lower_seq(cl@) =~= content_length_name());
        }
        if !skipped {
            match crate::http::headers_with_name(cs, sh.name.as_bytes()) {
                None => {
                    let err = EnforceError::HeaderMissing { name: slice_to_vec(sh.name.as_bytes()) };
                    proof {
                        lemma_headers_accept_iff(ss@, cs@, ss@.len() as int);
                        assert(!header_accepts(ss@[i as int], cs@));
                        assert(header_err(ss@, cs@, err)) by {
                            assert(0 <= i < ss@.len() && !header_accepts(ss@[i as int], cs@) && (
                            forall|j: int|
                                0 <= j < i ==> header_accepts(#[trigger] ss@[j], cs@)) && (
                            match find_header(cs@, ss@[i as int].name.data@) {
                                Option::None => err matches EnforceError::HeaderMissing { name }
                                    && name@ == ss@[i as int].name.data@,
                                Option::Some(_) => err
                                    matches EnforceError::HeaderValueMismatch { name } && name@
                                    == ss@[i as int].name.data@,
                            }));
                        }
                    }
                    return Err(err);
                },
                Some(m) => {
                    let ch = &cs[m];
                    let vb = sh.value.as_bytes();
                    let pinned = !all_asterisks(vb);
                    if pinned {
                        if !bytes_eq(ch.value.as_bytes(), sh.value.as_bytes()) {
                            let err = EnforceError::HeaderValueMismatch {
                                name: slice_to_vec(sh.name.as_bytes()),
                            };
                            proof {
                                lemma_headers_accept_iff(ss@, cs@, ss@.len() as int);
                                assert(header_value_pinned(ss@[i as int]));
                                assert(!header_accepts(ss@[i as int], cs@));
                                assert(header_err(ss@, cs@, err)) by {
                                    assert(0 <= i < ss@.len() && !header_accepts(
                                        ss@[i as int],
                                        cs@,
                                    ) && (forall|j: int|
                                        0 <= j < i ==> header_accepts(#[trigger] ss@[j], cs@)) && (
                                    match find_header(cs@, ss@[i as int].name.data@) {
                                        Option::None => err
                                            matches EnforceError::HeaderMissing { name } && name@
                                            == ss@[i as int].name.data@,
                                        Option::Some(_) => err
                                            matches EnforceError::HeaderValueMismatch { name }
                                            && name@ == ss@[i as int].name.data@,
                                    }));
                                }
                            }
                            return Err(err);
                        }
                        let name = utf8_lossy(ch.name.as_bytes());
                        let value = utf8_lossy(ch.value.as_bytes());
                        out.push((name, value));
                    }
                },
            }
        }
        proof {
            assert(pairs_view(out@) =~= enforced_ctx_headers(ss@, cs@, i + 1 as int));
        }
        i = i + 1;
    }
    proof {
        lemma_headers_accept_iff(ss@, cs@, ss@.len() as int);
    }
    Ok(out)
}

/// Enforces the candidate body against the structure body and wraps the
/// candidate's content.
fn enforce_body(sb: &Body, cb: Body) -> (r: Result<BodyContext, EnforceError>)
    ensures
        r is Ok <==> content_accepts(sb.content, cb.content),
        r matches Ok(bc) ==> body_context_rel(cb, bc),
        r matches Err(e) ==> !(e is Parse),
        r matches Err(e) ==> content_err(sb.content, cb.content, e),
{
    match &sb.content {
        BodyContent::Json(sv) => {
            match cb.content {
                BodyContent::Json(cv) => {
                    let mut enforcer = crate::json_enforce::DefaultJsonContextEnforcer {  };
                    match crate::json_enforce::JsonContextEnforcer::visit_value(
                        &mut enforcer,
                        sv,
                        &cv,
                    ) {
                        Ok(()) => Ok(BodyContext::Json(JsonContext { value: cv })),
                        Err(e) => Err(e),
                    }
                },
                BodyContent::Unknown(_) => Err(EnforceError::BodyTypeMismatch),
            }
        },
        BodyContent::Unknown(ss) => {
            match cb.content {
                BodyContent::Unknown(cs) => {
                    if bytes_eq(ss.as_bytes(), cs.as_bytes()) {
                        Ok(BodyContext::Unknown(cs.data))
                    } else {
                        Err(EnforceError::BodyContentMismatch)
                    }
                },
                BodyContent::Json(_) => Err(EnforceError::BodyTypeMismatch),
            }
        },
    }
}

/// Enforces one candidate request against one structure request.
fn enforce_request(s: &Request, c: Request) -> (r: Result<RequestContext, EnforceError>)
    ensures
        r is Ok <==> request_accepts(*s, c),
        r matches Ok(ctx) ==> enforced_request_ctx(*s, c, ctx),
        r matches Err(e) ==> !(e is Parse),
        r matches Err(e) ==> request_err(*s, c, e),
{
    if !bytes_eq(c.request.method.as_bytes(), s.request.method.as_bytes()) {
        return Err(EnforceError::MethodMismatch);
    }
    match enforce_request_target(s, &c) {
        Ok(()) => {},
        Err(e) => {
            return Err(e);
        },
    }
    let headers = match enforce_headers(&s.headers, &c.headers) {
        Ok(hs) => hs,
        Err(e) => {
            return Err(e);
        },
    };
    let target = utf8_lossy(c.request.target.as_bytes());
    let method_text = utf8_lossy(c.request.method.as_bytes());
    let method = match parse_method(method_text.as_str()) {
        Some(m) => m,
        None => {
            return Err(EnforceError::MethodMismatch);
        },
    };
    let body = match &s.body {
        None => None,
        Some(sb) => {
            match c.body {
                None => {
                    return Err(EnforceError::BodyMissing { side: Side::Candidate });
                },
                Some(cb) => {
                    match enforce_body(sb, cb) {
                        Ok(bc) => Some(bc),
                        Err(e) => {
                            return Err(e);
                        },
                    }
                },
            }
        },
    };
    Ok(RequestContext { target, method, headers, body })
}

/// Enforces one candidate response against one structure response.
fn enforce_response(s: &Response, c: Response) -> (r: Result<ResponseContext, EnforceError>)
    ensures
        r is Ok <==> response_accepts(*s, c),
        r matches Ok(ctx) ==> enforced_response_ctx(*s, c, ctx),
        r matches Err(e) ==> !(e is Parse),
        r matches Err(e) ==> response_err(*s, c, e),
{
    if !bytes_eq(c.status.code.as_bytes(), s.status.code.as_bytes()) {
        return Err(EnforceError::StatusMismatch);
    }
    let code_text = match bytes_as_str(c.status.code.as_bytes()) {
        Some(t) => t,
        None => {
            return Err(EnforceError::StatusMismatch);
        },
    };
    let status = match parse_status(code_text) {
        Some(n) => n,
        None => {
            return Err(EnforceError::StatusMismatch);
        },
    };
    let headers = match enforce_headers(&s.headers, &c.headers) {
        Ok(hs) => hs,
        Err(e) => {
            return Err(e);
        },
    };
    let body = match &s.body {
        None => None,
        Some(sb) => {
            match c.body {
                None => {
                    return Err(EnforceError::BodyMissing { side: Side::Candidate });
                },
                Some(cb) => {
                    match enforce_body(sb, cb) {
                        Ok(bc) => Some(bc),
                        Err(e) => {
                            return Err(e);
                        },
                    }
                },
            }
        },
    };
    Ok(ResponseContext { status, headers, body })
}

/// Enforces the whole candidate transcript against the whole structure
/// template.  Succeeds exactly when the candidate satisfies the template;
/// no partial context is ever emitted.
pub fn enforce_structure(structure: &HttpTranscript, candidate: HttpTranscript) -> (r: Result<
    HttpContext,
    EnforceError,
>)
    ensures
        r is Ok <==> transcript_accepts(*structure, candidate),
        r matches Ok(ctx) ==> enforced_contexts_rel(*structure, candidate, ctx),
        r matches Err(e) ==> !(e is Parse),
        candidate.requests@.len() != structure.requests@.len() ==> (r matches Err(
            EnforceError::CountMismatch { kind, expected, actual },
        ) && kind is Request && expected == structure.requests@.len() && actual
            == candidate.requests@.len()),
        candidate.requests@.len() == structure.requests@.len() && candidate.responses@.len()
            != structure.responses@.len() ==> (r matches Err(
            EnforceError::CountMismatch { kind, expected, actual },
        ) && kind is Response && expected == structure.responses@.len() && actual
            == candidate.responses@.len()),
        r matches Err(e) && e is CountMismatch ==> (candidate.requests@.len()
            != structure.requests@.len() || candidate.responses@.len()
            != structure.responses@.len()),
        candidate.requests@.len() == structure.requests@.len() && candidate.responses@.len()
            == structure.responses@.len() ==> (r matches Err(e) ==> first_violation(
            *structure,
            candidate,
            e,
        )),
{
    if candidate.requests.len() != structure.requests.len() {
        return Err(
            EnforceError::CountMismatch {
                kind: MessageKind::Request,
                expected: structure.requests.len(),
                actual: candidate.requests.len(),
            },
        );
    }
    if candidate.responses.len() != structure.responses.len() {
        return Err(
            EnforceError::CountMismatch {
                kind: MessageKind::Response,
                expected: structure.responses.len(),
                actual: candidate.responses.len(),
            },
        );
    }
    let HttpTranscript { requests, responses } = candidate;
    let ghost orig_reqs = requests@;
    let ghost orig_resps = responses@;
    let mut request_contexts: Vec<RequestContext> = Vec::new();
    let mut rest = requests;
    while rest.len() > 0
        invariant
            orig_reqs == candidate.requests@,
            orig_resps == candidate.responses@,
            request_contexts@.len() + rest@.len() == orig_reqs.len(),
            orig_reqs.len() == structure.requests@.len(),
            orig_resps.len() == structure.responses@.len(),
            rest@ == orig_reqs.skip(request_contexts@.len() as int),
            forall|j: int|
                0 <= j < request_contexts@.len() ==> request_accepts(
                    structure.requests@[j],
                    #[trigger] orig_reqs[j],
                ),
            forall|j: int|
                0 <= j < request_contexts@.len() ==> enforced_request_ctx(
                    structure.requests@[j],
                    orig_reqs[j],
                    #[trigger] request_contexts@[j],
                ),
        decreases rest@.len(),
    {
        let ghost k = request_contexts@.len() as int;
        let req = rest.remove(0);
        proof {
            assert(req == orig_reqs[k]);
            assert(rest@ =~= orig_reqs.skip(k + 1));
        }
        let idx = request_contexts.len();
        match enforce_request(&structure.requests[idx], req) {
            Ok(ctx) => {
                request_contexts.push(ctx);
            },
            Err(e) => {
                proof {
                    lemma_requests_accept_iff(
                        structure.requests@,
                        orig_reqs,
                        structure.requests@.len() as int,
                    );
                    assert(first_violation(*structure, candidate, e)) by {
                        assert(0 <= k < structure.requests@.len() && !request_accepts(
                            structure.requests@[k],
                            candidate.requests@[k],
                        ) && (forall|j: int|
                            0 <= j < k ==> request_accepts(
                                #[trigger] structure.requests@[j],
                                candidate.requests@[j],
                            )) && request_err(structure.requests@[k], candidate.requests@[k], e));
                    }
                    assert(!(e is CountMismatch));
                }
                return Err(e);
            },
        }
    }
    let mut response_contexts: Vec<ResponseContext> = Vec::new();
    let mut rest = responses;
    while rest.len() > 0
        invariant
            orig_reqs == candidate.requests@,
            orig_resps == candidate.responses@,
            request_contexts@.len() == orig_reqs.len(),
            orig_reqs.len() == structure.requests@.len(),
            forall|j: int|
                0 <= j < request_contexts@.len() ==> request_accepts(
                    structure.requests@[j],
                    #[trigger] orig_reqs[j],
                ),
            response_contexts@.len() + rest@.len() == orig_resps.len(),
            orig_resps.len() == structure.responses@.len(),
            rest@ == orig_resps.skip(response_contexts@.len() as int),
            forall|j: int|
                0 <= j < response_contexts@.len() ==> response_accepts(
                    structure.responses@[j],
                    #[trigger] orig_resps[j],
                ),
            forall|j: int|
                0 <= j < response_contexts@.len() ==> enforced_response_ctx(
                    structure.responses@[j],
                    orig_resps[j],
                    #[trigger] response_contexts@[j],
                ),
        decreases rest@.len(),
    {
        let ghost k = response_contexts@.len() as int;
        let resp = rest.remove(0);
        proof {
            assert(resp == orig_resps[k]);
            assert(rest@ =~= orig_resps.skip(k + 1));
        }
        let idx = response_contexts.len();
        match enforce_response(&structure.responses[idx], resp) {
            Ok(ctx) => {
                response_contexts.push(ctx);
            },
            Err(e) => {
                proof {
                    lemma_responses_accept_iff(
                        structure.responses@,
                        orig_resps,
                        structure.responses@.len() as int,
                    );
                    assert(first_violation(*structure, candidate, e)) by {
                        assert(forall|j: int|
                            0 <= j < structure.requests@.len() ==> request_accepts(
                                #[trigger] structure.requests@[j],
                                candidate.requests@[j],
                            ));
                        assert(0 <= k < structure.responses@.len() && !response_accepts(
                            structure.responses@[k],
                            candidate.responses@[k],
                        ) && (forall|j: int|
                            0 <= j < k ==> response_accepts(
                                #[trigger] structure.responses@[j],
                                candidate.responses@[j],
                            )) && response_err(
                            structure.responses@[k],
                            candidate.responses@[k],
                            e,
                        ));
                    }
                    assert(!(e is CountMismatch));
                }
                return Err(e);
            },
        }
    }
    proof {
        lemma_requests_accept_iff(structure.requests@, orig_reqs, structure.requests@.len() as int);
        lemma_responses_accept_iff(
            structure.responses@,
            orig_resps,
            structure.responses@.len() as int,
        );
    }
    Ok(HttpContext { requests: request_contexts, responses: response_contexts })
}

} // verus!
