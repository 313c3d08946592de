use transcript_context::errors::{EnforceError, ParseError, Side};
use transcript_context::http::BodyContent;
use transcript_context::http_context::{BodyContext, HttpContextBuilder};
use transcript_context::http_enforce::HttpEnforcer;
use transcript_context::http_parse::{parse_request, parse_requests, parse_response};
use transcript_context::http_transcript::{HttpTranscript, MessageKind};
use transcript_context::ranges::{rs_empty, rs_range};
use transcript_context::transcript::Transcript;

fn full_partial(sent: &[u8], received: &[u8]) -> transcript_context::transcript::PartialTranscript {
    let t = Transcript::new(sent.to_vec(), received.to_vec());
    let authed_sent = rs_range(0, sent.len());
    let authed_received = rs_range(0, received.len());
    t.to_partial(authed_sent, authed_received).unwrap()
}

fn structure_of(sent: &[u8], received: &[u8]) -> HttpTranscript {
    let t = Transcript::new(sent.to_vec(), received.to_vec());
    HttpTranscript::parse(&t).unwrap()
}

#[test]
fn get_with_wildcard_host_header() {
    let structure = structure_of(b"GET /a HTTP/1.1\r\nHost: *\r\n\r\n", b"");
    let partial = full_partial(b"GET /a HTTP/1.1\r\nHost: example.com\r\n\r\n", b"");
    let ctx = HttpEnforcer::new(partial, structure).build().unwrap();
    assert_eq!(ctx.requests.len(), 1);
    assert_eq!(ctx.requests[0].method, "GET");
    assert_eq!(ctx.requests[0].target, "/a");
    assert!(ctx.requests[0].body.is_none());
    // An all-sentinel header value is a wildcard: any value is accepted, and
    // the wildcarded header does not propagate into the context.
    assert!(ctx.requests[0].headers.is_empty());
}

#[test]
fn pinned_header_propagates_and_mismatch_fails() {
    let structure = structure_of(b"GET /a HTTP/1.1\r\nAccept: text/plain\r\n\r\n", b"");
    let partial = full_partial(b"GET /a HTTP/1.1\r\nAccept: text/plain\r\n\r\n", b"");
    let ctx = HttpEnforcer::new(partial, structure).build().unwrap();
    assert_eq!(
        ctx.requests[0].headers,
        vec![("Accept".to_string(), "text/plain".to_string())]
    );

    let structure = structure_of(b"GET /a HTTP/1.1\r\nAccept: text/plain\r\n\r\n", b"");
    let partial = full_partial(b"GET /a HTTP/1.1\r\nAccept: text/html\r\n\r\n", b"");
    let err = HttpEnforcer::new(partial, structure).build().unwrap_err();
    assert!(matches!(err, EnforceError::HeaderValueMismatch { ref name } if name == b"Accept"));
}

#[test]
fn missing_header_fails() {
    let structure = structure_of(b"GET /a HTTP/1.1\r\nAccept: text/plain\r\n\r\n", b"");
    let partial = full_partial(b"GET /a HTTP/1.1\r\n\r\n", b"");
    let err = HttpEnforcer::new(partial, structure).build().unwrap_err();
    assert!(matches!(err, EnforceError::HeaderMissing { ref name } if name == b"Accept"));
}

fn post_json(body: &str) -> Vec<u8> {
    let mut out = format!(
        "POST /x HTTP/1.1\r\nContent-Type: application/json\r\nContent-Length: {}\r\n\r\n",
        body.len()
    )
    .into_bytes();
    out.extend_from_slice(body.as_bytes());
    out
}

#[test]
fn post_json_wildcard_and_extra_key_accepted() {
    let structure = structure_of(&post_json("{\"id\":*,\"ok\":true}"), b"");
    let candidate = post_json("{\"id\":42,\"ok\":true,\"extra\":\"x\"}");
    let partial = full_partial(&candidate, b"");
    let ctx = HttpEnforcer::new(partial, structure).build().unwrap();
    match ctx.requests[0].body.as_ref().unwrap() {
        BodyContext::Json(jc) => {
            let bytes = jc.to_canonical_bytes();
            assert_eq!(
                String::from_utf8(bytes).unwrap(),
                "{\"id\":42,\"ok\":true,\"extra\":\"x\"}"
            );
        }
        BodyContext::Unknown(_) => panic!("expected a JSON body"),
    }
}

#[test]
fn post_json_literal_mismatch_reports_path() {
    let structure = structure_of(&post_json("{\"id\":*,\"ok\":true}"), b"");
    let candidate = post_json("{\"id\":42,\"ok\":false}");
    let partial = full_partial(&candidate, b"");
    let err = HttpEnforcer::new(partial, structure).build().unwrap_err();
    assert!(matches!(err, EnforceError::StructureMismatch { ref path } if path == b"ok"));
}

#[test]
fn nested_json_mismatch_reports_dotted_path() {
    let structure = structure_of(&post_json("{\"a\":{\"b\":[1,2]}}"), b"");
    let candidate = post_json("{\"a\":{\"b\":[1,3]}}");
    let partial = full_partial(&candidate, b"");
    let err = HttpEnforcer::new(partial, structure).build().unwrap_err();
    assert!(matches!(err, EnforceError::StructureMismatch { ref path } if path == b"a.b.1"));
}

#[test]
fn target_mismatch() {
    let structure = structure_of(b"POST /v1/x HTTP/1.1\r\n\r\n", b"");
    let partial = full_partial(b"POST /v1/y HTTP/1.1\r\n\r\n", b"");
    let err = HttpEnforcer::new(partial, structure).build().unwrap_err();
    assert!(matches!(err, EnforceError::TargetMismatch));
}

#[test]
fn absolute_target_requires_matching_host() {
    let structure = structure_of(b"GET https://a.example/p HTTP/1.1\r\n\r\n", b"");
    let partial = full_partial(b"GET https://b.example/p HTTP/1.1\r\n\r\n", b"");
    let err = HttpEnforcer::new(partial, structure).build().unwrap_err();
    assert!(matches!(err, EnforceError::TargetMismatch));

    let structure = structure_of(b"GET https://a.example/p HTTP/1.1\r\n\r\n", b"");
    let partial = full_partial(b"GET https://a.example/p HTTP/1.1\r\n\r\n", b"");
    assert!(HttpEnforcer::new(partial, structure).build().is_ok());
}

#[test]
fn method_mismatch() {
    let structure = structure_of(b"POST /a HTTP/1.1\r\n\r\n", b"");
    let partial = full_partial(b"GET /a HTTP/1.1\r\n\r\n", b"");
    let err = HttpEnforcer::new(partial, structure).build().unwrap_err();
    assert!(matches!(err, EnforceError::MethodMismatch));
}

#[test]
fn count_mismatch() {
    let structure = structure_of(b"GET /a HTTP/1.1\r\n\r\nGET /b HTTP/1.1\r\n\r\n", b"");
    let partial = full_partial(b"GET /a HTTP/1.1\r\n\r\n", b"");
    let err = HttpEnforcer::new(partial, structure).build().unwrap_err();
    assert!(matches!(
        err,
        EnforceError::CountMismatch { kind: MessageKind::Request, expected: 2, actual: 1 }
    ));
}

#[test]
fn status_enforced_and_emitted() {
    let structure = structure_of(b"GET /a HTTP/1.1\r\n\r\n", b"HTTP/1.1 200 OK\r\n\r\n");
    let partial = full_partial(b"GET /a HTTP/1.1\r\n\r\n", b"HTTP/1.1 200 OK\r\n\r\n");
    let ctx = HttpEnforcer::new(partial, structure).build().unwrap();
    assert_eq!(ctx.responses[0].status, 200);

    let structure = structure_of(b"GET /a HTTP/1.1\r\n\r\n", b"HTTP/1.1 200 OK\r\n\r\n");
    let partial = full_partial(b"GET /a HTTP/1.1\r\n\r\n", b"HTTP/1.1 404 NO\r\n\r\n");
    let err = HttpEnforcer::new(partial, structure).build().unwrap_err();
    assert!(matches!(err, EnforceError::StatusMismatch));
}

#[test]
fn body_class_and_content_errors() {
    // Structure declares a body, candidate has none: the candidate carries
    // the content-type header but no framing, so no body is parsed.
    let structure = structure_of(&post_json("{\"a\":1}"), b"");
    let partial = full_partial(
        b"POST /x HTTP/1.1\r\nContent-Type: application/json\r\n\r\n",
        b"",
    );
    let err = HttpEnforcer::new(partial, structure).build().unwrap_err();
    assert!(matches!(err, EnforceError::BodyMissing { side: Side::Candidate }));

    // Same class, different bytes.
    let structure = structure_of(b"POST /x HTTP/1.1\r\nContent-Length: 3\r\n\r\nabc", b"");
    let partial = full_partial(b"POST /x HTTP/1.1\r\nContent-Length: 3\r\n\r\nabd", b"");
    let err = HttpEnforcer::new(partial, structure).build().unwrap_err();
    assert!(matches!(err, EnforceError::BodyContentMismatch));

    // Different content classes: an entirely sentinel-filled body region is
    // an unverifiable unknown body, not redacted JSON.
    let structure = structure_of(&post_json("{\"a\":1}"), b"");
    let partial = full_partial(&post_json("*******"), b"");
    let err = HttpEnforcer::new(partial, structure).build().unwrap_err();
    assert!(matches!(err, EnforceError::BodyTypeMismatch));
}

#[test]
fn partial_transcript_redacts_json_values() {
    // Authenticate everything except the JSON value bytes; after sentinel
    // fill the body parses to an object with a redacted value, the template
    // with an asterisk accepts it, and the canonical serialization renders
    // the redacted leaf.
    let candidate = post_json("{\"a\": 111}");
    let body_start = candidate.len() - 10;
    let value_start = body_start + 6;
    let value_end = value_start + 3;
    let t = Transcript::new(candidate.clone(), Vec::new());
    let mut authed = rs_range(0, value_start);
    authed.union_mut(&rs_range(value_end, candidate.len()));
    let partial = t.to_partial(authed, rs_empty()).unwrap();

    let structure = structure_of(&post_json("{\"a\": ***}"), b"");
    let ctx = HttpEnforcer::new(partial, structure).build().unwrap();
    match ctx.requests[0].body.as_ref().unwrap() {
        BodyContext::Json(jc) => {
            assert_eq!(
                String::from_utf8(jc.to_canonical_bytes()).unwrap(),
                "{\"a\":\"__REDACTED__\"}"
            );
        }
        BodyContext::Unknown(_) => panic!("expected a JSON body"),
    }
}

#[test]
fn fill_is_idempotent() {
    let candidate = post_json("{\"a\": 111}");
    let t = Transcript::new(candidate.clone(), b"abc".to_vec());
    let authed = rs_range(0, 20);
    let mut partial = t.to_partial(authed, rs_range(1, 2)).unwrap();
    partial.set_unauthed(42);
    let once_sent = partial.sent_unsafe().to_vec();
    let once_received = partial.received_unsafe().to_vec();
    partial.set_unauthed(42);
    assert_eq!(partial.sent_unsafe(), &once_sent[..]);
    assert_eq!(partial.received_unsafe(), &once_received[..]);
    assert_eq!(&once_sent[..20], &candidate[..20]);
    assert!(once_sent[20..].iter().all(|&b| b == 42));
    assert_eq!(once_received, vec![42, b'b', 42]);
}

#[test]
fn to_partial_rejects_out_of_range() {
    let t = Transcript::new(b"ab".to_vec(), Vec::new());
    assert!(t.to_partial(rs_range(0, 3), rs_empty()).is_none());
    assert!(t.to_partial(rs_range(0, 2), rs_empty()).is_some());
}

#[test]
fn parse_request_spans_and_framing() {
    let req = parse_request(b"POST /p?q=1 HTTP/1.1\r\nHost: h\r\nContent-Length: 2\r\n\r\nhi")
        .unwrap();
    assert_eq!(req.request.method.as_bytes(), b"POST");
    assert_eq!(req.request.target.as_bytes(), b"/p?q=1");
    assert_eq!(req.headers.len(), 2);
    assert_eq!(req.headers[0].name.as_bytes(), b"Host");
    assert_eq!(req.headers[0].value.as_bytes(), b"h");
    match &req.body.as_ref().unwrap().content {
        BodyContent::Unknown(sp) => assert_eq!(sp.as_bytes(), b"hi"),
        BodyContent::Json(_) => panic!("expected an unknown body"),
    }
}

#[test]
fn parse_response_chunked_boundaries_and_trailers() {
    let resp = parse_response(
        b"HTTP/1.1 200 OK\r\nTransfer-Encoding: chunked\r\n\r\n3\r\nabc\r\n0\r\nX-After: 1\r\n\r\n",
    )
    .unwrap();
    assert_eq!(resp.status.code.as_bytes(), b"200");
    let boundaries = resp.boundaries.as_ref().unwrap();
    assert_eq!(boundaries.len(), 2);
    assert_eq!(boundaries[0].as_bytes(), b"3\r\n");
    assert_eq!(boundaries[1].as_bytes(), b"0\r\n");
    let trailers = resp.trailers.as_ref().unwrap();
    assert_eq!(trailers.len(), 1);
    assert_eq!(trailers[0].name.as_bytes(), b"X-After");
}

#[test]
fn parse_multiple_requests() {
    let rs = parse_requests(b"GET /a HTTP/1.1\r\n\r\nGET /b HTTP/1.1\r\n\r\n").unwrap();
    assert_eq!(rs.len(), 2);
    assert_eq!(rs[1].request.target.as_bytes(), b"/b");
    assert!(matches!(
        parse_requests(b"GET /a HTTP/1.1\r\n"),
        Err(ParseError::UnexpectedEnd)
    ));
}

fn json_response(body: &str) -> Vec<u8> {
    let mut out = format!(
        "HTTP/1.1 200 OK\r\nContent-Type: application/json\r\nContent-Length: {}\r\n\r\n",
        body.len()
    )
    .into_bytes();
    out.extend_from_slice(body.as_bytes());
    out
}

#[test]
fn response_json_body_enforced_and_emitted() {
    let structure = structure_of(b"GET /a HTTP/1.1\r\n\r\n", &json_response("{\"ok\":*}"));
    let partial = full_partial(b"GET /a HTTP/1.1\r\n\r\n", &json_response("{\"ok\":true}"));
    let ctx = HttpEnforcer::new(partial, structure).build().unwrap();
    match ctx.responses[0].body.as_ref().unwrap() {
        BodyContext::Json(jc) => {
            assert_eq!(String::from_utf8(jc.to_canonical_bytes()).unwrap(), "{\"ok\":true}");
        }
        BodyContext::Unknown(_) => panic!("expected a JSON body"),
    }
}

#[test]
fn context_builder_emits_everything_but_content_length() {
    let partial = full_partial(
        &post_json("{\"a\":1}"),
        b"HTTP/1.1 204 No Content\r\nServer: s\r\n\r\n",
    );
    let ctx = HttpContextBuilder::new(partial).build().unwrap();
    assert_eq!(ctx.requests[0].method, "POST");
    assert_eq!(ctx.requests[0].target, "/x");
    assert_eq!(
        ctx.requests[0].headers,
        vec![("Content-Type".to_string(), "application/json".to_string())]
    );
    assert_eq!(ctx.responses[0].status, 204);
    assert_eq!(
        ctx.responses[0].headers,
        vec![("Server".to_string(), "s".to_string())]
    );
}

#[test]
fn header_wildcard_is_asterisk_only() {
    // Only the asterisk sentinel wildcards a header value: a value holding
    // any other byte, a NUL included, is pinned and must match exactly.
    let structure = structure_of(b"GET /a HTTP/1.1\r\nX-Tag: \x00\x00\r\n\r\n", b"");
    let partial = full_partial(b"GET /a HTTP/1.1\r\nX-Tag: ab\r\n\r\n", b"");
    let err = HttpEnforcer::new(partial, structure).build().unwrap_err();
    assert!(matches!(err, EnforceError::HeaderValueMismatch { ref name } if name == b"X-Tag"));

    let structure = structure_of(b"GET /a HTTP/1.1\r\nX-Tag: \x00\x00\r\n\r\n", b"");
    let partial = full_partial(b"GET /a HTTP/1.1\r\nX-Tag: \x00\x00\r\n\r\n", b"");
    assert!(HttpEnforcer::new(partial, structure).build().is_ok());
}
