use rangeset::ops::Set as RangeSetOps;
use transcript_context::http_transcript::HttpTranscript;
use transcript_context::json::JsonValue;
use transcript_context::json_commit::{
    commit_structure_walk, commit_value_walk, DefaultJsonCommitter, JsonCommit,
};
use transcript_context::json_parse::parse_str;
use transcript_context::ranges::rs_range;
use transcript_context::transcript::{
    CommitLog, Direction, Transcript, TranscriptCommitment, TranscriptCommitmentBuilder,
};

fn committed_union(log: &CommitLog, direction: Direction) -> rangeset::set::RangeSet<usize> {
    let mut out: rangeset::set::RangeSet<usize> = rangeset::set::RangeSet::default();
    for (set, d) in log.commits.iter() {
        if *d == direction {
            out.union_mut(set);
        }
    }
    out
}

fn committed_size(log: &CommitLog, direction: Direction) -> usize {
    let mut total = 0;
    for (set, d) in log.commits.iter() {
        if *d == direction {
            total += set.len();
        }
    }
    total
}

#[test]
fn commit_trace_for_json_response() {
    // The committed received ranges are exactly the status line, the header
    // block with the framing-critical headers whole, the CRLFs, and the JSON
    // structural bytes; only the array's number literals stay uncommitted.
    let resp: &[u8] =
        b"HTTP/1.1 200 OK\r\nContent-Type: application/json\r\nContent-Length: 11\r\n\r\n{\"a\":[1,2]}";
    let transcript = Transcript::new(Vec::new(), resp.to_vec());
    let t = HttpTranscript::parse(&transcript).unwrap();
    let mut log = CommitLog::new();
    t.reveal_structure(&mut log).unwrap();

    let union = committed_union(&log, Direction::Received);
    let body_start = resp.len() - 11;
    let one = body_start + 6;
    let two = body_start + 8;
    let mut expected: rangeset::set::RangeSet<usize> = rangeset::set::RangeSet::default();
    expected.union_mut(&rs_range(0, one));
    expected.union_mut(&rs_range(one + 1, two));
    expected.union_mut(&rs_range(two + 1, resp.len()));
    assert_eq!(union, expected);

    // No byte is committed twice: the committed sizes add up to the union.
    assert_eq!(committed_size(&log, Direction::Received), union.len());
    assert_eq!(committed_size(&log, Direction::Sent), 0);
}

#[test]
fn reveal_commits_framing_headers_whole() {
    let req: &[u8] = b"GET /a HTTP/1.1\r\nHost: example.com\r\nAccept: x\r\n\r\n";
    let transcript = Transcript::new(req.to_vec(), Vec::new());
    let t = HttpTranscript::parse(&transcript).unwrap();
    let mut log = CommitLog::new();
    t.reveal_structure(&mut log).unwrap();

    let union = committed_union(&log, Direction::Sent);
    // The whole Host header, name and value, is committed.
    let host_start = 17;
    let host_end = host_start + "Host: example.com".len();
    assert!(rs_range(host_start, host_end).is_subset(&union));
    // The value of a header that is not framing-critical stays uncommitted.
    let accept_value = req.len() - 4 - 1;
    assert!(!union.contains(&accept_value));
    // The target is committed.
    assert!(rs_range(4, 6).is_subset(&union));
    // No byte is committed twice.
    assert_eq!(committed_size(&log, Direction::Sent), union.len());
}

#[test]
fn json_structure_plan_commits_structure_only() {
    let src = "{\"a\": [1, 2], \"b\": \"xy\"}";
    let v = parse_str(src).unwrap();
    let mut log = CommitLog::new();
    commit_structure_walk(&mut log, Direction::Sent, &v).unwrap();
    let union = committed_union(&log, Direction::Sent);
    // Structural bytes are committed; value literals are not.
    assert!(union.contains(&0)); // opening brace
    assert!(union.contains(&(src.len() - 1))); // closing brace
    assert!(union.contains(&1)); // key quote
    assert!(union.contains(&6)); // opening bracket
    assert!(!union.contains(&7)); // the literal 1
    assert!(!union.contains(&10)); // the literal 2
    assert!(union.contains(&8)); // the comma between them
    assert!(!union.contains(&20)); // string content x
    assert_eq!(committed_size(&log, Direction::Sent), union.len());
}

#[test]
fn commit_value_commits_values_and_rejects_redacted() {
    let src = "{\"a\": [1, 2]}";
    let v = parse_str(src).unwrap();
    let mut committer = DefaultJsonCommitter::default();
    let mut log = CommitLog::new();
    JsonCommit::commit_value(&mut committer, &mut log, &v, Direction::Received).unwrap();
    let union = committed_union(&log, Direction::Received);
    // Everything of the document is covered when values are committed too.
    assert_eq!(union, rs_range(0, src.len()));

    let redacted = parse_str("{\"a\": ***}").unwrap();
    let mut log = CommitLog::new();
    let err = commit_value_walk(&mut log, &redacted, Direction::Sent).unwrap_err();
    assert_eq!(err.msg(), "cannot commit redacted value");
}

#[test]
fn reveal_json_structure_matches_committer() {
    let src = "{\"k\": {\"n\": 5}}";
    let v = parse_str(src).unwrap();
    let t = HttpTranscript { requests: Vec::new(), responses: Vec::new() };
    let mut log_a = CommitLog::new();
    t.reveal_json_structure(&mut log_a, Direction::Sent, &v).unwrap();
    let committer = DefaultJsonCommitter::default();
    let mut log_b = CommitLog::new();
    JsonCommit::commit_structure(&committer, &mut log_b, Direction::Sent, &v).unwrap();
    assert_eq!(log_a.commits.len(), log_b.commits.len());
    assert_eq!(
        committed_union(&log_a, Direction::Sent),
        committed_union(&log_b, Direction::Sent)
    );
}

#[test]
fn per_type_committers_compose() {
    let src = "{\"a\": [1, 2]}";
    let v = parse_str(src).unwrap();
    let obj = match &v {
        JsonValue::Object(o) => o,
        _ => panic!("expected object"),
    };
    let mut committer = DefaultJsonCommitter::default();
    let mut by_object = CommitLog::new();
    JsonCommit::commit_object(&mut committer, &mut by_object, obj, Direction::Sent).unwrap();
    let mut by_value = CommitLog::new();
    JsonCommit::commit_value(&mut committer, &mut by_value, &v, Direction::Sent).unwrap();
    assert_eq!(by_object.commits.len(), by_value.commits.len());
    assert_eq!(
        committed_union(&by_object, Direction::Sent),
        committed_union(&by_value, Direction::Sent)
    );

    let arr = match v.get("a").unwrap() {
        JsonValue::Array(a) => a,
        _ => panic!("expected array"),
    };
    let mut by_array = CommitLog::new();
    JsonCommit::commit_array(&mut committer, &mut by_array, arr, Direction::Sent).unwrap();
    // The whole array is committed, values included.
    assert_eq!(
        committed_union(&by_array, Direction::Sent),
        rs_range(arr.span.start, arr.span.end)
    );
}

#[test]
fn commit_log_answers_containment() {
    let mut log = CommitLog::new();
    TranscriptCommitmentBuilder::commit(&mut log, &rs_range(0, 4), Direction::Sent).unwrap();
    TranscriptCommitmentBuilder::commit(&mut log, &rs_range(8, 12), Direction::Sent).unwrap();
    assert!(log.contains(&rs_range(1, 3), Direction::Sent));
    assert!(log.contains(&rs_range(8, 12), Direction::Sent));
    assert!(!log.contains(&rs_range(3, 9), Direction::Sent));
    assert!(!log.contains(&rs_range(0, 4), Direction::Received));
}

#[test]
fn header_lookup_ignores_ascii_case() {
    let req = transcript_context::http_parse::parse_request(
        b"GET /a HTTP/1.1\r\nX-Token: abc\r\n\r\n",
    )
    .unwrap();
    let h = req.header_with_name(b"x-token").unwrap();
    assert_eq!(h.value.as_bytes(), b"abc");
    assert!(req.header_with_name(b"x-missing").is_none());
}

#[test]
fn canonical_number_normalization() {
    let v = parse_str("[1.50, 12e3, 7]").unwrap();
    let jc = transcript_context::json_context::JsonContext { value: v };
    let text = String::from_utf8(jc.to_canonical_bytes()).unwrap();
    assert_eq!(text, "[1.5,12000.0,7]");
}

#[test]
fn canonical_escapes_and_booleans() {
    let v = parse_str("{\"s\": \"a\\\\b\", \"t\": true, \"f\": false, \"n\": null}").unwrap();
    let jc = transcript_context::json_context::JsonContext { value: v };
    let text = String::from_utf8(jc.to_canonical_bytes()).unwrap();
    assert_eq!(text, "{\"s\":\"a\\\\\\\\b\",\"t\":true,\"f\":false,\"n\":null}");
}

#[test]
fn redacted_value_commits_nothing() {
    // A redacted value fails the commit without a single builder call.
    let redacted = parse_str("***").unwrap();
    let mut log = CommitLog::new();
    let err = commit_value_walk(&mut log, &redacted, Direction::Sent).unwrap_err();
    assert_eq!(err.msg(), "cannot commit redacted value");
    assert!(err.source.is_none());
    assert!(log.commits.is_empty());
}

#[test]
fn empty_string_commit_succeeds_without_builder_call() {
    let v = parse_str("\"\"").unwrap();
    let mut log = CommitLog::new();
    commit_value_walk(&mut log, &v, Direction::Sent).unwrap();
    assert!(log.commits.is_empty());
}

#[test]
fn empty_transcript_reveal_succeeds_with_empty_trace() {
    let t = Transcript::new(Vec::new(), Vec::new());
    let parsed = HttpTranscript::parse(&t).unwrap();
    let mut log = CommitLog::new();
    parsed.reveal_structure(&mut log).unwrap();
    assert!(log.commits.is_empty());
}
