//! The HTTP span tree: requests and responses parsed from a transcript, with
//! every part carrying its byte range.

use vstd::prelude::*;
use crate::json::{json_in_buf, json_wf, JsonValue};
use crate::ranges::{rs_difference, rs_set};
use crate::span::Span;

verus! {

broadcast use vstd::std_specs::vec::axiom_vec_index_decreases;

/// An HTTP header: its full range, its name, and its value.
#[derive(Debug)]
pub struct Header {
    /// The range from the first byte of the name to the last byte of the
    /// value, without the line's CRLF.
    pub span: Span,
    /// The header's name.
    pub name: Span,
    /// The header's value, with surrounding whitespace trimmed.
    pub value: Span,
}

/// The first line of a request: method and target.
#[derive(Debug)]
pub struct RequestLine {
    /// The range of the line without its CRLF.
    pub span: Span,
    /// The method token.
    pub method: Span,
    /// The request target.
    pub target: Span,
}

/// The first line of a response: status code and reason phrase.
#[derive(Debug)]
pub struct Status {
    /// The range of the line without its CRLF.
    pub span: Span,
    /// The three-digit status code.
    pub code: Span,
    /// The reason phrase.
    pub reason: Span,
}

/// The content of a message body.
#[derive(Debug)]
pub enum BodyContent {
    /// A JSON document.
    Json(JsonValue),
    /// Bytes of no recognized format, or a sentinel-filled region.
    Unknown(Span),
}

/// A message body.
#[derive(Debug)]
pub struct Body {
    /// The range of the whole body.
    pub span: Span,
    /// Its content.
    pub content: BodyContent,
}

/// An HTTP request with its spans.
#[derive(Debug)]
pub struct Request {
    /// The range of the whole message.
    pub span: Span,
    /// The request line.
    pub request: RequestLine,
    /// The headers, in source order.
    pub headers: Vec<Header>,
    /// The body, if the message frames one.
    pub body: Option<Body>,
}

/// An HTTP response with its spans.
#[derive(Debug)]
pub struct Response {
    /// The range of the whole message.
    pub span: Span,
    /// The status line.
    pub status: Status,
    /// The headers, in source order.
    pub headers: Vec<Header>,
    /// The body, if the message frames one.
    pub body: Option<Body>,
    /// The chunk-size lines of a chunked body.
    pub boundaries: Option<Vec<Span>>,
    /// The trailer headers of a chunked body.
    pub trailers: Option<Vec<Header>>,
}

/// The lower-case image of an ASCII byte.
pub open spec fn to_lower(b: u8) -> u8 {
    if 65 <= b <= 90 {
        (b + 32) as u8
    } else {
        b
    }
}

/// The lower-case image of a byte string.
pub open spec fn lower_seq(s: Seq<u8>) -> Seq<u8> {
    s.map_values(|b: u8| to_lower(b))
}

/// Byte equality up to ASCII case.
pub fn bytes_eq_ci(a: &[u8], b: &[u8]) -> (r: bool)
    ensures
        r == (lower_seq(a@) == lower_seq(b@)),
{
    if a.len() != b.len() {
        proof {
            assert(lower_seq(a@).len() != lower_seq(b@).len());
        }
        return false;
    }
    let mut i: usize = 0;
    while i < a.len()
        invariant
            i <= a@.len(),
            a@.len() == b@.len(),
            forall|j: int| 0 <= j < i ==> to_lower(a@[j]) == to_lower(b@[j]),
        decreases a@.len() - i,
    {
        let x = if 65 <= a[i] && a[i] <= 90 {
            a[i] + 32
        } else {
            a[i]
        };
        let y = if 65 <= b[i] && b[i] <= 90 {
            b[i] + 32
        } else {
            b[i]
        };
        if x != y {
            proof {
                assert(lower_seq(a@)[i as int] != lower_seq(b@)[i as int]);
            }
            return false;
        }
        i = i + 1;
    }
    proof {
        assert(lower_seq(a@) =~= lower_seq(b@));
    }
    true
}

/// The index of the first header whose name equals `name` up to ASCII case.
pub open spec fn find_header(hs: Seq<Header>, name: Seq<u8>) -> Option<int>
    decreases hs.len(),
{
    if hs.len() == 0 {
        Option::None
    } else if lower_seq(hs[0].name.data@) == lower_seq(name) {
        Option::Some(0)
    } else {
        match find_header(hs.skip(1), name) {
            Option::None => Option::None,
            Option::Some(i) => Option::Some(i + 1),
        }
    }
}

proof fn lemma_find_header_at(hs: Seq<Header>, name: Seq<u8>, i: int)
    requires
        0 <= i <= hs.len(),
        forall|j: int| 0 <= j < i ==> lower_seq((#[trigger] hs[j]).name.data@) != lower_seq(name),
        i < hs.len() ==> lower_seq(hs[i].name.data@) == lower_seq(name),
    ensures
        find_header(hs, name) == if i < hs.len() {
            Option::Some(i)
        } else {
            Option::<int>::None
        },
    decreases i, hs.len(),
{
    if hs.len() > 0 && !(lower_seq(hs[0].name.data@) == lower_seq(name)) {
        lemma_find_header_at(hs.skip(1), name, i - 1);
    }
}

/// Finds the first header of `hs` named `name`, comparing names without
/// regard to ASCII case.
pub fn headers_with_name(hs: &Vec<Header>, name: &[u8]) -> (r: Option<usize>)
    ensures
        match r {
            Option::Some(i) => find_header(hs@, name@) == Option::Some(i as int) && i < hs@.len(),
            Option::None => find_header(hs@, name@) is None,
        },
{
    let mut i: usize = 0;
    while i < hs.len()
        invariant
            i <= hs@.len(),
            forall|j: int|
                0 <= j < i ==> lower_seq((#[trigger] hs@[j]).name.data@) != lower_seq(name@),
        decreases hs@.len() - i,
    {
        if bytes_eq_ci(hs[i].name.as_bytes(), name) {
            proof {
                lemma_find_header_at(hs@, name@, i as int);
            }
            return Some(i);
        }
        i = i + 1;
    }
    proof {
        lemma_find_header_at(hs@, name@, hs@.len() as int);
    }
    None
}

impl Header {
    /// The header's spans nest: name before value, both inside the span.
    pub open spec fn wf(self) -> bool {
        &&& self.span.wf()
        &&& self.name.wf()
        &&& self.value.wf()
        &&& self.span.start <= self.name.start
        &&& self.name.end <= self.value.start
        &&& self.value.end <= self.span.end
    }

    /// The positions of the header, excluding those of its value: the name,
    /// the colon, and the surrounding whitespace.
    pub open spec fn without_value_set(self) -> Set<int> {
        self.span.set().difference(self.value.set())
    }

    /// Returns the indices of the header, excluding the value.
    pub fn without_value(&self) -> (r: rangeset::set::RangeSet<usize>)
        ensures
            rs_set(r) == self.without_value_set(),
    {
        rs_difference(&self.span.to_range_set(), &self.value.to_range_set())
    }
}

/// The header's spans hold exactly the bytes standing at their positions in
/// `buf`.
pub open spec fn header_in_buf(h: Header, buf: Seq<u8>) -> bool {
    &&& h.span.consistent_with(buf)
    &&& h.name.consistent_with(buf)
    &&& h.value.consistent_with(buf)
}

/// The body's spans hold exactly the bytes standing at their positions in
/// `buf`.
pub open spec fn body_in_buf(b: Body, buf: Seq<u8>) -> bool {
    &&& b.span.consistent_with(buf)
    &&& match b.content {
        BodyContent::Json(v) => json_in_buf(v, buf),
        BodyContent::Unknown(sp) => sp.consistent_with(buf),
    }
}

/// Every span of the request holds exactly the bytes standing at its
/// positions in `buf`: the spans are absolute into the buffer the request
/// was parsed from.
pub open spec fn request_in_buf(r: Request, buf: Seq<u8>) -> bool {
    &&& r.span.consistent_with(buf)
    &&& r.request.span.consistent_with(buf)
    &&& r.request.method.consistent_with(buf)
    &&& r.request.target.consistent_with(buf)
    &&& (forall|i: int|
        0 <= i < r.headers@.len() ==> header_in_buf(#[trigger] r.headers@[i], buf))
    &&& match r.body {
        Option::Some(b) => body_in_buf(b, buf),
        Option::None => true,
    }
}

/// Every span of the response holds exactly the bytes standing at its
/// positions in `buf`.
pub open spec fn response_in_buf(r: Response, buf: Seq<u8>) -> bool {
    &&& r.span.consistent_with(buf)
    &&& r.status.span.consistent_with(buf)
    &&& r.status.code.consistent_with(buf)
    &&& r.status.reason.consistent_with(buf)
    &&& (forall|i: int|
        0 <= i < r.headers@.len() ==> header_in_buf(#[trigger] r.headers@[i], buf))
    &&& match r.body {
        Option::Some(b) => body_in_buf(b, buf),
        Option::None => true,
    }
    &&& match r.boundaries {
        Option::Some(bs) => forall|i: int|
            0 <= i < bs@.len() ==> (#[trigger] bs@[i]).consistent_with(buf),
        Option::None => true,
    }
    &&& match r.trailers {
        Option::Some(ts) => forall|i: int|
            0 <= i < ts@.len() ==> header_in_buf(#[trigger] ts@[i], buf),
        Option::None => true,
    }
}

/// The spans of `hs` lie within `[lo, hi)` in source order without overlap.
pub open spec fn headers_ordered(hs: Seq<Header>, lo: int, hi: int) -> bool {
    &&& forall|i: int|
        0 <= i < hs.len() ==> lo <= (#[trigger] hs[i]).span.start && hs[i].span.end <= hi
    &&& forall|i: int, j: int|
        0 <= i < j < hs.len() ==> (#[trigger] hs[i]).span.end <= (#[trigger] hs[j]).span.start
}

/// The positions covered by the spans of the first `n` headers.
pub open spec fn headers_span_union(hs: Seq<Header>, n: int) -> Set<int>
    decreases n,
{
    if n <= 0 {
        Set::<int>::empty()
    } else {
        headers_span_union(hs, n - 1).union(hs[n - 1].span.set())
    }
}

/// The positions covered by the first `n` spans.
pub open spec fn spans_union(ss: Seq<Span>, n: int) -> Set<int>
    decreases n,
{
    if n <= 0 {
        Set::<int>::empty()
    } else {
        spans_union(ss, n - 1).union(ss[n - 1].set())
    }
}

impl Body {
    /// The body's spans nest and its JSON content, if any, is well formed.
    pub open spec fn wf(self) -> bool {
        &&& self.span.wf()
        &&& match self.content {
            BodyContent::Json(v) => json_wf(v) && self.span.start <= v.span_spec().start
                && v.span_spec().end <= self.span.end,
            BodyContent::Unknown(sp) => sp.wf() && self.span.start <= sp.start && sp.end
                <= self.span.end,
        }
    }
}

impl Request {
    /// The parts of the request nest: the request line first, the headers
    /// after it in order, the body last.
    pub open spec fn wf(self) -> bool {
        &&& self.span.wf()
        &&& self.request.span.wf()
        &&& self.request.method.wf()
        &&& self.request.target.wf()
        &&& self.span.start <= self.request.span.start
        &&& self.request.span.start <= self.request.method.start
        &&& self.request.method.end <= self.request.target.start
        &&& self.request.target.end <= self.request.span.end
        &&& self.request.span.end <= self.span.end
        &&& (forall|i: int| 0 <= i < self.headers@.len() ==> (#[trigger] self.headers@[i]).wf())
        &&& headers_ordered(
            self.headers@,
            self.request.span.end as int,
            self.headers_end() as int,
        )
        &&& match self.body {
            Option::Some(b) => b.wf() && self.request.span.end <= b.span.start && b.span.end
                <= self.span.end,
            Option::None => true,
        }
    }

    /// Where the header block must end: at the body when there is one, else
    /// at the end of the message.
    pub open spec fn headers_end(self) -> int {
        match self.body {
            Option::Some(b) => b.span.start as int,
            Option::None => self.span.end as int,
        }
    }

    /// The structural envelope: the positions of the request minus its
    /// target, its headers, and its body.
    pub open spec fn without_data_set(self) -> Set<int> {
        self.span.set().difference(self.request.target.set()).difference(
            headers_span_union(self.headers@, self.headers@.len() as int),
        ).difference(
            match self.body {
                Option::Some(b) => b.span.set(),
                Option::None => Set::<int>::empty(),
            },
        )
    }

    /// Returns the indices of the structural envelope of the request: the
    /// method, the protocol version, and the CRLFs, but neither the target,
    /// nor any header, nor the body.
    pub fn without_data(&self) -> (r: rangeset::set::RangeSet<usize>)
        ensures
            rs_set(r) == self.without_data_set(),
    {
        let mut s = rs_difference(&self.span.to_range_set(), &self.request.target.to_range_set());
        let mut i: usize = 0;
        while i < self.headers.len()
            invariant
                i <= self.headers@.len(),
                rs_set(s) == self.span.set().difference(self.request.target.set()).difference(
                    headers_span_union(self.headers@, i as int),
                ),
            decreases self.headers@.len() - i,
        {
            s = rs_difference(&s, &self.headers[i].span.to_range_set());
            proof {
                assert(self.span.set().difference(self.request.target.set()).difference(
                    headers_span_union(self.headers@, i as int),
                ).difference(self.headers@[i as int].span.set()) =~= self.span.set().difference(
                    self.request.target.set(),
                ).difference(headers_span_union(self.headers@, i + 1 as int)));
            }
            i = i + 1;
        }
        match &self.body {
            Some(b) => {
                let r = rs_difference(&s, &b.span.to_range_set());
                r
            },
            None => {
                proof {
                    assert(rs_set(s) =~= self.without_data_set());
                }
                s
            },
        }
    }

    /// Finds the first header with the given name, without regard to ASCII
    /// case.
    pub fn header_with_name(&self, name: &[u8]) -> (r: Option<&Header>)
        ensures
            match r {
                Option::Some(h) => find_header(self.headers@, name@) matches Option::Some(i) && *h
                    == self.headers@[i],
                Option::None => find_header(self.headers@, name@) is None,
            },
    {
        match headers_with_name(&self.headers, name) {
            Some(i) => Some(&self.headers[i]),
            None => None,
        }
    }
}

impl Response {
    /// The parts of the response nest: the status line first, the headers
    /// after it in order, then the body, then the trailers.
    pub open spec fn wf(self) -> bool {
        &&& self.span.wf()
        &&& self.status.span.wf()
        &&& self.status.code.wf()
        &&& self.status.reason.wf()
        &&& self.span.start <= self.status.span.start
        &&& self.status.span.start <= self.status.code.start
        &&& self.status.code.end <= self.status.reason.start
        &&& self.status.reason.end <= self.status.span.end
        &&& self.status.span.end <= self.span.end
        &&& (forall|i: int| 0 <= i < self.headers@.len() ==> (#[trigger] self.headers@[i]).wf())
        &&& headers_ordered(self.headers@, self.status.span.end as int, self.headers_end() as int)
        &&& match self.body {
            Option::Some(b) => b.wf() && self.status.span.end <= b.span.start && b.span.end
                <= self.span.end,
            Option::None => true,
        }
        &&& match self.boundaries {
            Option::Some(bs) => self.body matches Option::Some(b) && b.content is Unknown && (
            forall|i: int|
                0 <= i < bs@.len() ==> (#[trigger] bs@[i]).wf() && b.span.start <= bs@[i].start
                    && bs@[i].end <= b.span.end) && (forall|i: int, j: int|
                0 <= i < j < bs@.len() ==> (#[trigger] bs@[i]).end <= (#[trigger] bs@[j]).start),
            Option::None => true,
        }
        &&& match self.trailers {
            Option::Some(ts) => self.body matches Option::Some(b) && (forall|i: int|
                0 <= i < ts@.len() ==> (#[trigger] ts@[i]).wf() && b.span.end <= ts@[i].span.start
                    && ts@[i].span.end <= self.span.end) && (forall|i: int, j: int|
                0 <= i < j < ts@.len() ==> (#[trigger] ts@[i]).span.end
                    <= (#[trigger] ts@[j]).span.start),
            Option::None => true,
        }
    }

    /// Where the header block must end: at the body when there is one, else
    /// at the end of the message.
    pub open spec fn headers_end(self) -> int {
        match self.body {
            Option::Some(b) => b.span.start as int,
            Option::None => self.span.end as int,
        }
    }

    /// The positions covered by the trailers' spans.
    pub open spec fn trailers_union(self) -> Set<int> {
        match self.trailers {
            Option::Some(ts) => headers_span_union(ts@, ts@.len() as int),
            Option::None => Set::<int>::empty(),
        }
    }

    /// The structural envelope: the positions of the response minus its
    /// headers, its body, and its trailers.
    pub open spec fn without_data_set(self) -> Set<int> {
        self.span.set().difference(
            headers_span_union(self.headers@, self.headers@.len() as int),
        ).difference(
            match self.body {
                Option::Some(b) => b.span.set(),
                Option::None => Set::<int>::empty(),
            },
        ).difference(self.trailers_union())
    }

    /// Returns the indices of the structural envelope of the response: the
    /// status line and the CRLFs, but neither any header, nor the body, nor
    /// any trailer.
    pub fn without_data(&self) -> (r: rangeset::set::RangeSet<usize>)
        ensures
            rs_set(r) == self.without_data_set(),
    {
        let mut s = self.span.to_range_set();
        let mut i: usize = 0;
        while i < self.headers.len()
            invariant
                i <= self.headers@.len(),
                rs_set(s) == self.span.set().difference(headers_span_union(self.headers@, i as int)),
            decreases self.headers@.len() - i,
        {
            s = rs_difference(&s, &self.headers[i].span.to_range_set());
            proof {
                assert(self.span.set().difference(headers_span_union(self.headers@, i as int))
                    .difference(self.headers@[i as int].span.set()) =~= self.span.set().difference(
                    headers_span_union(self.headers@, i + 1 as int),
                ));
            }
            i = i + 1;
        }
        proof {
            assert(rs_set(s) =~= self.span.set().difference(
                headers_span_union(self.headers@, self.headers@.len() as int),
            ).difference(Set::<int>::empty()));
        }
        let mut s = match &self.body {
            Some(b) => rs_difference(&s, &b.span.to_range_set()),
            None => s,
        };
        let ghost after_body = rs_set(s);
        match &self.trailers {
            Some(ts) => {
                let mut i: usize = 0;
                while i < ts.len()
                    invariant
                        i <= ts@.len(),
                        rs_set(s) == after_body.difference(headers_span_union(ts@, i as int)),
                    decreases ts@.len() - i,
                {
                    s = rs_difference(&s, &ts[i].span.to_range_set());
                    proof {
                        assert(after_body.difference(headers_span_union(ts@, i as int)).difference(
                            ts@[i as int].span.set(),
                        ) =~= after_body.difference(headers_span_union(ts@, i + 1 as int)));
                    }
                    i = i + 1;
                }
                proof {
                    assert(rs_set(s) =~= self.without_data_set());
                }
                s
            },
            None => {
                proof {
                    assert(rs_set(s) =~= self.without_data_set());
                }
                s
            },
        }
    }

    /// Finds the first header with the given name, without regard to ASCII
    /// case.
    pub fn header_with_name(&self, name: &[u8]) -> (r: Option<&Header>)
        ensures
            match r {
                Option::Some(h) => find_header(self.headers@, name@) matches Option::Some(i) && *h
                    == self.headers@[i],
                Option::None => find_header(self.headers@, name@) is None,
            },
    {
        match headers_with_name(&self.headers, name) {
            Some(i) => Some(&self.headers[i]),
            None => None,
        }
    }
}

} // verus!
