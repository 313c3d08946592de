//! The JSON span tree: a parsed JSON value whose every node carries the byte
//! range it came from, with redacted regions as explicit nodes.

use vstd::prelude::*;
use crate::ranges::{range_set, rs_difference, rs_range, rs_set, rs_union};
use crate::span::{bytes_eq, Span};
use vstd::string::StringSliceAdditionalSpecFns;

verus! {

broadcast use vstd::std_specs::vec::axiom_vec_index_decreases;

/// A JSON value.
#[derive(Debug)]
pub enum JsonValue {
    /// A null value.
    Null(Null),
    /// A boolean value.
    Bool(Bool),
    /// A number value.
    Number(Number),
    /// A string value.
    String(JsonString),
    /// A redacted value: a run of sentinel bytes standing where a value,
    /// a string, or part of a literal was expected.
    Redacted(Redacted),
    /// An array value.
    Array(Array),
    /// An object value.
    Object(Object),
}

/// A null value.
#[derive(Debug)]
pub struct Null(pub Span);

/// A boolean value.
#[derive(Debug)]
pub struct Bool(pub Span);

/// A number value.
#[derive(Debug)]
pub struct Number(pub Span);

/// A JSON string value.  The span does not capture the quotation marks.
#[derive(Debug)]
pub struct JsonString(pub Span);

/// A redacted value.  The span covers the sentinel run.
#[derive(Debug)]
pub struct Redacted(pub Span);

/// An array value.  The span covers the brackets and everything between them.
#[derive(Debug)]
pub struct Array {
    /// The byte range of the whole array.
    pub span: Span,
    /// The elements of the array, in source order.
    pub elems: Vec<JsonValue>,
}

/// An object value.  The span covers the braces and everything between them.
#[derive(Debug)]
pub struct Object {
    /// The byte range of the whole object.
    pub span: Span,
    /// The key-value pairs of the object, in source order.
    pub elems: Vec<KeyValue>,
}

/// A key-value pair in a JSON object.  The span runs from the opening quote
/// of the key to the end of the value's token.
#[derive(Debug)]
pub struct KeyValue {
    /// The byte range of the pair.
    pub span: Span,
    /// The key of the pair.
    pub key: JsonKey,
    /// The value of the pair.
    pub value: JsonValue,
}

/// A key in a JSON object.  The span does not capture the quotation marks.
#[derive(Debug)]
pub struct JsonKey(pub Span);

impl JsonValue {
    /// The span of the node.
    pub open spec fn span_spec(self) -> Span {
        match self {
            JsonValue::Null(v) => v.0,
            JsonValue::Bool(v) => v.0,
            JsonValue::Number(v) => v.0,
            JsonValue::String(v) => v.0,
            JsonValue::Redacted(v) => v.0,
            JsonValue::Array(v) => v.span,
            JsonValue::Object(v) => v.span,
        }
    }

    /// The positions covered by the node's span.
    pub open spec fn sset(self) -> Set<int> {
        self.span_spec().set()
    }

    /// The bytes of the node's span.
    pub open spec fn text(self) -> Seq<u8> {
        self.span_spec().data@
    }

    /// Returns the span corresponding to the value.
    pub fn into_span(self) -> (r: Span)
        ensures
            r == self.span_spec(),
    {
        match self {
            JsonValue::Null(v) => v.0,
            JsonValue::Bool(v) => v.0,
            JsonValue::Number(v) => v.0,
            JsonValue::String(v) => v.0,
            JsonValue::Redacted(v) => v.0,
            JsonValue::Array(v) => v.span,
            JsonValue::Object(v) => v.span,
        }
    }

    /// The span corresponding to the value.
    pub fn span(&self) -> (r: &Span)
        ensures
            *r == self.span_spec(),
    {
        match self {
            JsonValue::Null(v) => &v.0,
            JsonValue::Bool(v) => &v.0,
            JsonValue::Number(v) => &v.0,
            JsonValue::String(v) => &v.0,
            JsonValue::Redacted(v) => &v.0,
            JsonValue::Array(v) => &v.span,
            JsonValue::Object(v) => &v.span,
        }
    }

    /// The bytes of the value's span.
    pub fn as_bytes(&self) -> (r: &[u8])
        ensures
            r@ == self.text(),
    {
        self.span().as_bytes()
    }

    /// The positions of the value's span as a range set.
    pub fn to_range_set(&self) -> (r: rangeset::set::RangeSet<usize>)
        ensures
            rs_set(r) == self.sset(),
    {
        self.span().to_range_set()
    }
}

/// The value tree is well formed: every span is internally consistent, every
/// child lies strictly between its parent's delimiters, siblings appear in
/// source order without overlap, and each leaf's text is of its variant's
/// shape — a null or boolean literal, a number of the JSON grammar, or, for
/// a redacted leaf, a run holding at least one sentinel byte.
pub open spec fn json_wf(v: JsonValue) -> bool
    decreases v, 1int,
{
    match v {
        JsonValue::Null(n) => leaf_wf(n.0) && n.0.data@ == seq![110u8, 117u8, 108u8, 108u8],
        JsonValue::Bool(b) => leaf_wf(b.0) && (b.0.data@ == seq![116u8, 114u8, 117u8, 101u8]
            || b.0.data@ == seq![102u8, 97u8, 108u8, 115u8, 101u8]),
        JsonValue::Number(n) => leaf_wf(n.0) && crate::json_parse::number_ok(n.0.data@),
        JsonValue::String(s) => s.0.wf(),
        JsonValue::Redacted(r) => leaf_wf(r.0) && holds_sentinel(r.0.data@),
        JsonValue::Array(a) => {
            &&& a.span.wf()
            &&& a.span.start + 2 <= a.span.end
            &&& elems_wf(a.elems, a.elems@.len() as int)
            &&& elems_ordered(a.elems@, a.span.start + 1, a.span.end - 1)
        },
        JsonValue::Object(o) => {
            &&& o.span.wf()
            &&& o.span.start + 2 <= o.span.end
            &&& kvs_wf(o.elems, o.elems@.len() as int)
            &&& kvs_ordered(o.elems@, o.span.start + 1, o.span.end - 1)
        },
    }
}

/// A leaf span is consistent and covers at least one byte.
pub open spec fn leaf_wf(s: Span) -> bool {
    s.wf() && s.start < s.end
}

/// Whether the byte string holds at least one redaction sentinel.
pub open spec fn holds_sentinel(s: Seq<u8>) -> bool {
    exists|i: int| 0 <= i < s.len() && crate::json_parse::is_sentinel(#[trigger] s[i])
}

/// A redacted node is well formed once its span holds a sentinel byte.
pub proof fn lemma_redacted_wf(r: Redacted, i: int)
    requires
        leaf_wf(r.0),
        0 <= i < r.0.data@.len(),
        crate::json_parse::is_sentinel(r.0.data@[i]),
    ensures
        json_wf(JsonValue::Redacted(r)),
{
    assert(holds_sentinel(r.0.data@)) by {
        assert(crate::json_parse::is_sentinel(r.0.data@[i]));
    }
}

/// The first `n` elements are well-formed trees.
pub open spec fn elems_wf(es: Vec<JsonValue>, n: int) -> bool
    decreases es, 0int, n,
{
    if n <= 0 || es@.len() < n {
        true
    } else {
        elems_wf(es, n - 1) && json_wf(es@[n - 1])
    }
}

/// The first `n` pairs are well-formed trees.
pub open spec fn kvs_wf(es: Vec<KeyValue>, n: int) -> bool
    decreases es, 0int, n,
{
    if n <= 0 || es@.len() < n {
        true
    } else {
        kvs_wf(es, n - 1) && kv_wf(es@[n - 1])
    }
}

/// A pair is well formed: key before value, both inside the pair's span,
/// and the value a well-formed tree.
pub open spec fn kv_wf(kv: KeyValue) -> bool
    decreases kv, 1int,
{
    &&& kv.span.wf()
    &&& kv.key.0.wf()
    &&& kv.span.start <= kv.key.0.start
    &&& kv.key.0.end <= kv.value.span_spec().start
    &&& kv.value.span_spec().end <= kv.span.end
    &&& json_wf(kv.value)
}

/// The element spans lie within `[lo, hi)` in source order without overlap.
pub open spec fn elems_ordered(es: Seq<JsonValue>, lo: int, hi: int) -> bool {
    &&& forall|i: int|
        0 <= i < es.len() ==> lo <= (#[trigger] es[i]).span_spec().start
            && es[i].span_spec().end <= hi
    &&& forall|i: int, j: int|
        0 <= i < j < es.len() ==> (#[trigger] es[i]).span_spec().end
            <= (#[trigger] es[j]).span_spec().start
}

/// The pair spans lie within `[lo, hi)` in source order without overlap.
pub open spec fn kvs_ordered(es: Seq<KeyValue>, lo: int, hi: int) -> bool {
    &&& forall|i: int|
        0 <= i < es.len() ==> lo <= (#[trigger] es[i]).span.start && es[i].span.end <= hi
    &&& forall|i: int, j: int|
        0 <= i < j < es.len() ==> (#[trigger] es[i]).span.end <= (#[trigger] es[j]).span.start
}

/// The positions covered by the spans of the first `n` pairs.
pub open spec fn kvs_span_union(es: Seq<KeyValue>, n: int) -> Set<int>
    decreases n,
{
    if n <= 0 {
        Set::<int>::empty()
    } else {
        kvs_span_union(es, n - 1).union(es[n - 1].span.set())
    }
}

/// The positions covered by the spans of the first `n` elements.
pub open spec fn elems_span_union(es: Seq<JsonValue>, n: int) -> Set<int>
    decreases n,
{
    if n <= 0 {
        Set::<int>::empty()
    } else {
        elems_span_union(es, n - 1).union(es[n - 1].sset())
    }
}

/// Every span of the tree holds exactly the bytes standing at its positions
/// in `buf`.
pub open spec fn json_in_buf(v: JsonValue, buf: Seq<u8>) -> bool
    decreases v, 1int,
{
    match v {
        JsonValue::Null(n) => n.0.consistent_with(buf),
        JsonValue::Bool(b) => b.0.consistent_with(buf),
        JsonValue::Number(n) => n.0.consistent_with(buf),
        JsonValue::String(s) => s.0.consistent_with(buf),
        JsonValue::Redacted(r) => r.0.consistent_with(buf),
        JsonValue::Array(a) => a.span.consistent_with(buf) && elems_in_buf(
            a.elems,
            a.elems@.len() as int,
            buf,
        ),
        JsonValue::Object(o) => o.span.consistent_with(buf) && kvs_in_buf(
            o.elems,
            o.elems@.len() as int,
            buf,
        ),
    }
}

/// The first `n` elements are consistent with `buf`.
pub open spec fn elems_in_buf(es: Vec<JsonValue>, n: int, buf: Seq<u8>) -> bool
    decreases es, 0int, n,
{
    if n <= 0 || es@.len() < n {
        true
    } else {
        elems_in_buf(es, n - 1, buf) && json_in_buf(es@[n - 1], buf)
    }
}

/// The first `n` pairs are consistent with `buf`.
pub open spec fn kvs_in_buf(es: Vec<KeyValue>, n: int, buf: Seq<u8>) -> bool
    decreases es, 0int, n,
{
    if n <= 0 || es@.len() < n {
        true
    } else {
        kvs_in_buf(es, n - 1, buf) && kv_in_buf(es@[n - 1], buf)
    }
}

/// The pair's spans are consistent with `buf`.
pub open spec fn kv_in_buf(kv: KeyValue, buf: Seq<u8>) -> bool
    decreases kv, 1int,
{
    &&& kv.span.consistent_with(buf)
    &&& kv.key.0.consistent_with(buf)
    &&& json_in_buf(kv.value, buf)
}

/// `elems_wf` holds exactly when every one of the first `n` elements is a
/// well-formed tree.
pub proof fn lemma_elems_wf_iff(es: Vec<JsonValue>, n: int)
    requires
        0 <= n <= es@.len(),
    ensures
        elems_wf(es, n) <==> (forall|i: int| 0 <= i < n ==> json_wf(#[trigger] es@[i])),
    decreases n,
{
    if n > 0 {
        lemma_elems_wf_iff(es, n - 1);
    }
}

/// `kvs_wf` holds exactly when every one of the first `n` pairs is well
/// formed.
pub proof fn lemma_kvs_wf_iff(es: Vec<KeyValue>, n: int)
    requires
        0 <= n <= es@.len(),
    ensures
        kvs_wf(es, n) <==> (forall|i: int| 0 <= i < n ==> kv_wf(#[trigger] es@[i])),
    decreases n,
{
    if n > 0 {
        lemma_kvs_wf_iff(es, n - 1);
    }
}

/// `elems_in_buf` holds exactly when every one of the first `n` elements is
/// consistent with `buf`.
pub proof fn lemma_elems_in_buf_iff(es: Vec<JsonValue>, n: int, buf: Seq<u8>)
    requires
        0 <= n <= es@.len(),
    ensures
        elems_in_buf(es, n, buf) <==> (forall|i: int|
            0 <= i < n ==> json_in_buf(#[trigger] es@[i], buf)),
    decreases n,
{
    if n > 0 {
        lemma_elems_in_buf_iff(es, n - 1, buf);
    }
}

/// `kvs_in_buf` holds exactly when every one of the first `n` pairs is
/// consistent with `buf`.
pub proof fn lemma_kvs_in_buf_iff(es: Vec<KeyValue>, n: int, buf: Seq<u8>)
    requires
        0 <= n <= es@.len(),
    ensures
        kvs_in_buf(es, n, buf) <==> (forall|i: int|
            0 <= i < n ==> kv_in_buf(#[trigger] es@[i], buf)),
    decreases n,
{
    if n > 0 {
        lemma_kvs_in_buf_iff(es, n - 1, buf);
    }
}

/// `b` holds the same bytes as `a` with every position shifted right by `n`.
pub open spec fn span_shifted(a: Span, b: Span, n: int) -> bool {
    b.data@ == a.data@ && b.start == a.start + n && b.end == a.end + n
}

/// `b` is the same tree as `a` with every span shifted right by `n`.
pub open spec fn json_shifted(a: JsonValue, b: JsonValue, n: int) -> bool
    decreases a, 1int,
{
    match a {
        JsonValue::Null(x) => b matches JsonValue::Null(y) && span_shifted(x.0, y.0, n),
        JsonValue::Bool(x) => b matches JsonValue::Bool(y) && span_shifted(x.0, y.0, n),
        JsonValue::Number(x) => b matches JsonValue::Number(y) && span_shifted(x.0, y.0, n),
        JsonValue::String(x) => b matches JsonValue::String(y) && span_shifted(x.0, y.0, n),
        JsonValue::Redacted(x) => b matches JsonValue::Redacted(y) && span_shifted(x.0, y.0, n),
        JsonValue::Array(x) => b matches JsonValue::Array(y) && span_shifted(x.span, y.span, n)
            && x.elems@.len() == y.elems@.len() && elems_shifted(
            x.elems,
            y.elems@,
            x.elems@.len() as int,
            n,
        ),
        JsonValue::Object(x) => b matches JsonValue::Object(y) && span_shifted(x.span, y.span, n)
            && x.elems@.len() == y.elems@.len() && kvs_shifted(
            x.elems,
            y.elems@,
            x.elems@.len() as int,
            n,
        ),
    }
}

/// The first `k` elements are pairwise shifted copies.
pub open spec fn elems_shifted(xs: Vec<JsonValue>, ys: Seq<JsonValue>, k: int, n: int) -> bool
    decreases xs, 0int, k,
{
    if k <= 0 || xs@.len() < k || ys.len() < k {
        true
    } else {
        elems_shifted(xs, ys, k - 1, n) && json_shifted(xs@[k - 1], ys[k - 1], n)
    }
}

/// The first `k` pairs are pairwise shifted copies.
pub open spec fn kvs_shifted(xs: Vec<KeyValue>, ys: Seq<KeyValue>, k: int, n: int) -> bool
    decreases xs, 0int, k,
{
    if k <= 0 || xs@.len() < k || ys.len() < k {
        true
    } else {
        kvs_shifted(xs, ys, k - 1, n) && kv_shifted(xs@[k - 1], ys[k - 1], n)
    }
}

/// The pair `b` is the pair `a` with every span shifted right by `n`.
pub open spec fn kv_shifted(a: KeyValue, b: KeyValue, n: int) -> bool
    decreases a, 1int,
{
    &&& span_shifted(a.span, b.span, n)
    &&& span_shifted(a.key.0, b.key.0, n)
    &&& json_shifted(a.value, b.value, n)
}

proof fn lemma_elems_shifted_iff(xs: Vec<JsonValue>, ys: Seq<JsonValue>, k: int, n: int)
    requires
        0 <= k <= xs@.len(),
        k <= ys.len(),
    ensures
        elems_shifted(xs, ys, k, n) <==> (forall|i: int|
            0 <= i < k ==> json_shifted(#[trigger] xs@[i], ys[i], n)),
    decreases k,
{
    if k > 0 {
        lemma_elems_shifted_iff(xs, ys, k - 1, n);
    }
}

proof fn lemma_kvs_shifted_iff(xs: Vec<KeyValue>, ys: Seq<KeyValue>, k: int, n: int)
    requires
        0 <= k <= xs@.len(),
        k <= ys.len(),
    ensures
        kvs_shifted(xs, ys, k, n) <==> (forall|i: int|
            0 <= i < k ==> kv_shifted(#[trigger] xs@[i], ys[i], n)),
    decreases k,
{
    if k > 0 {
        lemma_kvs_shifted_iff(xs, ys, k - 1, n);
    }
}

impl JsonValue {
    /// Shifts every span of the tree right by `offset`: the tree that the
    /// same bytes would parse to at a position `offset` later in the buffer.
    pub fn offset(self, offset: usize) -> (r: JsonValue)
        requires
            json_wf(self),
            self.span_spec().end + offset <= usize::MAX,
        ensures
            json_shifted(self, r, offset as int),
        decreases self,
    {
        match self {
            JsonValue::Null(x) => {
                let mut s = x.0;
                s.offset(offset);
                JsonValue::Null(Null(s))
            },
            JsonValue::Bool(x) => {
                let mut s = x.0;
                s.offset(offset);
                JsonValue::Bool(Bool(s))
            },
            JsonValue::Number(x) => {
                let mut s = x.0;
                s.offset(offset);
                JsonValue::Number(Number(s))
            },
            JsonValue::String(x) => {
                let mut s = x.0;
                s.offset(offset);
                JsonValue::String(JsonString(s))
            },
            JsonValue::Redacted(x) => {
                let mut s = x.0;
                s.offset(offset);
                JsonValue::Redacted(Redacted(s))
            },
            JsonValue::Array(a) => {
                let ghost a0 = a;
                let Array { mut span, elems } = a;
                span.offset(offset);
                let ghost orig = elems@;
                proof {
                    lemma_elems_wf_iff(a0.elems, orig.len() as int);
                }
                let mut new_elems: Vec<JsonValue> = Vec::new();
                let mut rest = elems;
                while rest.len() > 0
                    invariant
                        self == JsonValue::Array(a0),
                        a0.elems@ == orig,
                        json_wf(self),
                        self.span_spec().end + offset <= usize::MAX,
                        forall|i: int| 0 <= i < orig.len() ==> json_wf(#[trigger] orig[i]),
                        new_elems@.len() + rest@.len() == orig.len(),
                        rest@ == orig.skip(new_elems@.len() as int),
                        forall|j: int|
                            0 <= j < new_elems@.len() ==> json_shifted(
                                orig[j],
                                #[trigger] new_elems@[j],
                                offset as int,
                            ),
                    decreases rest@.len(),
                {
                    let ghost kidx = new_elems@.len() as int;
                    let x = rest.remove(0);
                    proof {
                        assert(x == orig[kidx]);
                        assert(rest@ =~= orig.skip(kidx + 1));
                        assert(x.span_spec().end <= a0.span.end - 1);
                        assert(decreases_to!(self => self->Array_0));
                        assert(decreases_to!(self->Array_0 => self->Array_0.elems));
                        assert(decreases_to!(a0.elems => a0.elems[kidx]));
                        assert(decreases_to!(self => a0.elems@[kidx]));
                    }
                    let y = x.offset(offset);
                    new_elems.push(y);
                }
                let arr = Array { span, elems: new_elems };
                proof {
                    lemma_elems_shifted_iff(a0.elems, arr.elems@, orig.len() as int, offset as int);
                }
                JsonValue::Array(arr)
            },
            JsonValue::Object(o) => {
                let ghost o0 = o;
                let Object { mut span, elems } = o;
                span.offset(offset);
                let ghost orig = elems@;
                proof {
                    lemma_kvs_wf_iff(o0.elems, orig.len() as int);
                }
                let mut new_elems: Vec<KeyValue> = Vec::new();
                let mut rest = elems;
                while rest.len() > 0
                    invariant
                        self == JsonValue::Object(o0),
                        o0.elems@ == orig,
                        json_wf(self),
                        self.span_spec().end + offset <= usize::MAX,
                        forall|i: int| 0 <= i < orig.len() ==> kv_wf(#[trigger] orig[i]),
                        new_elems@.len() + rest@.len() == orig.len(),
                        rest@ == orig.skip(new_elems@.len() as int),
                        forall|j: int|
                            0 <= j < new_elems@.len() ==> kv_shifted(
                                orig[j],
                                #[trigger] new_elems@[j],
                                offset as int,
                            ),
                    decreases rest@.len(),
                {
                    let ghost kidx = new_elems@.len() as int;
                    let kv = rest.remove(0);
                    proof {
                        assert(kv == orig[kidx]);
                        assert(rest@ =~= orig.skip(kidx + 1));
                        assert(kv.span.end <= o0.span.end - 1);
                        assert(kv.value.span_spec().end <= kv.span.end);
                        assert(kv.key.0.end <= kv.value.span_spec().start
                            <= kv.value.span_spec().end);
                        assert(decreases_to!(self => self->Object_0));
                        assert(decreases_to!(self->Object_0 => self->Object_0.elems));
                        assert(decreases_to!(o0.elems => o0.elems[kidx]));
                        assert(decreases_to!(o0.elems[kidx] => o0.elems[kidx].value));
                        assert(decreases_to!(self => o0.elems@[kidx].value));
                    }
                    let KeyValue { span: mut kspan, key, value } = kv;
                    let JsonKey(mut keyspan) = key;
                    kspan.offset(offset);
                    keyspan.offset(offset);
                    let new_value = value.offset(offset);
                    new_elems.push(
                        KeyValue { span: kspan, key: JsonKey(keyspan), value: new_value },
                    );
                }
                let obj = Object { span, elems: new_elems };
                proof {
                    lemma_kvs_shifted_iff(o0.elems, obj.elems@, orig.len() as int, offset as int);
                }
                JsonValue::Object(obj)
            },
        }
    }
}

/// The position of the first `.` in `p`, or `p.len()` when there is none.
pub open spec fn dot_pos(p: Seq<u8>) -> int
    decreases p.len(),
{
    if p.len() == 0 {
        0
    } else if p[0] == 46 {
        0
    } else {
        1 + dot_pos(p.skip(1))
    }
}

proof fn lemma_dot_pos_at(p: Seq<u8>, i: int)
    requires
        0 <= i <= p.len(),
        forall|j: int| 0 <= j < i ==> p[j] != 46,
        i < p.len() ==> p[i] == 46,
    ensures
        dot_pos(p) == i,
    decreases i,
{
    if i > 0 {
        lemma_dot_pos_at(p.skip(1), i - 1);
    }
}

/// The position of the last `.` in `p`, if any.
pub open spec fn last_dot(p: Seq<u8>) -> Option<int>
    decreases p.len(),
{
    if p.len() == 0 {
        Option::None
    } else if p[p.len() - 1] == 46 {
        Option::Some(p.len() - 1)
    } else {
        last_dot(p.take(p.len() - 1))
    }
}

proof fn lemma_last_dot_at(p: Seq<u8>, i: int)
    requires
        0 <= i <= p.len(),
        forall|j: int| i <= j < p.len() ==> p[j] != 46,
        0 < i ==> p[i - 1] == 46,
    ensures
        last_dot(p) == if i > 0 {
            Option::Some(i - 1)
        } else {
            Option::<int>::None
        },
    decreases p.len(),
{
    if p.len() > 0 && p[p.len() - 1] != 46 {
        lemma_last_dot_at(p.take(p.len() - 1), i);
    }
}

/// Whether every byte of `s` is a decimal digit.
pub open spec fn all_digits(s: Seq<u8>) -> bool {
    forall|i: int| 0 <= i < s.len() ==> 48 <= #[trigger] s[i] <= 57
}

/// The value of a run of decimal digits.
pub open spec fn dec_val(s: Seq<u8>) -> int
    decreases s.len(),
{
    if s.len() == 0 {
        0
    } else {
        dec_val(s.take(s.len() - 1)) * 10 + (s[s.len() - 1] - 48)
    }
}

proof fn lemma_dec_val_nonneg(s: Seq<u8>)
    requires
        all_digits(s),
    ensures
        dec_val(s) >= 0,
    decreases s.len(),
{
    if s.len() > 0 {
        lemma_dec_val_nonneg(s.take(s.len() - 1));
    }
}

proof fn lemma_dec_val_mono(s: Seq<u8>, i: int, j: int)
    requires
        all_digits(s),
        0 <= i <= j <= s.len(),
    ensures
        dec_val(s.take(i)) <= dec_val(s.take(j)),
    decreases j - i,
{
    if i < j {
        lemma_dec_val_mono(s, i, j - 1);
        lemma_dec_val_nonneg(s.take(j - 1));
        assert(s.take(j).take(j - 1) =~= s.take(j - 1));
        assert(dec_val(s.take(j)) == dec_val(s.take(j - 1)) * 10 + (s[j - 1] - 48));
    }
}

/// The index denoted by a path segment: an optional `+`, then at least one
/// digit, with a value that fits in `usize`.
pub open spec fn parse_idx(s: Seq<u8>) -> Option<int> {
    let d = if s.len() > 0 && s[0] == 43 {
        s.skip(1)
    } else {
        s
    };
    if d.len() > 0 && all_digits(d) && dec_val(d) <= usize::MAX {
        Option::Some(dec_val(d))
    } else {
        Option::None
    }
}

/// The index of the first pair of `es` whose key holds exactly the bytes of
/// `key`, if any.
pub open spec fn find_key(es: Seq<KeyValue>, key: Seq<u8>) -> Option<int>
    decreases es.len(),
{
    if es.len() == 0 {
        Option::None
    } else if es[0].key.0.data@ == key {
        Option::Some(0)
    } else {
        match find_key(es.skip(1), key) {
            Option::None => Option::None,
            Option::Some(i) => Option::Some(i + 1),
        }
    }
}

proof fn lemma_find_key_at(es: Seq<KeyValue>, key: Seq<u8>, i: int)
    requires
        0 <= i <= es.len(),
        forall|j: int| 0 <= j < i ==> (#[trigger] es[j]).key.0.data@ != key,
        i < es.len() ==> es[i].key.0.data@ == key,
    ensures
        find_key(es, key) == if i < es.len() {
            Option::Some(i)
        } else {
            Option::<int>::None
        },
    decreases i, es.len(),
{
    if es.len() > 0 && !(es[0].key.0.data@ == key) {
        lemma_find_key_at(es.skip(1), key, i - 1);
    }
}

/// The value reached from `v` by the dotted path `p`: object segments select
/// the first pair with that key, array segments select by decimal index.
pub open spec fn json_get_path(v: JsonValue, p: Seq<u8>) -> Option<JsonValue>
    decreases p.len(), 1int,
{
    match v {
        JsonValue::Object(o) => obj_get_path(o, p),
        JsonValue::Array(a) => arr_get_path(a, p),
        _ => Option::None,
    }
}

/// The value reached from object `o` by the dotted path `p`.
pub open spec fn obj_get_path(o: Object, p: Seq<u8>) -> Option<JsonValue>
    decreases p.len(), 0int,
{
    let d = dot_pos(p);
    match find_key(o.elems@, p.take(d)) {
        Option::None => Option::None,
        Option::Some(i) => if 0 <= d < p.len() {
            json_get_path(o.elems@[i].value, p.skip(d + 1))
        } else {
            Option::Some(o.elems@[i].value)
        },
    }
}

/// The value reached from array `a` by the dotted path `p`.
pub open spec fn arr_get_path(a: Array, p: Seq<u8>) -> Option<JsonValue>
    decreases p.len(), 0int,
{
    let d = dot_pos(p);
    match parse_idx(p.take(d)) {
        Option::None => Option::None,
        Option::Some(idx) => if 0 <= idx < a.elems@.len() {
            if 0 <= d < p.len() {
                json_get_path(a.elems@[idx], p.skip(d + 1))
            } else {
                Option::Some(a.elems@[idx])
            }
        } else {
            Option::None
        },
    }
}

/// The key-value pair reached from `v` by the dotted path `p`: the pair named
/// by the last segment, inside the object reached by the leading segments.
pub open spec fn json_get_kv_path(v: JsonValue, p: Seq<u8>) -> Option<KeyValue> {
    match last_dot(p) {
        Option::None => match v {
            JsonValue::Object(o) => match find_key(o.elems@, p) {
                Option::Some(i) => Option::Some(o.elems@[i]),
                Option::None => Option::None,
            },
            _ => Option::None,
        },
        Option::Some(ld) => match v {
            JsonValue::Object(_) | JsonValue::Array(_) => match json_get_path(v, p.take(ld)) {
                Option::Some(JsonValue::Object(parent)) => match find_key(
                    parent.elems@,
                    p.skip(ld + 1),
                ) {
                    Option::Some(i) => Option::Some(parent.elems@[i]),
                    Option::None => Option::None,
                },
                _ => Option::None,
            },
            _ => Option::None,
        },
    }
}

/// The position of the first `.` at or after the start of `p`, or `p.len()`.
fn find_dot(p: &[u8]) -> (r: usize)
    ensures
        r == dot_pos(p@),
        r <= p@.len(),
{
    let mut i: usize = 0;
    while i < p.len()
        invariant
            i <= p@.len(),
            forall|j: int| 0 <= j < i ==> p@[j] != 46,
        decreases p@.len() - i,
    {
        if p[i] == 46 {
            proof {
                lemma_dot_pos_at(p@, i as int);
            }
            return i;
        }
        i = i + 1;
    }
    proof {
        lemma_dot_pos_at(p@, p@.len() as int);
    }
    i
}

/// The position of the last `.` of `p`, if any.
fn find_last_dot(p: &[u8]) -> (r: Option<usize>)
    ensures
        match r {
            Option::Some(i) => last_dot(p@) == Option::Some(i as int) && i < p@.len(),
            Option::None => last_dot(p@) is None,
        },
{
    let mut i: usize = p.len();
    while i > 0
        invariant
            i <= p@.len(),
            forall|j: int| i <= j < p@.len() ==> p@[j] != 46,
        decreases i,
    {
        if p[i - 1] == 46 {
            proof {
                lemma_last_dot_at(p@, i as int);
            }
            return Some(i - 1);
        }
        i = i - 1;
    }
    proof {
        lemma_last_dot_at(p@, 0);
    }
    None
}

/// Parses a decimal path segment as an index.
fn parse_index(s: &[u8]) -> (r: Option<usize>)
    ensures
        match r {
            Option::Some(v) => parse_idx(s@) == Option::Some(v as int),
            Option::None => parse_idx(s@) is None,
        },
{
    let d_start: usize = if s.len() > 0 && s[0] == 43 {
        1
    } else {
        0
    };
    let ghost d = s@.skip(d_start as int);
    proof {
        if s@.len() > 0 && s@[0] == 43 {
        } else {
            assert(d =~= s@);
        }
        assert(parse_idx(s@) == {
            if d.len() > 0 && all_digits(d) && dec_val(d) <= usize::MAX {
                Option::Some(dec_val(d))
            } else {
                Option::<int>::None
            }
        });
    }
    if s.len() == d_start {
        return None;
    }
    let mut acc: usize = 0;
    let mut i: usize = d_start;
    while i < s.len()
        invariant
            d_start <= i <= s@.len(),
            d_start <= 1,
            d_start < s@.len(),
            d == s@.skip(d_start as int),
            d.len() == s@.len() - d_start,
            parse_idx(s@) == (if d.len() > 0 && all_digits(d) && dec_val(d) <= usize::MAX {
                Option::Some(dec_val(d))
            } else {
                Option::<int>::None
            }),
            all_digits(d.take(i - d_start)),
            acc == dec_val(d.take(i - d_start)),
        decreases s@.len() - i,
    {
        let c = s[i];
        proof {
            assert(d[i - d_start] == s@[i as int]);
        }
        if c < 48 || c > 57 {
            proof {
                assert(!(48 <= d[i - d_start] <= 57));
                assert(!all_digits(d));
            }
            return None;
        }
        let digit = (c - 48) as usize;
        proof {
            assert(d.take(i - d_start + 1).take(i - d_start) =~= d.take(i - d_start));
            assert(d.take(i - d_start + 1)[i - d_start] == d[i - d_start]);
            assert(dec_val(d.take(i - d_start + 1)) == acc * 10 + digit);
            assert(all_digits(d.take(i - d_start + 1)));
        }
        if acc > (usize::MAX - digit) / 10 {
            proof {
                assert(acc * 10 + digit > usize::MAX) by (nonlinear_arith)
                    requires
                        acc > (usize::MAX - digit) / 10,
                        digit <= 9,
                ;
                if all_digits(d) {
                    lemma_dec_val_mono(d, i - d_start + 1, d.len() as int);
                    assert(d.take(d.len() as int) =~= d);
                    assert(dec_val(d) > usize::MAX);
                }
            }
            return None;
        }
        proof {
            assert(acc * 10 + digit <= usize::MAX) by (nonlinear_arith)
                requires
                    acc <= (usize::MAX - digit) / 10,
                    digit <= 9,
            ;
        }
        acc = acc * 10 + digit;
        i = i + 1;
    }
    proof {
        assert(d.take(d.len() as int) =~= d);
    }
    Some(acc)
}

/// Finds the first pair of `es` whose key holds exactly the bytes of `key`.
pub(crate) fn find_key_exec(es: &Vec<KeyValue>, key: &[u8]) -> (r: Option<usize>)
    ensures
        match r {
            Option::Some(i) => find_key(es@, key@) == Option::Some(i as int) && i < es@.len(),
            Option::None => find_key(es@, key@) is None,
        },
{
    let mut i: usize = 0;
    while i < es.len()
        invariant
            i <= es@.len(),
            forall|j: int| 0 <= j < i ==> (#[trigger] es@[j]).key.0.data@ != key@,
        decreases es@.len() - i,
    {
        if bytes_eq(es[i].key.0.as_bytes(), key) {
            proof {
                lemma_find_key_at(es@, key@, i as int);
            }
            return Some(i);
        }
        i = i + 1;
    }
    proof {
        lemma_find_key_at(es@, key@, es@.len() as int);
    }
    None
}

/// Looks up the dotted path `p` starting at `v`.
fn get_at<'a>(v: &'a JsonValue, p: &[u8]) -> (r: Option<&'a JsonValue>)
    ensures
        match r {
            Option::Some(x) => json_get_path(*v, p@) == Option::Some(*x),
            Option::None => json_get_path(*v, p@) is None,
        },
    decreases p@.len(), 1int,
{
    match v {
        JsonValue::Object(o) => obj_get_at(o, p),
        JsonValue::Array(a) => arr_get_at(a, p),
        _ => None,
    }
}

/// Looks up the dotted path `p` starting at object `o`.
fn obj_get_at<'a>(o: &'a Object, p: &[u8]) -> (r: Option<&'a JsonValue>)
    ensures
        match r {
            Option::Some(x) => obj_get_path(*o, p@) == Option::Some(*x),
            Option::None => obj_get_path(*o, p@) is None,
        },
    decreases p@.len(), 0int,
{
    let d = find_dot(p);
    let seg = &p[0..d];
    proof {
        assert(seg@ =~= p@.take(d as int));
    }
    match find_key_exec(&o.elems, seg) {
        None => None,
        Some(i) => {
            if d < p.len() {
                let rest = &p[d + 1..p.len()];
                proof {
                    assert(rest@ =~= p@.skip(d + 1 as int));
                }
                get_at(&o.elems[i].value, rest)
            } else {
                Some(&o.elems[i].value)
            }
        }
    }
}

/// Looks up the dotted path `p` starting at array `a`.
fn arr_get_at<'a>(a: &'a Array, p: &[u8]) -> (r: Option<&'a JsonValue>)
    ensures
        match r {
            Option::Some(x) => arr_get_path(*a, p@) == Option::Some(*x),
            Option::None => arr_get_path(*a, p@) is None,
        },
    decreases p@.len(), 0int,
{
    let d = find_dot(p);
    let seg = &p[0..d];
    proof {
        assert(seg@ =~= p@.take(d as int));
    }
    match parse_index(seg) {
        None => None,
        Some(idx) => {
            if idx >= a.elems.len() {
                return None;
            }
            if d < p.len() {
                let rest = &p[d + 1..p.len()];
                proof {
                    assert(rest@ =~= p@.skip(d + 1 as int));
                }
                get_at(&a.elems[idx], rest)
            } else {
                Some(&a.elems[idx])
            }
        }
    }
}

impl JsonValue {
    /// Get a reference to the value using the given dotted path.
    pub fn get(&self, path: &str) -> (r: Option<&JsonValue>)
        ensures
            match r {
                Option::Some(x) => json_get_path(*self, path.spec_bytes()) == Option::Some(*x),
                Option::None => json_get_path(*self, path.spec_bytes()) is None,
            },
    {
        get_at(self, path.as_bytes())
    }

    /// Get a reference to the key-value pair using the given dotted path.
    pub fn get_keyvalue(&self, path: &str) -> (r: Option<&KeyValue>)
        ensures
            match r {
                Option::Some(kv) => json_get_kv_path(*self, path.spec_bytes()) == Option::Some(
                    *kv,
                ),
                Option::None => json_get_kv_path(*self, path.spec_bytes()) is None,
            },
    {
        let p = path.as_bytes();
        match find_last_dot(p) {
            None => match self {
                JsonValue::Object(o) => obj_get_kv(o, p),
                _ => None,
            },
            Some(ld) => match self {
                JsonValue::Object(_) | JsonValue::Array(_) => {
                    let prefix = &p[0..ld];
                    proof {
                        assert(prefix@ =~= p@.take(ld as int));
                    }
                    match get_at(self, prefix) {
                        Some(parent) => match parent {
                            JsonValue::Object(po) => {
                                let plen = p.len();
                                proof {
                                    assert(ld < plen);
                                }
                                let lastseg = &p[ld + 1..plen];
                                proof {
                                    assert(lastseg@ =~= p@.skip(ld + 1 as int));
                                }
                                obj_get_kv(po, lastseg)
                            },
                            _ => None,
                        },
                        None => None,
                    }
                },
                _ => None,
            },
        }
    }
}

/// Finds the pair of `o` named exactly `key`.
fn obj_get_kv<'a>(o: &'a Object, key: &[u8]) -> (r: Option<&'a KeyValue>)
    ensures
        match r {
            Option::Some(kv) => find_key(o.elems@, key@) matches Option::Some(i) && *kv
                == o.elems@[i],
            Option::None => find_key(o.elems@, key@) is None,
        },
{
    match find_key_exec(&o.elems, key) {
        Some(i) => Some(&o.elems[i]),
        None => None,
    }
}

impl Object {
    /// Get a reference to the value using the given dotted path.
    pub fn get(&self, path: &str) -> (r: Option<&JsonValue>)
        ensures
            match r {
                Option::Some(x) => obj_get_path(*self, path.spec_bytes()) == Option::Some(*x),
                Option::None => obj_get_path(*self, path.spec_bytes()) is None,
            },
    {
        obj_get_at(self, path.as_bytes())
    }

    /// Get a reference to the key-value pair using the given key.
    pub fn get_keyvalue(&self, key: &str) -> (r: Option<&KeyValue>)
        ensures
            match r {
                Option::Some(kv) => find_key(self.elems@, key.spec_bytes()) matches Option::Some(i)
                    && *kv == self.elems@[i],
                Option::None => find_key(self.elems@, key.spec_bytes()) is None,
            },
    {
        obj_get_kv(self, key.as_bytes())
    }
}

impl Array {
    /// Get a reference to the value using the given dotted path.
    pub fn get(&self, path: &str) -> (r: Option<&JsonValue>)
        ensures
            match r {
                Option::Some(x) => arr_get_path(*self, path.spec_bytes()) == Option::Some(*x),
                Option::None => arr_get_path(*self, path.spec_bytes()) is None,
            },
    {
        arr_get_at(self, path.as_bytes())
    }
}

impl KeyValue {
    /// The positions of the pair, excluding those of its value: the key, the
    /// colon, and the surrounding whitespace.
    pub open spec fn without_value_set(self) -> Set<int> {
        self.span.set().difference(self.value.sset())
    }

    /// Returns the indices of the key-value pair, excluding the value.
    pub fn without_value(&self) -> (r: rangeset::set::RangeSet<usize>)
        ensures
            rs_set(r) == self.without_value_set(),
    {
        rs_difference(&self.span.to_range_set(), &self.value.to_range_set())
    }
}

impl Object {
    /// The positions of the object, excluding those of its pairs: the braces
    /// and the whitespace between pairs.
    pub open spec fn without_pairs_set(self) -> Set<int> {
        self.span.set().difference(kvs_span_union(self.elems@, self.elems@.len() as int))
    }

    /// Returns the indices of the object, excluding the key value pairs.
    pub fn without_pairs(&self) -> (r: rangeset::set::RangeSet<usize>)
        ensures
            rs_set(r) == self.without_pairs_set(),
    {
        let mut indices = self.span.to_range_set();
        let mut i: usize = 0;
        while i < self.elems.len()
            invariant
                i <= self.elems@.len(),
                rs_set(indices) == self.span.set().difference(kvs_span_union(self.elems@, i as int)),
            decreases self.elems@.len() - i,
        {
            indices = rs_difference(&indices, &self.elems[i].span.to_range_set());
            proof {
                assert(self.span.set().difference(kvs_span_union(self.elems@, i as int)).difference(
                    self.elems@[i as int].span.set(),
                ) =~= self.span.set().difference(kvs_span_union(self.elems@, i + 1 as int)));
            }
            i = i + 1;
        }
        indices
    }
}

impl Array {
    /// The positions of the array's brackets: its first and last byte.
    pub open spec fn without_values_set(self) -> Set<int> {
        range_set(self.span.start as int, self.span.start + 1).union(
            range_set(self.span.end - 1, self.span.end as int),
        )
    }

    /// The positions of the separators between the elements: everything in
    /// the array except the brackets and the element spans.
    pub open spec fn separators_set(self) -> Set<int> {
        self.span.set().difference(self.without_values_set()).difference(
            elems_span_union(self.elems@, self.elems@.len() as int),
        )
    }

    /// Returns the indices of the array's brackets, excluding the values and
    /// separators.
    pub fn without_values(&self) -> (r: rangeset::set::RangeSet<usize>)
        requires
            self.span.start + 2 <= self.span.end,
        ensures
            rs_set(r) == self.without_values_set(),
    {
        rs_union(
            &rs_range(self.span.start, self.span.start + 1),
            &rs_range(self.span.end - 1, self.span.end),
        )
    }

    /// Returns the indices of the separators between the elements of the
    /// array.
    pub fn separators(&self) -> (r: rangeset::set::RangeSet<usize>)
        requires
            self.span.start + 2 <= self.span.end,
        ensures
            rs_set(r) == self.separators_set(),
    {
        let mut difference = rs_difference(&self.span.to_range_set(), &self.without_values());
        let mut i: usize = 0;
        while i < self.elems.len()
            invariant
                i <= self.elems@.len(),
                rs_set(difference) == self.span.set().difference(self.without_values_set())
                    .difference(elems_span_union(self.elems@, i as int)),
            decreases self.elems@.len() - i,
        {
            difference = rs_difference(&difference, &self.elems[i].to_range_set());
            proof {
                assert(self.span.set().difference(self.without_values_set()).difference(
                    elems_span_union(self.elems@, i as int),
                ).difference(self.elems@[i as int].sset()) =~= self.span.set().difference(
                    self.without_values_set(),
                ).difference(elems_span_union(self.elems@, i + 1 as int)));
            }
            i = i + 1;
        }
        difference
    }
}

} // verus!
