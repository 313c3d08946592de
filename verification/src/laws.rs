//! The laws of the reveal planner and of the span trees, stated and proved
//! once over the specifications the rest of the library uses.

use vstd::prelude::*;
use crate::http::{headers_span_union, BodyContent, Header, Request, Response};
use crate::http_transcript::{
    boundaries_commits, boundaries_union, header_commit, headers_commits, is_framing_name,
    request_body_plan, request_plan, requests_plan, response_body_plan, response_plan,
    responses_plan, trailers_commits, HttpTranscript,
};
use crate::json::{
    elems_span_union, json_wf, kv_wf, kvs_span_union, lemma_elems_wf_iff, lemma_kvs_wf_iff, Array,
    JsonValue, KeyValue, Object,
};
use crate::json_commit::{elems_plan, json_plan, kv_plan, kvs_plan};
use crate::span::Span;
use crate::transcript::Direction;

verus! {

broadcast use vstd::std_specs::vec::axiom_vec_index_decreases;

/// The positions covered by the spans of the tree's leaves.
pub open spec fn leaf_spans_union(v: JsonValue) -> Set<int>
    decreases v, 1int,
{
    match v {
        JsonValue::Array(a) => elems_leaf_union(a.elems, a.elems@.len() as int),
        JsonValue::Object(o) => kvs_leaf_union(o.elems, o.elems@.len() as int),
        _ => v.sset(),
    }
}

/// The leaf positions of the first `n` elements.
pub open spec fn elems_leaf_union(es: Vec<JsonValue>, n: int) -> Set<int>
    decreases es, 0int, n,
{
    if n <= 0 || es@.len() < n {
        Set::<int>::empty()
    } else {
        elems_leaf_union(es, n - 1).union(leaf_spans_union(es@[n - 1]))
    }
}

/// The leaf positions of the values of the first `n` pairs.
pub open spec fn kvs_leaf_union(es: Vec<KeyValue>, n: int) -> Set<int>
    decreases es, 0int, n,
{
    if n <= 0 || es@.len() < n {
        Set::<int>::empty()
    } else {
        kvs_leaf_union(es, n - 1).union(leaf_spans_union(es@[n - 1].value))
    }
}

proof fn lemma_elems_leaf_in(es: Vec<JsonValue>, n: int)
    requires
        0 <= n <= es@.len(),
        forall|i: int| 0 <= i < es@.len() ==> json_wf(#[trigger] es@[i]),
    ensures
        forall|x: int|
            elems_leaf_union(es, n).contains(x) ==> exists|i: int|
                0 <= i < n && (#[trigger] es@[i]).sset().contains(x),
    decreases es, 0int, n,
{
    if n > 0 {
        lemma_elems_leaf_in(es, n - 1);
        lemma_leaf_spans_within(es@[n - 1]);
        assert forall|x: int| elems_leaf_union(es, n).contains(x) implies exists|i: int|
            0 <= i < n && (#[trigger] es@[i]).sset().contains(x) by {
            if elems_leaf_union(es, n - 1).contains(x) {
            } else {
                assert(es@[n - 1].sset().contains(x));
            }
        }
    }
}

proof fn lemma_kvs_leaf_in(es: Vec<KeyValue>, n: int)
    requires
        0 <= n <= es@.len(),
        forall|i: int| 0 <= i < es@.len() ==> kv_wf(#[trigger] es@[i]),
    ensures
        forall|x: int|
            kvs_leaf_union(es, n).contains(x) ==> exists|i: int|
                0 <= i < n && (#[trigger] es@[i]).span.set().contains(x),
    decreases es, 0int, n,
{
    if n > 0 {
        lemma_kvs_leaf_in(es, n - 1);
        lemma_leaf_spans_within(es@[n - 1].value);
        assert forall|x: int| kvs_leaf_union(es, n).contains(x) implies exists|i: int|
            0 <= i < n && (#[trigger] es@[i]).span.set().contains(x) by {
            if kvs_leaf_union(es, n - 1).contains(x) {
            } else {
                assert(es@[n - 1].value.sset().contains(x));
                assert(es@[n - 1].span.set().contains(x));
            }
        }
    }
}

/// Span coverage: the positions of every leaf of a well-formed tree lie
/// within the positions of the tree itself.
pub proof fn lemma_leaf_spans_within(v: JsonValue)
    requires
        json_wf(v),
    ensures
        leaf_spans_union(v).subset_of(v.sset()),
    decreases v, 2int,
{
    match v {
        JsonValue::Array(a) => {
            lemma_elems_wf_iff(a.elems, a.elems@.len() as int);
            lemma_elems_leaf_in(a.elems, a.elems@.len() as int);
            assert forall|x: int| #![trigger leaf_spans_union(v).contains(x)]
                leaf_spans_union(v).contains(x) implies v.sset().contains(x) by {
                assert(elems_leaf_union(a.elems, a.elems@.len() as int).contains(x));
                let i = choose|i: int|
                    #![auto]
                    0 <= i < a.elems@.len() && a.elems@[i].sset().contains(x);
                assert(a.span.start + 1 <= a.elems@[i].span_spec().start);
                assert(a.elems@[i].span_spec().end <= a.span.end - 1);
            }
        },
        JsonValue::Object(o) => {
            lemma_kvs_wf_iff(o.elems, o.elems@.len() as int);
            lemma_kvs_leaf_in(o.elems, o.elems@.len() as int);
            assert forall|x: int| #![trigger leaf_spans_union(v).contains(x)]
                leaf_spans_union(v).contains(x) implies v.sset().contains(x) by {
                assert(kvs_leaf_union(o.elems, o.elems@.len() as int).contains(x));
                let i = choose|i: int|
                    #![auto]
                    0 <= i < o.elems@.len() && o.elems@[i].span.set().contains(x);
                assert(o.span.start + 1 <= o.elems@[i].span.start);
                assert(o.elems@[i].span.end <= o.span.end - 1);
            }
        },
        _ => {},
    }
}

proof fn lemma_kvs_span_union_within(es: Seq<KeyValue>, n: int, lo: int, hi: int)
    requires
        0 <= n <= es.len(),
        forall|i: int| 0 <= i < n ==> lo <= (#[trigger] es[i]).span.start && es[i].span.end <= hi,
    ensures
        kvs_span_union(es, n).subset_of(crate::ranges::range_set(lo, hi)),
    decreases n,
{
    if n > 0 {
        lemma_kvs_span_union_within(es, n - 1, lo, hi);
    }
}

proof fn lemma_elems_span_union_within(es: Seq<JsonValue>, n: int, lo: int, hi: int)
    requires
        0 <= n <= es.len(),
        forall|i: int|
            0 <= i < n ==> lo <= (#[trigger] es[i]).span_spec().start
                && es[i].span_spec().end <= hi,
    ensures
        elems_span_union(es, n).subset_of(crate::ranges::range_set(lo, hi)),
    decreases n,
{
    if n > 0 {
        lemma_elems_span_union_within(es, n - 1, lo, hi);
    }
}

/// Span decomposition of an object: the pairs cover exactly the object's
/// positions that are not in `without_pairs`.
pub proof fn lemma_object_decomposition(o: Object)
    requires
        json_wf(JsonValue::Object(o)),
    ensures
        o.span.set().difference(o.without_pairs_set()) =~= kvs_span_union(
            o.elems@,
            o.elems@.len() as int,
        ),
{
    lemma_kvs_span_union_within(
        o.elems@,
        o.elems@.len() as int,
        o.span.start + 1,
        o.span.end - 1,
    );
}

/// Span decomposition of an array: the elements cover exactly the array's
/// positions that are neither brackets nor separators.
pub proof fn lemma_array_decomposition(a: Array)
    requires
        json_wf(JsonValue::Array(a)),
    ensures
        a.span.set().difference(a.without_values_set()).difference(a.separators_set())
            =~= elems_span_union(a.elems@, a.elems@.len() as int),
{
    lemma_elems_span_union_within(
        a.elems@,
        a.elems@.len() as int,
        a.span.start + 1,
        a.span.end - 1,
    );
}

/// A plan's entries all carry the given direction and sets within `s`.
pub open spec fn plan_within(p: Seq<(Set<int>, Direction)>, s: Set<int>, d: Direction) -> bool {
    forall|k: int|
        0 <= k < p.len() ==> (#[trigger] p[k]).0.subset_of(s) && p[k].1 == d
}

/// A plan commits no byte of a direction twice: entries of one direction are
/// pairwise disjoint.
pub open spec fn plan_disjoint(p: Seq<(Set<int>, Direction)>) -> bool {
    forall|i: int, j: int|
        0 <= i < j < p.len() && (#[trigger] p[i]).1 == (#[trigger] p[j]).1 ==> p[i].0.disjoint(
            p[j].0,
        )
}

proof fn lemma_plan_concat_within(
    a: Seq<(Set<int>, Direction)>,
    b: Seq<(Set<int>, Direction)>,
    sa: Set<int>,
    sb: Set<int>,
    s: Set<int>,
    d: Direction,
)
    requires
        plan_within(a, sa, d),
        plan_within(b, sb, d),
        sa.subset_of(s),
        sb.subset_of(s),
    ensures
        plan_within(a + b, s, d),
{
    assert forall|k: int| 0 <= k < (a + b).len() implies (#[trigger] (a + b)[k]).0.subset_of(s) && (
    a + b)[k].1 == d by {
        if k < a.len() {
            assert((a + b)[k] == a[k]);
        } else {
            assert((a + b)[k] == b[k - a.len()]);
        }
    }
}

proof fn lemma_plan_concat_disjoint(
    a: Seq<(Set<int>, Direction)>,
    b: Seq<(Set<int>, Direction)>,
    sa: Set<int>,
    sb: Set<int>,
    d: Direction,
)
    requires
        plan_disjoint(a),
        plan_disjoint(b),
        plan_within(a, sa, d),
        plan_within(b, sb, d),
        sa.disjoint(sb),
    ensures
        plan_disjoint(a + b),
{
    assert forall|i: int, j: int|
        0 <= i < j < (a + b).len() && (#[trigger] (a + b)[i]).1 == (#[trigger] (a + b)[j]).1 implies (
    a + b)[i].0.disjoint((a + b)[j].0) by {
        if j < a.len() {
            assert((a + b)[i] == a[i] && (a + b)[j] == a[j]);
        } else if i >= a.len() {
            assert((a + b)[i] == b[i - a.len()] && (a + b)[j] == b[j - a.len()]);
        } else {
            assert((a + b)[i] == a[i] && (a + b)[j] == b[j - a.len()]);
            assert(a[i].0.subset_of(sa) && b[j - a.len()].0.subset_of(sb));
            assert forall|x: int| a[i].0.contains(x) implies !b[j - a.len()].0.contains(x) by {
                assert(sa.contains(x));
            }
        }
    }
}

/// The structural plan of a well-formed JSON value stays within the value's
/// span, carries one direction, and commits no byte twice.
pub proof fn lemma_json_plan_sound(v: JsonValue, d: Direction)
    requires
        json_wf(v),
    ensures
        plan_within(json_plan(v, d), v.sset(), d),
        plan_disjoint(json_plan(v, d)),
    decreases v, 2int,
{
    match v {
        JsonValue::Object(o) => {
            lemma_kvs_wf_iff(o.elems, o.elems@.len() as int);
            lemma_kvs_plan_sound(o.elems, o.elems@.len() as int, d);
            lemma_kvs_span_union_within(
                o.elems@,
                o.elems@.len() as int,
                o.span.start + 1,
                o.span.end - 1,
            );
            let wp = seq![(o.without_pairs_set(), d)];
            let rest = kvs_plan(o.elems, o.elems@.len() as int, d);
            assert(plan_within(wp, o.without_pairs_set(), d)) by {
                assert(wp[0] == (o.without_pairs_set(), d));
            }
            lemma_plan_concat_disjoint(
                wp,
                rest,
                o.without_pairs_set(),
                kvs_span_union(o.elems@, o.elems@.len() as int),
                d,
            );
            lemma_plan_concat_within(
                wp,
                rest,
                o.without_pairs_set(),
                kvs_span_union(o.elems@, o.elems@.len() as int),
                v.sset(),
                d,
            );
        },
        JsonValue::Array(a) => {
            lemma_elems_wf_iff(a.elems, a.elems@.len() as int);
            lemma_elems_plan_sound(a.elems, a.elems@.len() as int, d);
            lemma_elems_span_union_within(
                a.elems@,
                a.elems@.len() as int,
                a.span.start + 1,
                a.span.end - 1,
            );
            let head = seq![(a.without_values_set(), d), (a.separators_set(), d)];
            let rest = elems_plan(a.elems, a.elems@.len() as int, d);
            let head_set = a.without_values_set().union(a.separators_set());
            assert(plan_within(head, head_set, d)) by {
                assert(head[0] == (a.without_values_set(), d));
                assert(head[1] == (a.separators_set(), d));
            }
            assert(plan_disjoint(head)) by {
                assert(head[0] == (a.without_values_set(), d));
                assert(head[1] == (a.separators_set(), d));
                assert(a.without_values_set().disjoint(a.separators_set()));
            }
            assert(head_set.disjoint(elems_span_union(a.elems@, a.elems@.len() as int))) by {
                assert forall|x: int| head_set.contains(x) implies !elems_span_union(
                    a.elems@,
                    a.elems@.len() as int,
                ).contains(x) by {
                    if a.without_values_set().contains(x) {
                        assert(!crate::ranges::range_set(
                            a.span.start + 1,
                            a.span.end - 1,
                        ).contains(x));
                    }
                }
            }
            lemma_plan_concat_disjoint(
                head,
                rest,
                head_set,
                elems_span_union(a.elems@, a.elems@.len() as int),
                d,
            );
            lemma_plan_concat_within(
                head,
                rest,
                head_set,
                elems_span_union(a.elems@, a.elems@.len() as int),
                v.sset(),
                d,
            );
        },
        _ => {},
    }
}

proof fn lemma_kv_plan_sound(kv: KeyValue, d: Direction)
    requires
        kv_wf(kv),
    ensures
        plan_within(kv_plan(kv, d), kv.span.set(), d),
        plan_disjoint(kv_plan(kv, d)),
    decreases kv, 2int,
{
    lemma_json_plan_sound(kv.value, d);
    let wv = seq![(kv.without_value_set(), d)];
    let rest = json_plan(kv.value, d);
    assert(plan_within(wv, kv.without_value_set(), d)) by {
        assert(wv[0] == (kv.without_value_set(), d));
    }
    lemma_plan_concat_disjoint(wv, rest, kv.without_value_set(), kv.value.sset(), d);
    lemma_plan_concat_within(wv, rest, kv.without_value_set(), kv.value.sset(), kv.span.set(), d);
}


proof fn lemma_kvs_span_union_in(es: Seq<KeyValue>, n: int)
    requires
        0 <= n <= es.len(),
    ensures
        forall|x: int|
            kvs_span_union(es, n).contains(x) ==> exists|i: int|
                0 <= i < n && (#[trigger] es[i]).span.set().contains(x),
    decreases n,
{
    if n > 0 {
        lemma_kvs_span_union_in(es, n - 1);
        assert forall|x: int| kvs_span_union(es, n).contains(x) implies exists|i: int|
            0 <= i < n && (#[trigger] es[i]).span.set().contains(x) by {
            if kvs_span_union(es, n - 1).contains(x) {
            } else {
                assert(es[n - 1].span.set().contains(x));
            }
        }
    }
}

proof fn lemma_elems_span_union_in(es: Seq<JsonValue>, n: int)
    requires
        0 <= n <= es.len(),
    ensures
        forall|x: int|
            elems_span_union(es, n).contains(x) ==> exists|i: int|
                0 <= i < n && (#[trigger] es[i]).span_spec().set().contains(x),
    decreases n,
{
    if n > 0 {
        lemma_elems_span_union_in(es, n - 1);
        assert forall|x: int| elems_span_union(es, n).contains(x) implies exists|i: int|
            0 <= i < n && (#[trigger] es[i]).span_spec().set().contains(x) by {
            if elems_span_union(es, n - 1).contains(x) {
            } else {
                assert(es[n - 1].span_spec().set().contains(x));
            }
        }
    }
}

proof fn lemma_kvs_plan_sound(es: Vec<KeyValue>, n: int, d: Direction)
    requires
        0 <= n <= es@.len(),
        forall|i: int| 0 <= i < es@.len() ==> kv_wf(#[trigger] es@[i]),
        forall|i: int, j: int|
            0 <= i < j < es@.len() ==> (#[trigger] es@[i]).span.end <= (#[trigger] es@[j]).span.start,
    ensures
        plan_within(kvs_plan(es, n, d), kvs_span_union(es@, n), d),
        plan_disjoint(kvs_plan(es, n, d)),
    decreases es, 0int, n,
{
    if n > 0 {
        lemma_kvs_plan_sound(es, n - 1, d);
        lemma_kv_plan_sound(es@[n - 1], d);
        let prev = kvs_plan(es, n - 1, d);
        let this = kv_plan(es@[n - 1], d);
        assert(kvs_span_union(es@, n - 1).disjoint(es@[n - 1].span.set())) by {
            lemma_kvs_span_union_in(es@, n - 1);
            assert forall|x: int| #![trigger kvs_span_union(es@, n - 1).contains(x)]
                kvs_span_union(es@, n - 1).contains(x) implies !es@[n - 1].span.set().contains(x) by {
                let i = choose|i: int|
                    #![auto]
                    0 <= i < n - 1 && es@[i].span.set().contains(x);
                assert(x < es@[i].span.end <= es@[n - 1].span.start);
            }
        }
        lemma_plan_concat_disjoint(
            prev,
            this,
            kvs_span_union(es@, n - 1),
            es@[n - 1].span.set(),
            d,
        );
        lemma_plan_concat_within(
            prev,
            this,
            kvs_span_union(es@, n - 1),
            es@[n - 1].span.set(),
            kvs_span_union(es@, n),
            d,
        );
    }
}

proof fn lemma_elems_plan_sound(es: Vec<JsonValue>, n: int, d: Direction)
    requires
        0 <= n <= es@.len(),
        forall|i: int| 0 <= i < es@.len() ==> json_wf(#[trigger] es@[i]),
        forall|i: int, j: int|
            0 <= i < j < es@.len() ==> (#[trigger] es@[i]).span_spec().end
                <= (#[trigger] es@[j]).span_spec().start,
    ensures
        plan_within(elems_plan(es, n, d), elems_span_union(es@, n), d),
        plan_disjoint(elems_plan(es, n, d)),
    decreases es, 0int, n,
{
    if n > 0 {
        lemma_elems_plan_sound(es, n - 1, d);
        lemma_json_plan_sound(es@[n - 1], d);
        let prev = elems_plan(es, n - 1, d);
        let this = json_plan(es@[n - 1], d);
        assert(elems_span_union(es@, n - 1).disjoint(es@[n - 1].sset())) by {
            lemma_elems_span_union_in(es@, n - 1);
            assert forall|x: int| #![trigger elems_span_union(es@, n - 1).contains(x)]
                elems_span_union(es@, n - 1).contains(x) implies !es@[n - 1].sset().contains(x) by {
                let i = choose|i: int|
                    #![auto]
                    0 <= i < n - 1 && es@[i].span_spec().set().contains(x);
                assert(x < es@[i].span_spec().end <= es@[n - 1].span_spec().start);
            }
        }
        lemma_plan_concat_disjoint(
            prev,
            this,
            elems_span_union(es@, n - 1),
            es@[n - 1].sset(),
            d,
        );
        lemma_plan_concat_within(
            prev,
            this,
            elems_span_union(es@, n - 1),
            es@[n - 1].sset(),
            elems_span_union(es@, n),
            d,
        );
    }
}

proof fn lemma_headers_union_in(hs: Seq<Header>, n: int)
    requires
        0 <= n <= hs.len(),
    ensures
        forall|x: int|
            headers_span_union(hs, n).contains(x) ==> exists|i: int|
                0 <= i < n && (#[trigger] hs[i]).span.set().contains(x),
    decreases n,
{
    if n > 0 {
        lemma_headers_union_in(hs, n - 1);
        assert forall|x: int| #![trigger headers_span_union(hs, n).contains(x)]
            headers_span_union(hs, n).contains(x) implies exists|i: int|
            0 <= i < n && (#[trigger] hs[i]).span.set().contains(x) by {
            if headers_span_union(hs, n - 1).contains(x) {
            } else {
                assert(hs[n - 1].span.set().contains(x));
            }
        }
    }
}

proof fn lemma_headers_commits_sound(hs: Seq<Header>, n: int, d: Direction)
    requires
        0 <= n <= hs.len(),
        forall|i: int| 0 <= i < hs.len() ==> (#[trigger] hs[i]).wf(),
        forall|i: int, j: int|
            0 <= i < j < hs.len() ==> (#[trigger] hs[i]).span.end <= (#[trigger] hs[j]).span.start,
    ensures
        plan_within(headers_commits(hs, n, d), headers_span_union(hs, n), d),
        plan_disjoint(headers_commits(hs, n, d)),
    decreases n,
{
    if n > 0 {
        lemma_headers_commits_sound(hs, n - 1, d);
        let prev = headers_commits(hs, n - 1, d);
        let this = seq![header_commit(hs[n - 1], d)];
        assert(plan_within(this, hs[n - 1].span.set(), d)) by {
            assert(this[0] == header_commit(hs[n - 1], d));
        }
        assert(headers_span_union(hs, n - 1).disjoint(hs[n - 1].span.set())) by {
            lemma_headers_union_in(hs, n - 1);
            assert forall|x: int| #![trigger headers_span_union(hs, n - 1).contains(x)]
                headers_span_union(hs, n - 1).contains(x) implies !hs[n - 1].span.set().contains(
                x,
            ) by {
                let i = choose|i: int|
                    #![auto]
                    0 <= i < n - 1 && hs[i].span.set().contains(x);
                assert(x < hs[i].span.end <= hs[n - 1].span.start);
            }
        }
        lemma_plan_concat_disjoint(
            prev,
            this,
            headers_span_union(hs, n - 1),
            hs[n - 1].span.set(),
            d,
        );
        lemma_plan_concat_within(
            prev,
            this,
            headers_span_union(hs, n - 1),
            hs[n - 1].span.set(),
            headers_span_union(hs, n),
            d,
        );
    }
}

/// The reveal plan of a well-formed request stays within the request's span,
/// is all of the sent direction, and commits no byte twice.
pub proof fn lemma_request_plan_sound(r: Request)
    requires
        r.wf(),
    ensures
        plan_within(request_plan(r), r.span.set(), Direction::Sent),
        plan_disjoint(request_plan(r)),
{
    let d = Direction::Sent;
    let head = seq![(r.without_data_set(), d), (r.request.target.set(), d)];
    let hu = headers_span_union(r.headers@, r.headers@.len() as int);
    let head_set = r.without_data_set().union(r.request.target.set());
    let bset = match r.body {
        Option::Some(b) => b.span.set(),
        Option::None => Set::<int>::empty(),
    };
    lemma_headers_commits_sound(r.headers@, r.headers@.len() as int, d);
    lemma_headers_union_in(r.headers@, r.headers@.len() as int);
    assert(plan_within(head, head_set, d)) by {
        assert(head[0] == (r.without_data_set(), d));
        assert(head[1] == (r.request.target.set(), d));
    }
    assert(plan_disjoint(head)) by {
        assert(head[0] == (r.without_data_set(), d));
        assert(head[1] == (r.request.target.set(), d));
    }
    assert(head_set.disjoint(hu)) by {
        assert forall|x: int| head_set.contains(x) implies !hu.contains(x) by {
            if hu.contains(x) {
                let i = choose|i: int| #![auto] 0 <= i < r.headers@.len()
                    && r.headers@[i].span.set().contains(x);
                assert(r.request.span.end <= r.headers@[i].span.start);
                assert(!r.without_data_set().contains(x));
                assert(x >= r.request.span.end > r.request.target.end - 1);
            }
        }
    }
    let hc = headers_commits(r.headers@, r.headers@.len() as int, d);
    lemma_plan_concat_disjoint(head, hc, head_set, hu, d);
    lemma_plan_concat_within(head, hc, head_set, hu, head_set.union(hu), d);
    let bp = request_body_plan(r.body);
    assert(plan_within(bp, bset, d) && plan_disjoint(bp)) by {
        match r.body {
            Option::Some(b) => {
                match b.content {
                    BodyContent::Json(v) => {
                        lemma_json_plan_sound(v, d);
                        assert forall|k: int| 0 <= k < bp.len() implies (
                        #[trigger] bp[k]).0.subset_of(bset) && bp[k].1 == d by {
                            assert(bp[k].0.subset_of(v.sset()));
                        }
                    },
                    BodyContent::Unknown(sp) => {
                        assert(bp[0] == (sp.set(), d));
                    },
                }
            },
            Option::None => {},
        }
    }
    assert((head_set.union(hu)).disjoint(bset)) by {
        assert forall|x: int| head_set.union(hu).contains(x) implies !bset.contains(x) by {
            if bset.contains(x) {
                let b = r.body->Some_0;
                assert(b.span.set().contains(x));
                assert(!r.without_data_set().contains(x));
                assert(x >= b.span.start);
                assert(r.request.target.end <= r.request.span.end <= b.span.start);
                if hu.contains(x) {
                    let i = choose|i: int| #![auto] 0 <= i < r.headers@.len()
                        && r.headers@[i].span.set().contains(x);
                    assert(r.headers@[i].span.end <= r.headers_end());
                }
            }
        }
    }
    lemma_plan_concat_disjoint(head + hc, bp, head_set.union(hu), bset, d);
    lemma_plan_concat_within(head + hc, bp, head_set.union(hu), bset, r.span.set(), d);
    assert(request_plan(r) == head + hc + bp);
}

/// The reveal plan of a well-formed response stays within the response's
/// span, is all of the received direction, and commits no byte twice.
pub proof fn lemma_response_plan_sound(r: Response)
    requires
        r.wf(),
    ensures
        plan_within(response_plan(r), r.span.set(), Direction::Received),
        plan_disjoint(response_plan(r)),
{
    let d = Direction::Received;
    let head = seq![(r.without_data_set(), d)];
    let hu = headers_span_union(r.headers@, r.headers@.len() as int);
    let bset = match r.body {
        Option::Some(b) => b.span.set(),
        Option::None => Set::<int>::empty(),
    };
    let tset = r.trailers_union();
    lemma_headers_commits_sound(r.headers@, r.headers@.len() as int, d);
    lemma_headers_union_in(r.headers@, r.headers@.len() as int);
    assert(plan_within(head, r.without_data_set(), d) && plan_disjoint(head)) by {
        assert(head[0] == (r.without_data_set(), d));
    }
    assert(r.without_data_set().disjoint(hu)) by {
        assert forall|x: int| r.without_data_set().contains(x) implies !hu.contains(x) by {}
    }
    let hc = headers_commits(r.headers@, r.headers@.len() as int, d);
    lemma_plan_concat_disjoint(head, hc, r.without_data_set(), hu, d);
    lemma_plan_concat_within(head, hc, r.without_data_set(), hu, r.without_data_set().union(hu), d);
    // The body plan and the boundaries both stay within the body span.
    let bp = response_body_plan(r);
    let bc = match r.boundaries {
        Option::Some(bs) => boundaries_commits(bs@, bs@.len() as int),
        Option::None => Seq::<(Set<int>, Direction)>::empty(),
    };
    assert(plan_within(bp, bset, d) && plan_disjoint(bp)) by {
        match r.body {
            Option::Some(b) => {
                match b.content {
                    BodyContent::Json(v) => {
                        lemma_json_plan_sound(v, d);
                        assert forall|k: int| 0 <= k < bp.len() implies (
                        #[trigger] bp[k]).0.subset_of(bset) && bp[k].1 == d by {
                            assert(bp[k].0.subset_of(v.sset()));
                        }
                    },
                    BodyContent::Unknown(sp) => {
                        assert(bp[0] == (sp.set().difference(r.all_boundaries_union()), d));
                    },
                }
            },
            Option::None => {},
        }
    }
    assert(plan_within(bc, r.all_boundaries_union(), d) && plan_disjoint(bc)) by {
        match r.boundaries {
            Option::Some(bs) => {
                lemma_boundaries_commits_sound(bs@, bs@.len() as int);
            },
            Option::None => {},
        }
    }
    assert(bp.len() > 0 ==> r.body is Some);
    assert(bc.len() > 0 ==> r.boundaries is Some && r.body is Some);
    // The body plan avoids the boundaries: a JSON body has no boundaries by
    // well-formedness, and an unknown body commits its bytes minus them.
    assert(plan_disjoint(bp + bc) && plan_within(bp + bc, bset.union(r.all_boundaries_union()), d))
        by {
        match r.boundaries {
            Option::Some(bs) => {
                let b = r.body->Some_0;
                let sp = b.content->Unknown_0;
                assert(bp[0] == (sp.set().difference(r.all_boundaries_union()), d));
                lemma_plan_concat_disjoint(
                    bp,
                    bc,
                    sp.set().difference(r.all_boundaries_union()),
                    r.all_boundaries_union(),
                    d,
                );
                lemma_plan_concat_within(
                    bp,
                    bc,
                    sp.set().difference(r.all_boundaries_union()),
                    r.all_boundaries_union(),
                    bset.union(r.all_boundaries_union()),
                    d,
                );
            },
            Option::None => {
                assert(bp + bc =~= bp);
                lemma_plan_concat_within(
                    bp,
                    bc,
                    bset,
                    r.all_boundaries_union(),
                    bset.union(r.all_boundaries_union()),
                    d,
                );
            },
        }
    }
    assert(r.all_boundaries_union().subset_of(bset)) by {
        match r.boundaries {
            Option::Some(bs) => {
                lemma_boundaries_union_in(bs@, bs@.len() as int);
                assert forall|x: int| r.all_boundaries_union().contains(x) implies bset.contains(
                    x,
                ) by {
                    let i = choose|i: int| #![auto] 0 <= i < bs@.len()
                        && bs@[i].set().contains(x);
                    let b = r.body->Some_0;
                    assert(b.span.start <= bs@[i].start && bs@[i].end <= b.span.end);
                }
            },
            Option::None => {},
        }
    }
    assert((r.without_data_set().union(hu)).disjoint(bset.union(r.all_boundaries_union()))) by {
        assert forall|x: int| r.without_data_set().union(hu).contains(x) implies !bset.union(
            r.all_boundaries_union(),
        ).contains(x) by {
            if bset.union(r.all_boundaries_union()).contains(x) {
                assert(bset.contains(x));
                let b = r.body->Some_0;
                assert(!r.without_data_set().contains(x));
                if hu.contains(x) {
                    let i = choose|i: int| #![auto] 0 <= i < r.headers@.len()
                        && r.headers@[i].span.set().contains(x);
                    assert(r.headers@[i].span.end <= r.headers_end());
                }
            }
        }
    }
    lemma_plan_concat_disjoint(
        head + hc,
        bp + bc,
        r.without_data_set().union(hu),
        bset.union(r.all_boundaries_union()),
        d,
    );
    lemma_plan_concat_within(
        head + hc,
        bp + bc,
        r.without_data_set().union(hu),
        bset.union(r.all_boundaries_union()),
        r.without_data_set().union(hu).union(bset.union(r.all_boundaries_union())),
        d,
    );
    // The trailers come last and live after the body.
    let tc = match r.trailers {
        Option::Some(ts) => trailers_commits(ts@, ts@.len() as int),
        Option::None => Seq::<(Set<int>, Direction)>::empty(),
    };
    assert(plan_within(tc, tset, d) && plan_disjoint(tc)) by {
        match r.trailers {
            Option::Some(ts) => {
                lemma_trailers_commits_sound(ts@, ts@.len() as int);
            },
            Option::None => {},
        }
    }
    let before_set = r.without_data_set().union(hu).union(
        bset.union(r.all_boundaries_union()),
    );
    assert(before_set.disjoint(tset)) by {
        match r.trailers {
            Option::Some(ts) => {
                lemma_headers_union_in(ts@, ts@.len() as int);
                assert forall|x: int| before_set.contains(x) implies !tset.contains(x) by {
                    if tset.contains(x) {
                        let i = choose|i: int| #![auto] 0 <= i < ts@.len()
                            && ts@[i].span.set().contains(x);
                        let b = r.body->Some_0;
                        assert(b.span.end <= ts@[i].span.start);
                        assert(!r.without_data_set().contains(x));
                        if hu.contains(x) {
                            let j = choose|j: int| #![auto] 0 <= j < r.headers@.len()
                                && r.headers@[j].span.set().contains(x);
                            assert(r.headers@[j].span.end <= r.headers_end());
                        }
                        if bset.contains(x) {
                            assert(x < b.span.end);
                        }
                    }
                }
            },
            Option::None => {},
        }
    }
    assert(before_set.subset_of(r.span.set())) by {
        assert forall|x: int| before_set.contains(x) implies r.span.set().contains(x) by {
            if hu.contains(x) {
                let i = choose|i: int| #![auto] 0 <= i < r.headers@.len()
                    && r.headers@[i].span.set().contains(x);
                assert(r.status.span.end <= r.headers@[i].span.start);
                assert(r.headers@[i].span.end <= r.headers_end() <= r.span.end);
            }
            if bset.contains(x) {
                let b = r.body->Some_0;
                assert(r.span.start <= r.status.span.start <= r.status.span.end <= b.span.start);
            }
        }
    }
    assert(tset.subset_of(r.span.set())) by {
        match r.trailers {
            Option::Some(ts) => {
                lemma_headers_union_in(ts@, ts@.len() as int);
                assert forall|x: int| tset.contains(x) implies r.span.set().contains(x) by {
                    let i = choose|i: int| #![auto] 0 <= i < ts@.len()
                        && ts@[i].span.set().contains(x);
                    let b = r.body->Some_0;
                    assert(r.span.start <= b.span.start <= b.span.end <= ts@[i].span.start);
                    assert(ts@[i].span.end <= r.span.end);
                }
            },
            Option::None => {},
        }
    }
    lemma_plan_concat_disjoint(head + hc + (bp + bc), tc, before_set, tset, d);
    lemma_plan_concat_within(head + hc + (bp + bc), tc, before_set, tset, r.span.set(), d);
    assert(response_plan(r) =~= head + hc + (bp + bc) + tc);
}

/// The positions covered by the spans of the first `n` requests.
pub open spec fn requests_span_union(rs: Seq<Request>, n: int) -> Set<int>
    decreases n,
{
    if n <= 0 {
        Set::<int>::empty()
    } else {
        requests_span_union(rs, n - 1).union(rs[n - 1].span.set())
    }
}

/// The positions covered by the spans of the first `n` responses.
pub open spec fn responses_span_union(rs: Seq<Response>, n: int) -> Set<int>
    decreases n,
{
    if n <= 0 {
        Set::<int>::empty()
    } else {
        responses_span_union(rs, n - 1).union(rs[n - 1].span.set())
    }
}

proof fn lemma_requests_union_in(rs: Seq<Request>, n: int)
    requires
        0 <= n <= rs.len(),
    ensures
        forall|x: int|
            requests_span_union(rs, n).contains(x) ==> exists|i: int|
                0 <= i < n && (#[trigger] rs[i]).span.set().contains(x),
    decreases n,
{
    if n > 0 {
        lemma_requests_union_in(rs, n - 1);
        assert forall|x: int| #![trigger requests_span_union(rs, n).contains(x)]
            requests_span_union(rs, n).contains(x) implies exists|i: int|
            0 <= i < n && (#[trigger] rs[i]).span.set().contains(x) by {
            if requests_span_union(rs, n - 1).contains(x) {
            } else {
                assert(rs[n - 1].span.set().contains(x));
            }
        }
    }
}

proof fn lemma_responses_union_in(rs: Seq<Response>, n: int)
    requires
        0 <= n <= rs.len(),
    ensures
        forall|x: int|
            responses_span_union(rs, n).contains(x) ==> exists|i: int|
                0 <= i < n && (#[trigger] rs[i]).span.set().contains(x),
    decreases n,
{
    if n > 0 {
        lemma_responses_union_in(rs, n - 1);
        assert forall|x: int| #![trigger responses_span_union(rs, n).contains(x)]
            responses_span_union(rs, n).contains(x) implies exists|i: int|
            0 <= i < n && (#[trigger] rs[i]).span.set().contains(x) by {
            if responses_span_union(rs, n - 1).contains(x) {
            } else {
                assert(rs[n - 1].span.set().contains(x));
            }
        }
    }
}

proof fn lemma_requests_plan_sound(rs: Seq<Request>, n: int)
    requires
        0 <= n <= rs.len(),
        forall|i: int| 0 <= i < rs.len() ==> (#[trigger] rs[i]).wf(),
        forall|i: int, j: int|
            0 <= i < j < rs.len() ==> (#[trigger] rs[i]).span.end <= (#[trigger] rs[j]).span.start,
    ensures
        plan_within(requests_plan(rs, n), requests_span_union(rs, n), Direction::Sent),
        plan_disjoint(requests_plan(rs, n)),
    decreases n,
{
    if n > 0 {
        lemma_requests_plan_sound(rs, n - 1);
        lemma_request_plan_sound(rs[n - 1]);
        assert(requests_span_union(rs, n - 1).disjoint(rs[n - 1].span.set())) by {
            lemma_requests_union_in(rs, n - 1);
            assert forall|x: int| #![trigger requests_span_union(rs, n - 1).contains(x)]
                requests_span_union(rs, n - 1).contains(x) implies !rs[n - 1].span.set().contains(
                x,
            ) by {
                let i = choose|i: int| #![auto] 0 <= i < n - 1 && rs[i].span.set().contains(x);
                assert(x < rs[i].span.end <= rs[n - 1].span.start);
            }
        }
        lemma_plan_concat_disjoint(
            requests_plan(rs, n - 1),
            request_plan(rs[n - 1]),
            requests_span_union(rs, n - 1),
            rs[n - 1].span.set(),
            Direction::Sent,
        );
        lemma_plan_concat_within(
            requests_plan(rs, n - 1),
            request_plan(rs[n - 1]),
            requests_span_union(rs, n - 1),
            rs[n - 1].span.set(),
            requests_span_union(rs, n),
            Direction::Sent,
        );
    }
}

proof fn lemma_responses_plan_sound(rs: Seq<Response>, n: int)
    requires
        0 <= n <= rs.len(),
        forall|i: int| 0 <= i < rs.len() ==> (#[trigger] rs[i]).wf(),
        forall|i: int, j: int|
            0 <= i < j < rs.len() ==> (#[trigger] rs[i]).span.end <= (#[trigger] rs[j]).span.start,
    ensures
        plan_within(responses_plan(rs, n), responses_span_union(rs, n), Direction::Received),
        plan_disjoint(responses_plan(rs, n)),
    decreases n,
{
    if n > 0 {
        lemma_responses_plan_sound(rs, n - 1);
        lemma_response_plan_sound(rs[n - 1]);
        assert(responses_span_union(rs, n - 1).disjoint(rs[n - 1].span.set())) by {
            lemma_responses_union_in(rs, n - 1);
            assert forall|x: int| #![trigger responses_span_union(rs, n - 1).contains(x)]
                responses_span_union(rs, n - 1).contains(x) implies !rs[n
                - 1].span.set().contains(x) by {
                let i = choose|i: int| #![auto] 0 <= i < n - 1 && rs[i].span.set().contains(x);
                assert(x < rs[i].span.end <= rs[n - 1].span.start);
            }
        }
        lemma_plan_concat_disjoint(
            responses_plan(rs, n - 1),
            response_plan(rs[n - 1]),
            responses_span_union(rs, n - 1),
            rs[n - 1].span.set(),
            Direction::Received,
        );
        lemma_plan_concat_within(
            responses_plan(rs, n - 1),
            response_plan(rs[n - 1]),
            responses_span_union(rs, n - 1),
            rs[n - 1].span.set(),
            responses_span_union(rs, n),
            Direction::Received,
        );
    }
}

/// No double commit: within one reveal of a well-formed transcript, the
/// committed byte-and-direction pairs have no duplicates — any two entries
/// of the plan that share a direction cover disjoint byte sets.
pub proof fn lemma_reveal_plan_no_double_commit(t: HttpTranscript)
    requires
        t.wf(),
    ensures
        plan_disjoint(t.reveal_plan()),
{
    let a = requests_plan(t.requests@, t.requests@.len() as int);
    let b = responses_plan(t.responses@, t.responses@.len() as int);
    lemma_requests_plan_sound(t.requests@, t.requests@.len() as int);
    lemma_responses_plan_sound(t.responses@, t.responses@.len() as int);
    assert forall|i: int, j: int|
        0 <= i < j < (a + b).len() && (#[trigger] (a + b)[i]).1 == (#[trigger] (a + b)[j]).1 implies (
    a + b)[i].0.disjoint((a + b)[j].0) by {
        if j < a.len() {
            assert((a + b)[i] == a[i] && (a + b)[j] == a[j]);
        } else if i >= a.len() {
            assert((a + b)[i] == b[i - a.len()] && (a + b)[j] == b[j - a.len()]);
        } else {
            assert((a + b)[i] == a[i] && (a + b)[j] == b[j - a.len()]);
            assert(a[i].1 == Direction::Sent && b[j - a.len()].1 == Direction::Received);
        }
    }
}

/// The positions committed for one direction by a plan.
pub open spec fn committed_union(p: Seq<(Set<int>, Direction)>, d: Direction) -> Set<int>
    decreases p.len(),
{
    if p.len() == 0 {
        Set::<int>::empty()
    } else {
        committed_union(p.drop_last(), d).union(
            if p.last().1 == d {
                p.last().0
            } else {
                Set::<int>::empty()
            },
        )
    }
}

proof fn lemma_committed_union_member(p: Seq<(Set<int>, Direction)>, d: Direction, k: int)
    requires
        0 <= k < p.len(),
        p[k].1 == d,
    ensures
        p[k].0.subset_of(committed_union(p, d)),
    decreases p.len(),
{
    if k == p.len() - 1 {
        assert(p.last() == p[k]);
    } else {
        assert(p.drop_last()[k] == p[k]);
        lemma_committed_union_member(p.drop_last(), d, k);
    }
}

proof fn lemma_headers_commits_at(hs: Seq<Header>, n: int, d: Direction)
    requires
        0 <= n <= hs.len(),
    ensures
        headers_commits(hs, n, d).len() == n,
        forall|k: int|
            0 <= k < n ==> headers_commits(hs, n, d)[k] == header_commit(#[trigger] hs[k], d),
    decreases n,
{
    if n > 0 {
        lemma_headers_commits_at(hs, n - 1, d);
    }
}

proof fn lemma_requests_plan_at(rs: Seq<Request>, n: int, i: int, k: int)
    requires
        0 <= i < n <= rs.len(),
        0 <= k < request_plan(rs[i]).len(),
    ensures
        exists|idx: int|
            0 <= idx < requests_plan(rs, n).len() && requests_plan(rs, n)[idx] == request_plan(
                rs[i],
            )[k],
    decreases n,
{
    if i == n - 1 {
        let idx = requests_plan(rs, n - 1).len() + k;
        assert(requests_plan(rs, n)[idx as int] == request_plan(rs[i])[k]);
    } else {
        lemma_requests_plan_at(rs, n - 1, i, k);
        let idx = choose|idx: int|
            0 <= idx < requests_plan(rs, n - 1).len() && #[trigger] requests_plan(rs, n - 1)[idx]
                == request_plan(rs[i])[k];
        assert(requests_plan(rs, n)[idx] == request_plan(rs[i])[k]);
    }
}

proof fn lemma_responses_plan_at(rs: Seq<Response>, n: int, i: int, k: int)
    requires
        0 <= i < n <= rs.len(),
        0 <= k < response_plan(rs[i]).len(),
    ensures
        exists|idx: int|
            0 <= idx < responses_plan(rs, n).len() && responses_plan(rs, n)[idx] == response_plan(
                rs[i],
            )[k],
    decreases n,
{
    if i == n - 1 {
        let idx = responses_plan(rs, n - 1).len() + k;
        assert(responses_plan(rs, n)[idx as int] == response_plan(rs[i])[k]);
    } else {
        lemma_responses_plan_at(rs, n - 1, i, k);
        let idx = choose|idx: int|
            0 <= idx < responses_plan(rs, n - 1).len() && #[trigger] responses_plan(rs, n - 1)[idx]
                == response_plan(rs[i])[k];
        assert(responses_plan(rs, n)[idx] == response_plan(rs[i])[k]);
    }
}

/// Framing-critical headers are committed whole: after a reveal of a
/// well-formed transcript, every sent header named `host`, `content-length`,
/// `content-type` or `transfer-encoding` has its full name-and-value range
/// inside the committed positions of the sent direction.
pub proof fn lemma_framing_header_committed_sent(t: HttpTranscript, i: int, k: int)
    requires
        t.wf(),
        0 <= i < t.requests@.len(),
        0 <= k < t.requests@[i].headers@.len(),
        is_framing_name(t.requests@[i].headers@[k].name.data@),
    ensures
        t.requests@[i].headers@[k].span.set().subset_of(
            committed_union(t.reveal_plan(), Direction::Sent),
        ),
{
    let r = t.requests@[i];
    let h = r.headers@[k];
    let d = Direction::Sent;
    let e = header_commit(h, d);
    lemma_headers_commits_at(r.headers@, r.headers@.len() as int, d);
    let hc = headers_commits(r.headers@, r.headers@.len() as int, d);
    let head = seq![(r.without_data_set(), d), (r.request.target.set(), d)];
    let bp = request_body_plan(r.body);
    assert(request_plan(r) == head + hc + bp);
    assert(request_plan(r)[2 + k] == e) by {
        assert((head + hc)[2 + k] == hc[k as int]);
        assert((head + hc + bp)[2 + k] == (head + hc)[2 + k]);
    }
    lemma_requests_plan_at(t.requests@, t.requests@.len() as int, i, 2 + k);
    let idx = choose|idx: int|
        0 <= idx < requests_plan(t.requests@, t.requests@.len() as int).len()
            && #[trigger] requests_plan(t.requests@, t.requests@.len() as int)[idx]
            == request_plan(r)[2 + k];
    assert(t.reveal_plan()[idx] == e) by {
        assert(t.reveal_plan()[idx] == requests_plan(t.requests@, t.requests@.len() as int)[idx]);
    }
    lemma_committed_union_member(t.reveal_plan(), d, idx);
    assert(e.0 == h.span.set());
}

/// Framing-critical headers are committed whole on the received side as
/// well.
pub proof fn lemma_framing_header_committed_received(t: HttpTranscript, i: int, k: int)
    requires
        t.wf(),
        0 <= i < t.responses@.len(),
        0 <= k < t.responses@[i].headers@.len(),
        is_framing_name(t.responses@[i].headers@[k].name.data@),
    ensures
        t.responses@[i].headers@[k].span.set().subset_of(
            committed_union(t.reveal_plan(), Direction::Received),
        ),
{
    let r = t.responses@[i];
    let h = r.headers@[k];
    let d = Direction::Received;
    let e = header_commit(h, d);
    lemma_headers_commits_at(r.headers@, r.headers@.len() as int, d);
    let hc = headers_commits(r.headers@, r.headers@.len() as int, d);
    let head = seq![(r.without_data_set(), d)];
    let bp = response_body_plan(r);
    let bc = match r.boundaries {
        Option::Some(bs) => boundaries_commits(bs@, bs@.len() as int),
        Option::None => Seq::<(Set<int>, Direction)>::empty(),
    };
    let tc = match r.trailers {
        Option::Some(ts) => trailers_commits(ts@, ts@.len() as int),
        Option::None => Seq::<(Set<int>, Direction)>::empty(),
    };
    assert(response_plan(r) == head + hc + bp + bc + tc);
    assert(response_plan(r)[1 + k] == e) by {
        assert((head + hc)[1 + k] == hc[k as int]);
        assert((head + hc + bp)[1 + k] == (head + hc)[1 + k]);
        assert((head + hc + bp + bc)[1 + k] == (head + hc + bp)[1 + k]);
        assert((head + hc + bp + bc + tc)[1 + k] == (head + hc + bp + bc)[1 + k]);
    }
    lemma_responses_plan_at(t.responses@, t.responses@.len() as int, i, 1 + k);
    let idx = choose|idx: int|
        0 <= idx < responses_plan(t.responses@, t.responses@.len() as int).len()
            && #[trigger] responses_plan(t.responses@, t.responses@.len() as int)[idx]
            == response_plan(r)[1 + k];
    let off = requests_plan(t.requests@, t.requests@.len() as int).len();
    assert(t.reveal_plan()[off + idx] == e) by {
        assert(t.reveal_plan()[off + idx] == responses_plan(
            t.responses@,
            t.responses@.len() as int,
        )[idx]);
    }
    lemma_committed_union_member(t.reveal_plan(), d, off + idx);
    assert(e.0 == h.span.set());
}

proof fn lemma_boundaries_union_in(bs: Seq<Span>, n: int)
    requires
        0 <= n <= bs.len(),
    ensures
        forall|x: int|
            boundaries_union(bs, n).contains(x) ==> exists|i: int|
                0 <= i < n && (#[trigger] bs[i]).set().contains(x),
    decreases n,
{
    if n > 0 {
        lemma_boundaries_union_in(bs, n - 1);
        assert forall|x: int| #![trigger boundaries_union(bs, n).contains(x)]
            boundaries_union(bs, n).contains(x) implies exists|i: int|
            0 <= i < n && (#[trigger] bs[i]).set().contains(x) by {
            if boundaries_union(bs, n - 1).contains(x) {
            } else {
                assert(bs[n - 1].set().contains(x));
            }
        }
    }
}

proof fn lemma_boundaries_commits_sound(bs: Seq<Span>, n: int)
    requires
        0 <= n <= bs.len(),
        forall|i: int, j: int|
            0 <= i < j < bs.len() ==> (#[trigger] bs[i]).end <= (#[trigger] bs[j]).start,
        forall|i: int| 0 <= i < bs.len() ==> (#[trigger] bs[i]).wf(),
    ensures
        plan_within(boundaries_commits(bs, n), boundaries_union(bs, n), Direction::Received),
        plan_disjoint(boundaries_commits(bs, n)),
    decreases n,
{
    if n > 0 {
        lemma_boundaries_commits_sound(bs, n - 1);
        let prev = boundaries_commits(bs, n - 1);
        let this = seq![(bs[n - 1].set(), Direction::Received)];
        assert(plan_within(this, bs[n - 1].set(), Direction::Received)) by {
            assert(this[0] == (bs[n - 1].set(), Direction::Received));
        }
        assert(boundaries_union(bs, n - 1).disjoint(bs[n - 1].set())) by {
            lemma_boundaries_union_in(bs, n - 1);
            assert forall|x: int| #![trigger boundaries_union(bs, n - 1).contains(x)]
                boundaries_union(bs, n - 1).contains(x) implies !bs[n - 1].set().contains(x) by {
                let i = choose|i: int| #![auto] 0 <= i < n - 1 && bs[i].set().contains(x);
                assert(x < bs[i].end <= bs[n - 1].start);
            }
        }
        lemma_plan_concat_disjoint(
            prev,
            this,
            boundaries_union(bs, n - 1),
            bs[n - 1].set(),
            Direction::Received,
        );
        lemma_plan_concat_within(
            prev,
            this,
            boundaries_union(bs, n - 1),
            bs[n - 1].set(),
            boundaries_union(bs, n),
            Direction::Received,
        );
    }
}

proof fn lemma_trailers_commits_sound(ts: Seq<Header>, n: int)
    requires
        0 <= n <= ts.len(),
        forall|i: int| 0 <= i < ts.len() ==> (#[trigger] ts[i]).wf(),
        forall|i: int, j: int|
            0 <= i < j < ts.len() ==> (#[trigger] ts[i]).span.end <= (#[trigger] ts[j]).span.start,
    ensures
        plan_within(trailers_commits(ts, n), headers_span_union(ts, n), Direction::Received),
        plan_disjoint(trailers_commits(ts, n)),
    decreases n,
{
    if n > 0 {
        lemma_trailers_commits_sound(ts, n - 1);
        let prev = trailers_commits(ts, n - 1);
        let this = seq![(ts[n - 1].without_value_set(), Direction::Received)];
        assert(plan_within(this, ts[n - 1].span.set(), Direction::Received)) by {
            assert(this[0] == (ts[n - 1].without_value_set(), Direction::Received));
        }
        assert(headers_span_union(ts, n - 1).disjoint(ts[n - 1].span.set())) by {
            lemma_headers_union_in(ts, n - 1);
            assert forall|x: int| #![trigger headers_span_union(ts, n - 1).contains(x)]
                headers_span_union(ts, n - 1).contains(x) implies !ts[n - 1].span.set().contains(
                x,
            ) by {
                let i = choose|i: int| #![auto] 0 <= i < n - 1 && ts[i].span.set().contains(x);
                assert(x < ts[i].span.end <= ts[n - 1].span.start);
            }
        }
        lemma_plan_concat_disjoint(
            prev,
            this,
            headers_span_union(ts, n - 1),
            ts[n - 1].span.set(),
            Direction::Received,
        );
        lemma_plan_concat_within(
            prev,
            this,
            headers_span_union(ts, n - 1),
            ts[n - 1].span.set(),
            headers_span_union(ts, n),
            Direction::Received,
        );
    }
}

} // verus!
