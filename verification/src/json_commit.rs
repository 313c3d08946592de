//! The JSON reveal planner and committer: walks a JSON tree emitting the
//! byte-range commitments that establish its structure, and optionally its
//! values.

use vstd::prelude::*;
use crate::json::{
    json_wf, kv_wf, lemma_elems_wf_iff, lemma_kvs_wf_iff, Array, Bool, JsonString, JsonValue,
    KeyValue, Null, Number, Object,
};
use crate::transcript::{Direction, TranscriptCommitmentBuilder, TranscriptCommitmentBuilderError};
use vstd::string::StringExecFns;

verus! {

broadcast use vstd::std_specs::vec::axiom_vec_index_decreases;

/// The structural reveal plan of a JSON value: the commitments, in call
/// order, that [`JsonCommit::commit_structure`] emits for it.  Objects
/// commit their braces, then each pair without its value, recursing into the
/// values; arrays commit their brackets, then their separators, recursing
/// into the elements; primitives emit nothing.
pub open spec fn json_plan(v: JsonValue, d: Direction) -> Seq<(Set<int>, Direction)>
    decreases v, 1int,
{
    match v {
        JsonValue::Object(o) => seq![(o.without_pairs_set(), d)] + kvs_plan(
            o.elems,
            o.elems@.len() as int,
            d,
        ),
        JsonValue::Array(a) => seq![(a.without_values_set(), d), (a.separators_set(), d)]
            + elems_plan(a.elems, a.elems@.len() as int, d),
        _ => Seq::empty(),
    }
}

/// The concatenated plans of the first `n` pairs.
pub open spec fn kvs_plan(es: Vec<KeyValue>, n: int, d: Direction) -> Seq<(Set<int>, Direction)>
    decreases es, 0int, n,
{
    if n <= 0 || es@.len() < n {
        Seq::empty()
    } else {
        kvs_plan(es, n - 1, d) + kv_plan(es@[n - 1], d)
    }
}

/// The plan of one pair: the pair without its value, then the value's plan.
pub open spec fn kv_plan(kv: KeyValue, d: Direction) -> Seq<(Set<int>, Direction)>
    decreases kv, 1int,
{
    seq![(kv.without_value_set(), d)] + json_plan(kv.value, d)
}

/// The concatenated plans of the first `n` elements.
pub open spec fn elems_plan(es: Vec<JsonValue>, n: int, d: Direction) -> Seq<(Set<int>, Direction)>
    decreases es, 0int, n,
{
    if n <= 0 || es@.len() < n {
        Seq::empty()
    } else {
        elems_plan(es, n - 1, d) + json_plan(es@[n - 1], d)
    }
}

/// Taking past the left part of a concatenation keeps the left part whole.
pub proof fn lemma_take_concat<T>(a: Seq<T>, b: Seq<T>, j: int)
    requires
        0 <= j <= b.len(),
    ensures
        (a + b).take(a.len() + j) =~= a + b.take(j),
{
}

/// Taking within the left part of a concatenation ignores the right part.
pub proof fn lemma_take_concat_left<T>(a: Seq<T>, b: Seq<T>, t: int)
    requires
        0 <= t <= a.len(),
    ensures
        (a + b).take(t) =~= a.take(t),
{
}

proof fn lemma_kvs_plan_len_mono(es: Vec<KeyValue>, i: int, n: int, d: Direction)
    requires
        0 <= i <= n <= es@.len(),
    ensures
        kvs_plan(es, i, d).len() <= kvs_plan(es, n, d).len(),
    decreases n,
{
    if n > i {
        lemma_kvs_plan_len_mono(es, i, n - 1, d);
    }
}

proof fn lemma_kvs_plan_take_mid(es: Vec<KeyValue>, i: int, n: int, d: Direction, j: int)
    requires
        0 <= i < n <= es@.len(),
        0 <= j <= kv_plan(es@[i], d).len(),
    ensures
        kvs_plan(es, n, d).take(kvs_plan(es, i, d).len() + j) == kvs_plan(es, i, d) + kv_plan(
            es@[i],
            d,
        ).take(j),
    decreases n,
{
    if n == i + 1 {
        lemma_take_concat(kvs_plan(es, i, d), kv_plan(es@[i], d), j);
    } else {
        lemma_kvs_plan_take_mid(es, i, n - 1, d, j);
        lemma_kvs_plan_len_mono(es, i + 1, n - 1, d);
        assert(kvs_plan(es, i + 1, d).len() == kvs_plan(es, i, d).len() + kv_plan(
            es@[i],
            d,
        ).len());
        lemma_take_concat_left(
            kvs_plan(es, n - 1, d),
            kv_plan(es@[n - 1], d),
            kvs_plan(es, i, d).len() + j,
        );
    }
}

proof fn lemma_elems_plan_len_mono(es: Vec<JsonValue>, i: int, n: int, d: Direction)
    requires
        0 <= i <= n <= es@.len(),
    ensures
        elems_plan(es, i, d).len() <= elems_plan(es, n, d).len(),
    decreases n,
{
    if n > i {
        lemma_elems_plan_len_mono(es, i, n - 1, d);
    }
}

proof fn lemma_elems_plan_take_mid(es: Vec<JsonValue>, i: int, n: int, d: Direction, j: int)
    requires
        0 <= i < n <= es@.len(),
        0 <= j <= json_plan(es@[i], d).len(),
    ensures
        elems_plan(es, n, d).take(elems_plan(es, i, d).len() + j) == elems_plan(es, i, d)
            + json_plan(es@[i], d).take(j),
    decreases n,
{
    if n == i + 1 {
        lemma_take_concat(elems_plan(es, i, d), json_plan(es@[i], d), j);
    } else {
        lemma_elems_plan_take_mid(es, i, n - 1, d, j);
        lemma_elems_plan_len_mono(es, i + 1, n - 1, d);
        assert(elems_plan(es, i + 1, d).len() == elems_plan(es, i, d).len() + json_plan(
            es@[i],
            d,
        ).len());
        lemma_take_concat_left(
            elems_plan(es, n - 1, d),
            json_plan(es@[n - 1], d),
            elems_plan(es, i, d).len() + j,
        );
    }
}

/// JSON commitment error.
#[derive(Debug)]
pub struct JsonCommitError {
    /// The error message.
    pub msg: String,
    /// The builder error that caused this one, if any.
    pub source: Option<TranscriptCommitmentBuilderError>,
}

impl JsonCommitError {
    /// Creates a new JSON commitment error.
    pub fn new(msg: &str) -> (r: JsonCommitError)
        ensures
            r.msg@ == msg@,
            r.source is None,
    {
        JsonCommitError { msg: String::from_str(msg), source: None }
    }

    /// Creates a new JSON commitment error with a source.
    pub fn new_with_source(msg: &str, source: TranscriptCommitmentBuilderError) -> (r:
        JsonCommitError)
        ensures
            r.msg@ == msg@,
            r.source matches Some(e) && e == source,
    {
        JsonCommitError { msg: String::from_str(msg), source: Some(source) }
    }

    /// Returns the error message.
    pub fn msg(&self) -> (r: &str)
        ensures
            r@ == self.msg@,
    {
        self.msg.as_str()
    }
}

/// A redacted node somewhere in the first `n` elements witnesses redaction
/// of the whole prefix.
pub proof fn lemma_elems_have_redacted_at(es: Vec<JsonValue>, i: int, n: int)
    requires
        0 <= i < n <= es@.len(),
        json_has_redacted(es@[i]),
    ensures
        elems_have_redacted(es, n),
    decreases n,
{
    if i < n - 1 {
        lemma_elems_have_redacted_at(es, i, n - 1);
    }
}

/// A redacted node in one pair's value witnesses redaction of the whole
/// prefix.
pub proof fn lemma_kvs_have_redacted_at(es: Vec<KeyValue>, i: int, n: int)
    requires
        0 <= i < n <= es@.len(),
        json_has_redacted(es@[i].value),
    ensures
        kvs_have_redacted(es, n),
    decreases n,
{
    if i < n - 1 {
        lemma_kvs_have_redacted_at(es, i, n - 1);
    }
}

/// Whether any node of the tree is redacted.
pub open spec fn json_has_redacted(v: JsonValue) -> bool
    decreases v, 1int,
{
    match v {
        JsonValue::Redacted(_) => true,
        JsonValue::Array(a) => elems_have_redacted(a.elems, a.elems@.len() as int),
        JsonValue::Object(o) => kvs_have_redacted(o.elems, o.elems@.len() as int),
        _ => false,
    }
}

/// Whether any of the first `n` elements holds a redacted node.
pub open spec fn elems_have_redacted(es: Vec<JsonValue>, n: int) -> bool
    decreases es, 0int, n,
{
    if n <= 0 || es@.len() < n {
        false
    } else {
        elems_have_redacted(es, n - 1) || json_has_redacted(es@[n - 1])
    }
}

/// Whether any of the first `n` pairs holds a redacted node in its value.
pub open spec fn kvs_have_redacted(es: Vec<KeyValue>, n: int) -> bool
    decreases es, 0int, n,
{
    if n <= 0 || es@.len() < n {
        false
    } else {
        kvs_have_redacted(es, n - 1) || json_has_redacted(es@[n - 1].value)
    }
}

/// The full commitment plan of a JSON value: its structure and its values.
pub open spec fn json_value_plan(v: JsonValue, d: Direction) -> Seq<(Set<int>, Direction)>
    decreases v, 1int,
{
    match v {
        JsonValue::Object(o) => seq![(o.without_pairs_set(), d)] + kvs_value_plan(
            o.elems,
            o.elems@.len() as int,
            d,
        ),
        JsonValue::Array(a) => if a.elems@.len() == 0 {
            seq![(a.span.set(), d)]
        } else {
            seq![(a.span.set(), d), (a.without_values_set(), d), (a.separators_set(), d)]
                + elems_value_plan(a.elems, a.elems@.len() as int, d)
        },
        JsonValue::String(s) => if s.0.data@.len() == 0 {
            Seq::empty()
        } else {
            seq![(s.0.set(), d)]
        },
        JsonValue::Number(n) => seq![(n.0.set(), d)],
        JsonValue::Bool(b) => seq![(b.0.set(), d)],
        JsonValue::Null(x) => seq![(x.0.set(), d)],
        JsonValue::Redacted(_) => Seq::empty(),
    }
}

/// The concatenated full plans of the first `n` pairs.
pub open spec fn kvs_value_plan(es: Vec<KeyValue>, n: int, d: Direction) -> Seq<
    (Set<int>, Direction),
>
    decreases es, 0int, n,
{
    if n <= 0 || es@.len() < n {
        Seq::empty()
    } else {
        kvs_value_plan(es, n - 1, d) + kv_value_plan(es@[n - 1], d)
    }
}

/// The full plan of one pair.
pub open spec fn kv_value_plan(kv: KeyValue, d: Direction) -> Seq<(Set<int>, Direction)>
    decreases kv, 1int,
{
    seq![(kv.without_value_set(), d)] + json_value_plan(kv.value, d)
}

/// The concatenated full plans of the first `n` elements.
pub open spec fn elems_value_plan(es: Vec<JsonValue>, n: int, d: Direction) -> Seq<
    (Set<int>, Direction),
>
    decreases es, 0int, n,
{
    if n <= 0 || es@.len() < n {
        Seq::empty()
    } else {
        elems_value_plan(es, n - 1, d) + json_value_plan(es@[n - 1], d)
    }
}

/// A JSON committer: emits commitments for a JSON tree into a transcript
/// commitment builder.
pub trait JsonCommit<C: TranscriptCommitmentBuilder> {
    /// Commits the structural bytes of `json`: delimiters, separators, and
    /// keys, leaving every data byte uncommitted.  On success the builder's
    /// trace grows by exactly the structural reveal plan of `json`; on
    /// failure the builder accepted a proper prefix of the plan, rejected
    /// the next call of the plan, and saw nothing after it, so the walk
    /// fails only when the builder rejected a commitment.
    fn commit_structure(&self, builder: &mut C, direction: Direction, json: &JsonValue) -> (r:
        Result<(), TranscriptCommitmentBuilderError>)
        requires
            json_wf(*json),
        ensures
            r is Ok ==> final(builder).trace() == old(builder).trace() + json_plan(
                *json,
                direction,
            ) && final(builder).attempts() == old(builder).attempts() + json_plan(
                *json,
                direction,
            ),
            r is Err ==> exists|k: int|
                0 <= k < json_plan(*json, direction).len() && final(builder).trace() == old(
                    builder,
                ).trace() + json_plan(*json, direction).take(k) && final(builder).attempts()
                    == old(builder).attempts() + json_plan(*json, direction).take(k + 1),
            old(builder).trace().is_prefix_of(final(builder).trace()),
    ;

    /// Commits a JSON value whole: its structure and its data bytes.  A
    /// redacted node cannot be committed and fails the call without touching
    /// the builder; every other failure carries the failing commit's error as
    /// its source.
    fn commit_value(&mut self, builder: &mut C, value: &JsonValue, direction: Direction) -> (r:
        Result<(), JsonCommitError>)
        requires
            json_wf(*value),
        ensures
            r is Ok ==> !json_has_redacted(*value) && final(builder).trace() == old(
                builder,
            ).trace() + json_value_plan(*value, direction),
            json_has_redacted(*value) ==> r is Err,
            *value is Redacted ==> (r matches Err(e) && final(builder).trace() == old(
                builder,
            ).trace() && e.msg@ == "cannot commit redacted value"@ && e.source is None),
            r matches Err(e) ==> (e.source is Some || json_has_redacted(*value)),
            old(builder).trace().is_prefix_of(final(builder).trace()),
    ;

    /// Commits a JSON object whole: its braces, then each pair.
    fn commit_object(&mut self, builder: &mut C, object: &Object, direction: Direction) -> (r:
        Result<(), JsonCommitError>)
        requires
            json_wf(JsonValue::Object(*object)),
        ensures
            r is Ok ==> !kvs_have_redacted(object.elems, object.elems@.len() as int) && final(builder).trace() == old(builder).trace() + obj_value_plan(*object, direction),
            kvs_have_redacted(object.elems, object.elems@.len() as int) ==> r is Err,
            r matches Err(e) ==> (e.source is Some || kvs_have_redacted(
                object.elems,
                object.elems@.len() as int,
            )),
            old(builder).trace().is_prefix_of(final(builder).trace()),
    ;

    /// Commits a key-value pair whole: the pair without its value, then the
    /// value.
    fn commit_key_value(&mut self, builder: &mut C, kv: &KeyValue, direction: Direction) -> (r:
        Result<(), JsonCommitError>)
        requires
            kv_wf(*kv),
        ensures
            r is Ok ==> !json_has_redacted(kv.value) && final(builder).trace() == old(
                builder,
            ).trace() + kv_value_plan(*kv, direction),
            json_has_redacted(kv.value) ==> r is Err,
            r matches Err(e) ==> (e.source is Some || json_has_redacted(kv.value)),
            old(builder).trace().is_prefix_of(final(builder).trace()),
    ;

    /// Commits a JSON array whole: the entire array, then its brackets and
    /// separators, then each element.
    fn commit_array(&mut self, builder: &mut C, array: &Array, direction: Direction) -> (r:
        Result<(), JsonCommitError>)
        requires
            json_wf(JsonValue::Array(*array)),
        ensures
            r is Ok ==> !elems_have_redacted(array.elems, array.elems@.len() as int) && final(builder).trace() == old(builder).trace() + arr_value_plan(*array, direction),
            elems_have_redacted(array.elems, array.elems@.len() as int) ==> r is Err,
            r matches Err(e) ==> (e.source is Some || elems_have_redacted(
                array.elems,
                array.elems@.len() as int,
            )),
            old(builder).trace().is_prefix_of(final(builder).trace()),
    ;

    /// Commits a JSON string's content.  An empty string makes no builder
    /// call and succeeds with the trace unchanged.
    fn commit_string(&mut self, builder: &mut C, string: &JsonString, direction: Direction) -> (r:
        Result<(), JsonCommitError>)
        ensures
            r is Ok ==> final(builder).trace() == old(builder).trace() + json_value_plan(
                JsonValue::String(*string),
                direction,
            ),
            string.0.data@.len() == 0 ==> r is Ok,
            r matches Err(e) ==> (final(builder).trace() == old(builder).trace()
                && e.source is Some),
            old(builder).trace().is_prefix_of(final(builder).trace()),
    ;

    /// Commits a JSON number's token.
    fn commit_number(&mut self, builder: &mut C, number: &Number, direction: Direction) -> (r:
        Result<(), JsonCommitError>)
        ensures
            r is Ok ==> final(builder).trace() == old(builder).trace() + json_value_plan(
                JsonValue::Number(*number),
                direction,
            ),
            r matches Err(e) ==> (final(builder).trace() == old(builder).trace()
                && e.source is Some),
            old(builder).trace().is_prefix_of(final(builder).trace()),
    ;

    /// Commits a JSON boolean's token.
    fn commit_bool(&mut self, builder: &mut C, boolean: &Bool, direction: Direction) -> (r: Result<
        (),
        JsonCommitError,
    >)
        ensures
            r is Ok ==> final(builder).trace() == old(builder).trace() + json_value_plan(
                JsonValue::Bool(*boolean),
                direction,
            ),
            r matches Err(e) ==> (final(builder).trace() == old(builder).trace()
                && e.source is Some),
            old(builder).trace().is_prefix_of(final(builder).trace()),
    ;

    /// Commits a JSON null's token.
    fn commit_null(&mut self, builder: &mut C, null: &Null, direction: Direction) -> (r: Result<
        (),
        JsonCommitError,
    >)
        ensures
            r is Ok ==> final(builder).trace() == old(builder).trace() + json_value_plan(
                JsonValue::Null(*null),
                direction,
            ),
            r matches Err(e) ==> (final(builder).trace() == old(builder).trace()
                && e.source is Some),
            old(builder).trace().is_prefix_of(final(builder).trace()),
    ;
}

/// Default committer for JSON values.
#[derive(Debug, Default)]
pub struct DefaultJsonCommitter {}

impl<C: TranscriptCommitmentBuilder> JsonCommit<C> for DefaultJsonCommitter {
    fn commit_structure(&self, builder: &mut C, direction: Direction, json: &JsonValue) -> (r:
        Result<(), TranscriptCommitmentBuilderError>) {
        commit_structure_walk(builder, direction, json)
    }

    fn commit_value(&mut self, builder: &mut C, value: &JsonValue, direction: Direction) -> (r:
        Result<(), JsonCommitError>) {
        commit_value_walk(builder, value, direction)
    }

    fn commit_object(&mut self, builder: &mut C, object: &Object, direction: Direction) -> (r:
        Result<(), JsonCommitError>) {
        commit_object_walk(builder, object, direction)
    }

    fn commit_key_value(&mut self, builder: &mut C, kv: &KeyValue, direction: Direction) -> (r:
        Result<(), JsonCommitError>) {
        commit_key_value_walk(builder, kv, direction)
    }

    fn commit_array(&mut self, builder: &mut C, array: &Array, direction: Direction) -> (r: Result<
        (),
        JsonCommitError,
    >) {
        commit_array_walk(builder, array, direction)
    }

    fn commit_string(&mut self, builder: &mut C, string: &JsonString, direction: Direction) -> (r:
        Result<(), JsonCommitError>) {
        commit_string_walk(builder, string, direction)
    }

    fn commit_number(&mut self, builder: &mut C, number: &Number, direction: Direction) -> (r:
        Result<(), JsonCommitError>) {
        commit_number_walk(builder, number, direction)
    }

    fn commit_bool(&mut self, builder: &mut C, boolean: &Bool, direction: Direction) -> (r: Result<
        (),
        JsonCommitError,
    >) {
        commit_bool_walk(builder, boolean, direction)
    }

    fn commit_null(&mut self, builder: &mut C, null: &Null, direction: Direction) -> (r: Result<
        (),
        JsonCommitError,
    >) {
        commit_null_walk(builder, null, direction)
    }
}

/// Emits the structural reveal plan of `json`.  On success the builder saw
/// exactly the plan's calls and accepted them all; on failure it saw and
/// accepted a proper prefix, then rejected the next call of the plan, and
/// saw nothing after it — so the walk fails only when the builder rejected a
/// commitment.
pub fn commit_structure_walk<C: TranscriptCommitmentBuilder>(
    builder: &mut C,
    direction: Direction,
    json: &JsonValue,
) -> (r: Result<(), TranscriptCommitmentBuilderError>)
    requires
        json_wf(*json),
    ensures
        r is Ok ==> final(builder).trace() == old(builder).trace() + json_plan(*json, direction)
            && final(builder).attempts() == old(builder).attempts() + json_plan(*json, direction),
        r is Err ==> exists|k: int|
            0 <= k < json_plan(*json, direction).len() && final(builder).trace() == old(
                builder,
            ).trace() + json_plan(*json, direction).take(k) && final(builder).attempts() == old(
                builder,
            ).attempts() + json_plan(*json, direction).take(k + 1),
        old(builder).trace().is_prefix_of(final(builder).trace()),
    decreases *json,
{
    let ghost t0 = builder.trace();
    let ghost a0 = builder.attempts();
    let ghost plan = json_plan(*json, direction);
    match json {
        JsonValue::Object(o) => {
            let wp = o.without_pairs();
            match builder.commit(&wp, direction) {
                Err(e) => {
                    proof {
                        assert(t0.is_prefix_of(builder.trace())) by {
                            assert(t0 =~= builder.trace().subrange(0, t0.len() as int));
                        }
                        assert(builder.trace() =~= t0 + plan.take(0));
                        assert(builder.attempts() =~= a0 + plan.take(1)) by {
                            assert(plan.take(1) =~= seq![(o.without_pairs_set(), direction)]);
                        }
                    }
                    return Err(e);
                },
                Ok(()) => {},
            }
            proof {
                lemma_kvs_wf_iff(o.elems, o.elems@.len() as int);
                assert(builder.trace() =~= t0 + seq![(o.without_pairs_set(), direction)]
                    + kvs_plan(o.elems, 0int, direction));
                assert(builder.attempts() =~= a0 + seq![(o.without_pairs_set(), direction)]
                    + kvs_plan(o.elems, 0int, direction));
            }
            let mut i: usize = 0;
            while i < o.elems.len()
                invariant
                    i <= o.elems@.len(),
                    t0 == old(builder).trace(),
                    a0 == old(builder).attempts(),
                    *json == JsonValue::Object(*o),
                    plan == json_plan(*json, direction),
                    forall|j: int| 0 <= j < o.elems@.len() ==> kv_wf(#[trigger] o.elems@[j]),
                    builder.trace() == t0 + seq![(o.without_pairs_set(), direction)] + kvs_plan(
                        o.elems,
                        i as int,
                        direction,
                    ),
                    builder.attempts() == a0 + seq![(o.without_pairs_set(), direction)]
                        + kvs_plan(o.elems, i as int, direction),
                decreases o.elems@.len() - i,
            {
                let ghost ti = builder.trace();
                let ghost ai = builder.attempts();
                let kv = &o.elems[i];
                let ghost nn = o.elems@.len() as int;
                let ghost leni = kvs_plan(o.elems, i as int, direction).len() as int;
                let wv = kv.without_value();
                match builder.commit(&wv, direction) {
                    Err(e) => {
                        proof {
                            assert(t0.is_prefix_of(builder.trace())) by {
                                assert(t0 =~= builder.trace().subrange(0, t0.len() as int));
                            }
                            lemma_kvs_plan_take_mid(o.elems, i as int, nn, direction, 0);
                            lemma_kvs_plan_len_mono(o.elems, i + 1 as int, nn, direction);
                            assert(kvs_plan(o.elems, i + 1 as int, direction).len() == leni
                                + kv_plan(o.elems@[i as int], direction).len());
                            assert(kv_plan(o.elems@[i as int], direction).len() >= 1);
                            assert(builder.trace() =~= t0 + plan.take(1 + leni)) by {
                                assert(kvs_plan(o.elems, nn, direction).take(leni + 0)
                                    == kvs_plan(o.elems, i as int, direction) + kv_plan(
                                    o.elems@[i as int],
                                    direction,
                                ).take(0));
                                assert(kv_plan(o.elems@[i as int], direction).take(0)
                                    =~= Seq::<(Set<int>, Direction)>::empty());
                                lemma_take_concat(
                                    seq![(o.without_pairs_set(), direction)],
                                    kvs_plan(o.elems, nn, direction),
                                    leni,
                                );
                            }
                            assert(1 + leni < plan.len());
                            lemma_kvs_plan_take_mid(o.elems, i as int, nn, direction, 1);
                            assert(builder.attempts() =~= a0 + plan.take(1 + leni + 1)) by {
                                assert(kvs_plan(o.elems, nn, direction).take(leni + 1)
                                    == kvs_plan(o.elems, i as int, direction) + kv_plan(
                                    o.elems@[i as int],
                                    direction,
                                ).take(1));
                                assert(kv_plan(o.elems@[i as int], direction).take(1)
                                    =~= seq![(kv.without_value_set(), direction)]);
                                lemma_take_concat(
                                    seq![(o.without_pairs_set(), direction)],
                                    kvs_plan(o.elems, nn, direction),
                                    leni + 1,
                                );
                            }
                        }
                        return Err(e);
                    },
                    Ok(()) => {},
                }
                proof {
                    assert(decreases_to!(*json => (*json)->Object_0));
                    assert(decreases_to!((*json)->Object_0 => (*json)->Object_0.elems));
                    assert(decreases_to!(o.elems => o.elems[i as int]));
                    assert(decreases_to!(o.elems[i as int] => o.elems[i as int].value));
                    assert(decreases_to!(*json => o.elems@[i as int].value));
                }
                match commit_structure_walk(builder, direction, &kv.value) {
                    Err(e) => {
                        proof {
                            assert(ti.push((kv.without_value_set(), direction)).is_prefix_of(
                                builder.trace(),
                            ));
                            assert(t0.is_prefix_of(builder.trace())) by {
                                assert(t0 =~= builder.trace().subrange(0, t0.len() as int));
                            }
                            let kc = choose|kc: int|
                                0 <= kc < json_plan(kv.value, direction).len() && builder.trace()
                                    == ti.push((kv.without_value_set(), direction)) + json_plan(
                                    kv.value,
                                    direction,
                                ).take(kc) && builder.attempts() == ai.push(
                                    (kv.without_value_set(), direction),
                                ) + json_plan(kv.value, direction).take(kc + 1);
                            lemma_kvs_plan_take_mid(o.elems, i as int, nn, direction, 1 + kc);
                            lemma_kvs_plan_len_mono(o.elems, i + 1 as int, nn, direction);
                            assert(kvs_plan(o.elems, i + 1 as int, direction).len() == leni
                                + kv_plan(o.elems@[i as int], direction).len());
                            assert(builder.trace() =~= t0 + plan.take(2 + leni + kc)) by {
                                assert(kv_plan(o.elems@[i as int], direction).take(1 + kc)
                                    =~= seq![(kv.without_value_set(), direction)] + json_plan(
                                    kv.value,
                                    direction,
                                ).take(kc));
                                assert(kvs_plan(o.elems, nn, direction).take(leni + 1 + kc)
                                    == kvs_plan(o.elems, i as int, direction) + kv_plan(
                                    o.elems@[i as int],
                                    direction,
                                ).take(1 + kc));
                                lemma_take_concat(
                                    seq![(o.without_pairs_set(), direction)],
                                    kvs_plan(o.elems, nn, direction),
                                    leni + 1 + kc,
                                );
                            }
                            assert(2 + leni + kc < plan.len());
                            lemma_kvs_plan_take_mid(o.elems, i as int, nn, direction, 2 + kc);
                            assert(builder.attempts() =~= a0 + plan.take(2 + leni + kc + 1)) by {
                                assert(kv_plan(o.elems@[i as int], direction).take(2 + kc)
                                    =~= seq![(kv.without_value_set(), direction)] + json_plan(
                                    kv.value,
                                    direction,
                                ).take(kc + 1));
                                assert(kvs_plan(o.elems, nn, direction).take(leni + 2 + kc)
                                    == kvs_plan(o.elems, i as int, direction) + kv_plan(
                                    o.elems@[i as int],
                                    direction,
                                ).take(2 + kc));
                                lemma_take_concat(
                                    seq![(o.without_pairs_set(), direction)],
                                    kvs_plan(o.elems, nn, direction),
                                    leni + 2 + kc,
                                );
                            }
                        }
                        return Err(e);
                    },
                    Ok(()) => {},
                }
                proof {
                    assert(builder.trace() =~= t0 + seq![(o.without_pairs_set(), direction)]
                        + kvs_plan(o.elems, i + 1 as int, direction)) by {
                        assert(kvs_plan(o.elems, i + 1 as int, direction) == kvs_plan(
                            o.elems,
                            i as int,
                            direction,
                        ) + kv_plan(o.elems@[i as int], direction));
                        assert(ti == t0 + seq![(o.without_pairs_set(), direction)] + kvs_plan(
                            o.elems,
                            i as int,
                            direction,
                        ));
                        assert(builder.trace() == ti.push((kv.without_value_set(), direction))
                            + json_plan(kv.value, direction));
                    }
                    assert(builder.attempts() =~= a0 + seq![(o.without_pairs_set(), direction)]
                        + kvs_plan(o.elems, i + 1 as int, direction)) by {
                        assert(kvs_plan(o.elems, i + 1 as int, direction) == kvs_plan(
                            o.elems,
                            i as int,
                            direction,
                        ) + kv_plan(o.elems@[i as int], direction));
                        assert(ai == a0 + seq![(o.without_pairs_set(), direction)] + kvs_plan(
                            o.elems,
                            i as int,
                            direction,
                        ));
                        assert(builder.attempts() == ai.push((kv.without_value_set(), direction))
                            + json_plan(kv.value, direction));
                    }
                }
                i = i + 1;
            }
            proof {
                assert(builder.trace() =~= t0 + json_plan(*json, direction));
                assert(builder.attempts() =~= a0 + json_plan(*json, direction));
                assert(t0.is_prefix_of(builder.trace()));
            }
            Ok(())
        },
        JsonValue::Array(a) => {
            let wv = a.without_values();
            match builder.commit(&wv, direction) {
                Err(e) => {
                    proof {
                        assert(t0.is_prefix_of(builder.trace())) by {
                            assert(t0 =~= builder.trace().subrange(0, t0.len() as int));
                        }
                        assert(builder.trace() =~= t0 + plan.take(0));
                        assert(builder.attempts() =~= a0 + plan.take(1)) by {
                            assert(plan.take(1) =~= seq![(a.without_values_set(), direction)]);
                        }
                    }
                    return Err(e);
                },
                Ok(()) => {},
            }
            let sep = a.separators();
            match builder.commit(&sep, direction) {
                Err(e) => {
                    proof {
                        assert(t0.is_prefix_of(builder.trace())) by {
                            assert(t0 =~= builder.trace().subrange(0, t0.len() as int));
                        }
                        assert(builder.trace() =~= t0 + plan.take(1)) by {
                            assert(plan.take(1) =~= seq![(a.without_values_set(), direction)]);
                        }
                        assert(builder.attempts() =~= a0 + plan.take(2)) by {
                            assert(plan.take(2) =~= seq![
                                (a.without_values_set(), direction),
                                (a.separators_set(), direction),
                            ]);
                        }
                    }
                    return Err(e);
                },
                Ok(()) => {},
            }
            proof {
                lemma_elems_wf_iff(a.elems, a.elems@.len() as int);
                assert(builder.trace() =~= t0 + seq![
                    (a.without_values_set(), direction),
                    (a.separators_set(), direction),
                ] + elems_plan(a.elems, 0int, direction));
                assert(builder.attempts() =~= a0 + seq![
                    (a.without_values_set(), direction),
                    (a.separators_set(), direction),
                ] + elems_plan(a.elems, 0int, direction));
            }
            let mut i: usize = 0;
            while i < a.elems.len()
                invariant
                    i <= a.elems@.len(),
                    t0 == old(builder).trace(),
                    a0 == old(builder).attempts(),
                    *json == JsonValue::Array(*a),
                    plan == json_plan(*json, direction),
                    forall|j: int| 0 <= j < a.elems@.len() ==> json_wf(#[trigger] a.elems@[j]),
                    builder.trace() == t0 + seq![
                        (a.without_values_set(), direction),
                        (a.separators_set(), direction),
                    ] + elems_plan(a.elems, i as int, direction),
                    builder.attempts() == a0 + seq![
                        (a.without_values_set(), direction),
                        (a.separators_set(), direction),
                    ] + elems_plan(a.elems, i as int, direction),
                decreases a.elems@.len() - i,
            {
                let ghost ti = builder.trace();
                let ghost ai = builder.attempts();
                let ghost nn = a.elems@.len() as int;
                let ghost leni = elems_plan(a.elems, i as int, direction).len() as int;
                proof {
                    assert(decreases_to!(*json => (*json)->Array_0));
                    assert(decreases_to!((*json)->Array_0 => (*json)->Array_0.elems));
                    assert(decreases_to!(a.elems => a.elems[i as int]));
                    assert(decreases_to!(*json => a.elems@[i as int]));
                }
                match commit_structure_walk(builder, direction, &a.elems[i]) {
                    Err(e) => {
                        proof {
                            assert(t0.is_prefix_of(builder.trace())) by {
                                assert(t0 =~= builder.trace().subrange(0, t0.len() as int));
                            }
                            let kc = choose|kc: int|
                                0 <= kc < json_plan(a.elems@[i as int], direction).len()
                                    && builder.trace() == ti + json_plan(
                                    a.elems@[i as int],
                                    direction,
                                ).take(kc) && builder.attempts() == ai + json_plan(
                                    a.elems@[i as int],
                                    direction,
                                ).take(kc + 1);
                            lemma_elems_plan_take_mid(a.elems, i as int, nn, direction, kc);
                            lemma_elems_plan_len_mono(a.elems, i + 1 as int, nn, direction);
                            assert(elems_plan(a.elems, i + 1 as int, direction).len() == leni
                                + json_plan(a.elems@[i as int], direction).len());
                            assert(builder.trace() =~= t0 + plan.take(2 + leni + kc)) by {
                                assert(elems_plan(a.elems, nn, direction).take(leni + kc)
                                    == elems_plan(a.elems, i as int, direction) + json_plan(
                                    a.elems@[i as int],
                                    direction,
                                ).take(kc));
                                lemma_take_concat(
                                    seq![
                                        (a.without_values_set(), direction),
                                        (a.separators_set(), direction),
                                    ],
                                    elems_plan(a.elems, nn, direction),
                                    leni + kc,
                                );
                            }
                            assert(2 + leni + kc < plan.len());
                            lemma_elems_plan_take_mid(a.elems, i as int, nn, direction, kc + 1);
                            assert(builder.attempts() =~= a0 + plan.take(2 + leni + kc + 1)) by {
                                assert(elems_plan(a.elems, nn, direction).take(leni + kc + 1)
                                    == elems_plan(a.elems, i as int, direction) + json_plan(
                                    a.elems@[i as int],
                                    direction,
                                ).take(kc + 1));
                                lemma_take_concat(
                                    seq![
                                        (a.without_values_set(), direction),
                                        (a.separators_set(), direction),
                                    ],
                                    elems_plan(a.elems, nn, direction),
                                    leni + kc + 1,
                                );
                            }
                        }
                        return Err(e);
                    },
                    Ok(()) => {},
                }
                proof {
                    assert(builder.trace() =~= t0 + seq![
                        (a.without_values_set(), direction),
                        (a.separators_set(), direction),
                    ] + elems_plan(a.elems, i + 1 as int, direction));
                    assert(builder.attempts() =~= a0 + seq![
                        (a.without_values_set(), direction),
                        (a.separators_set(), direction),
                    ] + elems_plan(a.elems, i + 1 as int, direction));
                }
                i = i + 1;
            }
            proof {
                assert(builder.trace() =~= t0 + json_plan(*json, direction));
                assert(builder.attempts() =~= a0 + json_plan(*json, direction));
                assert(t0.is_prefix_of(builder.trace()));
            }
            Ok(())
        },
        _ => {
            proof {
                assert(builder.trace() =~= t0 + json_plan(*json, direction));
                assert(builder.attempts() =~= a0 + json_plan(*json, direction));
                assert(t0.is_prefix_of(builder.trace()));
            }
            Ok(())
        },
    }
}

/// Commits a builder error as a JSON commitment error.
fn wrap_commit_err(msg: &str, e: TranscriptCommitmentBuilderError) -> (r: JsonCommitError)
    ensures
        r.source matches Some(s) && s == e,
        r.msg@ == msg@,
{
    JsonCommitError::new_with_source(msg, e)
}

/// Emits the full commitment plan of `value`: structure and data bytes.
pub fn commit_value_walk<C: TranscriptCommitmentBuilder>(
    builder: &mut C,
    value: &JsonValue,
    direction: Direction,
) -> (r: Result<(), JsonCommitError>)
    requires
        json_wf(*value),
    ensures
        r is Ok ==> !json_has_redacted(*value) && final(builder).trace() == old(builder).trace()
            + json_value_plan(*value, direction),
        json_has_redacted(*value) ==> r is Err,
        *value is Redacted ==> (r matches Err(e) && final(builder).trace() == old(
            builder,
        ).trace() && e.msg@ == "cannot commit redacted value"@ && e.source is None),
        r matches Err(e) ==> (e.source is Some || json_has_redacted(*value)),
        old(builder).trace().is_prefix_of(final(builder).trace()),
    decreases *value, 2int,
{
    match value {
        JsonValue::Object(o) => {
            proof {
                assert(decreases_to!(*value => (*value)->Object_0));
            }
            commit_object_walk(builder, o, direction)
        },
        JsonValue::Array(a) => {
            proof {
                assert(decreases_to!(*value => (*value)->Array_0));
            }
            commit_array_walk(builder, a, direction)
        },
        JsonValue::String(s) => commit_string_walk(builder, s, direction),
        JsonValue::Number(n) => commit_number_walk(builder, n, direction),
        JsonValue::Bool(b) => commit_bool_walk(builder, b, direction),
        JsonValue::Null(x) => commit_null_walk(builder, x, direction),
        JsonValue::Redacted(_) => {
            proof {
                assert(builder.trace().is_prefix_of(builder.trace())) by {
                    assert(builder.trace() =~= builder.trace().subrange(
                        0,
                        builder.trace().len() as int,
                    ));
                }
            }
            Err(JsonCommitError::new("cannot commit redacted value"))
        },
    }
}

/// The full commitment plan of an object.
pub open spec fn obj_value_plan(o: Object, d: Direction) -> Seq<(Set<int>, Direction)> {
    seq![(o.without_pairs_set(), d)] + kvs_value_plan(o.elems, o.elems@.len() as int, d)
}

/// Commits an object whole: its braces, then each pair.
pub fn commit_object_walk<C: TranscriptCommitmentBuilder>(
    builder: &mut C,
    object: &Object,
    direction: Direction,
) -> (r: Result<(), JsonCommitError>)
    requires
        json_wf(JsonValue::Object(*object)),
    ensures
        r is Ok ==> !kvs_have_redacted(object.elems, object.elems@.len() as int) && final(builder).trace() == old(builder).trace() + obj_value_plan(*object, direction),
        kvs_have_redacted(object.elems, object.elems@.len() as int) ==> r is Err,
        r matches Err(e) ==> (e.source is Some || kvs_have_redacted(
            object.elems,
            object.elems@.len() as int,
        )),
        old(builder).trace().is_prefix_of(final(builder).trace()),
    decreases *object, 1int,
{
    let ghost t0 = builder.trace();
    let o = object;
    let wp = o.without_pairs();
    match builder.commit(&wp, direction) {
        Err(e) => {
            proof {
                assert(t0.is_prefix_of(builder.trace())) by {
                    assert(t0 =~= builder.trace().subrange(0, t0.len() as int));
                }
            }
            return Err(wrap_commit_err("failed to commit object", e));
        },
        Ok(()) => {},
    }
    proof {
        lemma_kvs_wf_iff(o.elems, o.elems@.len() as int);
        assert(builder.trace() =~= t0 + seq![(o.without_pairs_set(), direction)] + kvs_value_plan(
            o.elems,
            0int,
            direction,
        ));
    }
    let mut i: usize = 0;
    while i < o.elems.len()
        invariant
            i <= o.elems@.len(),
            t0 == old(builder).trace(),
            o == object,
            forall|j: int| 0 <= j < o.elems@.len() ==> kv_wf(#[trigger] o.elems@[j]),
            !kvs_have_redacted(o.elems, i as int),
            builder.trace() == t0 + seq![(o.without_pairs_set(), direction)] + kvs_value_plan(
                o.elems,
                i as int,
                direction,
            ),
        decreases o.elems@.len() - i,
    {
        let ghost ti = builder.trace();
        proof {
            assert(decreases_to!(o.elems => o.elems[i as int]));
            assert(decreases_to!(*object => o.elems@[i as int]));
        }
        let kv = &o.elems[i];
        match commit_key_value_walk(builder, kv, direction) {
            Err(e) => {
                proof {
                    assert(t0.is_prefix_of(builder.trace())) by {
                        assert(t0 =~= builder.trace().subrange(0, t0.len() as int));
                    }
                    if json_has_redacted(o.elems@[i as int].value) {
                        lemma_kvs_have_redacted_at(o.elems, i as int, o.elems@.len() as int);
                    }
                }
                return Err(e);
            },
            Ok(()) => {},
        }
        proof {
            assert(builder.trace() =~= t0 + seq![(o.without_pairs_set(), direction)]
                + kvs_value_plan(o.elems, i + 1 as int, direction)) by {
                assert(kvs_value_plan(o.elems, i + 1 as int, direction) == kvs_value_plan(
                    o.elems,
                    i as int,
                    direction,
                ) + kv_value_plan(o.elems@[i as int], direction));
                assert(ti == t0 + seq![(o.without_pairs_set(), direction)] + kvs_value_plan(
                    o.elems,
                    i as int,
                    direction,
                ));
                assert(builder.trace() == ti + kv_value_plan(*kv, direction));
            }
        }
        i = i + 1;
    }
    proof {
        assert(builder.trace() =~= t0 + obj_value_plan(*object, direction));
        assert(t0.is_prefix_of(builder.trace())) by {
            assert(t0 =~= builder.trace().subrange(0, t0.len() as int));
        }
    }
    Ok(())
}

/// Commits one pair whole: the pair without its value, then the value.
pub fn commit_key_value_walk<C: TranscriptCommitmentBuilder>(
    builder: &mut C,
    kv: &KeyValue,
    direction: Direction,
) -> (r: Result<(), JsonCommitError>)
    requires
        kv_wf(*kv),
    ensures
        r is Ok ==> !json_has_redacted(kv.value) && final(builder).trace() == old(builder).trace()
            + kv_value_plan(*kv, direction),
        json_has_redacted(kv.value) ==> r is Err,
        r matches Err(e) ==> (e.source is Some || json_has_redacted(kv.value)),
        old(builder).trace().is_prefix_of(final(builder).trace()),
    decreases *kv, 1int,
{
    let ghost t0 = builder.trace();
    let wv = kv.without_value();
    match builder.commit(&wv, direction) {
        Err(e) => {
            proof {
                assert(t0.is_prefix_of(builder.trace())) by {
                    assert(t0 =~= builder.trace().subrange(0, t0.len() as int));
                }
            }
            return Err(wrap_commit_err("failed to commit key-value pair excluding the value", e));
        },
        Ok(()) => {},
    }
    let ghost tm = builder.trace();
    match commit_value_walk(builder, &kv.value, direction) {
        Err(e) => {
            proof {
                assert(t0.is_prefix_of(builder.trace())) by {
                    assert(t0 =~= builder.trace().subrange(0, t0.len() as int));
                }
            }
            Err(e)
        },
        Ok(()) => {
            proof {
                assert(builder.trace() =~= t0 + kv_value_plan(*kv, direction)) by {
                    assert(tm == t0.push((kv.without_value_set(), direction)));
                    assert(builder.trace() == tm + json_value_plan(kv.value, direction));
                }
                assert(t0.is_prefix_of(builder.trace())) by {
                    assert(t0 =~= builder.trace().subrange(0, t0.len() as int));
                }
            }
            Ok(())
        },
    }
}

/// The full commitment plan of an array.
pub open spec fn arr_value_plan(a: Array, d: Direction) -> Seq<(Set<int>, Direction)> {
    if a.elems@.len() == 0 {
        seq![(a.span.set(), d)]
    } else {
        seq![(a.span.set(), d), (a.without_values_set(), d), (a.separators_set(), d)]
            + elems_value_plan(a.elems, a.elems@.len() as int, d)
    }
}

/// Commits an array whole: the entire array, then its brackets and
/// separators, then each element.  The separators are committed as one range
/// set in a single call — a deliberate choice that keeps the trace a
/// function of the value; a sink that needs one call per maximal range can
/// split the set it receives.
pub fn commit_array_walk<C: TranscriptCommitmentBuilder>(
    builder: &mut C,
    array: &Array,
    direction: Direction,
) -> (r: Result<(), JsonCommitError>)
    requires
        json_wf(JsonValue::Array(*array)),
    ensures
        r is Ok ==> !elems_have_redacted(array.elems, array.elems@.len() as int) && final(builder).trace() == old(builder).trace() + arr_value_plan(*array, direction),
        elems_have_redacted(array.elems, array.elems@.len() as int) ==> r is Err,
        r matches Err(e) ==> (e.source is Some || elems_have_redacted(
            array.elems,
            array.elems@.len() as int,
        )),
        old(builder).trace().is_prefix_of(final(builder).trace()),
    decreases *array, 1int,
{
    let ghost t0 = builder.trace();
    let a = array;
    let whole = a.span.to_range_set();
    match builder.commit(&whole, direction) {
        Err(e) => {
            proof {
                assert(t0.is_prefix_of(builder.trace())) by {
                    assert(t0 =~= builder.trace().subrange(0, t0.len() as int));
                }
            }
            return Err(wrap_commit_err("failed to commit array", e));
        },
        Ok(()) => {},
    }
    if a.elems.len() == 0 {
        proof {
            assert(builder.trace() =~= t0 + arr_value_plan(*array, direction));
            assert(t0.is_prefix_of(builder.trace())) by {
                assert(t0 =~= builder.trace().subrange(0, t0.len() as int));
            }
        }
        return Ok(());
    }
    let wv = a.without_values();
    match builder.commit(&wv, direction) {
        Err(e) => {
            proof {
                assert(t0.is_prefix_of(builder.trace())) by {
                    assert(t0 =~= builder.trace().subrange(0, t0.len() as int));
                }
            }
            return Err(wrap_commit_err("failed to commit array excluding values", e));
        },
        Ok(()) => {},
    }
    let sep = a.separators();
    match builder.commit(&sep, direction) {
        Err(e) => {
            proof {
                assert(t0.is_prefix_of(builder.trace())) by {
                    assert(t0 =~= builder.trace().subrange(0, t0.len() as int));
                }
            }
            return Err(wrap_commit_err("failed to commit array separators", e));
        },
        Ok(()) => {},
    }
    proof {
        lemma_elems_wf_iff(a.elems, a.elems@.len() as int);
        assert(builder.trace() =~= t0 + seq![
            (a.span.set(), direction),
            (a.without_values_set(), direction),
            (a.separators_set(), direction),
        ] + elems_value_plan(a.elems, 0int, direction));
    }
    let mut i: usize = 0;
    while i < a.elems.len()
        invariant
            i <= a.elems@.len(),
            a.elems@.len() > 0,
            t0 == old(builder).trace(),
            a == array,
            forall|j: int| 0 <= j < a.elems@.len() ==> json_wf(#[trigger] a.elems@[j]),
            !elems_have_redacted(a.elems, i as int),
            builder.trace() == t0 + seq![
                (a.span.set(), direction),
                (a.without_values_set(), direction),
                (a.separators_set(), direction),
            ] + elems_value_plan(a.elems, i as int, direction),
        decreases a.elems@.len() - i,
    {
        proof {
            assert(decreases_to!(a.elems => a.elems[i as int]));
            assert(decreases_to!(*array => a.elems@[i as int]));
        }
        match commit_value_walk(builder, &a.elems[i], direction) {
            Err(e) => {
                proof {
                    assert(t0.is_prefix_of(builder.trace())) by {
                        assert(t0 =~= builder.trace().subrange(0, t0.len() as int));
                    }
                    if json_has_redacted(a.elems@[i as int]) {
                        lemma_elems_have_redacted_at(a.elems, i as int, a.elems@.len() as int);
                    }
                }
                return Err(e);
            },
            Ok(()) => {},
        }
        proof {
            assert(builder.trace() =~= t0 + seq![
                (a.span.set(), direction),
                (a.without_values_set(), direction),
                (a.separators_set(), direction),
            ] + elems_value_plan(a.elems, i + 1 as int, direction));
        }
        i = i + 1;
    }
    proof {
        assert(builder.trace() =~= t0 + arr_value_plan(*array, direction));
        assert(t0.is_prefix_of(builder.trace())) by {
            assert(t0 =~= builder.trace().subrange(0, t0.len() as int));
        }
    }
    Ok(())
}

/// Commits a string's content.  An empty string makes no builder call and
/// succeeds with the trace unchanged.
pub fn commit_string_walk<C: TranscriptCommitmentBuilder>(
    builder: &mut C,
    string: &JsonString,
    direction: Direction,
) -> (r: Result<(), JsonCommitError>)
    ensures
        r is Ok ==> final(builder).trace() == old(builder).trace() + json_value_plan(
            JsonValue::String(*string),
            direction,
        ),
        string.0.data@.len() == 0 ==> r is Ok,
        r matches Err(e) ==> (final(builder).trace() == old(builder).trace() && e.source is Some),
        old(builder).trace().is_prefix_of(final(builder).trace()),
{
    let ghost t0 = builder.trace();
    if string.0.len() == 0 {
        proof {
            assert(builder.trace() =~= t0 + json_value_plan(
                JsonValue::String(*string),
                direction,
            ));
            assert(t0.is_prefix_of(builder.trace())) by {
                assert(t0 =~= builder.trace().subrange(0, t0.len() as int));
            }
        }
        return Ok(());
    }
    let rs = string.0.to_range_set();
    match builder.commit(&rs, direction) {
        Err(e) => {
            proof {
                assert(t0.is_prefix_of(builder.trace())) by {
                    assert(t0 =~= builder.trace().subrange(0, t0.len() as int));
                }
            }
            Err(wrap_commit_err("failed to commit string", e))
        },
        Ok(()) => {
            proof {
                assert(builder.trace() =~= t0 + json_value_plan(
                    JsonValue::String(*string),
                    direction,
                ));
                assert(t0.is_prefix_of(builder.trace())) by {
                    assert(t0 =~= builder.trace().subrange(0, t0.len() as int));
                }
            }
            Ok(())
        },
    }
}

/// Commits a number's token.
pub fn commit_number_walk<C: TranscriptCommitmentBuilder>(
    builder: &mut C,
    number: &Number,
    direction: Direction,
) -> (r: Result<(), JsonCommitError>)
    ensures
        r is Ok ==> final(builder).trace() == old(builder).trace() + json_value_plan(
            JsonValue::Number(*number),
            direction,
        ),
        r matches Err(e) ==> (final(builder).trace() == old(builder).trace() && e.source is Some),
        old(builder).trace().is_prefix_of(final(builder).trace()),
{
    let ghost t0 = builder.trace();
    let rs = number.0.to_range_set();
    match builder.commit(&rs, direction) {
        Err(e) => {
            proof {
                assert(t0.is_prefix_of(builder.trace())) by {
                    assert(t0 =~= builder.trace().subrange(0, t0.len() as int));
                }
            }
            Err(wrap_commit_err("failed to commit number", e))
        },
        Ok(()) => {
            proof {
                assert(builder.trace() =~= t0 + json_value_plan(
                    JsonValue::Number(*number),
                    direction,
                ));
                assert(t0.is_prefix_of(builder.trace())) by {
                    assert(t0 =~= builder.trace().subrange(0, t0.len() as int));
                }
            }
            Ok(())
        },
    }
}

/// Commits a boolean's token.
pub fn commit_bool_walk<C: TranscriptCommitmentBuilder>(
    builder: &mut C,
    boolean: &Bool,
    direction: Direction,
) -> (r: Result<(), JsonCommitError>)
    ensures
        r is Ok ==> final(builder).trace() == old(builder).trace() + json_value_plan(
            JsonValue::Bool(*boolean),
            direction,
        ),
        r matches Err(e) ==> (final(builder).trace() == old(builder).trace() && e.source is Some),
        old(builder).trace().is_prefix_of(final(builder).trace()),
{
    let ghost t0 = builder.trace();
    let rs = boolean.0.to_range_set();
    match builder.commit(&rs, direction) {
        Err(e) => {
            proof {
                assert(t0.is_prefix_of(builder.trace())) by {
                    assert(t0 =~= builder.trace().subrange(0, t0.len() as int));
                }
            }
            Err(wrap_commit_err("failed to commit boolean", e))
        },
        Ok(()) => {
            proof {
                assert(builder.trace() =~= t0 + json_value_plan(
                    JsonValue::Bool(*boolean),
                    direction,
                ));
                assert(t0.is_prefix_of(builder.trace())) by {
                    assert(t0 =~= builder.trace().subrange(0, t0.len() as int));
                }
            }
            Ok(())
        },
    }
}

/// Commits a null's token.
pub fn commit_null_walk<C: TranscriptCommitmentBuilder>(
    builder: &mut C,
    null: &Null,
    direction: Direction,
) -> (r: Result<(), JsonCommitError>)
    ensures
        r is Ok ==> final(builder).trace() == old(builder).trace() + json_value_plan(
            JsonValue::Null(*null),
            direction,
        ),
        r matches Err(e) ==> (final(builder).trace() == old(builder).trace() && e.source is Some),
        old(builder).trace().is_prefix_of(final(builder).trace()),
{
    let ghost t0 = builder.trace();
    let rs = null.0.to_range_set();
    match builder.commit(&rs, direction) {
        Err(e) => {
            proof {
                assert(t0.is_prefix_of(builder.trace())) by {
                    assert(t0 =~= builder.trace().subrange(0, t0.len() as int));
                }
            }
            Err(wrap_commit_err("failed to commit null", e))
        },
        Ok(()) => {
            proof {
                assert(builder.trace() =~= t0 + json_value_plan(
                    JsonValue::Null(*null),
                    direction,
                ));
                assert(t0.is_prefix_of(builder.trace())) by {
                    assert(t0 =~= builder.trace().subrange(0, t0.len() as int));
                }
            }
            Ok(())
        },
    }
}

} // verus!
