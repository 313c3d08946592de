//! The JSON deep comparator: enforces that a candidate tree is structurally
//! equivalent to a structure template, treating redacted template subtrees as
//! wildcards.

use vstd::prelude::*;
use crate::errors::EnforceError;
use crate::json::{find_key, Array, JsonValue, KeyValue, Object};
use crate::json::{all_digits, dec_val, find_key_exec};
use crate::span::bytes_eq;

verus! {

broadcast use vstd::std_specs::vec::axiom_vec_index_decreases;

/// The structural-equivalence table: a redacted structure subtree accepts
/// anything; leaves must agree byte for byte; arrays must agree in length and
/// pairwise; every structure key must be found in the candidate (by first
/// match) with an equivalent value, extra candidate keys being allowed.
pub open spec fn json_matches(s: JsonValue, c: JsonValue) -> bool
    decreases s, 1int,
{
    match s {
        JsonValue::Redacted(_) => true,
        JsonValue::Null(_) => c is Null,
        JsonValue::Bool(a) => c matches JsonValue::Bool(b) && a.0.data@ == b.0.data@,
        JsonValue::Number(a) => c matches JsonValue::Number(b) && a.0.data@ == b.0.data@,
        JsonValue::String(a) => c matches JsonValue::String(b) && a.0.data@ == b.0.data@,
        JsonValue::Array(a) => c matches JsonValue::Array(b) && a.elems@.len() == b.elems@.len()
            && arr_matches(a.elems, b.elems@, a.elems@.len() as int),
        JsonValue::Object(a) => c matches JsonValue::Object(b) && obj_matches(
            a.elems,
            b.elems@,
            a.elems@.len() as int,
        ),
    }
}

/// The first `n` structure elements match the candidate elements pairwise.
pub open spec fn arr_matches(xs: Vec<JsonValue>, ys: Seq<JsonValue>, n: int) -> bool
    decreases xs, 0int, n,
{
    if n <= 0 || xs@.len() < n || ys.len() < n {
        true
    } else {
        arr_matches(xs, ys, n - 1) && json_matches(xs@[n - 1], ys[n - 1])
    }
}

/// Each of the first `n` structure pairs finds a matching pair in `ys`.
pub open spec fn obj_matches(xs: Vec<KeyValue>, ys: Seq<KeyValue>, n: int) -> bool
    decreases xs, 0int, n,
{
    if n <= 0 || xs@.len() < n {
        true
    } else {
        obj_matches(xs, ys, n - 1) && kv_matched(xs@[n - 1], ys)
    }
}

/// The first candidate pair with this pair's key exists and its value
/// matches.
pub open spec fn kv_matched(kv: KeyValue, ys: Seq<KeyValue>) -> bool
    decreases kv, 1int,
{
    match find_key(ys, kv.key.0.data@) {
        Option::Some(i) => json_matches(kv.value, ys[i].value),
        Option::None => false,
    }
}

/// A redacted structure subtree accepts any candidate value at its position.
pub proof fn lemma_wildcard_accepts(s: JsonValue, c: JsonValue)
    requires
        s is Redacted,
    ensures
        json_matches(s, c),
{
}

/// The decimal digits of `n`, most significant first.
pub open spec fn dec_seq(n: int) -> Seq<u8>
    decreases n,
    when n >= 0
{
    if n < 10 {
        seq![(48 + n) as u8]
    } else {
        dec_seq(n / 10).push((48 + n % 10) as u8)
    }
}

/// A dotted join: the prefix alone when the relative path is empty, else
/// prefix, dot, relative path.
pub open spec fn joined_path(prefix: Seq<u8>, rel: Seq<u8>) -> Seq<u8> {
    if rel.len() == 0 {
        prefix
    } else {
        prefix + seq![46u8] + rel
    }
}

/// The dotted path of the first divergence under `s`, relative to `s`.  At a
/// mismatching composite the path descends into the first failing element or
/// pair; at a failing leaf or shape mismatch it is empty.
pub open spec fn mismatch_path(s: JsonValue, c: JsonValue) -> Seq<u8>
    decreases s, 1int,
{
    match s {
        JsonValue::Array(a) => match c {
            JsonValue::Array(b) => if a.elems@.len() != b.elems@.len() {
                Seq::empty()
            } else {
                arr_mismatch_from(a.elems, b.elems@, 0)
            },
            _ => Seq::empty(),
        },
        JsonValue::Object(a) => match c {
            JsonValue::Object(b) => obj_mismatch_from(a.elems, b.elems@, 0),
            _ => Seq::empty(),
        },
        _ => Seq::empty(),
    }
}

/// The path of the first divergent element at or after index `k`.
pub open spec fn arr_mismatch_from(xs: Vec<JsonValue>, ys: Seq<JsonValue>, k: int) -> Seq<u8>
    decreases xs, 0int, xs@.len() - k,
{
    if k < 0 || k >= xs@.len() || ys.len() != xs@.len() {
        Seq::empty()
    } else if !json_matches(xs@[k], ys[k]) {
        joined_path(dec_seq(k), mismatch_path(xs@[k], ys[k]))
    } else {
        arr_mismatch_from(xs, ys, k + 1)
    }
}

/// The path of the first divergent pair at or after index `k`.
pub open spec fn obj_mismatch_from(xs: Vec<KeyValue>, ys: Seq<KeyValue>, k: int) -> Seq<u8>
    decreases xs, 0int, xs@.len() - k,
{
    if k < 0 || k >= xs@.len() {
        Seq::empty()
    } else if !kv_matched(xs@[k], ys) {
        kv_mismatch_path(xs@[k], ys)
    } else {
        obj_mismatch_from(xs, ys, k + 1)
    }
}

/// The path of one divergent pair: the key alone when the key is missing,
/// else the key joined with the divergence below it.
pub open spec fn kv_mismatch_path(kv: KeyValue, ys: Seq<KeyValue>) -> Seq<u8>
    decreases kv, 1int,
{
    match find_key(ys, kv.key.0.data@) {
        Option::Some(i) => joined_path(kv.key.0.data@, mismatch_path(kv.value, ys[i].value)),
        Option::None => kv.key.0.data@,
    }
}

proof fn lemma_arr_matches_iff(xs: Vec<JsonValue>, ys: Seq<JsonValue>, n: int)
    requires
        0 <= n <= xs@.len(),
        n <= ys.len(),
    ensures
        arr_matches(xs, ys, n) <==> (forall|i: int|
            0 <= i < n ==> json_matches(#[trigger] xs@[i], ys[i])),
    decreases n,
{
    if n > 0 {
        lemma_arr_matches_iff(xs, ys, n - 1);
    }
}

proof fn lemma_obj_matches_iff(xs: Vec<KeyValue>, ys: Seq<KeyValue>, n: int)
    requires
        0 <= n <= xs@.len(),
    ensures
        obj_matches(xs, ys, n) <==> (forall|i: int|
            0 <= i < n ==> kv_matched(#[trigger] xs@[i], ys)),
    decreases n,
{
    if n > 0 {
        lemma_obj_matches_iff(xs, ys, n - 1);
    }
}

/// The decimal digits of `n`, most significant first.
fn dec_digits(n: usize) -> (r: Vec<u8>)
    ensures
        all_digits(r@),
        dec_val(r@) == n,
        r@.len() >= 1,
        r@ == dec_seq(n as int),
    decreases n,
{
    if n < 10 {
        let mut v: Vec<u8> = Vec::new();
        v.push((n as u8) + 48);
        proof {
            assert(v@.take(0) =~= Seq::<u8>::empty());
            assert(v@[0] == n + 48);
            assert(dec_val(v@) == dec_val(v@.take(0)) * 10 + (v@[0] - 48));
            assert(v@ =~= dec_seq(n as int));
        }
        v
    } else {
        let mut v = dec_digits(n / 10);
        let ghost pre = v@;
        v.push((n % 10) as u8 + 48);
        proof {
            assert(v@.take(v@.len() - 1) =~= pre);
            assert(v@[v@.len() - 1] == n % 10 + 48);
            assert(dec_val(v@) == dec_val(pre) * 10 + (n % 10));
            assert(n as int == (n as int / 10) * 10 + (n as int % 10)) by (nonlinear_arith);
            assert(v@ =~= dec_seq(n as int));
        }
        v
    }
}

/// Extends `path` with a dot and the relative path `rel`, or leaves it as the
/// full path when `rel` is empty.
fn join_path(path: Vec<u8>, rel: Vec<u8>) -> (r: Vec<u8>)
    ensures
        r@ == joined_path(path@, rel@),
{
    let mut out = path;
    let ghost p0 = out@;
    if rel.len() == 0 {
        out
    } else {
        out.push(46);
        let mut i: usize = 0;
        while i < rel.len()
            invariant
                i <= rel@.len(),
                out@ == p0 + seq![46u8] + rel@.take(i as int),
            decreases rel@.len() - i,
        {
            out.push(rel[i]);
            proof {
                assert(out@ =~= p0 + seq![46u8] + rel@.take(i + 1 as int));
            }
            i = i + 1;
        }
        proof {
            assert(rel@.take(rel@.len() as int) =~= rel@);
        }
        out
    }
}

/// Compares `c` against `s`.  On divergence returns the dotted path of the
/// failing position, relative to `s`.
fn enforce_value(s: &JsonValue, c: &JsonValue) -> (r: Result<(), Vec<u8>>)
    ensures
        r is Ok <==> json_matches(*s, *c),
        r matches Err(p) ==> p@ == mismatch_path(*s, *c),
    decreases *s, 1int,
{
    match s {
        JsonValue::Redacted(_) => Ok(()),
        JsonValue::Null(_) => match c {
            JsonValue::Null(_) => Ok(()),
            _ => Err(Vec::new()),
        },
        JsonValue::Bool(a) => match c {
            JsonValue::Bool(b) => if bytes_eq(a.0.as_bytes(), b.0.as_bytes()) {
                Ok(())
            } else {
                Err(Vec::new())
            },
            _ => Err(Vec::new()),
        },
        JsonValue::Number(a) => match c {
            JsonValue::Number(b) => if bytes_eq(a.0.as_bytes(), b.0.as_bytes()) {
                Ok(())
            } else {
                Err(Vec::new())
            },
            _ => Err(Vec::new()),
        },
        JsonValue::String(a) => match c {
            JsonValue::String(b) => if bytes_eq(a.0.as_bytes(), b.0.as_bytes()) {
                Ok(())
            } else {
                Err(Vec::new())
            },
            _ => Err(Vec::new()),
        },
        JsonValue::Array(a) => match c {
            JsonValue::Array(b) => enforce_array(a, b),
            _ => Err(Vec::new()),
        },
        JsonValue::Object(a) => match c {
            JsonValue::Object(b) => enforce_object(a, b),
            _ => Err(Vec::new()),
        },
    }
}

/// Compares two arrays element by element.
fn enforce_array(a: &Array, b: &Array) -> (r: Result<(), Vec<u8>>)
    ensures
        r is Ok <==> (a.elems@.len() == b.elems@.len() && arr_matches(
            a.elems,
            b.elems@,
            a.elems@.len() as int,
        )),
        r matches Err(p) ==> p@ == (if a.elems@.len() != b.elems@.len() {
            Seq::<u8>::empty()
        } else {
            arr_mismatch_from(a.elems, b.elems@, 0)
        }),
    decreases *a, 0int,
{
    if a.elems.len() != b.elems.len() {
        proof {
            assert(a.elems@.len() != b.elems@.len());
        }
        return Err(Vec::new());
    }
    let mut i: usize = 0;
    while i < a.elems.len()
        invariant
            i <= a.elems@.len(),
            a.elems@.len() == b.elems@.len(),
            arr_mismatch_from(a.elems, b.elems@, 0) == arr_mismatch_from(a.elems, b.elems@, i as int),
            forall|j: int| 0 <= j < i ==> json_matches(#[trigger] a.elems@[j], b.elems@[j]),
        decreases a.elems@.len() - i,
    {
        match enforce_value(&a.elems[i], &b.elems[i]) {
            Ok(()) => {},
            Err(rel) => {
                proof {
                    lemma_arr_matches_iff(a.elems, b.elems@, a.elems@.len() as int);
                    assert(arr_mismatch_from(a.elems, b.elems@, i as int) == joined_path(
                        dec_seq(i as int),
                        mismatch_path(a.elems@[i as int], b.elems@[i as int]),
                    ));
                }
                return Err(join_path(dec_digits(i), rel));
            },
        }
        i = i + 1;
    }
    proof {
        lemma_arr_matches_iff(a.elems, b.elems@, a.elems@.len() as int);
    }
    Ok(())
}

/// Compares two objects: every structure key must be present in the
/// candidate with a matching value.
fn enforce_object(a: &Object, b: &Object) -> (r: Result<(), Vec<u8>>)
    ensures
        r is Ok <==> obj_matches(a.elems, b.elems@, a.elems@.len() as int),
        r matches Err(p) ==> p@ == obj_mismatch_from(a.elems, b.elems@, 0),
    decreases *a, 0int,
{
    let mut i: usize = 0;
    while i < a.elems.len()
        invariant
            i <= a.elems@.len(),
            obj_mismatch_from(a.elems, b.elems@, 0) == obj_mismatch_from(a.elems, b.elems@, i as int),
            forall|j: int| 0 <= j < i ==> kv_matched(#[trigger] a.elems@[j], b.elems@),
        decreases a.elems@.len() - i,
    {
        let kv = &a.elems[i];
        match find_key_exec(&b.elems, kv.key.0.as_bytes()) {
            None => {
                proof {
                    lemma_obj_matches_iff(a.elems, b.elems@, a.elems@.len() as int);
                    assert(!kv_matched(a.elems@[i as int], b.elems@));
                    assert(obj_mismatch_from(a.elems, b.elems@, i as int) == kv_mismatch_path(
                        a.elems@[i as int],
                        b.elems@,
                    ));
                }
                let mut key_path: Vec<u8> = Vec::new();
                let kb = kv.key.0.as_bytes();
                let mut k: usize = 0;
                while k < kb.len()
                    invariant
                        k <= kb@.len(),
                        kb@ == kv.key.0.data@,
                        key_path@ == kb@.take(k as int),
                    decreases kb@.len() - k,
                {
                    key_path.push(kb[k]);
                    proof {
                        assert(key_path@ =~= kb@.take(k + 1 as int));
                    }
                    k = k + 1;
                }
                proof {
                    assert(key_path@ =~= kv.key.0.data@);
                }
                return Err(key_path);
            },
            Some(m) => {
                match enforce_value(&kv.value, &b.elems[m].value) {
                    Ok(()) => {},
                    Err(rel) => {
                        proof {
                            lemma_obj_matches_iff(a.elems, b.elems@, a.elems@.len() as int);
                            assert(!kv_matched(a.elems@[i as int], b.elems@));
                            assert(obj_mismatch_from(a.elems, b.elems@, i as int)
                                == kv_mismatch_path(a.elems@[i as int], b.elems@));
                        }
                        let mut key_path: Vec<u8> = Vec::new();
                        let kb = kv.key.0.as_bytes();
                        let mut k: usize = 0;
                        while k < kb.len()
                            invariant
                                k <= kb@.len(),
                                kb@ == kv.key.0.data@,
                                key_path@ == kb@.take(k as int),
                            decreases kb@.len() - k,
                        {
                            key_path.push(kb[k]);
                            proof {
                                assert(key_path@ =~= kb@.take(k + 1 as int));
                            }
                            k = k + 1;
                        }
                        proof {
                            assert(key_path@ =~= kv.key.0.data@);
                        }
                        return Err(join_path(key_path, rel));
                    },
                }
            },
        }
        i = i + 1;
    }
    proof {
        lemma_obj_matches_iff(a.elems, b.elems@, a.elems@.len() as int);
    }
    Ok(())
}

/// A visitor that checks a candidate JSON tree against a structure template.
pub trait JsonContextEnforcer {
    /// Compares a candidate value against a structure value.  Succeeds
    /// exactly when the candidate matches the template; on divergence the
    /// error names the dotted path of the failing position.
    fn visit_value(&mut self, structure: &JsonValue, value: &JsonValue) -> (r: Result<
        (),
        EnforceError,
    >)
        ensures
            r is Ok <==> json_matches(*structure, *value),
            r matches Err(e) ==> (e matches EnforceError::StructureMismatch { path } && path@
                == mismatch_path(*structure, *value)),
    ;

    /// Compares a candidate object against a structure object.
    fn visit_object(&mut self, structure: &Object, value: &Object) -> (r: Result<
        (),
        EnforceError,
    >)
        ensures
            r is Ok <==> obj_matches(structure.elems, value.elems@, structure.elems@.len() as int),
            r matches Err(e) ==> (e matches EnforceError::StructureMismatch { path } && path@
                == obj_mismatch_from(structure.elems, value.elems@, 0)),
    ;

    /// Compares a candidate array against a structure array.
    fn visit_array(&mut self, structure: &Array, value: &Array) -> (r: Result<(), EnforceError>)
        ensures
            r is Ok <==> (structure.elems@.len() == value.elems@.len() && arr_matches(
                structure.elems,
                value.elems@,
                structure.elems@.len() as int,
            )),
            r matches Err(e) ==> (e matches EnforceError::StructureMismatch { path } && path@
                == (if structure.elems@.len() != value.elems@.len() {
                Seq::<u8>::empty()
            } else {
                arr_mismatch_from(structure.elems, value.elems@, 0)
            })),
    ;
}

/// The default JSON context enforcer.
#[derive(Debug, Default)]
pub struct DefaultJsonContextEnforcer {}

impl JsonContextEnforcer for DefaultJsonContextEnforcer {
    fn visit_value(&mut self, structure: &JsonValue, value: &JsonValue) -> (r: Result<
        (),
        EnforceError,
    >) {
        match enforce_value(structure, value) {
            Ok(()) => Ok(()),
            Err(path) => Err(EnforceError::StructureMismatch { path }),
        }
    }

    fn visit_object(&mut self, structure: &Object, value: &Object) -> (r: Result<
        (),
        EnforceError,
    >) {
        match enforce_object(structure, value) {
            Ok(()) => Ok(()),
            Err(path) => Err(EnforceError::StructureMismatch { path }),
        }
    }

    fn visit_array(&mut self, structure: &Array, value: &Array) -> (r: Result<(), EnforceError>) {
        match enforce_array(structure, value) {
            Ok(()) => Ok(()),
            Err(path) => Err(EnforceError::StructureMismatch { path }),
        }
    }
}

} // verus!
