//! The JSON context record: the enforced JSON value and its canonical
//! serialization, in which redacted leaves surface as the string
//! `"__REDACTED__"`.

use vstd::prelude::*;
use crate::json::{JsonValue, KeyValue};

verus! {

broadcast use vstd::std_specs::vec::axiom_vec_index_decreases;

/// The canonical rendering of a JSON number token, when the `serde_json`
/// number grammar accepts it.
pub uninterp spec fn canon_num(s: Seq<u8>) -> Option<Seq<u8>>;

/// Relies on `serde_json::from_str::<serde_json::Number>` and
/// `Number::to_string`: re-rendering a number token is a pure function of
/// its bytes.  Integers within machine range re-render exactly; all other
/// number tokens re-render through their floating-point value, as the
/// integer-then-float policy directs, and tokens neither grammar accepts
/// fall back to their raw text.
#[verifier::external_body]
fn canonical_number(s: &[u8]) -> (r: Option<Vec<u8>>)
    ensures
        match r {
            Option::Some(v) => canon_num(s@) == Option::Some(v@),
            Option::None => canon_num(s@) is None,
        },
{
    let txt = match core::str::from_utf8(s) {
        Ok(t) => t,
        Err(_) => return None,
    };
    match serde_json::from_str::<serde_json::Number>(txt) {
        Ok(n) => Some(n.to_string().into_bytes()),
        Err(_) => None,
    }
}

/// The hexadecimal digit of `d`.
pub open spec fn hex_digit(d: u8) -> u8 {
    if d < 10 {
        (48 + d) as u8
    } else {
        (87 + d) as u8
    }
}

/// The canonical escape of one string byte: quotes and backslashes escaped,
/// common control characters by letter, other control characters in hex.
pub open spec fn escaped_byte(b: u8) -> Seq<u8> {
    if b == 34 {
        seq![92u8, 34u8]
    } else if b == 92 {
        seq![92u8, 92u8]
    } else if b == 8 {
        seq![92u8, 98u8]
    } else if b == 9 {
        seq![92u8, 116u8]
    } else if b == 10 {
        seq![92u8, 110u8]
    } else if b == 12 {
        seq![92u8, 102u8]
    } else if b == 13 {
        seq![92u8, 114u8]
    } else if b < 32 {
        seq![92u8, 117u8, 48u8, 48u8, hex_digit(b / 16), hex_digit(b % 16)]
    } else {
        seq![b]
    }
}

/// The canonical escape of a byte string.
pub open spec fn escaped(s: Seq<u8>) -> Seq<u8>
    decreases s.len(),
{
    if s.len() == 0 {
        Seq::empty()
    } else {
        escaped(s.take(s.len() - 1)) + escaped_byte(s[s.len() - 1])
    }
}

/// The byte string as a quoted, escaped JSON string.
pub open spec fn quoted(s: Seq<u8>) -> Seq<u8> {
    seq![34u8] + escaped(s) + seq![34u8]
}

/// The bytes standing for a redacted leaf.
pub open spec fn redacted_marker() -> Seq<u8> {
    seq![95u8, 95u8, 82u8, 69u8, 68u8, 65u8, 67u8, 84u8, 69u8, 68u8, 95u8, 95u8]
}

/// The canonical serialization of a JSON value: redacted leaves become the
/// string `"__REDACTED__"`, booleans normalize to `true`/`false`, numbers
/// re-render through the JSON number grammar and fall back to their raw text
/// as a string, and composites keep their source order.
pub open spec fn canonical_json(v: JsonValue) -> Seq<u8>
    decreases v, 1int,
{
    match v {
        JsonValue::Null(_) => seq![110u8, 117u8, 108u8, 108u8],
        JsonValue::Bool(b) => if b.0.data@ == seq![116u8, 114u8, 117u8, 101u8] {
            seq![116u8, 114u8, 117u8, 101u8]
        } else {
            seq![102u8, 97u8, 108u8, 115u8, 101u8]
        },
        JsonValue::Number(n) => match canon_num(n.0.data@) {
            Option::Some(c) => c,
            Option::None => quoted(n.0.data@),
        },
        JsonValue::String(s) => quoted(s.0.data@),
        JsonValue::Redacted(_) => quoted(redacted_marker()),
        JsonValue::Array(a) => seq![91u8] + arr_canon(a.elems, a.elems@.len() as int) + seq![93u8],
        JsonValue::Object(o) => seq![123u8] + obj_canon(o.elems, o.elems@.len() as int) + seq![
            125u8,
        ],
    }
}

/// The canonical serialization of the first `n` array elements, joined by
/// commas.
pub open spec fn arr_canon(es: Vec<JsonValue>, n: int) -> Seq<u8>
    decreases es, 0int, n,
{
    if n <= 0 || es@.len() < n {
        Seq::empty()
    } else if n == 1 {
        canonical_json(es@[0])
    } else {
        arr_canon(es, n - 1) + seq![44u8] + canonical_json(es@[n - 1])
    }
}

/// The canonical serialization of the first `n` object pairs, joined by
/// commas.
pub open spec fn obj_canon(es: Vec<KeyValue>, n: int) -> Seq<u8>
    decreases es, 0int, n,
{
    if n <= 0 || es@.len() < n {
        Seq::empty()
    } else if n == 1 {
        kv_canon(es@[0])
    } else {
        obj_canon(es, n - 1) + seq![44u8] + kv_canon(es@[n - 1])
    }
}

/// The canonical serialization of one pair: quoted key, colon, value.
pub open spec fn kv_canon(kv: KeyValue) -> Seq<u8>
    decreases kv, 1int,
{
    quoted(kv.key.0.data@) + seq![58u8] + canonical_json(kv.value)
}

/// Appends the canonical escape of `s` to `out`.
fn write_escaped(out: &mut Vec<u8>, s: &[u8])
    ensures
        final(out)@ == old(out)@ + escaped(s@),
{
    let ghost start = out@;
    let mut i: usize = 0;
    while i < s.len()
        invariant
            i <= s@.len(),
            out@ == start + escaped(s@.take(i as int)),
        decreases s@.len() - i,
    {
        let ghost before = out@;
        let b = s[i];
        if b == 34 {
            out.push(92);
            out.push(34);
        } else if b == 92 {
            out.push(92);
            out.push(92);
        } else if b == 8 {
            out.push(92);
            out.push(98);
        } else if b == 9 {
            out.push(92);
            out.push(116);
        } else if b == 10 {
            out.push(92);
            out.push(110);
        } else if b == 12 {
            out.push(92);
            out.push(102);
        } else if b == 13 {
            out.push(92);
            out.push(114);
        } else if b < 32 {
            out.push(92);
            out.push(117);
            out.push(48);
            out.push(48);
            let hi = b / 16;
            let lo = b % 16;
            out.push(
                if hi < 10 {
                    48 + hi
                } else {
                    87 + hi
                },
            );
            out.push(
                if lo < 10 {
                    48 + lo
                } else {
                    87 + lo
                },
            );
        } else {
            out.push(b);
        }
        proof {
            assert(out@ =~= before + escaped_byte(s@[i as int]));
            assert(s@.take(i + 1 as int).take(i as int) =~= s@.take(i as int));
            assert(s@.take(i + 1 as int)[i as int] == s@[i as int]);
            assert(out@ =~= start + escaped(s@.take(i + 1 as int)));
        }
        i = i + 1;
    }
    proof {
        assert(s@.take(s@.len() as int) =~= s@);
    }
}

/// Appends `s` to `out`.
fn write_bytes(out: &mut Vec<u8>, s: &[u8])
    ensures
        final(out)@ == old(out)@ + s@,
{
    let ghost start = out@;
    let mut i: usize = 0;
    while i < s.len()
        invariant
            i <= s@.len(),
            out@ == start + s@.take(i as int),
        decreases s@.len() - i,
    {
        out.push(s[i]);
        proof {
            assert(out@ =~= start + s@.take(i + 1 as int));
        }
        i = i + 1;
    }
    proof {
        assert(s@.take(s@.len() as int) =~= s@);
    }
}

/// Appends the quoted, escaped form of `s` to `out`.
fn write_quoted(out: &mut Vec<u8>, s: &[u8])
    ensures
        final(out)@ == old(out)@ + quoted(s@),
{
    let ghost start = out@;
    out.push(34);
    write_escaped(out, s);
    out.push(34);
    proof {
        assert(out@ =~= start + quoted(s@));
    }
}

/// Appends the canonical serialization of `v` to `out`.
fn write_value(out: &mut Vec<u8>, v: &JsonValue)
    ensures
        final(out)@ == old(out)@ + canonical_json(*v),
    decreases *v,
{
    let ghost start = out@;
    match v {
        JsonValue::Null(_) => {
            out.push(110);
            out.push(117);
            out.push(108);
            out.push(108);
            proof {
                assert(out@ =~= start + canonical_json(*v));
            }
        },
        JsonValue::Bool(b) => {
            let bs = b.0.as_bytes();
            let is_true = bs.len() == 4 && bs[0] == 116 && bs[1] == 114 && bs[2] == 117 && bs[3]
                == 101;
            if is_true {
                proof {
                    assert(b.0.data@ =~= seq![116u8, 114u8, 117u8, 101u8]);
                }
                out.push(116);
                out.push(114);
                out.push(117);
                out.push(101);
            } else {
                proof {
                    assert(b.0.data@ != seq![116u8, 114u8, 117u8, 101u8]);
                }
                out.push(102);
                out.push(97);
                out.push(108);
                out.push(115);
                out.push(101);
            }
            proof {
                assert(out@ =~= start + canonical_json(*v));
            }
        },
        JsonValue::Number(n) => {
            match canonical_number(n.0.as_bytes()) {
                Some(c) => {
                    write_bytes(out, c.as_slice());
                },
                None => {
                    write_quoted(out, n.0.as_bytes());
                },
            }
            proof {
                assert(out@ =~= start + canonical_json(*v));
            }
        },
        JsonValue::String(s) => {
            write_quoted(out, s.0.as_bytes());
            proof {
                assert(out@ =~= start + canonical_json(*v));
            }
        },
        JsonValue::Redacted(_) => {
            let marker: Vec<u8> = vec![95u8, 95, 82, 69, 68, 65, 67, 84, 69, 68, 95, 95];
            proof {
                assert(marker@ =~= redacted_marker());
            }
            write_quoted(out, marker.as_slice());
            proof {
                assert(out@ =~= start + canonical_json(*v));
            }
        },
        JsonValue::Array(a) => {
            out.push(91);
            let mut i: usize = 0;
            while i < a.elems.len()
                invariant
                    i <= a.elems@.len(),
                    v == &JsonValue::Array(*a),
                    out@ == start + seq![91u8] + arr_canon(a.elems, i as int),
                decreases a.elems@.len() - i,
            {
                if i > 0 {
                    out.push(44);
                }
                proof {
                    assert(decreases_to!(*v => (*v)->Array_0));
                    assert(decreases_to!((*v)->Array_0 => (*v)->Array_0.elems));
                    assert(decreases_to!(a.elems => a.elems[i as int]));
                    assert(decreases_to!(*v => a.elems@[i as int]));
                }
                write_value(out, &a.elems[i]);
                proof {
                    assert(out@ =~= start + seq![91u8] + arr_canon(a.elems, i + 1 as int));
                }
                i = i + 1;
            }
            out.push(93);
            proof {
                assert(out@ =~= start + canonical_json(*v));
            }
        },
        JsonValue::Object(o) => {
            out.push(123);
            let mut i: usize = 0;
            while i < o.elems.len()
                invariant
                    i <= o.elems@.len(),
                    v == &JsonValue::Object(*o),
                    out@ == start + seq![123u8] + obj_canon(o.elems, i as int),
                decreases o.elems@.len() - i,
            {
                if i > 0 {
                    out.push(44);
                }
                let kv = &o.elems[i];
                write_quoted(out, kv.key.0.as_bytes());
                out.push(58);
                proof {
                    assert(decreases_to!(*v => (*v)->Object_0));
                    assert(decreases_to!((*v)->Object_0 => (*v)->Object_0.elems));
                    assert(decreases_to!(o.elems => o.elems[i as int]));
                    assert(decreases_to!(o.elems[i as int] => o.elems[i as int].value));
                    assert(decreases_to!(*v => o.elems@[i as int].value));
                }
                write_value(out, &kv.value);
                proof {
                    assert(out@ =~= start + seq![123u8] + obj_canon(o.elems, i + 1 as int)) by {
                        assert(o.elems@[i as int] == *kv);
                        if i == 0 {
                            assert(obj_canon(o.elems, 1int) == kv_canon(o.elems@[0]));
                        } else {
                            assert(obj_canon(o.elems, i + 1 as int) == obj_canon(o.elems, i as int)
                                + seq![44u8] + kv_canon(o.elems@[i as int]));
                        }
                        assert(kv_canon(o.elems@[i as int]) == quoted(kv.key.0.data@) + seq![58u8]
                            + canonical_json(kv.value));
                    }
                }
                i = i + 1;
            }
            out.push(125);
            proof {
                assert(out@ =~= start + canonical_json(*v));
            }
        },
    }
}

/// The JSON context: an enforced JSON value, read-only after construction.
#[derive(Debug)]
pub struct JsonContext {
    /// The enforced value.
    pub value: JsonValue,
}

impl JsonContext {
    /// Creates a new builder.
    pub fn builder(value: JsonValue) -> (r: JsonContextBuilder)
        ensures
            r.value == value,
    {
        JsonContextBuilder::new(value)
    }

    /// The canonical serialization of the context.
    pub fn to_canonical_bytes(&self) -> (r: Vec<u8>)
        ensures
            r@ == canonical_json(self.value),
    {
        let mut out: Vec<u8> = Vec::new();
        write_value(&mut out, &self.value);
        proof {
            assert(out@ =~= canonical_json(self.value));
        }
        out
    }
}

/// Builder for [`JsonContext`].
#[derive(Debug)]
pub struct JsonContextBuilder {
    /// The value the context will hold.
    pub value: JsonValue,
}

impl JsonContextBuilder {
    /// Creates a new builder.
    pub fn new(value: JsonValue) -> (r: JsonContextBuilder)
        ensures
            r.value == value,
    {
        JsonContextBuilder { value }
    }

    /// Builds the context.
    pub fn build(self) -> (r: JsonContext)
        ensures
            r.value == self.value,
    {
        JsonContext { value: self.value }
    }
}

/// The default serialization visitor: renders a JSON value canonically.
#[derive(Debug, Default)]
pub struct DefaultJsonSerializationVisitor {}

impl DefaultJsonSerializationVisitor {
    /// Renders `v` as canonical JSON text.
    pub fn visit_value(&mut self, v: &JsonValue) -> (r: Vec<u8>)
        ensures
            r@ == canonical_json(*v),
    {
        let mut out: Vec<u8> = Vec::new();
        write_value(&mut out, v);
        proof {
            assert(out@ =~= canonical_json(*v));
        }
        out
    }
}

} // verus!
