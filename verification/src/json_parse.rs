//! The JSON span parser: parses a byte slice into a [`JsonValue`] tree whose
//! every node carries its byte range, recognizing contiguous sentinel runs as
//! redacted nodes.

use vstd::prelude::*;
use crate::errors::ParseError;
use crate::json::{
    elems_ordered, json_in_buf, json_wf, kv_in_buf, kv_wf, kvs_ordered, lemma_elems_in_buf_iff,
    lemma_elems_wf_iff, lemma_kvs_in_buf_iff, lemma_kvs_wf_iff, Array, Bool, JsonKey, JsonString,
    JsonValue, KeyValue, Null, Number, Object, Redacted,
};
use crate::span::Span;
use vstd::string::StringSliceAdditionalSpecFns;

verus! {

broadcast use vstd::std_specs::vec::axiom_vec_index_decreases;

/// Whether `b` is a redaction sentinel: an asterisk or a NUL byte.
pub open spec fn is_sentinel(b: u8) -> bool {
    b == 42 || b == 0
}

/// Whether `b` is JSON insignificant whitespace.
pub open spec fn is_ws(b: u8) -> bool {
    b == 32 || b == 9 || b == 10 || b == 13
}

/// Whether `b` is a decimal digit.
pub open spec fn is_digit(b: u8) -> bool {
    48 <= b <= 57
}

/// Whether `b` can appear in a primitive token: letters, digits, signs, the
/// decimal point, and the sentinels.
pub open spec fn is_token_byte(b: u8) -> bool {
    ||| is_digit(b)
    ||| 97 <= b <= 122
    ||| 65 <= b <= 90
    ||| b == 43
    ||| b == 45
    ||| b == 46
    ||| is_sentinel(b)
}

/// Exec mirror of [`is_sentinel`].
pub fn sentinel_byte(b: u8) -> (r: bool)
    ensures
        r == is_sentinel(b),
{
    b == 42 || b == 0
}

fn ws_byte(b: u8) -> (r: bool)
    ensures
        r == is_ws(b),
{
    b == 32 || b == 9 || b == 10 || b == 13
}

fn token_byte(b: u8) -> (r: bool)
    ensures
        r == is_token_byte(b),
{
    (48 <= b && b <= 57) || (97 <= b && b <= 122) || (65 <= b && b <= 90) || b == 43 || b == 45
        || b == 46 || b == 42 || b == 0
}

/// The index of the first non-whitespace byte at or after `i`, or `s.len()`.
pub open spec fn ws_end(s: Seq<u8>, i: int) -> int
    decreases s.len() - i,
{
    if 0 <= i < s.len() && is_ws(s[i]) {
        ws_end(s, i + 1)
    } else {
        i
    }
}

proof fn lemma_ws_end_at(s: Seq<u8>, i: int, j: int)
    requires
        0 <= i <= j <= s.len(),
        forall|k: int| i <= k < j ==> is_ws(#[trigger] s[k]),
        j < s.len() ==> !is_ws(s[j]),
    ensures
        ws_end(s, i) == j,
    decreases j - i,
{
    if i < j {
        lemma_ws_end_at(s, i + 1, j);
    }
}

/// The first non-whitespace index lies between `i` and the end.
pub proof fn lemma_ws_end_bounds(s: Seq<u8>, i: int)
    requires
        0 <= i <= s.len(),
    ensures
        i <= ws_end(s, i) <= s.len(),
    decreases s.len() - i,
{
    if i < s.len() && is_ws(s[i]) {
        lemma_ws_end_bounds(s, i + 1);
    }
}

/// The index of the first non-token byte at or after `i`, or `s.len()`.
pub open spec fn token_end(s: Seq<u8>, i: int) -> int
    decreases s.len() - i,
{
    if 0 <= i < s.len() && is_token_byte(s[i]) {
        token_end(s, i + 1)
    } else {
        i
    }
}

proof fn lemma_token_end_at(s: Seq<u8>, i: int, j: int)
    requires
        0 <= i <= j <= s.len(),
        forall|k: int| i <= k < j ==> is_token_byte(#[trigger] s[k]),
        j < s.len() ==> !is_token_byte(s[j]),
    ensures
        token_end(s, i) == j,
    decreases j - i,
{
    if i < j {
        lemma_token_end_at(s, i + 1, j);
    }
}

/// The end of a string's content lies between its start and the end of the
/// buffer whenever the string is terminated.
pub proof fn lemma_str_end_bounds(s: Seq<u8>, i: int)
    requires
        0 <= i,
    ensures
        str_end(s, i) == -1 || (i <= str_end(s, i) < s.len()),
    decreases s.len() - i,
{
    if i < s.len() {
        if s[i] == 34 {
        } else if s[i] == 92 {
            if i + 1 < s.len() {
                lemma_str_end_bounds(s, i + 2);
            }
        } else {
            lemma_str_end_bounds(s, i + 1);
        }
    }
}

/// Skips insignificant whitespace from `pos`.
fn skip_ws(buf: &[u8], pos: usize) -> (r: usize)
    requires
        pos <= buf@.len(),
    ensures
        pos <= r <= buf@.len(),
        forall|j: int| pos <= j < r ==> is_ws(buf@[j]),
        r < buf@.len() ==> !is_ws(buf@[r as int]),
        r == ws_end(buf@, pos as int),
{
    let mut i = pos;
    while i < buf.len()
        invariant
            pos <= i <= buf@.len(),
            forall|j: int| pos <= j < i ==> is_ws(buf@[j]),
        decreases buf@.len() - i,
    {
        if !ws_byte(buf[i]) {
            proof {
                lemma_ws_end_at(buf@, pos as int, i as int);
            }
            return i;
        }
        i = i + 1;
    }
    proof {
        lemma_ws_end_at(buf@, pos as int, buf@.len() as int);
    }
    i
}

/// Scans the maximal run of token bytes from `pos`.
fn scan_token(buf: &[u8], pos: usize) -> (r: usize)
    requires
        pos <= buf@.len(),
    ensures
        pos <= r <= buf@.len(),
        forall|j: int| pos <= j < r ==> is_token_byte(buf@[j]),
        r < buf@.len() ==> !is_token_byte(buf@[r as int]),
        r == token_end(buf@, pos as int),
{
    let mut i = pos;
    while i < buf.len()
        invariant
            pos <= i <= buf@.len(),
            forall|j: int| pos <= j < i ==> is_token_byte(buf@[j]),
        decreases buf@.len() - i,
    {
        if !token_byte(buf[i]) {
            proof {
                lemma_token_end_at(buf@, pos as int, i as int);
            }
            return i;
        }
        i = i + 1;
    }
    proof {
        lemma_token_end_at(buf@, pos as int, buf@.len() as int);
    }
    i
}

/// Whether any byte of `buf[lo..hi]` is a sentinel.
fn has_sentinel(buf: &[u8], lo: usize, hi: usize) -> (r: bool)
    requires
        lo <= hi <= buf@.len(),
    ensures
        r == exists|j: int| lo <= j < hi && is_sentinel(#[trigger] buf@[j]),
{
    let mut i = lo;
    while i < hi
        invariant
            lo <= i <= hi <= buf@.len(),
            forall|j: int| lo <= j < i ==> !is_sentinel(#[trigger] buf@[j]),
        decreases hi - i,
    {
        if sentinel_byte(buf[i]) {
            return true;
        }
        i = i + 1;
    }
    false
}

/// Whether every byte of `buf[lo..hi]` is a sentinel.
pub fn all_sentinel(buf: &[u8], lo: usize, hi: usize) -> (r: bool)
    requires
        lo <= hi <= buf@.len(),
    ensures
        r == forall|j: int| lo <= j < hi ==> is_sentinel(#[trigger] buf@[j]),
{
    let mut i = lo;
    while i < hi
        invariant
            lo <= i <= hi <= buf@.len(),
            forall|j: int| lo <= j < i ==> is_sentinel(#[trigger] buf@[j]),
        decreases hi - i,
    {
        if !sentinel_byte(buf[i]) {
            return false;
        }
        i = i + 1;
    }
    true
}

/// The index of the first non-digit at or after `i`, or `s.len()`.
pub open spec fn digits_end(s: Seq<u8>, i: int) -> int
    decreases s.len() - i,
{
    if 0 <= i < s.len() && is_digit(s[i]) {
        digits_end(s, i + 1)
    } else {
        i
    }
}

proof fn lemma_digits_end_at(s: Seq<u8>, i: int, j: int)
    requires
        0 <= i <= j <= s.len(),
        forall|k: int| i <= k < j ==> is_digit(#[trigger] s[k]),
        j < s.len() ==> !is_digit(s[j]),
    ensures
        digits_end(s, i) == j,
    decreases j - i,
{
    if i < j {
        lemma_digits_end_at(s, i + 1, j);
    }
}

/// Scans digits from `pos`, returning the end of the run.
fn scan_digits(buf: &[u8], pos: usize) -> (r: usize)
    requires
        pos <= buf@.len(),
    ensures
        pos <= r <= buf@.len(),
        r == digits_end(buf@, pos as int),
{
    let mut i = pos;
    while i < buf.len()
        invariant
            pos <= i <= buf@.len(),
            forall|k: int| pos <= k < i ==> is_digit(#[trigger] buf@[k]),
        decreases buf@.len() - i,
    {
        if buf[i] < 48 || buf[i] > 57 {
            proof {
                lemma_digits_end_at(buf@, pos as int, i as int);
            }
            return i;
        }
        i = i + 1;
    }
    proof {
        lemma_digits_end_at(buf@, pos as int, buf@.len() as int);
    }
    i
}

/// Whether `s` is a number of the JSON grammar: an optional minus sign, an
/// integer part without leading zero, an optional fraction, an optional
/// exponent.
pub open spec fn number_ok(s: Seq<u8>) -> bool {
    let i0: int = if s.len() > 0 && s[0] == 45 {
        1
    } else {
        0
    };
    let i1 = digits_end(s, i0);
    if i1 == i0 {
        false
    } else if s[i0] == 48 && i1 > i0 + 1 {
        false
    } else {
        let i2: int = if i1 < s.len() && s[i1] == 46 {
            let f = digits_end(s, i1 + 1);
            if f == i1 + 1 {
                -1
            } else {
                f
            }
        } else {
            i1
        };
        if i2 < 0 {
            false
        } else {
            let i3: int = if i2 < s.len() && (s[i2] == 101 || s[i2] == 69) {
                let e0: int = if i2 + 1 < s.len() && (s[i2 + 1] == 43 || s[i2 + 1] == 45) {
                    i2 + 2
                } else {
                    i2 + 1
                };
                let e = digits_end(s, e0);
                if e == e0 {
                    -1
                } else {
                    e
                }
            } else {
                i2
            };
            i3 >= 0 && i3 == s.len()
        }
    }
}

proof fn lemma_digits_end_ge(s: Seq<u8>, i: int)
    ensures
        digits_end(s, i) >= i,
    decreases s.len() - i,
{
    if 0 <= i < s.len() && is_digit(s[i]) {
        lemma_digits_end_ge(s, i + 1);
    }
}

proof fn lemma_digits_end_subrange(s: Seq<u8>, lo: int, hi: int, i: int)
    requires
        0 <= lo <= i <= hi <= s.len(),
    ensures
        digits_end(s.subrange(lo, hi), i - lo) == if digits_end(s, i) <= hi {
            digits_end(s, i) - lo
        } else {
            hi - lo
        },
    decreases s.len() - i,
{
    let sub = s.subrange(lo, hi);
    lemma_digits_end_ge(s, i);
    if i < hi && is_digit(s[i]) {
        assert(sub[i - lo] == s[i]);
        lemma_digits_end_subrange(s, lo, hi, i + 1);
    } else if i < hi {
        assert(!is_digit(sub[i - lo]));
    } else {
        assert(digits_end(sub, i - lo) == i - lo);
    }
}

/// Validates a number token against the JSON grammar.
fn check_number(buf: &[u8], lo: usize, hi: usize) -> (r: bool)
    requires
        lo <= hi <= buf@.len(),
    ensures
        r == number_ok(buf@.subrange(lo as int, hi as int)),
{
    let ghost s = buf@.subrange(lo as int, hi as int);
    let i0: usize = if hi > lo && buf[lo] == 45 {
        lo + 1
    } else {
        lo
    };
    if i0 >= hi {
        proof {
            lemma_digits_end_at(s, i0 - lo, i0 - lo);
        }
        return false;
    }
    let d1 = scan_digits(buf, i0);
    let i1 = if d1 > hi {
        hi
    } else {
        d1
    };
    proof {
        lemma_digits_end_subrange(buf@, lo as int, hi as int, i0 as int);
    }
    if i1 == i0 {
        return false;
    }
    if buf[i0] == 48 && i1 > i0 + 1 {
        return false;
    }
    let i2: usize = if i1 < hi && buf[i1] == 46 {
        let f = scan_digits(buf, i1 + 1);
        let f = if f > hi {
            hi
        } else {
            f
        };
        proof {
            lemma_digits_end_subrange(buf@, lo as int, hi as int, i1 + 1 as int);
        }
        if f == i1 + 1 {
            return false;
        }
        f
    } else {
        i1
    };
    let i3: usize = if i2 < hi && (buf[i2] == 101 || buf[i2] == 69) {
        let e0: usize = if i2 + 1 < hi && (buf[i2 + 1] == 43 || buf[i2 + 1] == 45) {
            i2 + 2
        } else {
            i2 + 1
        };
        let e = scan_digits(buf, e0);
        let e = if e > hi {
            hi
        } else {
            e
        };
        proof {
            lemma_digits_end_subrange(buf@, lo as int, hi as int, e0 as int);
        }
        if e == e0 {
            return false;
        }
        e
    } else {
        i2
    };
    i3 == hi
}

/// The position of the closing quote of string content starting at `i`, or
/// `-1` when the string is unterminated.  A backslash escapes the following
/// byte.
pub open spec fn str_end(s: Seq<u8>, i: int) -> int
    decreases s.len() - i,
{
    if i < 0 || i >= s.len() {
        -1
    } else if s[i] == 34 {
        i
    } else if s[i] == 92 {
        if i + 1 < s.len() {
            str_end(s, i + 2)
        } else {
            -1
        }
    } else {
        str_end(s, i + 1)
    }
}

/// Scans string content from `pos` to its closing quote.
fn scan_string(buf: &[u8], pos: usize) -> (r: Result<usize, ParseError>)
    requires
        pos <= buf@.len(),
    ensures
        r matches Ok(e) ==> pos <= e < buf@.len() && str_end(buf@, pos as int) == e as int,
        r is Err ==> str_end(buf@, pos as int) == -1 && r == Err::<usize, ParseError>(
            ParseError::UnexpectedEnd,
        ),
{
    let mut i = pos;
    while i < buf.len()
        invariant
            pos <= i,
            i <= buf@.len() + 1,
            str_end(buf@, pos as int) == str_end(buf@, i as int),
        decreases buf@.len() - i,
    {
        let b = buf[i];
        if b == 34 {
            return Ok(i);
        }
        if b == 92 {
            if i + 1 >= buf.len() {
                return Err(ParseError::UnexpectedEnd);
            }
            i = i + 2;
        } else {
            i = i + 1;
        }
    }
    Err(ParseError::UnexpectedEnd)
}

/// The node and the end of the bytes consumed for it stand in the stated
/// relation to the buffer.
pub open spec fn parsed_ok(v: JsonValue, buf: Seq<u8>, pos: int, end: int) -> bool {
    &&& json_wf(v)
    &&& json_in_buf(v, buf)
    &&& pos <= v.span_spec().start
    &&& v.span_spec().start <= v.span_spec().end <= end
    &&& pos < end <= buf.len()
}

/// The end of the primitive token standing at `pos`, when it is a sentinel
/// run, a literal, or a number of the grammar.
pub open spec fn prim_end(s: Seq<u8>, pos: int) -> Option<int> {
    let e = token_end(s, pos);
    let tok = s.subrange(pos, e);
    if crate::json::holds_sentinel(tok) {
        Option::Some(e)
    } else if tok == seq![116u8, 114u8, 117u8, 101u8] || tok == seq![
        102u8,
        97u8,
        108u8,
        115u8,
        101u8,
    ] || tok == seq![110u8, 117u8, 108u8, 108u8] {
        Option::Some(e)
    } else if number_ok(tok) {
        Option::Some(e)
    } else {
        Option::None
    }
}

/// The end of the string token opening at `pos`, when it is terminated.
pub open spec fn str_token_end(s: Seq<u8>, pos: int) -> Option<int> {
    let e = str_end(s, pos + 1);
    if e >= 0 {
        Option::Some(e + 1)
    } else {
        Option::None
    }
}

/// The position after the JSON value standing at `pos`, or nothing when the
/// bytes there violate the grammar.  This is the grammar the parser decides.
pub open spec fn value_end(s: Seq<u8>, pos: int) -> Option<int>
    decreases s.len() - pos, 2int,
    when 0 <= pos <= s.len()
{
    if !(pos < s.len()) {
        Option::None
    } else {
        let b = s[pos];
        if b == 123 {
            obj_end(s, pos)
        } else if b == 91 {
            arr_end(s, pos)
        } else if b == 34 {
            str_token_end(s, pos)
        } else if is_token_byte(b) {
            prim_end(s, pos)
        } else {
            Option::None
        }
    }
}

/// The position after the object opening at `pos`.
pub open spec fn obj_end(s: Seq<u8>, pos: int) -> Option<int>
    decreases s.len() - pos, 1int,
    when 0 <= pos < s.len()
{
    let c = ws_end(s, pos + 1);
    proof {
        lemma_ws_end_bounds(s, pos + 1);
    }
    if !(c < s.len()) {
        Option::None
    } else if s[c] == 125 {
        Option::Some(c + 1)
    } else {
        obj_pairs_end(s, c)
    }
}

/// The position after the remaining pairs and closing brace, starting at a
/// key position.
pub open spec fn obj_pairs_end(s: Seq<u8>, cur: int) -> Option<int>
    decreases s.len() - cur, 3int,
    when 0 <= cur <= s.len()
{
    if !(cur < s.len()) {
        Option::None
    } else if s[cur] != 34 {
        Option::None
    } else {
        let ke = str_end(s, cur + 1);
        proof {
            lemma_str_end_bounds(s, cur + 1);
        }
        if ke < 0 {
            Option::None
        } else {
            let q = ws_end(s, ke + 1);
            proof {
                lemma_ws_end_bounds(s, ke + 1);
            }
            if !(q < s.len() && s[q] == 58) {
                Option::None
            } else {
                let p = ws_end(s, q + 1);
                proof {
                    lemma_ws_end_bounds(s, q + 1);
                }
                match value_end(s, p) {
                    Option::None => Option::None,
                    Option::Some(vend) => if !(p < vend <= s.len()) {
                        Option::None
                    } else {
                        let c2 = ws_end(s, vend);
                        proof {
                            lemma_ws_end_bounds(s, vend);
                        }
                        if !(c2 < s.len()) {
                            Option::None
                        } else if s[c2] == 44 {
                            proof {
                                lemma_ws_end_bounds(s, c2 + 1);
                            }
                            obj_pairs_end(s, ws_end(s, c2 + 1))
                        } else if s[c2] == 125 {
                            Option::Some(c2 + 1)
                        } else {
                            Option::None
                        }
                    },
                }
            }
        }
    }
}

/// The position after the array opening at `pos`.
pub open spec fn arr_end(s: Seq<u8>, pos: int) -> Option<int>
    decreases s.len() - pos, 1int,
    when 0 <= pos < s.len()
{
    let c = ws_end(s, pos + 1);
    proof {
        lemma_ws_end_bounds(s, pos + 1);
    }
    if !(c < s.len()) {
        Option::None
    } else if s[c] == 93 {
        Option::Some(c + 1)
    } else {
        arr_elems_end(s, c)
    }
}

/// The position after the remaining elements and closing bracket, starting
/// at an element position.
pub open spec fn arr_elems_end(s: Seq<u8>, cur: int) -> Option<int>
    decreases s.len() - cur, 3int,
    when 0 <= cur <= s.len()
{
    if !(cur < s.len()) {
        Option::None
    } else {
        match value_end(s, cur) {
            Option::None => Option::None,
            Option::Some(vend) => if !(cur < vend <= s.len()) {
                Option::None
            } else {
                let c2 = ws_end(s, vend);
                proof {
                    lemma_ws_end_bounds(s, vend);
                }
                if !(c2 < s.len()) {
                    Option::None
                } else if s[c2] == 44 {
                    proof {
                        lemma_ws_end_bounds(s, c2 + 1);
                    }
                    arr_elems_end(s, ws_end(s, c2 + 1))
                } else if s[c2] == 93 {
                    Option::Some(c2 + 1)
                } else {
                    Option::None
                }
            },
        }
    }
}

/// Whether `s` is one JSON document: a single value of the grammar
/// surrounded by optional whitespace.
pub open spec fn json_document_ok(s: Seq<u8>) -> bool {
    match value_end(s, ws_end(s, 0)) {
        Option::Some(e) => ws_end(s, e) == s.len(),
        Option::None => false,
    }
}

/// The span holds exactly the bytes of `s` at `[lo, hi)`.
pub open spec fn span_is(sp: Span, s: Seq<u8>, lo: int, hi: int) -> bool {
    &&& sp.start as int == lo
    &&& sp.end as int == hi
    &&& sp.data@ == s.subrange(lo, hi)
}

/// The exact node of the primitive token at `pos`: a redacted node over the
/// token when it holds a sentinel, else the literal or number it spells.
pub open spec fn prim_at(s: Seq<u8>, pos: int, v: JsonValue) -> bool {
    let e = token_end(s, pos);
    let tok = s.subrange(pos, e);
    if crate::json::holds_sentinel(tok) {
        v matches JsonValue::Redacted(r) && span_is(r.0, s, pos, e)
    } else if tok == seq![116u8, 114u8, 117u8, 101u8] || tok == seq![
        102u8,
        97u8,
        108u8,
        115u8,
        101u8,
    ] {
        v matches JsonValue::Bool(b) && span_is(b.0, s, pos, e)
    } else if tok == seq![110u8, 117u8, 108u8, 108u8] {
        v matches JsonValue::Null(n) && span_is(n.0, s, pos, e)
    } else if number_ok(tok) {
        v matches JsonValue::Number(n) && span_is(n.0, s, pos, e)
    } else {
        false
    }
}

/// The exact node of the string token at `pos` (the opening quote): a
/// redacted node when the content is a non-empty run of sentinels, else a
/// string node over the content without its quotes.
pub open spec fn str_at(s: Seq<u8>, pos: int, v: JsonValue) -> bool {
    let e = str_end(s, pos + 1);
    &&& e >= 0
    &&& if e > pos + 1 && (forall|j: int| pos + 1 <= j < e ==> is_sentinel(#[trigger] s[j])) {
        v matches JsonValue::Redacted(r) && span_is(r.0, s, pos + 1, e)
    } else {
        v matches JsonValue::String(st) && span_is(st.0, s, pos + 1, e)
    }
}

/// The exact tree of the JSON value at `pos`: the relation the parser's
/// result satisfies, node for node and span for span.  It holds of exactly
/// one tree shape per position, so together with [`value_end`] it pins what
/// parsing returns.
pub open spec fn value_at(s: Seq<u8>, pos: int, v: JsonValue) -> bool
    decreases s.len() - pos, 2int,
    when 0 <= pos <= s.len()
{
    if !(pos < s.len()) {
        false
    } else {
        let b = s[pos];
        if b == 123 {
            obj_at(s, pos, v)
        } else if b == 91 {
            arr_at(s, pos, v)
        } else if b == 34 {
            str_at(s, pos, v)
        } else if is_token_byte(b) {
            prim_at(s, pos, v)
        } else {
            false
        }
    }
}

/// The exact tree of the object opening at `pos`.
pub open spec fn obj_at(s: Seq<u8>, pos: int, v: JsonValue) -> bool
    decreases s.len() - pos, 1int,
    when 0 <= pos < s.len()
{
    let c = ws_end(s, pos + 1);
    proof {
        lemma_ws_end_bounds(s, pos + 1);
    }
    if !(c < s.len()) {
        false
    } else if s[c] == 125 {
        v matches JsonValue::Object(o) && span_is(o.span, s, pos, c + 1) && o.elems@.len() == 0
    } else {
        v matches JsonValue::Object(o) && obj_pairs_at(s, c, o.elems@) && (obj_end(s, pos)
            matches Option::Some(e) && span_is(o.span, s, pos, e))
    }
}

/// The exact pairs parsed from a key position to the closing brace: the
/// first pair's key, span and value stand at the grammar's positions and the
/// rest follow after the comma.
pub open spec fn obj_pairs_at(s: Seq<u8>, cur: int, kvs: Seq<KeyValue>) -> bool
    decreases s.len() - cur, 3int,
    when 0 <= cur <= s.len()
{
    if !(cur < s.len()) {
        false
    } else if s[cur] != 34 {
        false
    } else {
        let ke = str_end(s, cur + 1);
        proof {
            lemma_str_end_bounds(s, cur + 1);
        }
        if ke < 0 {
            false
        } else {
            let q = ws_end(s, ke + 1);
            proof {
                lemma_ws_end_bounds(s, ke + 1);
            }
            if !(q < s.len() && s[q] == 58) {
                false
            } else {
                let p = ws_end(s, q + 1);
                proof {
                    lemma_ws_end_bounds(s, q + 1);
                }
                match value_end(s, p) {
                    Option::None => false,
                    Option::Some(vend) => if !(p < vend <= s.len()) {
                        false
                    } else {
                        &&& kvs.len() >= 1
                        &&& span_is(kvs[0].key.0, s, cur + 1, ke)
                        &&& value_at(s, p, kvs[0].value)
                        &&& span_is(kvs[0].span, s, cur, vend)
                        &&& ({
                            let c2 = ws_end(s, vend);
                            proof {
                                lemma_ws_end_bounds(s, vend);
                            }
                            if !(c2 < s.len()) {
                                false
                            } else if s[c2] == 44 {
                                proof {
                                    lemma_ws_end_bounds(s, c2 + 1);
                                }
                                obj_pairs_at(s, ws_end(s, c2 + 1), kvs.skip(1))
                            } else if s[c2] == 125 {
                                kvs.len() == 1
                            } else {
                                false
                            }
                        })
                    },
                }
            }
        }
    }
}

/// The exact tree of the array opening at `pos`.
pub open spec fn arr_at(s: Seq<u8>, pos: int, v: JsonValue) -> bool
    decreases s.len() - pos, 1int,
    when 0 <= pos < s.len()
{
    let c = ws_end(s, pos + 1);
    proof {
        lemma_ws_end_bounds(s, pos + 1);
    }
    if !(c < s.len()) {
        false
    } else if s[c] == 93 {
        v matches JsonValue::Array(a) && span_is(a.span, s, pos, c + 1) && a.elems@.len() == 0
    } else {
        v matches JsonValue::Array(a) && arr_elems_at(s, c, a.elems@) && (arr_end(s, pos)
            matches Option::Some(e) && span_is(a.span, s, pos, e))
    }
}

/// The exact elements parsed from an element position to the closing
/// bracket.
pub open spec fn arr_elems_at(s: Seq<u8>, cur: int, es: Seq<JsonValue>) -> bool
    decreases s.len() - cur, 3int,
    when 0 <= cur <= s.len()
{
    if !(cur < s.len()) {
        false
    } else {
        match value_end(s, cur) {
            Option::None => false,
            Option::Some(vend) => if !(cur < vend <= s.len()) {
                false
            } else {
                &&& es.len() >= 1
                &&& value_at(s, cur, es[0])
                &&& ({
                    let c2 = ws_end(s, vend);
                    proof {
                        lemma_ws_end_bounds(s, vend);
                    }
                    if !(c2 < s.len()) {
                        false
                    } else if s[c2] == 44 {
                        proof {
                            lemma_ws_end_bounds(s, c2 + 1);
                        }
                        arr_elems_at(s, ws_end(s, c2 + 1), es.skip(1))
                    } else if s[c2] == 93 {
                        es.len() == 1
                    } else {
                        false
                    }
                })
            },
        }
    }
}

/// The exact tree of one JSON document: the tree of the value after the
/// leading whitespace.
pub open spec fn document_at(s: Seq<u8>, v: JsonValue) -> bool {
    value_at(s, ws_end(s, 0), v)
}

/// Parses a primitive token (a literal, a number, or a sentinel run) at
/// `pos`.
#[verifier::rlimit(60)]
fn parse_primitive(buf: &[u8], pos: usize) -> (r: Result<(JsonValue, usize), ParseError>)
    requires
        pos < buf@.len(),
        is_token_byte(buf@[pos as int]),
    ensures
        r matches Ok((v, end)) ==> parsed_ok(v, buf@, pos as int, end as int),
        r matches Ok((v, end)) ==> ((forall|j: int|
            pos <= j < end ==> is_sentinel(#[trigger] buf@[j])) ==> v is Redacted),
        r matches Ok((v, end)) ==> prim_at(buf@, pos as int, v),
        prim_end(buf@, pos as int) == (match r {
            Result::Ok((v, end)) => Option::Some(end as int),
            Result::Err(_) => Option::<int>::None,
        }),
{
    let end = scan_token(buf, pos);
    let ghost tok = buf@.subrange(pos as int, end as int);
    proof {
        assert(forall|k: int| 0 <= k < tok.len() ==> tok[k] == buf@[pos + k]);
    }
    if has_sentinel(buf, pos, end) {
        let sp = Span::extract(buf, pos, end);
        let rd = Redacted(sp);
        proof {
            let j = choose|j: int| pos <= j < end && is_sentinel(#[trigger] buf@[j]);
            assert(rd.0.data@[j - pos] == buf@[j]);
            crate::json::lemma_redacted_wf(rd, j - pos);
            assert(crate::json::holds_sentinel(tok)) by {
                assert(0 <= j - pos < tok.len() && is_sentinel(tok[j - pos]));
            }
        }
        return Ok((JsonValue::Redacted(rd), end));
    }
    proof {
        assert(!crate::json::holds_sentinel(tok)) by {
            assert(forall|k: int|
                0 <= k < tok.len() ==> !is_sentinel(#[trigger] tok[k])) by {
                assert(forall|k: int| 0 <= k < tok.len() ==> tok[k] == buf@[pos + k]);
            }
        }
    }
    let n = end - pos;
    if n == 4 && buf[pos] == 116 && buf[pos + 1] == 114 && buf[pos + 2] == 117 && buf[pos + 3]
        == 101 {
        let sp = Span::extract(buf, pos, end);
        proof {
            assert(sp.data@ =~= seq![116u8, 114u8, 117u8, 101u8]);
            assert(tok =~= seq![116u8, 114u8, 117u8, 101u8]);
        }
        return Ok((JsonValue::Bool(Bool(sp)), end));
    }
    if n == 5 && buf[pos] == 102 && buf[pos + 1] == 97 && buf[pos + 2] == 108 && buf[pos + 3]
        == 115 && buf[pos + 4] == 101 {
        let sp = Span::extract(buf, pos, end);
        proof {
            assert(sp.data@ =~= seq![102u8, 97u8, 108u8, 115u8, 101u8]);
            assert(tok =~= seq![102u8, 97u8, 108u8, 115u8, 101u8]);
        }
        return Ok((JsonValue::Bool(Bool(sp)), end));
    }
    if n == 4 && buf[pos] == 110 && buf[pos + 1] == 117 && buf[pos + 2] == 108 && buf[pos + 3]
        == 108 {
        let sp = Span::extract(buf, pos, end);
        proof {
            assert(sp.data@ =~= seq![110u8, 117u8, 108u8, 108u8]);
            assert(tok =~= seq![110u8, 117u8, 108u8, 108u8]);
        }
        return Ok((JsonValue::Null(Null(sp)), end));
    }
    proof {
        assert(tok != seq![116u8, 114u8, 117u8, 101u8]) by {
            if tok == seq![116u8, 114u8, 117u8, 101u8] {
                assert(tok.len() == 4);
                assert(end - pos == 4);
                assert(buf@[pos as int] == 116) by {
                    assert(tok[0] == buf@[pos as int]);
                }
                assert(buf@[pos + 1] == 114) by {
                    assert(tok[1] == buf@[pos + 1]);
                }
                assert(buf@[pos + 2] == 117) by {
                    assert(tok[2] == buf@[pos + 2]);
                }
                assert(buf@[pos + 3] == 101) by {
                    assert(tok[3] == buf@[pos + 3]);
                }
                assert(false);
            }
        }
        assert(tok != seq![102u8, 97u8, 108u8, 115u8, 101u8]) by {
            if tok == seq![102u8, 97u8, 108u8, 115u8, 101u8] {
                assert(tok[0] == buf@[pos as int]);
                assert(tok[1] == buf@[pos + 1]);
                assert(tok[2] == buf@[pos + 2]);
                assert(tok[3] == buf@[pos + 3]);
                assert(tok[4] == buf@[pos + 4]);
            }
        }
        assert(tok != seq![110u8, 117u8, 108u8, 108u8]) by {
            if tok == seq![110u8, 117u8, 108u8, 108u8] {
                assert(tok.len() == 4);
                assert(end - pos == 4);
                assert(buf@[pos as int] == 110) by {
                    assert(tok[0] == buf@[pos as int]);
                }
                assert(buf@[pos + 1] == 117) by {
                    assert(tok[1] == buf@[pos + 1]);
                }
                assert(buf@[pos + 2] == 108) by {
                    assert(tok[2] == buf@[pos + 2]);
                }
                assert(buf@[pos + 3] == 108) by {
                    assert(tok[3] == buf@[pos + 3]);
                }
                assert(false);
            }
        }
    }
    if check_number(buf, pos, end) {
        let sp = Span::extract(buf, pos, end);
        proof {
            assert(sp.data@ =~= buf@.subrange(pos as int, end as int));
        }
        return Ok((JsonValue::Number(Number(sp)), end));
    }
    Err(ParseError::Malformed { byte_offset: pos })
}

/// Parses a string token at `pos` (the opening quote).  Content that is a
/// non-empty run of sentinels parses as a redacted node.
#[verifier::rlimit(60)]
fn parse_string_value(buf: &[u8], pos: usize) -> (r: Result<(JsonValue, usize), ParseError>)
    requires
        pos < buf@.len(),
        buf@[pos as int] == 34,
    ensures
        r matches Ok((v, end)) ==> parsed_ok(v, buf@, pos as int, end as int),
        r matches Ok((v, end)) ==> str_at(buf@, pos as int, v),
        str_token_end(buf@, pos as int) == (match r {
            Result::Ok((v, end)) => Option::Some(end as int),
            Result::Err(_) => Option::<int>::None,
        }),
{
    let n = buf.len();
    proof {
        assert(pos < n);
    }
    let e = match scan_string(buf, pos + 1) {
        Ok(e) => e,
        Err(err) => {
            return Err(err);
        },
    };
    if e > pos + 1 && all_sentinel(buf, pos + 1, e) {
        let sp = Span::extract(buf, pos + 1, e);
        let rd = Redacted(sp);
        proof {
            assert(rd.0.data@[0] == buf@[pos + 1]);
            crate::json::lemma_redacted_wf(rd, 0);
        }
        Ok((JsonValue::Redacted(rd), e + 1))
    } else {
        let sp = Span::extract(buf, pos + 1, e);
        proof {
            assert(json_wf(JsonValue::String(JsonString(sp))));
        }
        Ok((JsonValue::String(JsonString(sp)), e + 1))
    }
}

/// Parses the value whose first token byte stands at `pos`.
pub fn parse_value(buf: &[u8], pos: usize) -> (r: Result<(JsonValue, usize), ParseError>)
    requires
        pos <= buf@.len(),
    ensures
        r matches Ok((v, end)) ==> parsed_ok(v, buf@, pos as int, end as int),
        r matches Ok((v, end)) ==> ((forall|j: int|
            pos <= j < end ==> is_sentinel(#[trigger] buf@[j])) ==> v is Redacted),
        r matches Ok((v, end)) ==> value_at(buf@, pos as int, v),
        value_end(buf@, pos as int) == (match r {
            Result::Ok((v, end)) => Option::Some(end as int),
            Result::Err(_) => Option::<int>::None,
        }),
    decreases buf@.len() - pos, 1int,
{
    if pos >= buf.len() {
        return Err(ParseError::UnexpectedEnd);
    }
    let b = buf[pos];
    if b == 123 {
        parse_object(buf, pos)
    } else if b == 91 {
        parse_array(buf, pos)
    } else if b == 34 {
        parse_string_value(buf, pos)
    } else if token_byte(b) {
        parse_primitive(buf, pos)
    } else {
        Err(ParseError::Malformed { byte_offset: pos })
    }
}

/// Parses an object at `pos` (the opening brace).
fn parse_object(buf: &[u8], pos: usize) -> (r: Result<(JsonValue, usize), ParseError>)
    requires
        pos < buf@.len(),
        buf@[pos as int] == 123,
    ensures
        r matches Ok((v, end)) ==> parsed_ok(v, buf@, pos as int, end as int),
        r matches Ok((v, end)) ==> obj_at(buf@, pos as int, v),
        obj_end(buf@, pos as int) == (match r {
            Result::Ok((v, end)) => Option::Some(end as int),
            Result::Err(_) => Option::<int>::None,
        }),
    decreases buf@.len() - pos, 0int,
{
    let n = buf.len();
    proof {
        assert(pos < n);
    }
    let mut elems: Vec<KeyValue> = Vec::new();
    let mut cur = skip_ws(buf, pos + 1);
    if cur >= buf.len() {
        return Err(ParseError::UnexpectedEnd);
    }
    if buf[cur] == 125 {
        let obj = Object { span: Span::extract(buf, pos, cur + 1), elems };
        proof {
            lemma_kvs_wf_iff(obj.elems, 0);
            lemma_kvs_in_buf_iff(obj.elems, 0, buf@);
            assert(obj_at(buf@, pos as int, JsonValue::Object(obj)));
        }
        return Ok((JsonValue::Object(obj), cur + 1));
    }
    let ghost c0 = cur as int;
    proof {
        assert forall|rest: Seq<KeyValue>| #[trigger] obj_pairs_at(buf@, c0, rest) implies obj_pairs_at(
            buf@,
            c0,
            elems@ + rest,
        ) by {
            assert(elems@ + rest =~= rest);
        }
    }
    loop
        invariant
            pos + 1 <= cur <= buf@.len(),
            pos < buf@.len(),
            n == buf@.len(),
            buf@[pos as int] == 123,
            c0 == ws_end(buf@, pos + 1),
            0 <= c0 < buf@.len(),
            buf@[c0] != 125,
            obj_pairs_end(buf@, c0) == obj_pairs_end(buf@, cur as int),
            forall|rest: Seq<KeyValue>| #[trigger] obj_pairs_at(buf@, cur as int, rest)
                ==> obj_pairs_at(buf@, c0, elems@ + rest),
            forall|i: int| 0 <= i < elems@.len() ==> kv_wf(#[trigger] elems@[i]),
            forall|i: int| 0 <= i < elems@.len() ==> kv_in_buf(#[trigger] elems@[i], buf@),
            forall|i: int|
                0 <= i < elems@.len() ==> pos + 1 <= (#[trigger] elems@[i]).span.start
                    && elems@[i].span.end <= cur,
            forall|i: int, j: int|
                0 <= i < j < elems@.len() ==> (#[trigger] elems@[i]).span.end
                    <= (#[trigger] elems@[j]).span.start,
        decreases buf@.len() - cur,
    {
        let ghost kpos = cur as int;
        if cur >= buf.len() {
            proof {
                assert(obj_pairs_end(buf@, kpos) is None);
                assert(obj_end(buf@, pos as int) is None);
            }
            return Err(ParseError::UnexpectedEnd);
        }
        if buf[cur] != 34 {
            proof {
                assert(obj_pairs_end(buf@, kpos) is None);
                assert(obj_end(buf@, pos as int) is None);
            }
            return Err(ParseError::Malformed { byte_offset: cur });
        }
        let kq = cur;
        let ke = match scan_string(buf, kq + 1) {
            Ok(e) => e,
            Err(err) => {
                proof {
                    assert(obj_pairs_end(buf@, kpos) is None);
                    assert(obj_end(buf@, pos as int) is None);
                }
                return Err(err);
            },
        };
        proof {
            assert(ke < n);
        }
        let key = JsonKey(Span::extract(buf, kq + 1, ke));
        let q = skip_ws(buf, ke + 1);
        if q >= buf.len() {
            proof {
                assert(obj_pairs_end(buf@, kpos) is None);
                assert(obj_end(buf@, pos as int) is None);
            }
            return Err(ParseError::UnexpectedEnd);
        }
        if buf[q] != 58 {
            proof {
                assert(obj_pairs_end(buf@, kpos) is None);
                assert(obj_end(buf@, pos as int) is None);
            }
            return Err(ParseError::Malformed { byte_offset: q });
        }
        let p = skip_ws(buf, q + 1);
        let (val, vend) = match parse_value(buf, p) {
            Ok(x) => x,
            Err(err) => {
                proof {
                    assert(obj_pairs_end(buf@, kpos) is None);
                    assert(obj_end(buf@, pos as int) is None);
                }
                return Err(err);
            },
        };
        let kv = KeyValue { span: Span::extract(buf, kq, vend), key, value: val };
        let ghost kvg = kv;
        let ghost prev = elems@;
        elems.push(kv);
        proof {
            assert(forall|i: int| 0 <= i < prev.len() ==> elems@[i] == prev[i]);
        }
        cur = skip_ws(buf, vend);
        if cur >= buf.len() {
            proof {
                assert(obj_pairs_end(buf@, kpos) is None);
                assert(obj_end(buf@, pos as int) is None);
            }
            return Err(ParseError::UnexpectedEnd);
        }
        if buf[cur] == 44 {
            cur = skip_ws(buf, cur + 1);
            proof {
                assert(obj_pairs_end(buf@, kpos) == obj_pairs_end(buf@, cur as int));
                assert forall|rest: Seq<KeyValue>| #[trigger] obj_pairs_at(
                    buf@,
                    cur as int,
                    rest,
                ) implies obj_pairs_at(buf@, c0, elems@ + rest) by {
                    let withkv = seq![kvg] + rest;
                    assert(withkv.skip(1) =~= rest);
                    assert(withkv[0] == kvg);
                    assert(obj_pairs_at(buf@, kpos, withkv));
                    assert(obj_pairs_at(buf@, c0, prev + withkv));
                    assert(prev + withkv =~= elems@ + rest);
                }
            }
        } else if buf[cur] == 125 {
            let obj = Object { span: Span::extract(buf, pos, cur + 1), elems };
            proof {
                lemma_kvs_wf_iff(obj.elems, obj.elems@.len() as int);
                lemma_kvs_in_buf_iff(obj.elems, obj.elems@.len() as int, buf@);
                assert(kvs_ordered(obj.elems@, pos + 1, cur as int));
                assert(obj_pairs_end(buf@, kpos) == Option::Some(cur + 1 as int));
                assert(obj_end(buf@, pos as int) == Option::Some(cur + 1 as int));
                let single = seq![kvg];
                assert(single[0] == kvg && single.len() == 1);
                assert(obj_pairs_at(buf@, kpos, single));
                assert(obj_pairs_at(buf@, c0, prev + single));
                assert(prev + single =~= obj.elems@);
                assert(obj_at(buf@, pos as int, JsonValue::Object(obj)));
            }
            return Ok((JsonValue::Object(obj), cur + 1));
        } else {
            proof {
                assert(obj_pairs_end(buf@, kpos) is None);
                assert(obj_end(buf@, pos as int) is None);
            }
            return Err(ParseError::Malformed { byte_offset: cur });
        }
    }
}

/// Parses an array at `pos` (the opening bracket).
fn parse_array(buf: &[u8], pos: usize) -> (r: Result<(JsonValue, usize), ParseError>)
    requires
        pos < buf@.len(),
        buf@[pos as int] == 91,
    ensures
        r matches Ok((v, end)) ==> parsed_ok(v, buf@, pos as int, end as int),
        r matches Ok((v, end)) ==> arr_at(buf@, pos as int, v),
        arr_end(buf@, pos as int) == (match r {
            Result::Ok((v, end)) => Option::Some(end as int),
            Result::Err(_) => Option::<int>::None,
        }),
    decreases buf@.len() - pos, 0int,
{
    let n = buf.len();
    proof {
        assert(pos < n);
    }
    let mut elems: Vec<JsonValue> = Vec::new();
    let mut cur = skip_ws(buf, pos + 1);
    if cur >= buf.len() {
        return Err(ParseError::UnexpectedEnd);
    }
    if buf[cur] == 93 {
        let arr = Array { span: Span::extract(buf, pos, cur + 1), elems };
        proof {
            lemma_elems_wf_iff(arr.elems, 0);
            lemma_elems_in_buf_iff(arr.elems, 0, buf@);
            assert(arr_at(buf@, pos as int, JsonValue::Array(arr)));
        }
        return Ok((JsonValue::Array(arr), cur + 1));
    }
    let ghost c0 = cur as int;
    proof {
        assert forall|rest: Seq<JsonValue>| #[trigger] arr_elems_at(buf@, c0, rest) implies arr_elems_at(
            buf@,
            c0,
            elems@ + rest,
        ) by {
            assert(elems@ + rest =~= rest);
        }
    }
    loop
        invariant
            pos + 1 <= cur <= buf@.len(),
            pos < buf@.len(),
            n == buf@.len(),
            buf@[pos as int] == 91,
            c0 == ws_end(buf@, pos + 1),
            0 <= c0 < buf@.len(),
            buf@[c0] != 93,
            arr_elems_end(buf@, c0) == arr_elems_end(buf@, cur as int),
            forall|rest: Seq<JsonValue>| #[trigger] arr_elems_at(buf@, cur as int, rest)
                ==> arr_elems_at(buf@, c0, elems@ + rest),
            forall|i: int| 0 <= i < elems@.len() ==> json_wf(#[trigger] elems@[i]),
            forall|i: int| 0 <= i < elems@.len() ==> json_in_buf(#[trigger] elems@[i], buf@),
            forall|i: int|
                0 <= i < elems@.len() ==> pos + 1 <= (#[trigger] elems@[i]).span_spec().start
                    && elems@[i].span_spec().end <= cur,
            forall|i: int, j: int|
                0 <= i < j < elems@.len() ==> (#[trigger] elems@[i]).span_spec().end
                    <= (#[trigger] elems@[j]).span_spec().start,
        decreases buf@.len() - cur,
    {
        let ghost epos = cur as int;
        if cur >= buf.len() {
            proof {
                assert(arr_elems_end(buf@, epos) is None);
                assert(arr_end(buf@, pos as int) is None);
            }
            return Err(ParseError::UnexpectedEnd);
        }
        let (val, vend) = match parse_value(buf, cur) {
            Ok(x) => x,
            Err(err) => {
                proof {
                    assert(arr_elems_end(buf@, epos) is None);
                    assert(arr_end(buf@, pos as int) is None);
                }
                return Err(err);
            },
        };
        let ghost valg = val;
        let ghost prev = elems@;
        elems.push(val);
        proof {
            assert(forall|i: int| 0 <= i < prev.len() ==> elems@[i] == prev[i]);
        }
        cur = skip_ws(buf, vend);
        if cur >= buf.len() {
            proof {
                assert(arr_elems_end(buf@, epos) is None);
                assert(arr_end(buf@, pos as int) is None);
            }
            return Err(ParseError::UnexpectedEnd);
        }
        if buf[cur] == 44 {
            cur = skip_ws(buf, cur + 1);
            proof {
                assert(arr_elems_end(buf@, epos) == arr_elems_end(buf@, cur as int));
                assert forall|rest: Seq<JsonValue>| #[trigger] arr_elems_at(
                    buf@,
                    cur as int,
                    rest,
                ) implies arr_elems_at(buf@, c0, elems@ + rest) by {
                    let withv = seq![valg] + rest;
                    assert(withv.skip(1) =~= rest);
                    assert(withv[0] == valg);
                    assert(arr_elems_at(buf@, epos, withv));
                    assert(arr_elems_at(buf@, c0, prev + withv));
                    assert(prev + withv =~= elems@ + rest);
                }
            }
        } else if buf[cur] == 93 {
            let arr = Array { span: Span::extract(buf, pos, cur + 1), elems };
            proof {
                lemma_elems_wf_iff(arr.elems, arr.elems@.len() as int);
                lemma_elems_in_buf_iff(arr.elems, arr.elems@.len() as int, buf@);
                assert(elems_ordered(arr.elems@, pos + 1, cur as int));
                assert(arr_elems_end(buf@, epos) == Option::Some(cur + 1 as int));
                assert(arr_end(buf@, pos as int) == Option::Some(cur + 1 as int));
                let single = seq![valg];
                assert(single[0] == valg && single.len() == 1);
                assert(arr_elems_at(buf@, epos, single));
                assert(arr_elems_at(buf@, c0, prev + single));
                assert(prev + single =~= arr.elems@);
                assert(arr_at(buf@, pos as int, JsonValue::Array(arr)));
            }
            return Ok((JsonValue::Array(arr), cur + 1));
        } else {
            proof {
                assert(arr_elems_end(buf@, epos) is None);
                assert(arr_end(buf@, pos as int) is None);
            }
            return Err(ParseError::Malformed { byte_offset: cur });
        }
    }
}

/// Parses a byte slice as one JSON document: a single value surrounded by
/// optional whitespace.  Succeeds exactly when the bytes are one value of
/// the grammar surrounded by whitespace, and returns exactly the tree the
/// grammar assigns to those bytes.
pub fn parse(src: &[u8]) -> (r: Result<JsonValue, ParseError>)
    ensures
        r is Ok <==> json_document_ok(src@),
        r matches Ok(v) ==> json_wf(v) && json_in_buf(v, src@),
        r matches Ok(v) ==> document_at(src@, v),
{
    let start = skip_ws(src, 0);
    match parse_value(src, start) {
        Err(e) => Err(e),
        Ok((v, end)) => {
            let t = skip_ws(src, end);
            if t < src.len() {
                Err(ParseError::Malformed { byte_offset: t })
            } else {
                proof {
                    lemma_ws_end_bounds(src@, end as int);
                }
                Ok(v)
            }
        },
    }
}

/// Parses a string as one JSON document, returning exactly the tree the
/// grammar assigns to its bytes.
pub fn parse_str(src: &str) -> (r: Result<JsonValue, ParseError>)
    ensures
        r is Ok <==> json_document_ok(src.spec_bytes()),
        r matches Ok(v) ==> json_wf(v) && json_in_buf(v, src.spec_bytes()),
        r matches Ok(v) ==> document_at(src.spec_bytes(), v),
{
    parse(src.as_bytes())
}

} // verus!
