//! The HTTP span parser: splits byte streams into request and response
//! messages, with request-line, header, and body spans, and framing by
//! `Content-Length` or chunked transfer coding.

use vstd::prelude::*;
use crate::errors::ParseError;
use crate::http::{
    header_in_buf, headers_ordered, headers_with_name, request_in_buf, response_in_buf, Body,
    BodyContent, Header, Request, RequestLine, Response, Status,
};
use crate::http::{find_header, lower_seq};
use crate::http_transcript::{content_length_name, content_type_name, transfer_encoding_name};
use crate::json::{all_digits, dec_val, json_in_buf, json_wf};
use crate::json_parse::{all_sentinel, is_sentinel, parse_value, span_is, value_at, value_end};
use crate::span::Span;

verus! {

broadcast use vstd::std_specs::vec::axiom_vec_index_decreases;

/// Whether `b` is a space or a horizontal tab.
pub open spec fn is_sp(b: u8) -> bool {
    b == 32 || b == 9
}

fn sp_byte(b: u8) -> (r: bool)
    ensures
        r == is_sp(b),
{
    b == 32 || b == 9
}

/// The index of the first carriage return at or after `i`, or `s.len()`.
pub open spec fn cr_scan(s: Seq<u8>, i: int) -> int
    decreases s.len() - i,
{
    if 0 <= i < s.len() && s[i] != 13 {
        cr_scan(s, i + 1)
    } else {
        i
    }
}

proof fn lemma_cr_scan_at(s: Seq<u8>, i: int, j: int)
    requires
        0 <= i <= j <= s.len(),
        forall|k: int| i <= k < j ==> #[trigger] s[k] != 13,
        j < s.len() ==> s[j] == 13,
    ensures
        cr_scan(s, i) == j,
    decreases j - i,
{
    if i < j {
        lemma_cr_scan_at(s, i + 1, j);
    }
}

/// The first carriage return lies between `i` and the end.
pub proof fn lemma_cr_scan_bounds(s: Seq<u8>, i: int)
    requires
        0 <= i <= s.len(),
    ensures
        i <= cr_scan(s, i) <= s.len(),
    decreases s.len() - i,
{
    if i < s.len() && s[i] != 13 {
        lemma_cr_scan_bounds(s, i + 1);
    }
}

/// The position of the CR of the next CRLF at or after `i`, when the next
/// carriage return is followed by a line feed.
pub open spec fn crlf_find(s: Seq<u8>, i: int) -> Option<int> {
    let j = cr_scan(s, i);
    if j < s.len() && j + 1 < s.len() && s[j + 1] == 10 {
        Option::Some(j)
    } else {
        Option::None
    }
}

/// The position of the CR of the next CRLF at or after `pos`.
fn find_crlf(buf: &[u8], pos: usize) -> (r: Result<usize, ParseError>)
    requires
        pos <= buf@.len(),
    ensures
        r matches Ok(e) ==> pos <= e && e + 2 <= buf@.len(),
        crlf_find(buf@, pos as int) == (match r {
            Result::Ok(e) => Option::Some(e as int),
            Result::Err(_) => Option::<int>::None,
        }),
{
    let n = buf.len();
    let mut i = pos;
    while i < n
        invariant
            pos <= i,
            i <= n,
            n == buf@.len(),
            forall|k: int| pos <= k < i ==> #[trigger] buf@[k] != 13,
        decreases n - i,
    {
        if buf[i] == 13 {
            proof {
                lemma_cr_scan_at(buf@, pos as int, i as int);
            }
            if i + 1 >= n {
                return Err(ParseError::UnexpectedEnd);
            }
            if buf[i + 1] != 10 {
                return Err(ParseError::Malformed { byte_offset: i + 1 });
            }
            return Ok(i);
        }
        i = i + 1;
    }
    proof {
        lemma_cr_scan_at(buf@, pos as int, buf@.len() as int);
    }
    Err(ParseError::UnexpectedEnd)
}

/// The end of the run of non-space bytes starting at `i`, capped at `limit`.
pub open spec fn nsp_end(s: Seq<u8>, i: int, limit: int) -> int
    decreases limit - i,
    when 0 <= i <= limit
{
    if i < limit && i < s.len() && !is_sp(s[i]) {
        nsp_end(s, i + 1, limit)
    } else {
        i
    }
}

proof fn lemma_nsp_end_at(s: Seq<u8>, i: int, limit: int, j: int)
    requires
        0 <= i <= j <= limit <= s.len(),
        forall|k: int| i <= k < j ==> !is_sp(#[trigger] s[k]),
        j < limit ==> is_sp(s[j]),
    ensures
        nsp_end(s, i, limit) == j,
    decreases j - i,
{
    if i < j {
        lemma_nsp_end_at(s, i + 1, limit, j);
    }
}

/// The end of the run of space bytes starting at `i`, capped at `limit`.
pub open spec fn sp_run_end(s: Seq<u8>, i: int, limit: int) -> int
    decreases limit - i,
    when 0 <= i <= limit
{
    if i < limit && i < s.len() && is_sp(s[i]) {
        sp_run_end(s, i + 1, limit)
    } else {
        i
    }
}

proof fn lemma_sp_run_end_at(s: Seq<u8>, i: int, limit: int, j: int)
    requires
        0 <= i <= j <= limit <= s.len(),
        forall|k: int| i <= k < j ==> is_sp(#[trigger] s[k]),
        j < limit ==> !is_sp(s[j]),
    ensures
        sp_run_end(s, i, limit) == j,
    decreases j - i,
{
    if i < j {
        lemma_sp_run_end_at(s, i + 1, limit, j);
    }
}

/// The end of the run of non-space bytes within `[pos, limit)`.
fn scan_non_sp(buf: &[u8], pos: usize, limit: usize) -> (r: usize)
    requires
        pos <= limit <= buf@.len(),
    ensures
        pos <= r <= limit,
        r == nsp_end(buf@, pos as int, limit as int),
{
    let mut i = pos;
    while i < limit
        invariant
            pos <= i <= limit <= buf@.len(),
            forall|k: int| pos <= k < i ==> !is_sp(#[trigger] buf@[k]),
        decreases limit - i,
    {
        if sp_byte(buf[i]) {
            proof {
                lemma_nsp_end_at(buf@, pos as int, limit as int, i as int);
            }
            return i;
        }
        i = i + 1;
    }
    proof {
        lemma_nsp_end_at(buf@, pos as int, limit as int, limit as int);
    }
    i
}

/// The end of the run of space bytes within `[pos, limit)`.
fn scan_sp(buf: &[u8], pos: usize, limit: usize) -> (r: usize)
    requires
        pos <= limit <= buf@.len(),
    ensures
        pos <= r <= limit,
        r == sp_run_end(buf@, pos as int, limit as int),
{
    let mut i = pos;
    while i < limit
        invariant
            pos <= i <= limit <= buf@.len(),
            forall|k: int| pos <= k < i ==> is_sp(#[trigger] buf@[k]),
        decreases limit - i,
    {
        if !sp_byte(buf[i]) {
            proof {
                lemma_sp_run_end_at(buf@, pos as int, limit as int, i as int);
            }
            return i;
        }
        i = i + 1;
    }
    proof {
        lemma_sp_run_end_at(buf@, pos as int, limit as int, limit as int);
    }
    i
}

/// The index of the first colon at or after `i`, capped at `limit`.
pub open spec fn colon_scan(s: Seq<u8>, i: int, limit: int) -> int
    decreases limit - i,
    when 0 <= i <= limit
{
    if i < limit && i < s.len() && s[i] != 58 {
        colon_scan(s, i + 1, limit)
    } else {
        i
    }
}

proof fn lemma_colon_scan_at(s: Seq<u8>, i: int, limit: int, j: int)
    requires
        0 <= i <= j <= limit <= s.len(),
        forall|k: int| i <= k < j ==> #[trigger] s[k] != 58,
        j < limit ==> s[j] == 58,
    ensures
        colon_scan(s, i, limit) == j,
    decreases j - i,
{
    if i < j {
        lemma_colon_scan_at(s, i + 1, limit, j);
    }
}

/// The end of the value after trailing whitespace is trimmed back to `vs`.
pub open spec fn rtrim(s: Seq<u8>, vs: int, ve: int) -> int
    decreases ve,
    when 0 <= vs <= ve <= s.len()
{
    if vs < ve && is_sp(s[ve - 1]) {
        rtrim(s, vs, ve - 1)
    } else {
        ve
    }
}

/// The index of the first colon within `[pos, limit)`, or `limit`.
fn scan_colon(buf: &[u8], pos: usize, limit: usize) -> (r: usize)
    requires
        pos <= limit <= buf@.len(),
    ensures
        pos <= r <= limit,
        r == colon_scan(buf@, pos as int, limit as int),
{
    let mut i = pos;
    while i < limit
        invariant
            pos <= i <= limit <= buf@.len(),
            forall|k: int| pos <= k < i ==> #[trigger] buf@[k] != 58,
        decreases limit - i,
    {
        if buf[i] == 58 {
            proof {
                lemma_colon_scan_at(buf@, pos as int, limit as int, i as int);
            }
            return i;
        }
        i = i + 1;
    }
    proof {
        lemma_colon_scan_at(buf@, pos as int, limit as int, limit as int);
    }
    i
}

/// The end of the value within `[vs, limit)` after trailing whitespace is
/// trimmed.
fn scan_rtrim(buf: &[u8], vs: usize, limit: usize) -> (r: usize)
    requires
        vs <= limit <= buf@.len(),
    ensures
        vs <= r <= limit,
        r == rtrim(buf@, vs as int, limit as int),
{
    let mut ve = limit;
    while ve > vs
        invariant
            vs <= ve <= limit <= buf@.len(),
            rtrim(buf@, vs as int, limit as int) == rtrim(buf@, vs as int, ve as int),
        decreases ve,
    {
        if !sp_byte(buf[ve - 1]) {
            proof {
                assert(rtrim(buf@, vs as int, ve as int) == ve as int);
            }
            return ve;
        }
        ve = ve - 1;
    }
    proof {
        assert(rtrim(buf@, vs as int, ve as int) == ve as int);
    }
    ve
}

/// The decomposition of the header line at `pos`: the end of its name, the
/// start and end of its trimmed value, and the position after its CRLF.
pub open spec fn hline(s: Seq<u8>, pos: int) -> Option<(int, int, int, int)> {
    match crlf_find(s, pos) {
        Option::None => Option::None,
        Option::Some(le) => {
            let ne = colon_scan(s, pos, le);
            if ne >= le || ne <= pos {
                Option::None
            } else {
                let vs = sp_run_end(s, ne + 1, le);
                let ve = rtrim(s, vs, le);
                Option::Some((ne, vs, ve, le + 2))
            }
        },
    }
}

/// The per-line decomposition of the header block at `pos`: for each line
/// the start and end of its name and of its trimmed value, together with the
/// position after the blank line that closes the block.
pub open spec fn hblock(s: Seq<u8>, pos: int) -> Option<(Seq<(int, int, int, int)>, int)>
    decreases s.len() - pos, 0int,
    when 0 <= pos <= s.len()
{
    if !(pos < s.len()) {
        Option::None
    } else if pos + 1 < s.len() && s[pos] == 13 && s[pos + 1] == 10 {
        Option::Some((Seq::empty(), pos + 2))
    } else {
        match hline(s, pos) {
            Option::None => Option::None,
            Option::Some(t) => if pos < t.3 <= s.len() {
                match hblock(s, t.3) {
                    Option::None => Option::None,
                    Option::Some(rest) => Option::Some(
                        (seq![(pos, t.0, t.1, t.2)] + rest.0, rest.1),
                    ),
                }
            } else {
                Option::None
            },
        }
    }
}

/// The name and value ranges of a header list.
pub open spec fn hmap(hs: Seq<Header>) -> Seq<(int, int, int, int)> {
    hs.map_values(
        |h: Header|
            (h.name.start as int, h.name.end as int, h.value.start as int, h.value.end as int),
    )
}

/// Parses one header line at `pos`.  The line must not be empty.  Returns
/// the header and the position after the line's CRLF.
fn parse_header_line(buf: &[u8], pos: usize) -> (r: Result<(Header, usize), ParseError>)
    requires
        pos < buf@.len(),
    ensures
        r matches Ok((h, end)) ==> h.wf() && pos == h.span.start && h.span.end + 2 <= end && end
            <= buf@.len() && pos < end && header_in_buf(h, buf@),
        match r {
            Result::Ok((h, end)) => hline(buf@, pos as int) matches Option::Some(t)
                && h.name.start == pos && h.name.end == t.0 && h.value.start == t.1
                && h.value.end == t.2 && h.span.start == pos && h.span.end == t.2 && end == t.3,
            Result::Err(_) => hline(buf@, pos as int) is None,
        },
{
    let n = buf.len();
    let le = match find_crlf(buf, pos) {
        Ok(e) => e,
        Err(err) => {
            return Err(err);
        },
    };
    proof {
        assert(le + 2 <= n);
    }
    // The name runs to the colon.
    let i = scan_colon(buf, pos, le);
    if i >= le {
        return Err(ParseError::Malformed { byte_offset: pos });
    }
    if i == pos {
        return Err(ParseError::Malformed { byte_offset: pos });
    }
    let name_end = i;
    // The value starts after the colon and optional whitespace.
    let vs = scan_sp(buf, name_end + 1, le);
    // Trim trailing whitespace.
    let ve = scan_rtrim(buf, vs, le);
    let h = Header {
        span: Span::extract(buf, pos, ve),
        name: Span::extract(buf, pos, name_end),
        value: Span::extract(buf, vs, ve),
    };
    Ok((h, le + 2))
}

/// The value of a `Content-Length` field: a non-empty run of decimal digits
/// whose value fits the machine.
pub open spec fn cl_of(v: Seq<u8>) -> Option<int> {
    if v.len() > 0 && all_digits(v) && dec_val(v) <= usize::MAX {
        Option::Some(dec_val(v))
    } else {
        Option::None
    }
}

proof fn lemma_dec_val_nonneg(s: Seq<u8>)
    requires
        all_digits(s),
    ensures
        dec_val(s) >= 0,
    decreases s.len(),
{
    if s.len() > 0 {
        lemma_dec_val_nonneg(s.take(s.len() - 1));
    }
}

proof fn lemma_dec_val_mono(s: Seq<u8>, i: int, j: int)
    requires
        all_digits(s),
        0 <= i <= j <= s.len(),
    ensures
        dec_val(s.take(i)) <= dec_val(s.take(j)),
    decreases j - i,
{
    if i < j {
        lemma_dec_val_mono(s, i, j - 1);
        lemma_dec_val_nonneg(s.take(j - 1));
        assert(s.take(j).take(j - 1) =~= s.take(j - 1));
        assert(dec_val(s.take(j)) == dec_val(s.take(j - 1)) * 10 + (s[j - 1] - 48));
    }
}

/// Reads the decimal value of a `Content-Length` header.
fn parse_content_length(v: &[u8]) -> (r: Option<usize>)
    ensures
        match r {
            Option::Some(l) => cl_of(v@) == Option::Some(l as int),
            Option::None => cl_of(v@) is None,
        },
{
    if v.len() == 0 {
        return None;
    }
    let mut acc: usize = 0;
    let mut i: usize = 0;
    while i < v.len()
        invariant
            i <= v@.len(),
            v@.len() > 0,
            all_digits(v@.take(i as int)),
            acc == dec_val(v@.take(i as int)),
        decreases v@.len() - i,
    {
        let c = v[i];
        if c < 48 || c > 57 {
            proof {
                assert(!all_digits(v@));
            }
            return None;
        }
        let d = (c - 48) as usize;
        proof {
            assert(v@.take(i + 1 as int).take(i as int) =~= v@.take(i as int));
            assert(v@.take(i + 1 as int)[i as int] == v@[i as int]);
            assert(dec_val(v@.take(i + 1 as int)) == acc * 10 + d);
            assert(all_digits(v@.take(i + 1 as int)));
        }
        if acc > (usize::MAX - d) / 10 {
            proof {
                assert(acc * 10 + d > usize::MAX) by (nonlinear_arith)
                    requires
                        acc > (usize::MAX - d) / 10,
                        d <= 9,
                ;
                if all_digits(v@) {
                    lemma_dec_val_mono(v@, i + 1 as int, v@.len() as int);
                    assert(v@.take(v@.len() as int) =~= v@);
                    assert(dec_val(v@) > usize::MAX);
                }
            }
            return None;
        }
        proof {
            assert(acc * 10 + d <= usize::MAX) by (nonlinear_arith)
                requires
                    acc <= (usize::MAX - d) / 10,
                    d <= 9,
            ;
        }
        acc = acc * 10 + d;
        i = i + 1;
    }
    proof {
        assert(v@.take(v@.len() as int) =~= v@);
    }
    Some(acc)
}

/// Whether `b` is a hexadecimal digit.
pub open spec fn is_hex_digit(b: u8) -> bool {
    ||| 48 <= b <= 57
    ||| 97 <= b <= 102
    ||| 65 <= b <= 70
}

/// The value of a hexadecimal digit.
pub open spec fn hex_digit_val(b: u8) -> int {
    if 48 <= b <= 57 {
        b - 48
    } else if 97 <= b <= 102 {
        b - 87
    } else {
        b - 55
    }
}

/// Whether every byte of `s` is a hexadecimal digit.
pub open spec fn all_hex(s: Seq<u8>) -> bool {
    forall|i: int| 0 <= i < s.len() ==> is_hex_digit(#[trigger] s[i])
}

/// The value of a run of hexadecimal digits.
pub open spec fn hexv(s: Seq<u8>) -> int
    decreases s.len(),
{
    if s.len() == 0 {
        0
    } else {
        hexv(s.take(s.len() - 1)) * 16 + hex_digit_val(s[s.len() - 1])
    }
}

/// The value of a chunk-size line: a non-empty run of hexadecimal digits
/// whose value fits the machine.
pub open spec fn hex_of(v: Seq<u8>) -> Option<int> {
    if v.len() > 0 && all_hex(v) && hexv(v) <= usize::MAX {
        Option::Some(hexv(v))
    } else {
        Option::None
    }
}

pub proof fn lemma_hexv_nonneg(s: Seq<u8>)
    requires
        all_hex(s),
    ensures
        hexv(s) >= 0,
    decreases s.len(),
{
    if s.len() > 0 {
        lemma_hexv_nonneg(s.take(s.len() - 1));
    }
}

proof fn lemma_hexv_mono(s: Seq<u8>, i: int, j: int)
    requires
        all_hex(s),
        0 <= i <= j <= s.len(),
    ensures
        hexv(s.take(i)) <= hexv(s.take(j)),
    decreases j - i,
{
    if i < j {
        lemma_hexv_mono(s, i, j - 1);
        lemma_hexv_nonneg(s.take(j - 1));
        assert(s.take(j).take(j - 1) =~= s.take(j - 1));
        assert(hexv(s.take(j)) == hexv(s.take(j - 1)) * 16 + hex_digit_val(s[j - 1]));
    }
}

/// Reads the hexadecimal value of a chunk-size line.
fn parse_hex(v: &[u8]) -> (r: Option<usize>)
    ensures
        match r {
            Option::Some(l) => hex_of(v@) == Option::Some(l as int),
            Option::None => hex_of(v@) is None,
        },
{
    if v.len() == 0 {
        return None;
    }
    let mut acc: usize = 0;
    let mut i: usize = 0;
    while i < v.len()
        invariant
            i <= v@.len(),
            v@.len() > 0,
            all_hex(v@.take(i as int)),
            acc == hexv(v@.take(i as int)),
        decreases v@.len() - i,
    {
        let c = v[i];
        let d: usize = if 48 <= c && c <= 57 {
            (c - 48) as usize
        } else if 97 <= c && c <= 102 {
            (c - 87) as usize
        } else if 65 <= c && c <= 70 {
            (c - 55) as usize
        } else {
            proof {
                assert(!is_hex_digit(v@[i as int]));
                assert(!all_hex(v@));
            }
            return None;
        };
        proof {
            assert(v@.take(i + 1 as int).take(i as int) =~= v@.take(i as int));
            assert(v@.take(i + 1 as int)[i as int] == v@[i as int]);
            assert(hexv(v@.take(i + 1 as int)) == acc * 16 + d);
            assert(all_hex(v@.take(i + 1 as int)));
        }
        if acc > (usize::MAX - d) / 16 {
            proof {
                assert(acc * 16 + d > usize::MAX) by (nonlinear_arith)
                    requires
                        acc > (usize::MAX - d) / 16,
                        d <= 15,
                ;
                if all_hex(v@) {
                    lemma_hexv_mono(v@, i + 1 as int, v@.len() as int);
                    assert(v@.take(v@.len() as int) =~= v@);
                    assert(hexv(v@) > usize::MAX);
                }
            }
            return None;
        }
        proof {
            assert(acc * 16 + d <= usize::MAX) by (nonlinear_arith)
                requires
                    acc <= (usize::MAX - d) / 16,
                    d <= 15,
            ;
        }
        acc = acc * 16 + d;
        i = i + 1;
    }
    proof {
        assert(v@.take(v@.len() as int) =~= v@);
    }
    Some(acc)
}

/// Parses the header block at `pos` up to and including the empty line.
/// Returns the headers, the position of the empty line, and the position
/// after it.
fn parse_headers(buf: &[u8], pos: usize) -> (r: Result<(Vec<Header>, usize, usize), ParseError>)
    requires
        pos <= buf@.len(),
    ensures
        r matches Ok((hs, blank, end)) ==> {
            &&& pos <= blank
            &&& blank + 2 == end
            &&& end <= buf@.len()
            &&& (forall|i: int| 0 <= i < hs@.len() ==> (#[trigger] hs@[i]).wf())
            &&& (forall|i: int| 0 <= i < hs@.len() ==> header_in_buf(#[trigger] hs@[i], buf@))
            &&& headers_ordered(hs@, pos as int, blank as int)
        },
        match r {
            Result::Ok((hs, blank, end)) => hblock(buf@, pos as int) matches Option::Some(b)
                && hmap(hs@) == b.0 && end == b.1,
            Result::Err(_) => hblock(buf@, pos as int) is None,
        },
        r matches Ok((hs, blank, end)) ==> headers_at(buf@, hmap(hs@), hs@),
{
    let n = buf.len();
    let mut headers: Vec<Header> = Vec::new();
    let mut cur = pos;
    proof {
        assert(hmap(headers@) =~= Seq::<(int, int, int, int)>::empty());
    }
    loop
        invariant
            pos <= cur <= n,
            n == buf@.len(),
            match hblock(buf@, cur as int) {
                Option::None => hblock(buf@, pos as int) is None,
                Option::Some(b) => hblock(buf@, pos as int) matches Option::Some(full) && full.0
                    == hmap(headers@) + b.0 && full.1 == b.1,
            },
            forall|i: int| 0 <= i < headers@.len() ==> (#[trigger] headers@[i]).wf(),
            forall|i: int| 0 <= i < headers@.len() ==> header_in_buf(#[trigger] headers@[i], buf@),
            forall|i: int|
                0 <= i < headers@.len() ==> (#[trigger] headers@[i]).span.start
                    == headers@[i].name.start && headers@[i].span.end == headers@[i].value.end,
            forall|i: int|
                0 <= i < headers@.len() ==> pos <= (#[trigger] headers@[i]).span.start
                    && headers@[i].span.end <= cur,
            forall|i: int, j: int|
                0 <= i < j < headers@.len() ==> (#[trigger] headers@[i]).span.end
                    <= (#[trigger] headers@[j]).span.start,
        decreases n - cur,
    {
        if cur >= n {
            return Err(ParseError::UnexpectedEnd);
        }
        if cur + 1 < n && buf[cur] == 13 && buf[cur + 1] == 10 {
            proof {
                assert(hblock(buf@, cur as int) == Option::Some(
                    (Seq::<(int, int, int, int)>::empty(), cur + 2 as int),
                ));
                assert(hmap(headers@) + Seq::<(int, int, int, int)>::empty() =~= hmap(headers@));
                assert(headers_at(buf@, hmap(headers@), headers@)) by {
                    assert forall|i: int| 0 <= i < headers@.len() implies header_fields_at(
                        buf@,
                        hmap(headers@)[i],
                        headers@[i],
                    ) by {
                        assert(hmap(headers@)[i] == (
                            headers@[i].name.start as int,
                            headers@[i].name.end as int,
                            headers@[i].value.start as int,
                            headers@[i].value.end as int,
                        ));
                    }
                }
            }
            return Ok((headers, cur, cur + 2));
        }
        let (h, end) = match parse_header_line(buf, cur) {
            Ok(x) => x,
            Err(err) => {
                return Err(err);
            },
        };
        let ghost prev = headers@;
        headers.push(h);
        proof {
            assert(forall|i: int| 0 <= i < prev.len() ==> headers@[i] == prev[i]);
            assert(hmap(headers@) =~= hmap(prev).push(
                (h.name.start as int, h.name.end as int, h.value.start as int, h.value.end as int),
            ));
            let t = hline(buf@, cur as int)->Some_0;
            match hblock(buf@, end as int) {
                Option::None => {
                    assert(hblock(buf@, cur as int) is None);
                },
                Option::Some(b2) => {
                    assert(hblock(buf@, cur as int) == Option::Some(
                        (seq![(cur as int, t.0, t.1, t.2)] + b2.0, b2.1),
                    ));
                    assert(hmap(prev) + (seq![(cur as int, t.0, t.1, t.2)] + b2.0) =~= hmap(
                        headers@,
                    ) + b2.0);
                },
            }
        }
        cur = end;
    }
}

/// The value range of the first listed header whose name, compared without
/// regard to ASCII case, is `name`.
pub open spec fn hv_find(
    s: Seq<u8>,
    lst: Seq<(int, int, int, int)>,
    name: Seq<u8>,
) -> Option<(int, int)>
    decreases lst.len(),
{
    if lst.len() == 0 {
        Option::None
    } else if lower_seq(s.subrange(lst[0].0, lst[0].1)) == lower_seq(name) {
        Option::Some((lst[0].2, lst[0].3))
    } else {
        hv_find(s, lst.skip(1), name)
    }
}

/// Looking a name up in the parsed headers agrees with looking it up in the
/// byte-level decomposition of the header block.
proof fn lemma_find_header_hv(s: Seq<u8>, hs: Seq<Header>, name: Seq<u8>)
    requires
        forall|k: int| 0 <= k < hs.len() ==> header_in_buf(#[trigger] hs[k], s),
    ensures
        match find_header(hs, name) {
            Option::Some(i) => 0 <= i < hs.len() && hv_find(s, hmap(hs), name) == Option::Some(
                (hs[i].value.start as int, hs[i].value.end as int),
            ),
            Option::None => hv_find(s, hmap(hs), name) is None,
        },
    decreases hs.len(),
{
    if hs.len() > 0 {
        assert(hmap(hs)[0] == (
            hs[0].name.start as int,
            hs[0].name.end as int,
            hs[0].value.start as int,
            hs[0].value.end as int,
        ));
        assert(hs[0].name.data@ == s.subrange(hs[0].name.start as int, hs[0].name.end as int));
        if lower_seq(hs[0].name.data@) == lower_seq(name) {
        } else {
            assert(hmap(hs).skip(1) =~= hmap(hs.skip(1)));
            lemma_find_header_hv(s, hs.skip(1), name);
        }
    }
}

/// The value of the chunked transfer coding.
pub open spec fn chunked_value() -> Seq<u8> {
    seq![99u8, 104u8, 117u8, 110u8, 107u8, 101u8, 100u8]
}

/// The lowered prefix that marks a JSON media type.
pub open spec fn json_mime() -> Seq<u8> {
    seq![
        97u8, 112u8, 112u8, 108u8, 105u8, 99u8, 97u8, 116u8, 105u8, 111u8, 110u8, 47u8, 106u8,
        115u8, 111u8, 110u8,
    ]
}

/// Resolved framing of a message body.
pub enum Framing {
    /// No body.
    NoBody,
    /// `Content-Length` framing with the given length.
    Length(usize),
    /// Chunked framing.
    Chunked,
}

/// The framing the header block declares: the chunked transfer coding first,
/// then `Content-Length`, else no body; nothing when the `Content-Length`
/// value is not a machine-ranged run of digits.
pub open spec fn framing_of(s: Seq<u8>, lst: Seq<(int, int, int, int)>) -> Option<Framing> {
    if (match hv_find(s, lst, transfer_encoding_name()) {
        Option::Some(vr) => lower_seq(s.subrange(vr.0, vr.1)) == chunked_value(),
        Option::None => false,
    }) {
        Option::Some(Framing::Chunked)
    } else {
        match hv_find(s, lst, content_length_name()) {
            Option::Some(vr) => match cl_of(s.subrange(vr.0, vr.1)) {
                Option::Some(l) => Option::Some(Framing::Length(l as usize)),
                Option::None => Option::None,
            },
            Option::None => Option::Some(Framing::NoBody),
        }
    }
}

/// Resolves the body framing from the parsed headers: chunked transfer
/// coding first, then `Content-Length`, else no body.
fn resolve_framing(buf: &[u8], headers: &Vec<Header>) -> (r: Result<Framing, ParseError>)
    requires
        forall|k: int| 0 <= k < headers@.len() ==> header_in_buf(#[trigger] headers@[k], buf@),
    ensures
        match r {
            Result::Ok(f) => framing_of(buf@, hmap(headers@)) == Option::Some(f),
            Result::Err(_) => framing_of(buf@, hmap(headers@)) is None,
        },
{
    let te_name: Vec<u8> = vec![
        116u8,
        114,
        97,
        110,
        115,
        102,
        101,
        114,
        45,
        101,
        110,
        99,
        111,
        100,
        105,
        110,
        103,
    ];
    proof {
        assert(te_name@ =~= transfer_encoding_name());
        lemma_find_header_hv(buf@, headers@, transfer_encoding_name());
    }
    match headers_with_name(headers, te_name.as_slice()) {
        Some(i) => {
            let te = &headers[i];
            if bytes_eq_ci_contains_chunked(te.value.as_bytes()) {
                return Ok(Framing::Chunked);
            }
        },
        None => {},
    }
    let cl_name: Vec<u8> = vec![99u8, 111, 110, 116, 101, 110, 116, 45, 108, 101, 110, 103, 116, 104];
    proof {
        assert(cl_name@ =~= content_length_name());
        lemma_find_header_hv(buf@, headers@, content_length_name());
    }
    match headers_with_name(headers, cl_name.as_slice()) {
        Some(i) => {
            let cl = &headers[i];
            match parse_content_length(cl.value.as_bytes()) {
                Some(len) => Ok(Framing::Length(len)),
                None => Err(ParseError::Malformed { byte_offset: cl.value.start }),
            }
        },
        None => Ok(Framing::NoBody),
    }
}

/// Whether the value names the chunked transfer coding.
fn bytes_eq_ci_contains_chunked(v: &[u8]) -> (r: bool)
    ensures
        r == (lower_seq(v@) == chunked_value()),
{
    let chunked: Vec<u8> = vec![99u8, 104, 117, 110, 107, 101, 100];
    proof {
        assert(chunked@ =~= chunked_value());
        assert(lower_seq(chunked_value()) =~= chunked_value());
    }
    crate::http::bytes_eq_ci(v, chunked.as_slice())
}

/// Whether the `Content-Type` header of the block begins with
/// `application/json`, compared without regard to ASCII case.
pub open spec fn ct_json_of(s: Seq<u8>, lst: Seq<(int, int, int, int)>) -> bool {
    match hv_find(s, lst, content_type_name()) {
        Option::Some(vr) => vr.1 - vr.0 >= 16 && lower_seq(s.subrange(vr.0, vr.0 + 16))
            == json_mime(),
        Option::None => false,
    }
}

/// Whether the `Content-Type` header value begins with `application/json`,
/// without regard to ASCII case.
fn is_json_content_type(buf: &[u8], headers: &Vec<Header>) -> (r: bool)
    requires
        forall|k: int| 0 <= k < headers@.len() ==> header_in_buf(#[trigger] headers@[k], buf@),
    ensures
        r == ct_json_of(buf@, hmap(headers@)),
{
    let ct_name: Vec<u8> = vec![99u8, 111, 110, 116, 101, 110, 116, 45, 116, 121, 112, 101];
    proof {
        assert(ct_name@ =~= content_type_name());
        lemma_find_header_hv(buf@, headers@, content_type_name());
    }
    match headers_with_name(headers, ct_name.as_slice()) {
        Some(i) => {
            let v = &headers[i].value;
            let json_prefix: Vec<u8> = vec![
                97u8,
                112,
                112,
                108,
                105,
                99,
                97,
                116,
                105,
                111,
                110,
                47,
                106,
                115,
                111,
                110,
            ];
            proof {
                assert(json_prefix@ =~= json_mime());
                assert(lower_seq(json_mime()) =~= json_mime());
            }
            let prefix: &[u8] = json_prefix.as_slice();
            if v.len() < prefix.len() {
                return false;
            }
            let vb = v.as_bytes();
            let head = &vb[0..prefix.len()];
            proof {
                assert(head@ =~= buf@.subrange(
                    headers@[i as int].value.start as int,
                    headers@[i as int].value.start + 16,
                ));
            }
            crate::http::bytes_eq_ci(head, prefix)
        },
        None => false,
    }
}

/// The end of the chunked body region (after the final zero-size line) and
/// of the whole message (after the trailers and closing blank line), for a
/// chunked body starting at `cur`.
pub open spec fn chunked_end(s: Seq<u8>, cur: int) -> Option<(int, int)>
    decreases s.len() - cur, 0int,
    when 0 <= cur <= s.len()
{
    match crlf_find(s, cur) {
        Option::None => Option::None,
        Option::Some(le) => if le == cur {
            Option::None
        } else {
            match hex_of(s.subrange(cur, le)) {
                Option::None => Option::None,
                Option::Some(sz) => if sz == 0 {
                    match hblock(s, le + 2) {
                        Option::None => Option::None,
                        Option::Some(b) => Option::Some((le + 2, b.1)),
                    }
                } else {
                    if le + 2 + sz + 2 > s.len() {
                        Option::None
                    } else if !(s[le + 2 + sz] == 13 && s[le + 2 + sz + 1] == 10) {
                        Option::None
                    } else {
                        proof {
                            lemma_cr_scan_bounds(s, cur);
                            lemma_hexv_nonneg(s.subrange(cur, le));
                        }
                        chunked_end(s, le + 2 + sz + 2)
                    }
                },
            }
        },
    }
}

/// Parses a chunked body at `pos`.  Returns the chunk-size line spans, the
/// trailer headers, the end of the body region (after the final zero-size
/// line), and the end of the whole message.
fn parse_chunked(buf: &[u8], pos: usize) -> (r: Result<
    (Vec<Span>, Vec<Header>, usize, usize),
    ParseError,
>)
    requires
        pos <= buf@.len(),
    ensures
        r matches Ok((bs, ts, body_end, end)) ==> {
            &&& pos < body_end <= end <= buf@.len()
            &&& (forall|i: int| 0 <= i < bs@.len() ==> (#[trigger] bs@[i]).consistent_with(buf@))
            &&& (forall|i: int| 0 <= i < ts@.len() ==> header_in_buf(#[trigger] ts@[i], buf@))
            &&& (forall|i: int|
                0 <= i < bs@.len() ==> (#[trigger] bs@[i]).wf() && pos <= bs@[i].start
                    && bs@[i].end <= body_end)
            &&& (forall|i: int, j: int|
                0 <= i < j < bs@.len() ==> (#[trigger] bs@[i]).end <= (#[trigger] bs@[j]).start)
            &&& (forall|i: int|
                0 <= i < ts@.len() ==> (#[trigger] ts@[i]).wf() && body_end <= ts@[i].span.start
                    && ts@[i].span.end <= end)
            &&& (forall|i: int, j: int|
                0 <= i < j < ts@.len() ==> (#[trigger] ts@[i]).span.end
                    <= (#[trigger] ts@[j]).span.start)
        },
        match r {
            Result::Ok((bs, ts, body_end, end)) => chunked_end(buf@, pos as int) == Option::Some(
                (body_end as int, end as int),
            ),
            Result::Err(_) => chunked_end(buf@, pos as int) is None,
        },
        r matches Ok((bs, ts, body_end, end)) ==> chunk_lines_at(buf@, pos as int, bs@, ts@),
{
    let n = buf.len();
    let mut boundaries: Vec<Span> = Vec::new();
    let mut cur = pos;
    let mut first = true;
    proof {
        assert forall|rest: Seq<Span>, tss: Seq<Header>| #[trigger] chunk_lines_at(
            buf@,
            pos as int,
            rest,
            tss,
        ) implies chunk_lines_at(buf@, pos as int, boundaries@ + rest, tss) by {
            assert(boundaries@ + rest =~= rest);
        }
    }
    loop
        invariant
            pos <= cur <= n,
            n == buf@.len(),
            chunked_end(buf@, pos as int) == chunked_end(buf@, cur as int),
            first ==> cur == pos && boundaries@.len() == 0,
            forall|rest: Seq<Span>, tss: Seq<Header>| #[trigger] chunk_lines_at(
                buf@,
                cur as int,
                rest,
                tss,
            ) ==> chunk_lines_at(buf@, pos as int, boundaries@ + rest, tss),
            forall|i: int|
                0 <= i < boundaries@.len() ==> (#[trigger] boundaries@[i]).wf() && pos
                    <= boundaries@[i].start && boundaries@[i].end <= cur,
            forall|i: int|
                0 <= i < boundaries@.len() ==> (#[trigger] boundaries@[i]).consistent_with(buf@),
            forall|i: int, j: int|
                0 <= i < j < boundaries@.len() ==> (#[trigger] boundaries@[i]).end
                    <= (#[trigger] boundaries@[j]).start,
            !first ==> pos < cur,
        decreases n - cur,
    {
        let le = match find_crlf(buf, cur) {
            Ok(e) => e,
            Err(err) => {
                return Err(err);
            },
        };
        if le == cur {
            return Err(ParseError::Malformed { byte_offset: cur });
        }
        let line = &buf[cur..le];
        let size = match parse_hex(line) {
            Some(s) => s,
            None => {
                return Err(ParseError::Malformed { byte_offset: cur });
            },
        };
        let ghost kpos = cur as int;
        let sp0 = Span::extract(buf, cur, le + 2);
        let ghost b0 = sp0;
        let ghost prevb = boundaries@;
        boundaries.push(sp0);
        proof {
            assert(forall|i: int| 0 <= i < prevb.len() ==> boundaries@[i] == prevb[i]);
            assert(hex_of(buf@.subrange(kpos, le as int)) == Option::Some(size as int)) by {
                assert(line@ =~= buf@.subrange(kpos, le as int));
            }
        }
        if size == 0 {
            let body_end = le + 2;
            // Trailer headers, then the final empty line.
            let (trailers, _blank, end) = match parse_headers(buf, body_end) {
                Ok(x) => x,
                Err(err) => {
                    return Err(err);
                },
            };
            proof {
                let single = seq![b0];
                assert(single[0] == b0 && single.len() == 1);
                assert(chunk_lines_at(buf@, kpos, single, trailers@));
                assert(chunk_lines_at(buf@, pos as int, prevb + single, trailers@));
                assert(prevb + single =~= boundaries@);
            }
            return Ok((boundaries, trailers, body_end, end));
        }
        // Skip the chunk data and its CRLF.
        if size > n || le + 2 > n - size {
            return Err(ParseError::UnexpectedEnd);
        }
        let data_end = le + 2 + size;
        if data_end >= n || n - data_end < 2 {
            return Err(ParseError::UnexpectedEnd);
        }
        if buf[data_end] != 13 || buf[data_end + 1] != 10 {
            return Err(ParseError::Malformed { byte_offset: data_end });
        }
        cur = data_end + 2;
        first = false;
        proof {
            assert forall|rest: Seq<Span>, tss: Seq<Header>| #[trigger] chunk_lines_at(
                buf@,
                cur as int,
                rest,
                tss,
            ) implies chunk_lines_at(buf@, pos as int, boundaries@ + rest, tss) by {
                let withb = seq![b0] + rest;
                assert(withb.skip(1) =~= rest);
                assert(withb[0] == b0);
                assert(chunk_lines_at(buf@, kpos, withb, tss));
                assert(chunk_lines_at(buf@, pos as int, prevb + withb, tss));
                assert(prevb + withb =~= boundaries@ + rest);
            }
        }
    }
}

/// Parses the body content at `[lo, hi)`: a sentinel-filled region stays
/// unknown; otherwise a JSON content type dispatches to the JSON parser.
fn parse_body_content(buf: &[u8], lo: usize, hi: usize, json_ct: bool) -> (r: Result<
    BodyContent,
    ParseError,
>)
    requires
        lo <= hi <= buf@.len(),
    ensures
        r matches Ok(c) ==> match c {
            BodyContent::Json(v) => json_wf(v) && json_in_buf(v, buf@) && lo <= v.span_spec().start
                && v.span_spec().end <= hi,
            BodyContent::Unknown(sp) => sp.wf() && sp.consistent_with(buf@) && lo <= sp.start
                && sp.end <= hi,
        },
        r is Ok <==> body_ok(buf@, lo as int, hi as int, json_ct),
        r matches Ok(c) ==> body_content_at(buf@, lo as int, hi as int, json_ct, c),
{
    if lo == hi || !json_ct || all_sentinel(buf, lo, hi) {
        return Ok(BodyContent::Unknown(Span::extract(buf, lo, hi)));
    }
    let (v, end) = match parse_value(buf, lo) {
        Ok(x) => x,
        Err(err) => {
            return Err(err);
        },
    };
    if end > hi {
        return Err(ParseError::Malformed { byte_offset: lo });
    }
    Ok(BodyContent::Json(v))
}

/// Whether the body region `[lo, hi)` parses: an empty, non-JSON or
/// sentinel-filled region stays unknown; otherwise the region must open with
/// a JSON value of the grammar that ends within it.
pub open spec fn body_ok(s: Seq<u8>, lo: int, hi: int, json_ct: bool) -> bool {
    ||| lo == hi
    ||| !json_ct
    ||| (forall|j: int| lo <= j < hi ==> is_sentinel(#[trigger] s[j]))
    ||| (value_end(s, lo) matches Option::Some(e) && e <= hi)
}

/// The end of the framed body opening at `after`, given the header block
/// decomposition `lst`, or nothing when framing or the body fails.
pub open spec fn framed_end(s: Seq<u8>, lst: Seq<(int, int, int, int)>, after: int) -> Option<
    int,
> {
    match framing_of(s, lst) {
        Option::None => Option::None,
        Option::Some(Framing::NoBody) => Option::Some(after),
        Option::Some(Framing::Chunked) => match chunked_end(s, after) {
            Option::Some(ce) => Option::Some(ce.1),
            Option::None => Option::None,
        },
        Option::Some(Framing::Length(l)) => if after + l > s.len() {
            Option::None
        } else {
            if body_ok(s, after, after + l, ct_json_of(s, lst)) {
                Option::Some(after + l)
            } else {
                Option::None
            }
        },
    }
}

/// The position after the request message at `pos`, or nothing when the
/// bytes there violate the grammar.  This is the grammar the request parser
/// decides.
pub open spec fn request_end(s: Seq<u8>, pos: int) -> Option<int> {
    match crlf_find(s, pos) {
        Option::None => Option::None,
        Option::Some(le) => {
            let m = nsp_end(s, pos, le);
            if m == pos {
                Option::None
            } else {
                let tstart = sp_run_end(s, m, le);
                if tstart == m {
                    Option::None
                } else {
                    let tend = nsp_end(s, tstart, le);
                    if tend == tstart {
                        Option::None
                    } else {
                        match hblock(s, le + 2) {
                            Option::None => Option::None,
                            Option::Some(b) => framed_end(s, b.0, b.1),
                        }
                    }
                }
            }
        },
    }
}

/// The position after the response message at `pos`, or nothing when the
/// bytes there violate the grammar.
pub open spec fn response_end(s: Seq<u8>, pos: int) -> Option<int> {
    match crlf_find(s, pos) {
        Option::None => Option::None,
        Option::Some(le) => {
            let vend = nsp_end(s, pos, le);
            if vend == pos {
                Option::None
            } else {
                let cstart = sp_run_end(s, vend, le);
                if cstart == vend {
                    Option::None
                } else {
                    let cend = nsp_end(s, cstart, le);
                    if cend == cstart {
                        Option::None
                    } else {
                        match hblock(s, le + 2) {
                            Option::None => Option::None,
                            Option::Some(b) => framed_end(s, b.0, b.1),
                        }
                    }
                }
            }
        },
    }
}

/// The header's three spans stand at the positions of one header-block
/// entry: the name from the line's start to the colon, the value trimmed,
/// the span from name start to value end.
pub open spec fn header_fields_at(s: Seq<u8>, t: (int, int, int, int), h: Header) -> bool {
    &&& span_is(h.name, s, t.0, t.1)
    &&& span_is(h.value, s, t.2, t.3)
    &&& span_is(h.span, s, t.0, t.3)
}

/// The headers stand exactly at the entries of the header-block
/// decomposition, one per line and in line order.
pub open spec fn headers_at(s: Seq<u8>, lst: Seq<(int, int, int, int)>, hs: Seq<Header>) -> bool {
    &&& hs.len() == lst.len()
    &&& forall|i: int| 0 <= i < hs.len() ==> header_fields_at(s, lst[i], #[trigger] hs[i])
}

/// The exact content of the body region `[lo, hi)`: an empty, non-JSON or
/// sentinel-filled region is the unknown bytes of the region; otherwise the
/// JSON tree opening at `lo`.
pub open spec fn body_content_at(s: Seq<u8>, lo: int, hi: int, json_ct: bool, c: BodyContent) -> bool {
    if lo == hi || !json_ct || (forall|j: int| lo <= j < hi ==> is_sentinel(#[trigger] s[j])) {
        c matches BodyContent::Unknown(sp) && span_is(sp, s, lo, hi)
    } else {
        c matches BodyContent::Json(v) && value_at(s, lo, v)
    }
}

/// The exact chunk-size line spans and trailer headers of the chunked body
/// at `cur`: one span per size line in order, and the trailers at the block
/// after the zero-size line.
pub open spec fn chunk_lines_at(s: Seq<u8>, cur: int, bs: Seq<Span>, ts: Seq<Header>) -> bool
    decreases s.len() - cur, 0int,
    when 0 <= cur <= s.len()
{
    match crlf_find(s, cur) {
        Option::None => false,
        Option::Some(le) => if le == cur {
            false
        } else {
            match hex_of(s.subrange(cur, le)) {
                Option::None => false,
                Option::Some(sz) => {
                    &&& bs.len() >= 1
                    &&& span_is(bs[0], s, cur, le + 2)
                    &&& if sz == 0 {
                        match hblock(s, le + 2) {
                            Option::None => false,
                            Option::Some(b) => bs.len() == 1 && headers_at(s, b.0, ts),
                        }
                    } else {
                        if le + 2 + sz + 2 > s.len() {
                            false
                        } else if !(s[le + 2 + sz] == 13 && s[le + 2 + sz + 1] == 10) {
                            false
                        } else {
                            proof {
                                lemma_cr_scan_bounds(s, cur);
                                lemma_hexv_nonneg(s.subrange(cur, le));
                            }
                            chunk_lines_at(s, le + 2 + sz + 2, bs.skip(1), ts)
                        }
                    }
                },
            }
        },
    }
}

/// The exact parse of the request message at `pos`: the request-line spans
/// at the grammar's positions, the headers at the block's entries, and the
/// body as the headers frame it.  Together with [`request_end`] this pins
/// what the request parser returns.
pub open spec fn request_at(s: Seq<u8>, pos: int, r: Request) -> bool {
    match crlf_find(s, pos) {
        Option::None => false,
        Option::Some(le) => {
            let m = nsp_end(s, pos, le);
            if m == pos {
                false
            } else {
                let tstart = sp_run_end(s, m, le);
                if tstart == m {
                    false
                } else {
                    let tend = nsp_end(s, tstart, le);
                    if tend == tstart {
                        false
                    } else {
                        &&& span_is(r.request.span, s, pos, le)
                        &&& span_is(r.request.method, s, pos, m)
                        &&& span_is(r.request.target, s, tstart, tend)
                        &&& match hblock(s, le + 2) {
                            Option::None => false,
                            Option::Some(b) => {
                                &&& headers_at(s, b.0, r.headers@)
                                &&& match framing_of(s, b.0) {
                                    Option::None => false,
                                    Option::Some(Framing::NoBody) => r.body is None && span_is(
                                        r.span,
                                        s,
                                        pos,
                                        b.1,
                                    ),
                                    Option::Some(Framing::Length(l)) => r.body matches Option::Some(
                                        body,
                                    ) && span_is(body.span, s, b.1, b.1 + l) && body_content_at(
                                        s,
                                        b.1,
                                        b.1 + l,
                                        ct_json_of(s, b.0),
                                        body.content,
                                    ) && span_is(r.span, s, pos, b.1 + l),
                                    Option::Some(Framing::Chunked) => match chunked_end(s, b.1) {
                                        Option::None => false,
                                        Option::Some(ce) => r.body matches Option::Some(body)
                                            && span_is(body.span, s, b.1, ce.0) && (body.content
                                            matches BodyContent::Unknown(sp) && span_is(
                                            sp,
                                            s,
                                            b.1,
                                            ce.0,
                                        )) && span_is(r.span, s, pos, ce.1),
                                    },
                                }
                            },
                        }
                    }
                }
            }
        },
    }
}

/// The exact parse of the response message at `pos`: the status-line spans
/// at the grammar's positions, the headers at the block's entries, and the
/// body, chunk boundaries and trailers as the headers frame them.
pub open spec fn response_at(s: Seq<u8>, pos: int, r: Response) -> bool {
    match crlf_find(s, pos) {
        Option::None => false,
        Option::Some(le) => {
            let vend = nsp_end(s, pos, le);
            if vend == pos {
                false
            } else {
                let cstart = sp_run_end(s, vend, le);
                if cstart == vend {
                    false
                } else {
                    let cend = nsp_end(s, cstart, le);
                    if cend == cstart {
                        false
                    } else {
                        let rstart = sp_run_end(s, cend, le);
                        &&& span_is(r.status.span, s, pos, le)
                        &&& span_is(r.status.code, s, cstart, cend)
                        &&& span_is(r.status.reason, s, rstart, le)
                        &&& match hblock(s, le + 2) {
                            Option::None => false,
                            Option::Some(b) => {
                                &&& headers_at(s, b.0, r.headers@)
                                &&& match framing_of(s, b.0) {
                                    Option::None => false,
                                    Option::Some(Framing::NoBody) => r.body is None
                                        && r.boundaries is None && r.trailers is None && span_is(
                                        r.span,
                                        s,
                                        pos,
                                        b.1,
                                    ),
                                    Option::Some(Framing::Length(l)) => r.body matches Option::Some(
                                        body,
                                    ) && span_is(body.span, s, b.1, b.1 + l) && body_content_at(
                                        s,
                                        b.1,
                                        b.1 + l,
                                        ct_json_of(s, b.0),
                                        body.content,
                                    ) && r.boundaries is None && r.trailers is None && span_is(
                                        r.span,
                                        s,
                                        pos,
                                        b.1 + l,
                                    ),
                                    Option::Some(Framing::Chunked) => match chunked_end(s, b.1) {
                                        Option::None => false,
                                        Option::Some(ce) => r.body matches Option::Some(body)
                                            && span_is(body.span, s, b.1, ce.0) && (body.content
                                            matches BodyContent::Unknown(sp) && span_is(
                                            sp,
                                            s,
                                            b.1,
                                            ce.0,
                                        )) && (r.boundaries matches Option::Some(bs)
                                            && r.trailers matches Option::Some(ts)
                                            && chunk_lines_at(s, b.1, bs@, ts@)) && span_is(
                                            r.span,
                                            s,
                                            pos,
                                            ce.1,
                                        ),
                                    },
                                }
                            },
                        }
                    }
                }
            }
        },
    }
}

/// Every request of the stream is the exact parse at its own start.
pub open spec fn requests_at(s: Seq<u8>, rs: Seq<Request>) -> bool {
    forall|i: int|
        0 <= i < rs.len() ==> request_at(s, (#[trigger] rs[i]).span.start as int, rs[i])
}

/// Every response of the stream is the exact parse at its own start.
pub open spec fn responses_at(s: Seq<u8>, rs: Seq<Response>) -> bool {
    forall|i: int|
        0 <= i < rs.len() ==> response_at(s, (#[trigger] rs[i]).span.start as int, rs[i])
}

/// Parses one request message at `pos`.  Returns the request and the
/// position after it.
pub fn parse_request_at(buf: &[u8], pos: usize) -> (r: Result<(Request, usize), ParseError>)
    requires
        pos < buf@.len(),
    ensures
        r matches Ok((req, end)) ==> req.wf() && req.span.start == pos && req.span.end == end
            && pos < end <= buf@.len() && request_in_buf(req, buf@),
        r matches Ok((req, end)) ==> request_at(buf@, pos as int, req),
        request_end(buf@, pos as int) == (match r {
            Result::Ok((req, end)) => Option::Some(end as int),
            Result::Err(_) => Option::<int>::None,
        }),
{
    let n = buf.len();
    let le = match find_crlf(buf, pos) {
        Ok(e) => e,
        Err(err) => {
            return Err(err);
        },
    };
    let m_end = scan_non_sp(buf, pos, le);
    if m_end == pos {
        return Err(ParseError::Malformed { byte_offset: pos });
    }
    let t_start = scan_sp(buf, m_end, le);
    if t_start == m_end {
        return Err(ParseError::Malformed { byte_offset: m_end });
    }
    let t_end = scan_non_sp(buf, t_start, le);
    if t_end == t_start {
        return Err(ParseError::Malformed { byte_offset: t_start });
    }
    let request_line = RequestLine {
        span: Span::extract(buf, pos, le),
        method: Span::extract(buf, pos, m_end),
        target: Span::extract(buf, t_start, t_end),
    };
    let (headers, _blank, after) = match parse_headers(buf, le + 2) {
        Ok(x) => x,
        Err(err) => {
            return Err(err);
        },
    };
    let framing = match resolve_framing(buf, &headers) {
        Ok(f) => f,
        Err(err) => {
            return Err(err);
        },
    };
    match framing {
        Framing::NoBody => {
            let req = Request {
                span: Span::extract(buf, pos, after),
                request: request_line,
                headers,
                body: None,
            };
            Ok((req, after))
        },
        Framing::Length(len) => {
            if len > n || after > n - len {
                return Err(ParseError::UnexpectedEnd);
            }
            let body_end = after + len;
            let json_ct = is_json_content_type(buf, &headers);
            let content = match parse_body_content(buf, after, body_end, json_ct) {
                Ok(c) => c,
                Err(err) => {
                    return Err(err);
                },
            };
            let body = Body { span: Span::extract(buf, after, body_end), content };
            let req = Request {
                span: Span::extract(buf, pos, body_end),
                request: request_line,
                headers,
                body: Some(body),
            };
            Ok((req, body_end))
        },
        Framing::Chunked => {
            let (_bs, _ts, body_end, end) = match parse_chunked(buf, after) {
                Ok(x) => x,
                Err(err) => {
                    return Err(err);
                },
            };
            let body = Body {
                span: Span::extract(buf, after, body_end),
                content: BodyContent::Unknown(Span::extract(buf, after, body_end)),
            };
            let req = Request {
                span: Span::extract(buf, pos, end),
                request: request_line,
                headers,
                body: Some(body),
            };
            Ok((req, end))
        },
    }
}

/// Parses one response message at `pos`.  Returns the response and the
/// position after it.
pub fn parse_response_at(buf: &[u8], pos: usize) -> (r: Result<(Response, usize), ParseError>)
    requires
        pos < buf@.len(),
    ensures
        r matches Ok((resp, end)) ==> resp.wf() && resp.span.start == pos && resp.span.end == end
            && pos < end <= buf@.len() && response_in_buf(resp, buf@),
        r matches Ok((resp, end)) ==> response_at(buf@, pos as int, resp),
        response_end(buf@, pos as int) == (match r {
            Result::Ok((resp, end)) => Option::Some(end as int),
            Result::Err(_) => Option::<int>::None,
        }),
{
    let n = buf.len();
    let le = match find_crlf(buf, pos) {
        Ok(e) => e,
        Err(err) => {
            return Err(err);
        },
    };
    // Version, then code, then reason.
    let v_end = scan_non_sp(buf, pos, le);
    if v_end == pos {
        return Err(ParseError::Malformed { byte_offset: pos });
    }
    let c_start = scan_sp(buf, v_end, le);
    if c_start == v_end {
        return Err(ParseError::Malformed { byte_offset: v_end });
    }
    let c_end = scan_non_sp(buf, c_start, le);
    if c_end == c_start {
        return Err(ParseError::Malformed { byte_offset: c_start });
    }
    let r_start = scan_sp(buf, c_end, le);
    let status = Status {
        span: Span::extract(buf, pos, le),
        code: Span::extract(buf, c_start, c_end),
        reason: Span::extract(buf, r_start, le),
    };
    let (headers, _blank, after) = match parse_headers(buf, le + 2) {
        Ok(x) => x,
        Err(err) => {
            return Err(err);
        },
    };
    let framing = match resolve_framing(buf, &headers) {
        Ok(f) => f,
        Err(err) => {
            return Err(err);
        },
    };
    match framing {
        Framing::NoBody => {
            let resp = Response {
                span: Span::extract(buf, pos, after),
                status,
                headers,
                body: None,
                boundaries: None,
                trailers: None,
            };
            Ok((resp, after))
        },
        Framing::Length(len) => {
            if len > n || after > n - len {
                return Err(ParseError::UnexpectedEnd);
            }
            let body_end = after + len;
            let json_ct = is_json_content_type(buf, &headers);
            let content = match parse_body_content(buf, after, body_end, json_ct) {
                Ok(c) => c,
                Err(err) => {
                    return Err(err);
                },
            };
            let body = Body { span: Span::extract(buf, after, body_end), content };
            let resp = Response {
                span: Span::extract(buf, pos, body_end),
                status,
                headers,
                body: Some(body),
                boundaries: None,
                trailers: None,
            };
            Ok((resp, body_end))
        },
        Framing::Chunked => {
            let (bs, ts, body_end, end) = match parse_chunked(buf, after) {
                Ok(x) => x,
                Err(err) => {
                    return Err(err);
                },
            };
            let body = Body {
                span: Span::extract(buf, after, body_end),
                content: BodyContent::Unknown(Span::extract(buf, after, body_end)),
            };
            let resp = Response {
                span: Span::extract(buf, pos, end),
                status,
                headers,
                body: Some(body),
                boundaries: Some(bs),
                trailers: Some(ts),
            };
            Ok((resp, end))
        },
    }
}

/// Whether the bytes from `pos` on are a gapless sequence of request
/// messages of the grammar.  An empty remainder qualifies.
pub open spec fn requests_stream_ok(s: Seq<u8>, pos: int) -> bool
    decreases s.len() - pos,
    when 0 <= pos <= s.len()
{
    if !(pos < s.len()) {
        true
    } else {
        match request_end(s, pos) {
            Option::Some(e) => if pos < e <= s.len() {
                requests_stream_ok(s, e)
            } else {
                false
            },
            Option::None => false,
        }
    }
}

/// Whether the bytes from `pos` on are a gapless sequence of response
/// messages of the grammar.
pub open spec fn responses_stream_ok(s: Seq<u8>, pos: int) -> bool
    decreases s.len() - pos,
    when 0 <= pos <= s.len()
{
    if !(pos < s.len()) {
        true
    } else {
        match response_end(s, pos) {
            Option::Some(e) => if pos < e <= s.len() {
                responses_stream_ok(s, e)
            } else {
                false
            },
            Option::None => false,
        }
    }
}

/// Parses a byte stream as a sequence of request messages covering the whole
/// buffer.  The messages are contiguous: the first starts at the first byte,
/// each starts where the previous one ends, and the last ends at the end of
/// the buffer.  An empty stream parses as no messages.  Succeeds exactly
/// when the whole buffer is a gapless sequence of requests of the grammar.
pub fn parse_requests(buf: &[u8]) -> (r: Result<Vec<Request>, ParseError>)
    ensures
        r is Ok <==> requests_stream_ok(buf@, 0),
        buf@.len() == 0 ==> (r matches Ok(rs) && rs@.len() == 0),
        r matches Ok(rs) ==> {
            &&& (forall|i: int| 0 <= i < rs@.len() ==> (#[trigger] rs@[i]).wf())
            &&& (forall|i: int| 0 <= i < rs@.len() ==> request_in_buf(#[trigger] rs@[i], buf@))
            &&& (forall|i: int, j: int|
                0 <= i < j < rs@.len() ==> (#[trigger] rs@[i]).span.end
                    <= (#[trigger] rs@[j]).span.start)
            &&& (rs@.len() > 0 ==> rs@[0].span.start == 0)
            &&& (forall|i: int|
                0 <= i < rs@.len() - 1 ==> (#[trigger] rs@[i + 1]).span.start == rs@[i].span.end)
            &&& (rs@.len() > 0 ==> rs@[rs@.len() - 1].span.end == buf@.len())
            &&& (buf@.len() > 0 ==> rs@.len() > 0)
        },
        r matches Ok(rs) ==> requests_at(buf@, rs@),
{
    let n = buf.len();
    let mut out: Vec<Request> = Vec::new();
    let mut pos: usize = 0;
    while pos < n
        invariant
            pos <= n,
            n == buf@.len(),
            requests_stream_ok(buf@, 0) <==> requests_stream_ok(buf@, pos as int),
            n == 0 ==> out@.len() == 0,
            out@.len() == 0 ==> pos == 0,
            out@.len() > 0 ==> out@[0].span.start == 0,
            out@.len() > 0 ==> out@[out@.len() - 1].span.end == pos,
            forall|i: int|
                0 <= i < out@.len() - 1 ==> (#[trigger] out@[i + 1]).span.start
                    == out@[i].span.end,
            forall|i: int| 0 <= i < out@.len() ==> request_in_buf(#[trigger] out@[i], buf@),
            forall|i: int|
                0 <= i < out@.len() ==> request_at(
                    buf@,
                    (#[trigger] out@[i]).span.start as int,
                    out@[i],
                ),
            forall|i: int|
                0 <= i < out@.len() ==> (#[trigger] out@[i]).wf() && out@[i].span.end <= pos,
            forall|i: int, j: int|
                0 <= i < j < out@.len() ==> (#[trigger] out@[i]).span.end
                    <= (#[trigger] out@[j]).span.start,
        decreases n - pos,
    {
        let (req, end) = match parse_request_at(buf, pos) {
            Ok(x) => x,
            Err(err) => {
                return Err(err);
            },
        };
        let ghost prev = out@;
        out.push(req);
        proof {
            assert(forall|i: int| 0 <= i < prev.len() ==> out@[i] == prev[i]);
        }
        pos = end;
    }
    Ok(out)
}

/// Parses a byte stream as a sequence of response messages covering the
/// whole buffer.  The messages are contiguous, as for requests, and an empty
/// stream parses as no messages.
pub fn parse_responses(buf: &[u8]) -> (r: Result<Vec<Response>, ParseError>)
    ensures
        r is Ok <==> responses_stream_ok(buf@, 0),
        buf@.len() == 0 ==> (r matches Ok(rs) && rs@.len() == 0),
        r matches Ok(rs) ==> {
            &&& (forall|i: int| 0 <= i < rs@.len() ==> (#[trigger] rs@[i]).wf())
            &&& (forall|i: int| 0 <= i < rs@.len() ==> response_in_buf(#[trigger] rs@[i], buf@))
            &&& (forall|i: int, j: int|
                0 <= i < j < rs@.len() ==> (#[trigger] rs@[i]).span.end
                    <= (#[trigger] rs@[j]).span.start)
            &&& (rs@.len() > 0 ==> rs@[0].span.start == 0)
            &&& (forall|i: int|
                0 <= i < rs@.len() - 1 ==> (#[trigger] rs@[i + 1]).span.start == rs@[i].span.end)
            &&& (rs@.len() > 0 ==> rs@[rs@.len() - 1].span.end == buf@.len())
            &&& (buf@.len() > 0 ==> rs@.len() > 0)
        },
        r matches Ok(rs) ==> responses_at(buf@, rs@),
{
    let n = buf.len();
    let mut out: Vec<Response> = Vec::new();
    let mut pos: usize = 0;
    while pos < n
        invariant
            pos <= n,
            n == buf@.len(),
            responses_stream_ok(buf@, 0) <==> responses_stream_ok(buf@, pos as int),
            n == 0 ==> out@.len() == 0,
            out@.len() == 0 ==> pos == 0,
            out@.len() > 0 ==> out@[0].span.start == 0,
            out@.len() > 0 ==> out@[out@.len() - 1].span.end == pos,
            forall|i: int|
                0 <= i < out@.len() - 1 ==> (#[trigger] out@[i + 1]).span.start
                    == out@[i].span.end,
            forall|i: int| 0 <= i < out@.len() ==> response_in_buf(#[trigger] out@[i], buf@),
            forall|i: int|
                0 <= i < out@.len() ==> response_at(
                    buf@,
                    (#[trigger] out@[i]).span.start as int,
                    out@[i],
                ),
            forall|i: int|
                0 <= i < out@.len() ==> (#[trigger] out@[i]).wf() && out@[i].span.end <= pos,
            forall|i: int, j: int|
                0 <= i < j < out@.len() ==> (#[trigger] out@[i]).span.end
                    <= (#[trigger] out@[j]).span.start,
        decreases n - pos,
    {
        let (resp, end) = match parse_response_at(buf, pos) {
            Ok(x) => x,
            Err(err) => {
                return Err(err);
            },
        };
        let ghost prev = out@;
        out.push(resp);
        proof {
            assert(forall|i: int| 0 <= i < prev.len() ==> out@[i] == prev[i]);
        }
        pos = end;
    }
    Ok(out)
}

/// Parses one request message standing alone in `src`.
pub fn parse_request(src: &[u8]) -> (r: Result<Request, ParseError>)
    ensures
        r is Ok <==> (src@.len() > 0 && request_end(src@, 0) == Option::Some(src@.len() as int)),
        r matches Ok(req) ==> req.wf() && request_in_buf(req, src@) && req.span.start == 0
            && req.span.end == src@.len(),
        r matches Ok(req) ==> request_at(src@, 0, req),
{
    if src.len() == 0 {
        return Err(ParseError::UnexpectedEnd);
    }
    match parse_request_at(src, 0) {
        Ok((req, end)) => {
            if end < src.len() {
                Err(ParseError::Malformed { byte_offset: end })
            } else {
                Ok(req)
            }
        },
        Err(err) => Err(err),
    }
}

/// Parses one response message standing alone in `src`.
pub fn parse_response(src: &[u8]) -> (r: Result<Response, ParseError>)
    ensures
        r is Ok <==> (src@.len() > 0 && response_end(src@, 0) == Option::Some(src@.len() as int)),
        r matches Ok(resp) ==> resp.wf() && response_in_buf(resp, src@) && resp.span.start == 0
            && resp.span.end == src@.len(),
        r matches Ok(resp) ==> response_at(src@, 0, resp),
{
    if src.len() == 0 {
        return Err(ParseError::UnexpectedEnd);
    }
    match parse_response_at(src, 0) {
        Ok((resp, end)) => {
            if end < src.len() {
                Err(ParseError::Malformed { byte_offset: end })
            } else {
                Ok(resp)
            }
        },
        Err(err) => Err(err),
    }
}

} // verus!
