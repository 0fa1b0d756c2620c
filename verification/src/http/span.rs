//! The HTTP head grammar and the span parsers for requests and responses.
//!
//! The grammar accepted here is the message head of HTTP/1.1 (RFC 9112),
//! restricted to strict CRLF line endings: a request line (method, target
//! and an `HTTP/x.y` version) or a status line (version, three-digit code
//! and optional reason phrase), followed by header lines and a final empty
//! line. Body length is resolved from the headers afterwards.

use vstd::prelude::*;

verus! {

use crate::{Span, ParseError, ErrorKind};
use crate::buffer::{bytes_view, bytes_as_slice, bytes_copy_from_slice, check_utf8};
use crate::helpers::lower_bytes;
use crate::http::types::{
    Body, Code, Header, HeaderName, HeaderValue, Method, Reason, Request, RequestLine, Response,
    Status, Target,
};
use vstd::utf8::{valid_utf8, valid_utf8_concat};
use crate::helpers::{
    ByteClass, byte_in_class, in_class, spec_scan, lemma_scan, lemma_scan_localized, scan_from,
    lemma_ascii_valid_utf8, is_digits, dec_val, lemma_dec_val_nonneg, parse_dec,
};

/// The maximum number of headers accepted in one message head.
pub const MAX_HEADERS: usize = 128;

/// The position of the first CRLF at or after `i`, if any.
pub open spec fn spec_find_crlf(s: Seq<u8>, i: int) -> Option<int>
    decreases s.len() - i,
{
    if i < 0 || i + 2 > s.len() {
        None
    } else if s[i] == 13 && s[i + 1] == 10 {
        Some(i)
    } else {
        spec_find_crlf(s, i + 1)
    }
}

/// The shape of a parsed request line within the source bytes.
pub ghost struct ReqLineShape {
    /// Where the line (and the method) begins.
    pub start: int,
    /// Where the method ends.
    pub method_end: int,
    /// Where the target begins.
    pub target_start: int,
    /// Where the target ends.
    pub target_end: int,
    /// One past the trailing CRLF.
    pub line_end: int,
}

/// The shape of a parsed status line within the source bytes.
pub ghost struct StatusLineShape {
    /// Where the line begins.
    pub start: int,
    /// Where the three-digit code begins.
    pub code_start: int,
    /// Where the code ends.
    pub code_end: int,
    /// Where the reason phrase begins.
    pub reason_start: int,
    /// Where the reason phrase ends.
    pub reason_end: int,
    /// One past the trailing CRLF.
    pub line_end: int,
}

/// The shape of one parsed header line within the source bytes.
pub ghost struct HeaderShape {
    /// Where the line (and the name) begins.
    pub name_start: int,
    /// Where the name ends, at the colon.
    pub name_end: int,
    /// Where the trimmed value begins.
    pub value_start: int,
    /// Where the trimmed value ends.
    pub value_end: int,
    /// One past the trailing CRLF.
    pub line_end: int,
}

/// The bytes at `i` spell `HTTP/` followed by one digit, a dot and one
/// digit.
pub open spec fn spec_version_at(s: Seq<u8>, i: int) -> bool {
    &&& 0 <= i && i + 8 <= s.len()
    &&& s[i] == 72 && s[i + 1] == 84 && s[i + 2] == 84 && s[i + 3] == 80
    &&& s[i + 4] == 47 && byte_in_class(ByteClass::Digit, s[i + 5]) && s[i + 6] == 46
    &&& byte_in_class(ByteClass::Digit, s[i + 7])
}

/// The bytes at `i` are a CRLF pair.
pub open spec fn spec_crlf_at(s: Seq<u8>, i: int) -> bool {
    0 <= i && i + 2 <= s.len() && s[i] == 13 && s[i + 1] == 10
}

/// Parses a request line at `i`: a non-empty method of token characters,
/// a space, a non-empty UTF-8 target, a space, the version and a CRLF.
pub open spec fn spec_request_line(s: Seq<u8>, i: int) -> Option<ReqLineShape> {
    let method_end = spec_scan(s, i, ByteClass::Tchar);
    let target_start = method_end + 1;
    let target_end = spec_scan(s, target_start, ByteClass::Target);
    if method_end > i && method_end < s.len() && s[method_end] == 32 && target_end
        > target_start && target_end < s.len() && s[target_end] == 32 && valid_utf8(
        s.subrange(target_start, target_end),
    ) && spec_version_at(s, target_end + 1) && spec_crlf_at(s, target_end + 9) {
        Some(
            ReqLineShape {
                start: i,
                method_end,
                target_start,
                target_end,
                line_end: target_end + 11,
            },
        )
    } else {
        None
    }
}

/// Parses a status line at `i`: the version, a space, a three-digit code,
/// then either a CRLF or a space, a UTF-8 reason phrase and a CRLF.
pub open spec fn spec_status_line(s: Seq<u8>, i: int) -> Option<StatusLineShape> {
    if spec_version_at(s, i) && i + 9 <= s.len() && s[i + 8] == 32 && i + 12 <= s.len()
        && byte_in_class(ByteClass::Digit, s[i + 9]) && byte_in_class(
        ByteClass::Digit,
        s[i + 10],
    ) && byte_in_class(ByteClass::Digit, s[i + 11]) {
        if spec_crlf_at(s, i + 12) {
            Some(
                StatusLineShape {
                    start: i,
                    code_start: i + 9,
                    code_end: i + 12,
                    reason_start: i + 12,
                    reason_end: i + 12,
                    line_end: i + 14,
                },
            )
        } else if i + 13 <= s.len() && s[i + 12] == 32 {
            let reason_end = spec_scan(s, i + 13, ByteClass::Reason);
            if spec_crlf_at(s, reason_end) && valid_utf8(s.subrange(i + 13, reason_end)) {
                Some(
                    StatusLineShape {
                        start: i,
                        code_start: i + 9,
                        code_end: i + 12,
                        reason_start: i + 13,
                        reason_end,
                        line_end: reason_end + 2,
                    },
                )
            } else {
                None
            }
        } else {
            None
        }
    } else {
        None
    }
}

/// The end of the value after trimming trailing optional whitespace,
/// scanning back from `end` but not before `start`.
pub open spec fn spec_trim_ows_end(s: Seq<u8>, start: int, end: int) -> int
    decreases end - start,
{
    if end <= start || end < 0 || end > s.len() {
        end
    } else if byte_in_class(ByteClass::Ows, s[end - 1]) {
        spec_trim_ows_end(s, start, end - 1)
    } else {
        end
    }
}

/// Parses one header line at `i`: a non-empty name of token characters,
/// a colon, optional whitespace, a value of value characters (trimmed of
/// trailing whitespace) and a CRLF.
pub open spec fn spec_header_line(s: Seq<u8>, i: int) -> Option<HeaderShape> {
    let name_end = spec_scan(s, i, ByteClass::Tchar);
    if name_end > i && name_end < s.len() && s[name_end] == 58 {
        let value_start = spec_scan(s, name_end + 1, ByteClass::Ows);
        let raw_end = spec_scan(s, value_start, ByteClass::Value);
        if spec_crlf_at(s, raw_end) {
            Some(
                HeaderShape {
                    name_start: i,
                    name_end,
                    value_start,
                    value_end: spec_trim_ows_end(s, value_start, raw_end),
                    line_end: raw_end + 2,
                },
            )
        } else {
            None
        }
    } else {
        None
    }
}

/// Parses header lines from `i` up to and including the empty line that
/// ends the head, returning the headers and the index one past the head.
pub open spec fn spec_headers(s: Seq<u8>, i: int) -> Option<(Seq<HeaderShape>, int)>
    decreases s.len() - i,
{
    if spec_crlf_at(s, i) {
        Some((Seq::empty(), i + 2))
    } else {
        match spec_header_line(s, i) {
            Option::None => None,
            Option::Some(h) => if i < h.line_end <= s.len() {
                match spec_headers(s, h.line_end) {
                    Option::None => None,
                    Option::Some((rest, head_end)) => Some((seq![h] + rest, head_end)),
                }
            } else {
                None
            },
        }
    }
}

/// There is a CRLF pair at `i`.
fn crlf_at(s: &[u8], i: usize) -> (r: bool)
    ensures
        r == spec_crlf_at(s@, i as int),
{
    if s.len() < 2 || i > s.len() - 2 {
        false
    } else {
        s[i] == 13 && s[i + 1] == 10
    }
}

/// The bytes at `i` spell an `HTTP/x.y` version.
fn version_at(s: &[u8], i: usize) -> (r: bool)
    ensures
        r == spec_version_at(s@, i as int),
{
    if s.len() < 8 || i > s.len() - 8 {
        false
    } else {
        s[i] == 72 && s[i + 1] == 84 && s[i + 2] == 84 && s[i + 3] == 80 && s[i + 4] == 47
            && in_class(ByteClass::Digit, s[i + 5]) && s[i + 6] == 46 && in_class(
            ByteClass::Digit,
            s[i + 7],
        )
    }
}

/// The positions of one parsed request line.
struct ReqLineTok {
    /// Where the method ends.
    method_end: usize,
    /// Where the target begins.
    target_start: usize,
    /// Where the target ends.
    target_end: usize,
    /// One past the trailing CRLF.
    line_end: usize,
}

/// Parses a request line at `i`, returning the token positions exactly
/// when the request-line grammar matches there.
fn parse_request_line(s: &[u8], i: usize) -> (r: Option<ReqLineTok>)
    requires
        i <= s@.len(),
    ensures
        match r {
            Some(t) => {
                &&& spec_request_line(s@, i as int) == Some(
                    ReqLineShape {
                        start: i as int,
                        method_end: t.method_end as int,
                        target_start: t.target_start as int,
                        target_end: t.target_end as int,
                        line_end: t.line_end as int,
                    },
                )
                &&& i < t.method_end
                &&& t.method_end + 1 == t.target_start
                &&& t.target_start < t.target_end
                &&& t.target_end + 11 == t.line_end
                &&& t.line_end <= s@.len()
            },
            None => spec_request_line(s@, i as int) is None,
        },
{
    proof {
        lemma_scan(s@, i as int, ByteClass::Tchar);
    }
    let method_end = scan_from(s, i, ByteClass::Tchar);
    if method_end == i || method_end >= s.len() || s[method_end] != 32 {
        return None;
    }
    let target_start = method_end + 1;
    proof {
        lemma_scan(s@, target_start as int, ByteClass::Target);
    }
    let target_end = scan_from(s, target_start, ByteClass::Target);
    if target_end == target_start || target_end >= s.len() || s[target_end] != 32 {
        return None;
    }
    if s.len() - target_end < 11 {
        return None;
    }
    if !version_at(s, target_end + 1) {
        return None;
    }
    if !crlf_at(s, target_end + 9) {
        return None;
    }
    if !check_utf8(&s[target_start..target_end]) {
        return None;
    }
    Some(ReqLineTok { method_end, target_start, target_end, line_end: target_end + 11 })
}

/// The positions of one parsed status line.
struct StatusLineTok {
    /// Where the three-digit code begins.
    code_start: usize,
    /// Where the code ends.
    code_end: usize,
    /// Where the reason phrase begins.
    reason_start: usize,
    /// Where the reason phrase ends.
    reason_end: usize,
    /// One past the trailing CRLF.
    line_end: usize,
}

/// Parses a status line at `i`, returning the token positions exactly
/// when the status-line grammar matches there.
fn parse_status_line(s: &[u8], i: usize) -> (r: Option<StatusLineTok>)
    requires
        i <= s@.len(),
    ensures
        match r {
            Some(t) => {
                &&& spec_status_line(s@, i as int) == Some(
                    StatusLineShape {
                        start: i as int,
                        code_start: t.code_start as int,
                        code_end: t.code_end as int,
                        reason_start: t.reason_start as int,
                        reason_end: t.reason_end as int,
                        line_end: t.line_end as int,
                    },
                )
                &&& i + 9 == t.code_start
                &&& t.code_start + 3 == t.code_end
                &&& t.code_end <= t.reason_start <= t.reason_end < t.line_end
                &&& t.line_end <= s@.len()
            },
            None => spec_status_line(s@, i as int) is None,
        },
{
    if s.len() < 14 || i > s.len() - 14 {
        proof {
            if spec_status_line(s@, i as int) is Some {
                if spec_crlf_at(s@, i + 12) {
                } else {
                    assert(i + 13 <= s@.len());
                }
                assert(false);
            }
        }
        return None;
    }
    if !version_at(s, i) {
        return None;
    }
    if s[i + 8] != 32 {
        return None;
    }
    if !(in_class(ByteClass::Digit, s[i + 9]) && in_class(ByteClass::Digit, s[i + 10]) && in_class(
        ByteClass::Digit,
        s[i + 11],
    )) {
        return None;
    }
    if crlf_at(s, i + 12) {
        return Some(
            StatusLineTok {
                code_start: i + 9,
                code_end: i + 12,
                reason_start: i + 12,
                reason_end: i + 12,
                line_end: i + 14,
            },
        );
    }
    if s[i + 12] != 32 {
        return None;
    }
    proof {
        lemma_scan(s@, i + 13, ByteClass::Reason);
    }
    let reason_end = scan_from(s, i + 13, ByteClass::Reason);
    if !crlf_at(s, reason_end) {
        return None;
    }
    if !check_utf8(&s[i + 13..reason_end]) {
        return None;
    }
    Some(
        StatusLineTok {
            code_start: i + 9,
            code_end: i + 12,
            reason_start: i + 13,
            reason_end,
            line_end: reason_end + 2,
        },
    )
}

/// The positions of one parsed header line.
pub struct HeaderTok {
    /// Where the line (and the name) begins.
    pub name_start: usize,
    /// Where the name ends, at the colon.
    pub name_end: usize,
    /// Where the trimmed value begins.
    pub value_start: usize,
    /// Where the trimmed value ends.
    pub value_end: usize,
    /// One past the trailing CRLF.
    pub line_end: usize,
}

impl HeaderTok {
    /// The shape this token describes.
    pub open spec fn shape(self) -> HeaderShape {
        HeaderShape {
            name_start: self.name_start as int,
            name_end: self.name_end as int,
            value_start: self.value_start as int,
            value_end: self.value_end as int,
            line_end: self.line_end as int,
        }
    }

    /// The token's positions are ordered and lie within the sequence.
    pub open spec fn tok_wf(self, len: int) -> bool {
        &&& self.name_start < self.name_end
        &&& self.name_end + 1 <= self.value_start
        &&& self.value_start <= self.value_end
        &&& self.value_end + 2 <= self.line_end
        &&& self.line_end <= len
    }
}

/// Parses one header line at `i`, returning the token positions exactly
/// when the header-line grammar matches there.
fn parse_header_line(s: &[u8], i: usize) -> (r: Option<HeaderTok>)
    requires
        i <= s@.len(),
    ensures
        match r {
            Some(t) => {
                &&& spec_header_line(s@, i as int) == Some(t.shape())
                &&& t.name_start == i
                &&& t.tok_wf(s@.len() as int)
            },
            None => spec_header_line(s@, i as int) is None,
        },
{
    proof {
        lemma_scan(s@, i as int, ByteClass::Tchar);
    }
    let name_end = scan_from(s, i, ByteClass::Tchar);
    if name_end == i || name_end >= s.len() || s[name_end] != 58 {
        return None;
    }
    proof {
        lemma_scan(s@, name_end + 1, ByteClass::Ows);
    }
    let value_start = scan_from(s, name_end + 1, ByteClass::Ows);
    proof {
        lemma_scan(s@, value_start as int, ByteClass::Value);
    }
    let raw_end = scan_from(s, value_start, ByteClass::Value);
    if !crlf_at(s, raw_end) {
        return None;
    }
    let mut value_end = raw_end;
    while value_end > value_start && (s[value_end - 1] == 32 || s[value_end - 1] == 9)
        invariant
            value_start <= value_end <= raw_end <= s@.len(),
            spec_trim_ows_end(s@, value_start as int, raw_end as int) == spec_trim_ows_end(
                s@,
                value_start as int,
                value_end as int,
            ),
        decreases value_end,
    {
        value_end = value_end - 1;
    }
    Some(HeaderTok { name_start: i, name_end, value_start, value_end, line_end: raw_end + 2 })
}

/// Parses header lines from `i` through the empty line ending the head,
/// exactly as the head grammar describes them.
fn parse_headers_from(s: &[u8], i: usize) -> (r: Option<(Vec<HeaderTok>, usize)>)
    requires
        i <= s@.len(),
    ensures
        match r {
            Some((toks, head_end)) => {
                &&& spec_headers(s@, i as int) == Some(
                    (toks@.map_values(|t: HeaderTok| t.shape()), head_end as int),
                )
                &&& head_end <= s@.len()
                &&& i + 2 <= head_end
                &&& forall|k: int| 0 <= k < toks@.len() ==> (#[trigger] toks@[k]).tok_wf(
                    s@.len() as int,
                ) && i <= toks@[k].name_start
                &&& forall|k: int| 0 <= k < toks@.len() ==> spec_header_line(
                    s@,
                    (#[trigger] toks@[k]).name_start as int,
                ) == Some(toks@[k].shape())
            },
            None => spec_headers(s@, i as int) is None,
        },
    decreases s@.len() - i,
{
    let n = s.len();
    if crlf_at(s, i) {
        let toks: Vec<HeaderTok> = Vec::new();
        proof {
            assert(toks@.map_values(|t: HeaderTok| t.shape()) =~= Seq::<HeaderShape>::empty());
        }
        return Some((toks, i + 2));
    }
    match parse_header_line(s, i) {
        Option::None => None,
        Option::Some(tok) => {
            let line_end = tok.line_end;
            match parse_headers_from(s, line_end) {
                Option::None => None,
                Option::Some((rest, head_end)) => {
                    let ghost rest0 = rest@;
                    let mut toks: Vec<HeaderTok> = Vec::new();
                    toks.push(tok);
                    let mut rest = rest;
                    toks.append(&mut rest);
                    proof {
                        assert(toks@ =~= seq![tok] + rest0);
                        assert(toks@.map_values(|t: HeaderTok| t.shape()) =~= seq![tok.shape()]
                            + rest0.map_values(|t: HeaderTok| t.shape()));
                    }
                    Some((toks, head_end))
                },
            }
        },
    }
}

/// When the header block parses, the head ends after at least one empty
/// line and within the buffer.
pub proof fn lemma_spec_headers_bounds(s: Seq<u8>, i: int)
    requires
        0 <= i,
        spec_headers(s, i) is Some,
    ensures
        i + 2 <= (spec_headers(s, i)->0).1 <= s.len(),
    decreases s.len() - i,
{
    if spec_crlf_at(s, i) {
    } else {
        let h = spec_header_line(s, i)->0;
        lemma_spec_headers_bounds(s, h.line_end);
    }
}

/// The bytes of the header name `transfer-encoding`, lower case.
pub open spec fn te_name() -> Seq<u8> {
    seq![116u8, 114, 97, 110, 115, 102, 101, 114, 45, 101, 110, 99, 111, 100, 105, 110, 103]
}

/// The bytes of the header name `content-length`, lower case.
pub open spec fn cl_name() -> Seq<u8> {
    seq![99u8, 111, 110, 116, 101, 110, 116, 45, 108, 101, 110, 103, 116, 104]
}

/// The byte at position `k` of `transfer-encoding`.
fn te_byte(k: usize) -> (r: u8)
    requires
        k < 17,
    ensures
        r == te_name()[k as int],
{
    match k {
        0 => 116,
        1 => 114,
        2 => 97,
        3 => 110,
        4 => 115,
        5 => 102,
        6 => 101,
        7 => 114,
        8 => 45,
        9 => 101,
        10 => 110,
        11 => 99,
        12 => 111,
        13 => 100,
        14 => 105,
        15 => 110,
        _ => 103,
    }
}

/// The byte at position `k` of `content-length`.
fn cl_byte(k: usize) -> (r: u8)
    requires
        k < 14,
    ensures
        r == cl_name()[k as int],
{
    match k {
        0 => 99,
        1 => 111,
        2 => 110,
        3 => 116,
        4 => 101,
        5 => 110,
        6 => 116,
        7 => 45,
        8 => 108,
        9 => 101,
        10 => 110,
        11 => 103,
        12 => 116,
        _ => 104,
    }
}

/// Compares the bytes at `lo..hi` of `s`, lowered, against one of the
/// two framing header names.
fn range_has_name(s: &[u8], lo: usize, hi: usize, te: bool) -> (r: bool)
    requires
        lo <= hi <= s@.len(),
    ensures
        r == (lower_bytes(s@.subrange(lo as int, hi as int)) == if te {
            te_name()
        } else {
            cl_name()
        }),
{
    let ghost name = if te { te_name() } else { cl_name() };
    let ghost sub = s@.subrange(lo as int, hi as int);
    let name_len: usize = if te {
        17
    } else {
        14
    };
    if hi - lo != name_len {
        proof {
            assert(lower_bytes(sub).len() == sub.len());
        }
        return false;
    }
    let mut k: usize = 0;
    while k < name_len
        invariant
            lo <= hi <= s@.len(),
            hi - lo == name_len,
            name == if te { te_name() } else { cl_name() },
            sub == s@.subrange(lo as int, hi as int),
            name_len == name.len(),
            0 <= k <= name_len,
            forall|j: int| 0 <= j < k ==> crate::helpers::ascii_lower(#[trigger] sub[j])
                == name[j],
        decreases name_len - k,
    {
        let e = if te {
            te_byte(k)
        } else {
            cl_byte(k)
        };
        let b = crate::helpers::ascii_lower_byte(s[lo + k]);
        proof {
            assert(sub[k as int] == s@[lo + k]);
        }
        if b != e {
            proof {
                assert(lower_bytes(sub)[k as int] == crate::helpers::ascii_lower(sub[k as int]));
            }
            return false;
        }
        k = k + 1;
    }
    proof {
        assert(lower_bytes(sub) =~= name);
    }
    true
}

/// The name bytes of a header shape.
pub open spec fn shape_name_bytes(s: Seq<u8>, h: HeaderShape) -> Seq<u8> {
    s.subrange(h.name_start, h.name_end)
}

/// The value bytes of a header shape.
pub open spec fn shape_value_bytes(s: Seq<u8>, h: HeaderShape) -> Seq<u8> {
    s.subrange(h.value_start, h.value_end)
}

/// Some header of the sequence has the given (lower-case) name.
pub open spec fn has_named_header(s: Seq<u8>, hs: Seq<HeaderShape>, name: Seq<u8>) -> bool {
    exists|k: int|
        0 <= k < hs.len() && lower_bytes(shape_name_bytes(s, #[trigger] hs[k])) == name
}

/// The index of the first header of the sequence with the given name, or
/// `-1` if there is none.
pub open spec fn first_named_idx(s: Seq<u8>, hs: Seq<HeaderShape>, name: Seq<u8>) -> int
    decreases hs.len(),
{
    if hs.len() == 0 {
        -1
    } else if lower_bytes(shape_name_bytes(s, hs[0])) == name {
        0
    } else {
        let r = first_named_idx(s, hs.drop_first(), name);
        if r < 0 {
            -1
        } else {
            r + 1
        }
    }
}

/// `first_named_idx` returns exactly the first matching index, and `-1`
/// exactly when no header matches.
pub proof fn lemma_first_named_idx(s: Seq<u8>, hs: Seq<HeaderShape>, name: Seq<u8>)
    ensures
        has_named_header(s, hs, name) ==> {
            let k = first_named_idx(s, hs, name);
            &&& 0 <= k < hs.len()
            &&& lower_bytes(shape_name_bytes(s, hs[k])) == name
            &&& forall|j: int|
                0 <= j < k ==> lower_bytes(shape_name_bytes(s, #[trigger] hs[j])) != name
        },
        !has_named_header(s, hs, name) ==> first_named_idx(s, hs, name) == -1,
    decreases hs.len(),
{
    if hs.len() > 0 {
        let hs1 = hs.drop_first();
        lemma_first_named_idx(s, hs1, name);
        assert(forall|j: int| 0 <= j < hs1.len() ==> #[trigger] hs1[j] == hs[j + 1]);
        if lower_bytes(shape_name_bytes(s, hs[0])) == name {
            assert(has_named_header(s, hs, name));
            assert(first_named_idx(s, hs, name) == 0);
        } else {
            if has_named_header(s, hs, name) {
                let w = choose|k: int|
                    0 <= k < hs.len() && lower_bytes(shape_name_bytes(s, #[trigger] hs[k]))
                        == name;
                assert(hs1[w - 1] == hs[w]);
                assert(has_named_header(s, hs1, name));
                let r = first_named_idx(s, hs1, name);
                assert(0 <= r < hs1.len());
                assert(first_named_idx(s, hs, name) == r + 1);
                assert(hs[r + 1] == hs1[r]);
                assert forall|j: int| 0 <= j < r + 1 implies lower_bytes(
                    shape_name_bytes(s, #[trigger] hs[j]),
                ) != name by {
                    if j > 0 {
                        assert(hs1[j - 1] == hs[j]);
                        assert(lower_bytes(shape_name_bytes(s, hs1[j - 1])) != name);
                    }
                }
            } else {
                assert(!has_named_header(s, hs1, name)) by {
                    if has_named_header(s, hs1, name) {
                        let w = choose|k: int|
                            0 <= k < hs1.len() && lower_bytes(
                                shape_name_bytes(s, #[trigger] hs1[k]),
                            ) == name;
                        assert(lower_bytes(shape_name_bytes(s, hs[w + 1])) == name);
                        assert(false);
                    }
                }
                assert(first_named_idx(s, hs, name) == -1);
            }
        }
    }
}

/// Finds the first header token whose name is the given framing header
/// name, if any.
fn find_first_named(s: &[u8], toks: &Vec<HeaderTok>, te: bool) -> (r: Option<usize>)
    requires
        forall|k: int| 0 <= k < toks@.len() ==> (#[trigger] toks@[k]).tok_wf(s@.len() as int),
    ensures
        ({
            let hs = toks@.map_values(|t: HeaderTok| t.shape());
            let name = if te { te_name() } else { cl_name() };
            match r {
                Some(k) => {
                    &&& (k as int) == first_named_idx(s@, hs, name)
                    &&& 0 <= k < hs.len()
                    &&& has_named_header(s@, hs, name)
                    &&& lower_bytes(shape_name_bytes(s@, hs[k as int])) == name
                },
                None => !has_named_header(s@, hs, name) && first_named_idx(s@, hs, name) == -1,
            }
        }),
{
    let ghost hs = toks@.map_values(|t: HeaderTok| t.shape());
    let ghost name = if te { te_name() } else { cl_name() };
    let mut k: usize = 0;
    while k < toks.len()
        invariant
            forall|j: int| 0 <= j < toks@.len() ==> (#[trigger] toks@[j]).tok_wf(s@.len() as int),
            hs == toks@.map_values(|t: HeaderTok| t.shape()),
            name == if te { te_name() } else { cl_name() },
            0 <= k <= toks@.len(),
            forall|j: int| 0 <= j < k ==> lower_bytes(shape_name_bytes(s@, #[trigger] hs[j]))
                != name,
        decreases toks@.len() - k,
    {
        let t = &toks[k];
        proof {
            assert(toks@[k as int].tok_wf(s@.len() as int));
            assert(hs[k as int] == toks@[k as int].shape());
        }
        if range_has_name(s, t.name_start, t.name_end, te) {
            proof {
                lemma_first_named_idx(s@, hs, name);
                assert(has_named_header(s@, hs, name));
                let f = first_named_idx(s@, hs, name);
                if f < k {
                    assert(lower_bytes(shape_name_bytes(s@, hs[f])) != name);
                    assert(false);
                }
                if f > k {
                    assert(lower_bytes(shape_name_bytes(s@, hs[f])) == name);
                    assert(forall|j: int|
                        0 <= j < f ==> lower_bytes(shape_name_bytes(s@, #[trigger] hs[j]))
                            != name);
                    assert(false);
                }
            }
            return Some(k);
        }
        k = k + 1;
    }
    proof {
        if has_named_header(s@, hs, name) {
            let w = choose|j: int|
                0 <= j < hs.len() && lower_bytes(shape_name_bytes(s@, #[trigger] hs[j])) == name;
            assert(lower_bytes(shape_name_bytes(s@, hs[w])) != name);
            assert(false);
        }
        lemma_first_named_idx(s@, hs, name);
    }
    None
}

/// Resolves the body length of a request from its headers, as RFC 9112
/// section 6 prescribes: a `Transfer-Encoding` header is unsupported
/// framing; otherwise a `Content-Length` header gives the length if its
/// value is a decimal number that fits in `usize`; otherwise the length
/// is zero.
pub open spec fn spec_request_body_len(s: Seq<u8>, hs: Seq<HeaderShape>) -> Result<int, ErrorKind> {
    if has_named_header(s, hs, te_name()) {
        Err(ErrorKind::UnsupportedFraming)
    } else if has_named_header(s, hs, cl_name()) {
        let v = shape_value_bytes(s, hs[first_named_idx(s, hs, cl_name())]);
        if is_digits(v) && dec_val(v) <= usize::MAX {
            Ok(dec_val(v))
        } else {
            Err(ErrorKind::InvalidLength)
        }
    } else {
        Ok(0)
    }
}

/// Resolves the body length of a response from its status code and its
/// headers: informational, no-content and not-modified statuses never
/// have a body; otherwise the headers decide as for requests, except
/// that a response without any length signal is ambiguous.
pub open spec fn spec_response_body_len(s: Seq<u8>, code_val: int, hs: Seq<HeaderShape>) -> Result<
    int,
    ErrorKind,
> {
    if 100 <= code_val <= 199 || code_val == 204 || code_val == 304 {
        Ok(0)
    } else if has_named_header(s, hs, te_name()) {
        Err(ErrorKind::UnsupportedFraming)
    } else if has_named_header(s, hs, cl_name()) {
        let v = shape_value_bytes(s, hs[first_named_idx(s, hs, cl_name())]);
        if is_digits(v) && dec_val(v) <= usize::MAX {
            Ok(dec_val(v))
        } else {
            Err(ErrorKind::InvalidLength)
        }
    } else {
        Err(ErrorKind::AmbiguousBody)
    }
}

/// Computes the request body length from the header tokens.
fn request_body_len(s: &[u8], toks: &Vec<HeaderTok>) -> (r: Result<usize, ErrorKind>)
    requires
        forall|k: int| 0 <= k < toks@.len() ==> (#[trigger] toks@[k]).tok_wf(s@.len() as int),
    ensures
        ({
            let o = spec_request_body_len(s@, toks@.map_values(|t: HeaderTok| t.shape()));
            match r {
                Ok(n) => o == Ok::<int, ErrorKind>(n as int),
                Err(k) => o == Err::<int, ErrorKind>(k),
            }
        }),
{
    if find_first_named(s, toks, true).is_some() {
        return Err(ErrorKind::UnsupportedFraming);
    }
    match find_first_named(s, toks, false) {
        Option::Some(k) => {
            let t = &toks[k];
            proof {
                assert(toks@[k as int].tok_wf(s@.len() as int));
                assert(toks@.map_values(|t: HeaderTok| t.shape())[k as int] == toks@[
                    k as int].shape());
            }
            match parse_dec(&s[t.value_start..t.value_end]) {
                Option::Some(n) => Ok(n),
                Option::None => Err(ErrorKind::InvalidLength),
            }
        },
        Option::None => Ok(0),
    }
}

/// Computes the response body length from the status code and header
/// tokens.
fn response_body_len(s: &[u8], code: usize, toks: &Vec<HeaderTok>) -> (r: Result<
    usize,
    ErrorKind,
>)
    requires
        forall|k: int| 0 <= k < toks@.len() ==> (#[trigger] toks@[k]).tok_wf(s@.len() as int),
    ensures
        ({
            let o = spec_response_body_len(
                s@,
                code as int,
                toks@.map_values(|t: HeaderTok| t.shape()),
            );
            match r {
                Ok(n) => o == Ok::<int, ErrorKind>(n as int),
                Err(k) => o == Err::<int, ErrorKind>(k),
            }
        }),
{
    if (100 <= code && code <= 199) || code == 204 || code == 304 {
        return Ok(0);
    }
    if find_first_named(s, toks, true).is_some() {
        return Err(ErrorKind::UnsupportedFraming);
    }
    match find_first_named(s, toks, false) {
        Option::Some(k) => {
            let t = &toks[k];
            proof {
                assert(toks@[k as int].tok_wf(s@.len() as int));
                assert(toks@.map_values(|t: HeaderTok| t.shape())[k as int] == toks@[
                    k as int].shape());
            }
            match parse_dec(&s[t.value_start..t.value_end]) {
                Option::Some(n) => Ok(n),
                Option::None => Err(ErrorKind::InvalidLength),
            }
        },
        Option::None => Err(ErrorKind::AmbiguousBody),
    }
}

/// A resolved request body length is never negative.
pub proof fn lemma_request_body_len_nonneg(s: Seq<u8>, hs: Seq<HeaderShape>)
    ensures
        spec_request_body_len(s, hs) is Ok ==> spec_request_body_len(s, hs)->Ok_0 >= 0,
{
    if !has_named_header(s, hs, te_name()) && has_named_header(s, hs, cl_name()) {
        let v = shape_value_bytes(s, hs[first_named_idx(s, hs, cl_name())]);
        if is_digits(v) {
            lemma_dec_val_nonneg(v);
        }
    }
}

/// A resolved response body length is never negative.
pub proof fn lemma_response_body_len_nonneg(s: Seq<u8>, code_val: int, hs: Seq<HeaderShape>)
    ensures
        spec_response_body_len(s, code_val, hs) is Ok ==> spec_response_body_len(s, code_val, hs)->Ok_0
            >= 0,
{
    if !(100 <= code_val <= 199 || code_val == 204 || code_val == 304) {
        if !has_named_header(s, hs, te_name()) && has_named_header(s, hs, cl_name()) {
            let v = shape_value_bytes(s, hs[first_named_idx(s, hs, cl_name())]);
            if is_digits(v) {
                lemma_dec_val_nonneg(v);
            }
        }
    }
}

/// The shape of a whole parsed request within the source bytes.
pub ghost struct ReqShape {
    /// The request line.
    pub line: ReqLineShape,
    /// The headers, in order.
    pub headers: Seq<HeaderShape>,
    /// One past the final CRLF of the head.
    pub head_end: int,
    /// The resolved body length.
    pub body_len: int,
    /// One past the end of the message.
    pub end: int,
}

/// The shape of a whole parsed response within the source bytes.
pub ghost struct RespShape {
    /// The status line.
    pub line: StatusLineShape,
    /// The headers, in order.
    pub headers: Seq<HeaderShape>,
    /// One past the final CRLF of the head.
    pub head_end: int,
    /// The resolved body length.
    pub body_len: int,
    /// One past the end of the message.
    pub end: int,
}

/// Parses a whole request at `offset`: the request line, the headers up
/// to the empty line (at most `MAX_HEADERS` of them), and the body as
/// resolved from the headers, which must lie within the buffer.
pub open spec fn spec_request(s: Seq<u8>, offset: int) -> Result<ReqShape, ErrorKind> {
    match spec_request_line(s, offset) {
        Option::None => Err(ErrorKind::MalformedHead),
        Option::Some(line) => match spec_headers(s, line.line_end) {
            Option::None => Err(ErrorKind::MalformedHead),
            Option::Some((hs, head_end)) => if hs.len() > MAX_HEADERS {
                Err(ErrorKind::HeaderCapExceeded)
            } else {
                match spec_request_body_len(s, hs) {
                    Err(k) => Err(k),
                    Ok(blen) => if head_end + blen <= s.len() {
                        Ok(
                            ReqShape {
                                line,
                                headers: hs,
                                head_end,
                                body_len: blen,
                                end: head_end + blen,
                            },
                        )
                    } else {
                        Err(ErrorKind::InvalidLength)
                    },
                }
            },
        },
    }
}

/// The decimal value of the status code of a status line.
pub open spec fn spec_code_val(s: Seq<u8>, line: StatusLineShape) -> int {
    dec_val(s.subrange(line.code_start, line.code_end))
}

/// Parses a whole response at `offset`: the status line, the headers up
/// to the empty line (at most `MAX_HEADERS` of them), and the body as
/// resolved from the status code and headers, which must lie within the
/// buffer.
pub open spec fn spec_response(s: Seq<u8>, offset: int) -> Result<RespShape, ErrorKind> {
    match spec_status_line(s, offset) {
        Option::None => Err(ErrorKind::MalformedHead),
        Option::Some(line) => match spec_headers(s, line.line_end) {
            Option::None => Err(ErrorKind::MalformedHead),
            Option::Some((hs, head_end)) => if hs.len() > MAX_HEADERS {
                Err(ErrorKind::HeaderCapExceeded)
            } else {
                match spec_response_body_len(s, spec_code_val(s, line), hs) {
                    Err(k) => Err(k),
                    Ok(blen) => if head_end + blen <= s.len() {
                        Ok(
                            RespShape {
                                line,
                                headers: hs,
                                head_end,
                                body_len: blen,
                                end: head_end + blen,
                            },
                        )
                    } else {
                        Err(ErrorKind::InvalidLength)
                    },
                }
            },
        },
    }
}

/// The header's spans reference exactly the ranges of the shape.
pub open spec fn header_matches_shape(h: Header, s: Seq<u8>, sh: HeaderShape) -> bool {
    &&& h.span.is_slice_of(s, sh.name_start, sh.line_end)
    &&& h.name.0.is_slice_of(s, sh.name_start, sh.name_end)
    &&& h.value.0.is_slice_of(s, sh.value_start, sh.value_end)
}

/// The request's spans reference exactly the ranges of the shape.
pub open spec fn req_matches_shape(req: Request, s: Seq<u8>, sh: ReqShape) -> bool {
    &&& req.span.is_slice_of(s, sh.line.start, sh.end)
    &&& req.request.span.is_slice_of(s, sh.line.start, sh.line.line_end)
    &&& req.request.method.0.is_slice_of(s, sh.line.start, sh.line.method_end)
    &&& req.request.target.0.is_slice_of(s, sh.line.target_start, sh.line.target_end)
    &&& req.headers@.len() == sh.headers.len()
    &&& forall|k: int| 0 <= k < sh.headers.len() ==> header_matches_shape(
        #[trigger] req.headers@[k],
        s,
        sh.headers[k],
    )
    &&& if sh.body_len > 0 {
        req.body is Some && req.body.unwrap().span.is_slice_of(s, sh.head_end, sh.end)
    } else {
        req.body is None
    }
}

/// The response's spans reference exactly the ranges of the shape.
pub open spec fn resp_matches_shape(resp: Response, s: Seq<u8>, sh: RespShape) -> bool {
    &&& resp.span.is_slice_of(s, sh.line.start, sh.end)
    &&& resp.status.span.is_slice_of(s, sh.line.start, sh.line.line_end)
    &&& resp.status.code.0.is_slice_of(s, sh.line.code_start, sh.line.code_end)
    &&& resp.status.reason.0.is_slice_of(s, sh.line.reason_start, sh.line.reason_end)
    &&& resp.headers@.len() == sh.headers.len()
    &&& forall|k: int| 0 <= k < sh.headers.len() ==> header_matches_shape(
        #[trigger] resp.headers@[k],
        s,
        sh.headers[k],
    )
    &&& if sh.body_len > 0 {
        resp.body is Some && resp.body.unwrap().span.is_slice_of(s, sh.head_end, sh.end)
    } else {
        resp.body is None
    }
}

/// Every token character is ASCII.
pub proof fn lemma_tchar_ascii()
    ensures
        forall|b: u8| byte_in_class(ByteClass::Tchar, b) ==> b < 128,
{
}

/// The pieces of a matched request line are valid UTF-8, as is the
/// whole line.
pub proof fn lemma_request_line_utf8(s: Seq<u8>, sh: ReqLineShape)
    requires
        0 <= sh.start <= s.len(),
        spec_request_line(s, sh.start) == Some(sh),
    ensures
        valid_utf8(s.subrange(sh.start, sh.method_end)),
        valid_utf8(s.subrange(sh.target_start, sh.target_end)),
        valid_utf8(s.subrange(sh.start, sh.line_end)),
{
    lemma_scan(s, sh.start, ByteClass::Tchar);
    let m = s.subrange(sh.start, sh.method_end);
    assert forall|j: int| 0 <= j < m.len() implies (#[trigger] m[j]) < 128 by {
        assert(m[j] == s[sh.start + j]);
        assert(byte_in_class(ByteClass::Tchar, s[sh.start + j]));
    }
    lemma_ascii_valid_utf8(m);
    let mid = s.subrange(sh.method_end, sh.target_start);
    assert forall|j: int| 0 <= j < mid.len() implies (#[trigger] mid[j]) < 128 by {
        assert(mid[j] == s[sh.method_end]);
    }
    lemma_ascii_valid_utf8(mid);
    let tail = s.subrange(sh.target_end, sh.line_end);
    assert forall|j: int| 0 <= j < tail.len() implies (#[trigger] tail[j]) < 128 by {
        assert(tail[j] == s[sh.target_end + j]);
        assert(spec_version_at(s, sh.target_end + 1));
        assert(spec_crlf_at(s, sh.target_end + 9));
        if j == 0 {
            assert(s[sh.target_end] == 32);
        } else if j == 6 {
            assert(byte_in_class(ByteClass::Digit, s[sh.target_end + 6]));
        } else if j == 8 {
            assert(byte_in_class(ByteClass::Digit, s[sh.target_end + 8]));
        }
    }
    lemma_ascii_valid_utf8(tail);
    valid_utf8_concat(m, mid);
    assert(s.subrange(sh.start, sh.target_start) =~= m + mid);
    valid_utf8_concat(s.subrange(sh.start, sh.target_start), s.subrange(sh.target_start, sh.target_end));
    assert(s.subrange(sh.start, sh.target_end) =~= s.subrange(sh.start, sh.target_start)
        + s.subrange(sh.target_start, sh.target_end));
    valid_utf8_concat(s.subrange(sh.start, sh.target_end), tail);
    assert(s.subrange(sh.start, sh.line_end) =~= s.subrange(sh.start, sh.target_end) + tail);
}

/// The pieces of a matched status line are valid UTF-8, as is the
/// whole line.
pub proof fn lemma_status_line_utf8(s: Seq<u8>, sh: StatusLineShape)
    requires
        0 <= sh.start <= s.len(),
        spec_status_line(s, sh.start) == Some(sh),
    ensures
        valid_utf8(s.subrange(sh.code_start, sh.code_end)),
        valid_utf8(s.subrange(sh.reason_start, sh.reason_end)),
        valid_utf8(s.subrange(sh.start, sh.line_end)),
{
    if spec_crlf_at(s, sh.start + 12) {
        assert(sh.reason_start == sh.start + 12);
        assert(sh.reason_end == sh.start + 12);
        assert(sh.line_end == sh.start + 14);
    } else {
        lemma_scan(s, sh.start + 13, ByteClass::Reason);
        assert(sh.reason_start == sh.start + 13);
        assert(sh.reason_end == spec_scan(s, sh.start + 13, ByteClass::Reason));
        assert(spec_crlf_at(s, sh.reason_end));
    }
    assert(sh.reason_end + 2 == sh.line_end);
    assert(sh.line_end <= s.len());
    let head = s.subrange(sh.start, sh.reason_start);
    assert forall|j: int| 0 <= j < head.len() implies (#[trigger] head[j]) < 128 by {
        assert(head[j] == s[sh.start + j]);
        assert(spec_version_at(s, sh.start));
        if j == 5 {
            assert(byte_in_class(ByteClass::Digit, s[sh.start + 5]));
        } else if j == 7 {
            assert(byte_in_class(ByteClass::Digit, s[sh.start + 7]));
        } else if 9 <= j < 12 {
            assert(byte_in_class(ByteClass::Digit, s[sh.start + j]));
        } else if j == 12 {
            assert(s[sh.start + 12] == 32);
        }
    }
    lemma_ascii_valid_utf8(head);
    let code = s.subrange(sh.code_start, sh.code_end);
    assert forall|j: int| 0 <= j < code.len() implies (#[trigger] code[j]) < 128 by {
        assert(code[j] == s[sh.code_start + j]);
        assert(byte_in_class(ByteClass::Digit, s[sh.code_start + j]));
    }
    lemma_ascii_valid_utf8(code);
    if sh.reason_start == sh.reason_end {
        assert(s.subrange(sh.reason_start, sh.reason_end) =~= Seq::<u8>::empty());
        assert(valid_utf8(s.subrange(sh.reason_start, sh.reason_end)));
    }
    let tail = s.subrange(sh.reason_end, sh.line_end);
    assert forall|j: int| 0 <= j < tail.len() implies (#[trigger] tail[j]) < 128 by {
        assert(spec_crlf_at(s, sh.reason_end));
        assert(tail[j] == s[sh.reason_end + j]);
    }
    lemma_ascii_valid_utf8(tail);
    valid_utf8_concat(head, s.subrange(sh.reason_start, sh.reason_end));
    assert(s.subrange(sh.start, sh.reason_end) =~= head + s.subrange(
        sh.reason_start,
        sh.reason_end,
    ));
    valid_utf8_concat(s.subrange(sh.start, sh.reason_end), tail);
    assert(s.subrange(sh.start, sh.line_end) =~= s.subrange(sh.start, sh.reason_end) + tail);
}

/// The name of a matched header line is ASCII, hence valid UTF-8.
pub proof fn lemma_header_name_utf8(s: Seq<u8>, sh: HeaderShape)
    requires
        0 <= sh.name_start <= s.len(),
        spec_header_line(s, sh.name_start) == Some(sh),
    ensures
        valid_utf8(s.subrange(sh.name_start, sh.name_end)),
{
    lemma_scan(s, sh.name_start, ByteClass::Tchar);
    let m = s.subrange(sh.name_start, sh.name_end);
    assert forall|j: int| 0 <= j < m.len() implies (#[trigger] m[j]) < 128 by {
        assert(m[j] == s[sh.name_start + j]);
        assert(byte_in_class(ByteClass::Tchar, s[sh.name_start + j]));
    }
    lemma_ascii_valid_utf8(m);
}

/// Builds the header entities whose spans reference the token ranges.
fn build_headers(src: &bytes::Bytes, toks: &Vec<HeaderTok>) -> (r: Vec<Header>)
    requires
        forall|k: int| 0 <= k < toks@.len() ==> (#[trigger] toks@[k]).tok_wf(
            bytes_view(*src).len() as int,
        ),
        forall|k: int| 0 <= k < toks@.len() ==> spec_header_line(
            bytes_view(*src),
            (#[trigger] toks@[k]).name_start as int,
        ) == Some(toks@[k].shape()),
    ensures
        r@.len() == toks@.len(),
        forall|k: int| 0 <= k < toks@.len() ==> (#[trigger] r@[k]).wf() && header_matches_shape(
            r@[k],
            bytes_view(*src),
            toks@[k].shape(),
        ),
{
    let ghost s = bytes_view(*src);
    let mut out: Vec<Header> = Vec::new();
    let mut i: usize = 0;
    while i < toks.len()
        invariant
            s == bytes_view(*src),
            forall|k: int| 0 <= k < toks@.len() ==> (#[trigger] toks@[k]).tok_wf(s.len() as int),
            forall|k: int| 0 <= k < toks@.len() ==> spec_header_line(
                s,
                (#[trigger] toks@[k]).name_start as int,
            ) == Some(toks@[k].shape()),
            0 <= i <= toks@.len(),
            out@.len() == i,
            forall|k: int| 0 <= k < i ==> (#[trigger] out@[k]).wf() && header_matches_shape(
                out@[k],
                s,
                toks@[k].shape(),
            ),
        decreases toks@.len() - i,
    {
        let t = &toks[i];
        proof {
            assert(toks@[i as int].tok_wf(s.len() as int));
            lemma_header_name_utf8(s, toks@[i as int].shape());
        }
        let name_span = Span::new_str(src, t.name_start, t.name_end);
        let value_span = Span::new_bytes(src, t.value_start, t.value_end);
        let line_span = Span::new_bytes(src, t.name_start, t.line_end);
        let h = Header {
            span: line_span,
            name: HeaderName(name_span),
            value: HeaderValue(value_span),
        };
        proof {
            assert forall|x: int| h.name.0.idx_set().contains(x) implies h.span.idx_set().contains(
                x,
            ) by {}
            assert forall|x: int| h.value.0.idx_set().contains(
                x,
            ) implies h.span.idx_set().contains(x) by {}
            assert(h.wf());
            assert(header_matches_shape(h, s, toks@[i as int].shape()));
        }
        out.push(h);
        i = i + 1;
    }
    out
}

/// Parses an HTTP request from a `Bytes` buffer starting from `offset`.
///
/// On success every span of the returned request references the exact
/// byte ranges that the head grammar and the body-length resolution
/// assign; the error kind otherwise reports exactly what failed.
pub fn parse_request_from_bytes(src: &bytes::Bytes, offset: usize) -> (r: Result<
    Request,
    ParseError,
>)
    ensures
        ({
            let s = bytes_view(*src);
            match r {
                Ok(req) => {
                    &&& spec_request(s, offset as int) is Ok
                    &&& req.wf()
                    &&& req_matches_shape(req, s, spec_request(s, offset as int)->Ok_0)
                },
                Err(e) => {
                    &&& spec_request(s, offset as int) is Err
                    &&& e.kind == spec_request(s, offset as int)->Err_0
                    &&& e.line == 0 && e.column == 0
                },
            }
        }),
{
    let ghost sq = bytes_view(*src);
    let s = bytes_as_slice(src);
    if offset > s.len() {
        proof {
            assert(spec_scan(sq, offset as int, ByteClass::Tchar) == offset as int);
            assert(spec_request_line(sq, offset as int) is None);
        }
        return Err(ParseError::new(ErrorKind::MalformedHead));
    }
    let line = match parse_request_line(s, offset) {
        Option::Some(l) => l,
        Option::None => {
            return Err(ParseError::new(ErrorKind::MalformedHead));
        },
    };
    let ghost line_shape = spec_request_line(sq, offset as int)->0;
    let (toks, head_end) = match parse_headers_from(s, line.line_end) {
        Option::Some(p) => p,
        Option::None => {
            return Err(ParseError::new(ErrorKind::MalformedHead));
        },
    };
    if toks.len() > MAX_HEADERS {
        return Err(ParseError::new(ErrorKind::HeaderCapExceeded));
    }
    let blen = match request_body_len(s, &toks) {
        Ok(n) => n,
        Err(k) => {
            return Err(ParseError::new(k));
        },
    };
    if blen > s.len() - head_end {
        return Err(ParseError::new(ErrorKind::InvalidLength));
    }
    let end = head_end + blen;
    proof {
        lemma_request_line_utf8(sq, line_shape);
    }
    let method_span = Span::new_str(src, offset, line.method_end);
    let target_span = Span::new_str(src, line.target_start, line.target_end);
    let line_span = Span::new_str(src, offset, line.line_end);
    let headers = build_headers(src, &toks);
    let overall = Span::new_bytes(src, offset, end);
    let body = if blen > 0 {
        Some(Body { span: Span::new_bytes(src, head_end, end) })
    } else {
        None
    };
    let req = Request {
        span: overall,
        request: RequestLine {
            span: line_span,
            method: Method(method_span),
            target: Target(target_span),
        },
        headers,
        body,
    };
    proof {
        assert forall|x: int| req.request.method.0.idx_set().contains(
            x,
        ) implies req.request.span.idx_set().contains(x) by {}
        assert forall|x: int| req.request.target.0.idx_set().contains(
            x,
        ) implies req.request.span.idx_set().contains(x) by {}
        assert(req.wf());
        assert(req_matches_shape(req, sq, spec_request(sq, offset as int)->Ok_0));
    }
    Ok(req)
}

/// Parses an HTTP request.
pub fn parse_request(src: &[u8]) -> (r: Result<Request, ParseError>)
    ensures
        match r {
            Ok(req) => {
                &&& spec_request(src@, 0) is Ok
                &&& req.wf()
                &&& req_matches_shape(req, src@, spec_request(src@, 0)->Ok_0)
            },
            Err(e) => {
                &&& spec_request(src@, 0) is Err
                &&& e.kind == spec_request(src@, 0)->Err_0
                &&& e.line == 0 && e.column == 0
            },
        },
{
    let b = bytes_copy_from_slice(src);
    parse_request_from_bytes(&b, 0)
}

/// Parses an HTTP response from a `Bytes` buffer starting from `offset`.
///
/// On success every span of the returned response references the exact
/// byte ranges that the head grammar and the body-length resolution
/// assign; the error kind otherwise reports exactly what failed.
pub fn parse_response_from_bytes(src: &bytes::Bytes, offset: usize) -> (r: Result<
    Response,
    ParseError,
>)
    ensures
        ({
            let s = bytes_view(*src);
            match r {
                Ok(resp) => {
                    &&& spec_response(s, offset as int) is Ok
                    &&& resp.wf()
                    &&& resp_matches_shape(resp, s, spec_response(s, offset as int)->Ok_0)
                },
                Err(e) => {
                    &&& spec_response(s, offset as int) is Err
                    &&& e.kind == spec_response(s, offset as int)->Err_0
                    &&& e.line == 0 && e.column == 0
                },
            }
        }),
{
    let ghost sq = bytes_view(*src);
    let s = bytes_as_slice(src);
    if offset > s.len() {
        proof {
            assert(spec_status_line(sq, offset as int) is None);
        }
        return Err(ParseError::new(ErrorKind::MalformedHead));
    }
    let line = match parse_status_line(s, offset) {
        Option::Some(l) => l,
        Option::None => {
            return Err(ParseError::new(ErrorKind::MalformedHead));
        },
    };
    let ghost line_shape = spec_status_line(sq, offset as int)->0;
    let (toks, head_end) = match parse_headers_from(s, line.line_end) {
        Option::Some(p) => p,
        Option::None => {
            return Err(ParseError::new(ErrorKind::MalformedHead));
        },
    };
    if toks.len() > MAX_HEADERS {
        return Err(ParseError::new(ErrorKind::HeaderCapExceeded));
    }
    let code = match parse_dec(&s[line.code_start..line.code_end]) {
        Option::Some(n) => n,
        Option::None => {
            proof {
                let sub = sq.subrange(line.code_start as int, line.code_end as int);
                assert(sub.len() == 3);
                assert(sub[0] == sq[offset + 9] && sub[1] == sq[offset + 10] && sub[2] == sq[offset
                    + 11]);
                assert(byte_in_class(ByteClass::Digit, sq[offset + 9]));
                assert forall|j: int| 0 <= j < sub.len() implies byte_in_class(
                    ByteClass::Digit,
                    #[trigger] sub[j],
                ) by {}
                assert(is_digits(sub));
                let d2 = sub.drop_last();
                let d1 = d2.drop_last();
                assert(d1.drop_last() =~= Seq::<u8>::empty());
                assert(dec_val(Seq::<u8>::empty()) == 0);
                assert(dec_val(d1) == (d1.last() - 48));
                assert(dec_val(d2) == dec_val(d1) * 10 + (d2.last() - 48));
                assert(dec_val(sub) == dec_val(d2) * 10 + (sub.last() - 48));
                assert(byte_in_class(ByteClass::Digit, d1.last()));
                assert(byte_in_class(ByteClass::Digit, d2.last()));
                assert(dec_val(sub) <= 999) by (nonlinear_arith)
                    requires
                        dec_val(sub) == dec_val(d2) * 10 + (sub.last() - 48),
                        dec_val(d2) == dec_val(d1) * 10 + (d2.last() - 48),
                        dec_val(d1) == d1.last() - 48,
                        48 <= d1.last() <= 57,
                        48 <= d2.last() <= 57,
                        48 <= sub.last() <= 57,
                ;
                assert(false);
            }
            0
        },
    };
    let blen = match response_body_len(s, code, &toks) {
        Ok(n) => n,
        Err(k) => {
            return Err(ParseError::new(k));
        },
    };
    if blen > s.len() - head_end {
        return Err(ParseError::new(ErrorKind::InvalidLength));
    }
    let end = head_end + blen;
    proof {
        lemma_status_line_utf8(sq, line_shape);
    }
    let code_span = Span::new_str(src, line.code_start, line.code_end);
    let reason_span = Span::new_str(src, line.reason_start, line.reason_end);
    let line_span = Span::new_str(src, offset, line.line_end);
    let headers = build_headers(src, &toks);
    let overall = Span::new_bytes(src, offset, end);
    let body = if blen > 0 {
        Some(Body { span: Span::new_bytes(src, head_end, end) })
    } else {
        None
    };
    let resp = Response {
        span: overall,
        status: Status { span: line_span, code: Code(code_span), reason: Reason(reason_span) },
        headers,
        body,
    };
    proof {
        assert forall|x: int| resp.status.code.0.idx_set().contains(
            x,
        ) implies resp.status.span.idx_set().contains(x) by {}
        assert forall|x: int| resp.status.reason.0.idx_set().contains(
            x,
        ) implies resp.status.span.idx_set().contains(x) by {}
        assert(resp.wf());
        assert(resp_matches_shape(resp, sq, spec_response(sq, offset as int)->Ok_0));
    }
    Ok(resp)
}

/// Parses an HTTP response.
pub fn parse_response(src: &[u8]) -> (r: Result<Response, ParseError>)
    ensures
        match r {
            Ok(resp) => {
                &&& spec_response(src@, 0) is Ok
                &&& resp.wf()
                &&& resp_matches_shape(resp, src@, spec_response(src@, 0)->Ok_0)
            },
            Err(e) => {
                &&& spec_response(src@, 0) is Err
                &&& e.kind == spec_response(src@, 0)->Err_0
                &&& e.line == 0 && e.column == 0
            },
        },
{
    let b = bytes_copy_from_slice(src);
    parse_response_from_bytes(&b, 0)
}


/// The span of a parsed request covers exactly the consumed prefix of
/// the input: re-slicing the source at the span's indices reproduces
/// the original message bytes.
pub proof fn lemma_request_span_round_trip(req: Request, s: Seq<u8>, offset: int)
    requires
        spec_request(s, offset) is Ok,
        req_matches_shape(req, s, spec_request(s, offset)->Ok_0),
    ensures
        req.span.content() == s.subrange(offset, spec_request(s, offset)->Ok_0.end),
        req.span.idx_set() == vstd::set_lib::set_int_range(
            offset,
            spec_request(s, offset)->Ok_0.end,
        ),
{
    let sh = spec_request(s, offset)->Ok_0;
    assert(sh.line.start == offset);
}

/// The span of a parsed response covers exactly the consumed prefix of
/// the input: re-slicing the source at the span's indices reproduces
/// the original message bytes.
pub proof fn lemma_response_span_round_trip(resp: Response, s: Seq<u8>, offset: int)
    requires
        spec_response(s, offset) is Ok,
        resp_matches_shape(resp, s, spec_response(s, offset)->Ok_0),
    ensures
        resp.span.content() == s.subrange(offset, spec_response(s, offset)->Ok_0.end),
        resp.span.idx_set() == vstd::set_lib::set_int_range(
            offset,
            spec_response(s, offset)->Ok_0.end,
        ),
{
    let sh = spec_response(s, offset)->Ok_0;
    assert(sh.line.start == offset);
}

/// A request whose head parses but carries a `Transfer-Encoding` header
/// is rejected as unsupported framing, regardless of its other headers.
pub proof fn lemma_transfer_encoding_rejected_request(s: Seq<u8>, offset: int)
    requires
        spec_request_line(s, offset) is Some,
        spec_headers(s, spec_request_line(s, offset)->0.line_end) is Some,
        (spec_headers(s, spec_request_line(s, offset)->0.line_end)->0).0.len() <= MAX_HEADERS,
        has_named_header(
            s,
            (spec_headers(s, spec_request_line(s, offset)->0.line_end)->0).0,
            te_name(),
        ),
    ensures
        spec_request(s, offset) == Err::<ReqShape, ErrorKind>(ErrorKind::UnsupportedFraming),
{
}

/// A response whose head parses, whose status admits a body, and which
/// carries a `Transfer-Encoding` header is rejected as unsupported
/// framing, regardless of its other headers.
pub proof fn lemma_transfer_encoding_rejected_response(s: Seq<u8>, offset: int)
    requires
        spec_status_line(s, offset) is Some,
        spec_headers(s, spec_status_line(s, offset)->0.line_end) is Some,
        (spec_headers(s, spec_status_line(s, offset)->0.line_end)->0).0.len() <= MAX_HEADERS,
        has_named_header(
            s,
            (spec_headers(s, spec_status_line(s, offset)->0.line_end)->0).0,
            te_name(),
        ),
        !(100 <= spec_code_val(s, spec_status_line(s, offset)->0) <= 199 || spec_code_val(
            s,
            spec_status_line(s, offset)->0,
        ) == 204 || spec_code_val(s, spec_status_line(s, offset)->0) == 304),
    ensures
        spec_response(s, offset) == Err::<RespShape, ErrorKind>(ErrorKind::UnsupportedFraming),
{
}

/// Successive messages of one buffer occupy adjacent, non-overlapping
/// spans, in order: each message's span starts exactly where the
/// previous one ended.
pub proof fn lemma_stream_spans_ordered(s: Seq<u8>, p0: int, p1: int)
    requires
        0 <= p0,
        spec_request(s, p0) is Ok,
        p1 == spec_request(s, p0)->Ok_0.end,
        spec_request(s, p1) is Ok,
    ensures
        p0 < p1 <= spec_request(s, p1)->Ok_0.end <= s.len(),
        vstd::set_lib::set_int_range(p0, p1).disjoint(
            vstd::set_lib::set_int_range(p1, spec_request(s, p1)->Ok_0.end),
        ),
{
    let sh0 = spec_request(s, p0)->Ok_0;
    let sh1 = spec_request(s, p1)->Ok_0;
    lemma_spec_headers_bounds(s, sh0.line.line_end);
    lemma_request_body_len_nonneg(s, sh0.headers);
    lemma_spec_headers_bounds(s, sh1.line.line_end);
    lemma_request_body_len_nonneg(s, sh1.headers);
    assert(sh0.line.line_end > p0);
    assert(sh1.line.line_end > p1);
}


/// Successive responses of one buffer occupy adjacent, non-overlapping
/// spans, in order: each message's span starts exactly where the
/// previous one ended.
pub proof fn lemma_response_stream_spans_ordered(s: Seq<u8>, p0: int, p1: int)
    requires
        0 <= p0,
        spec_response(s, p0) is Ok,
        p1 == spec_response(s, p0)->Ok_0.end,
        spec_response(s, p1) is Ok,
    ensures
        p0 < p1 <= spec_response(s, p1)->Ok_0.end <= s.len(),
        vstd::set_lib::set_int_range(p0, p1).disjoint(
            vstd::set_lib::set_int_range(p1, spec_response(s, p1)->Ok_0.end),
        ),
{
    let sh0 = spec_response(s, p0)->Ok_0;
    let sh1 = spec_response(s, p1)->Ok_0;
    lemma_spec_headers_bounds(s, sh0.line.line_end);
    lemma_response_body_len_nonneg(s, spec_code_val(s, sh0.line), sh0.headers);
    lemma_spec_headers_bounds(s, sh1.line.line_end);
    lemma_response_body_len_nonneg(s, spec_code_val(s, sh1.line), sh1.headers);
    if !spec_crlf_at(s, sh0.line.start + 12) {
        lemma_scan(s, sh0.line.start + 13, ByteClass::Reason);
    }
    if !spec_crlf_at(s, sh1.line.start + 12) {
        lemma_scan(s, sh1.line.start + 13, ByteClass::Reason);
    }
    assert(sh0.line.line_end > p0);
    assert(sh1.line.line_end > p1);
}


/// Trimming trailing whitespace inside a window of the source sees
/// exactly the same bytes.
proof fn lemma_trim_ows_localized(s: Seq<u8>, d: int, l: int, start: int, end: int)
    requires
        0 <= d <= start <= end <= l <= s.len(),
    ensures
        spec_trim_ows_end(s.subrange(d, l), start - d, end - d) == spec_trim_ows_end(
            s,
            start,
            end,
        ) - d,
    decreases end - start,
{
    let t = s.subrange(d, l);
    if end > start {
        assert(t[end - 1 - d] == s[end - 1]);
        if byte_in_class(ByteClass::Ows, s[end - 1]) {
            lemma_trim_ows_localized(s, d, l, start, end - 1);
        }
    }
}

/// A matched request line, parsed inside a window of the source that
/// contains it, gives the same shape shifted to the window.
proof fn lemma_request_line_localized(s: Seq<u8>, d: int, l: int, i: int)
    requires
        0 <= d <= i <= l <= s.len(),
        spec_request_line(s, i) is Some,
        spec_request_line(s, i)->0.line_end <= l,
    ensures
        ({
            let sh = spec_request_line(s, i)->0;
            spec_request_line(s.subrange(d, l), i - d) == Some(
                ReqLineShape {
                    start: i - d,
                    method_end: sh.method_end - d,
                    target_start: sh.target_start - d,
                    target_end: sh.target_end - d,
                    line_end: sh.line_end - d,
                },
            )
        }),
{
    let t = s.subrange(d, l);
    let sh = spec_request_line(s, i)->0;
    lemma_scan(s, i, ByteClass::Tchar);
    lemma_scan(s, sh.target_start, ByteClass::Target);
    assert(sh.method_end < sh.target_start < sh.target_end < sh.line_end);
    lemma_scan_localized(s, d, l, i, ByteClass::Tchar);
    assert(t[sh.method_end - d] == s[sh.method_end]);
    lemma_scan_localized(s, d, l, sh.target_start, ByteClass::Target);
    assert(t[sh.target_end - d] == s[sh.target_end]);
    assert(t.subrange(sh.target_start - d, sh.target_end - d) =~= s.subrange(
        sh.target_start,
        sh.target_end,
    ));
    assert(spec_version_at(t, sh.target_end + 1 - d)) by {
        let v = sh.target_end + 1;
        assert(t[v - d] == s[v]);
        assert(t[v + 1 - d] == s[v + 1]);
        assert(t[v + 2 - d] == s[v + 2]);
        assert(t[v + 3 - d] == s[v + 3]);
        assert(t[v + 4 - d] == s[v + 4]);
        assert(t[v + 5 - d] == s[v + 5]);
        assert(t[v + 6 - d] == s[v + 6]);
        assert(t[v + 7 - d] == s[v + 7]);
    }
    assert(spec_crlf_at(t, sh.target_end + 9 - d)) by {
        assert(t[sh.target_end + 9 - d] == s[sh.target_end + 9]);
        assert(t[sh.target_end + 10 - d] == s[sh.target_end + 10]);
    }
}

/// A matched status line, parsed inside a window of the source that
/// contains it, gives the same shape shifted to the window.
proof fn lemma_status_line_localized(s: Seq<u8>, d: int, l: int, i: int)
    requires
        0 <= d <= i <= l <= s.len(),
        spec_status_line(s, i) is Some,
        spec_status_line(s, i)->0.line_end <= l,
    ensures
        ({
            let sh = spec_status_line(s, i)->0;
            spec_status_line(s.subrange(d, l), i - d) == Some(
                StatusLineShape {
                    start: i - d,
                    code_start: sh.code_start - d,
                    code_end: sh.code_end - d,
                    reason_start: sh.reason_start - d,
                    reason_end: sh.reason_end - d,
                    line_end: sh.line_end - d,
                },
            )
        }),
{
    let t = s.subrange(d, l);
    let sh = spec_status_line(s, i)->0;
    if spec_crlf_at(s, i + 12) {
        assert(sh.line_end == i + 14);
    } else {
        lemma_scan(s, i + 13, ByteClass::Reason);
        assert(sh.line_end == spec_scan(s, i + 13, ByteClass::Reason) + 2);
        assert(sh.line_end >= i + 15);
    }
    assert(i + 14 <= l);
    assert(spec_version_at(t, i - d)) by {
        assert(t[i - d] == s[i]);
        assert(t[i + 1 - d] == s[i + 1]);
        assert(t[i + 2 - d] == s[i + 2]);
        assert(t[i + 3 - d] == s[i + 3]);
        assert(t[i + 4 - d] == s[i + 4]);
        assert(t[i + 5 - d] == s[i + 5]);
        assert(t[i + 6 - d] == s[i + 6]);
        assert(t[i + 7 - d] == s[i + 7]);
    }
    assert(t[i + 8 - d] == s[i + 8]);
    assert(t[i + 9 - d] == s[i + 9] && t[i + 10 - d] == s[i + 10] && t[i + 11 - d] == s[i + 11]);
    if spec_crlf_at(s, i + 12) {
        assert(t[i + 12 - d] == s[i + 12] && t[i + 13 - d] == s[i + 13]);
        assert(spec_crlf_at(t, i + 12 - d));
    } else {
        lemma_scan(s, i + 13, ByteClass::Reason);
        assert(sh.reason_end == spec_scan(s, i + 13, ByteClass::Reason));
        assert(spec_crlf_at(s, sh.reason_end));
        assert(t[i + 12 - d] == s[i + 12]);
        assert(!spec_crlf_at(t, i + 12 - d)) by {
            assert(t[i + 13 - d] == s[i + 13]);
        }
        lemma_scan_localized(s, d, l, i + 13, ByteClass::Reason);
        assert(t[sh.reason_end - d] == s[sh.reason_end]);
        assert(t[sh.reason_end + 1 - d] == s[sh.reason_end + 1]);
        assert(t.subrange(i + 13 - d, sh.reason_end - d) =~= s.subrange(i + 13, sh.reason_end));
    }
}

/// The shape of a header line, shifted by `delta`.
pub open spec fn header_shape_shifted(h: HeaderShape, delta: int) -> HeaderShape {
    HeaderShape {
        name_start: h.name_start + delta,
        name_end: h.name_end + delta,
        value_start: h.value_start + delta,
        value_end: h.value_end + delta,
        line_end: h.line_end + delta,
    }
}

/// A matched header line lies between its start and its end, with its
/// parts in order.
proof fn lemma_header_line_shape_wf(s: Seq<u8>, i: int)
    requires
        0 <= i <= s.len(),
        spec_header_line(s, i) is Some,
    ensures
        ({
            let h = spec_header_line(s, i)->0;
            &&& h.name_start == i
            &&& i < h.name_end
            &&& h.name_end + 1 <= h.value_start <= h.value_end
            &&& h.value_end + 2 <= h.line_end <= s.len()
        }),
{
    let h = spec_header_line(s, i)->0;
    lemma_scan(s, i, ByteClass::Tchar);
    lemma_scan(s, h.name_end + 1, ByteClass::Ows);
    lemma_scan(s, h.value_start, ByteClass::Value);
    let raw_end = spec_scan(s, h.value_start, ByteClass::Value);
    lemma_trim_bounds(s, h.value_start, raw_end);
}

/// Trimming trailing whitespace keeps the value's end between its start
/// and the untrimmed end.
proof fn lemma_trim_bounds(s: Seq<u8>, start: int, end: int)
    requires
        start <= end,
    ensures
        start <= spec_trim_ows_end(s, start, end) <= end,
    decreases end - start,
{
    if end > start && 0 <= end <= s.len() && byte_in_class(ByteClass::Ows, s[end - 1]) {
        lemma_trim_bounds(s, start, end - 1);
    }
}

/// A matched header line, parsed inside a window of the source that
/// contains it, gives the same shape shifted to the window.
proof fn lemma_header_line_localized(s: Seq<u8>, d: int, l: int, i: int)
    requires
        0 <= d <= i <= l <= s.len(),
        spec_header_line(s, i) is Some,
        spec_header_line(s, i)->0.line_end <= l,
    ensures
        spec_header_line(s.subrange(d, l), i - d) == Some(
            header_shape_shifted(spec_header_line(s, i)->0, 0 - d),
        ),
{
    let t = s.subrange(d, l);
    let h = spec_header_line(s, i)->0;
    lemma_header_line_shape_wf(s, i);
    let raw_end = spec_scan(s, h.value_start, ByteClass::Value);
    lemma_scan(s, h.value_start, ByteClass::Value);
    assert(spec_crlf_at(s, raw_end));
    assert(raw_end + 2 == h.line_end);
    lemma_scan_localized(s, d, l, i, ByteClass::Tchar);
    assert(t[h.name_end - d] == s[h.name_end]);
    lemma_scan_localized(s, d, l, h.name_end + 1, ByteClass::Ows);
    lemma_scan_localized(s, d, l, h.value_start, ByteClass::Value);
    assert(t[raw_end - d] == s[raw_end] && t[raw_end + 1 - d] == s[raw_end + 1]);
    lemma_trim_ows_localized(s, d, l, h.value_start, raw_end);
}


/// Every header shape of a parsed block comes from a header line parse,
/// starts at or after the block's start, and ends before the final
/// empty line.
proof fn lemma_headers_shapes(s: Seq<u8>, i: int)
    requires
        0 <= i,
        spec_headers(s, i) is Some,
    ensures
        ({
            let (shs, head_end) = spec_headers(s, i)->0;
            forall|k: int| 0 <= k < shs.len() ==> {
                &&& spec_header_line(s, (#[trigger] shs[k]).name_start) == Some(shs[k])
                &&& i <= shs[k].name_start
                &&& shs[k].line_end + 2 <= head_end
            }
        }),
    decreases s.len() - i,
{
    let (shs, head_end) = spec_headers(s, i)->0;
    if spec_crlf_at(s, i) {
    } else {
        let h = spec_header_line(s, i)->0;
        lemma_headers_shapes(s, h.line_end);
        lemma_spec_headers_bounds(s, h.line_end);
        let (rest, _) = spec_headers(s, h.line_end)->0;
        assert(shs == seq![h] + rest);
        assert forall|k: int| 0 <= k < shs.len() implies {
            &&& spec_header_line(s, (#[trigger] shs[k]).name_start) == Some(shs[k])
            &&& i <= shs[k].name_start
            &&& shs[k].line_end + 2 <= head_end
        } by {
            if k == 0 {
                assert(shs[0] == h);
            } else {
                assert(shs[k] == rest[k - 1]);
            }
        }
    }
}

/// A parsed header block, parsed inside a window of the source that
/// contains it, final empty line included, gives the same shapes
/// shifted to the window.
proof fn lemma_headers_localized(s: Seq<u8>, d: int, l: int, i: int)
    requires
        0 <= d <= i <= l <= s.len(),
        spec_headers(s, i) is Some,
        (spec_headers(s, i)->0).1 <= l,
    ensures
        ({
            let (shs, head_end) = spec_headers(s, i)->0;
            let r = spec_headers(s.subrange(d, l), i - d);
            &&& r is Some
            &&& (r->0).1 == head_end - d
            &&& (r->0).0.len() == shs.len()
            &&& forall|k: int| 0 <= k < shs.len() ==> (r->0).0[k] == header_shape_shifted(
                #[trigger] shs[k],
                0 - d,
            )
        }),
    decreases s.len() - i,
{
    let t = s.subrange(d, l);
    let (shs, head_end) = spec_headers(s, i)->0;
    lemma_spec_headers_bounds(s, i);
    if spec_crlf_at(s, i) {
        assert(t[i - d] == s[i] && t[i + 1 - d] == s[i + 1]);
        assert(spec_crlf_at(t, i - d));
    } else {
        let h = spec_header_line(s, i)->0;
        lemma_header_line_shape_wf(s, i);
        lemma_spec_headers_bounds(s, h.line_end);
        assert(h.line_end + 2 <= head_end);
        assert(t[i - d] == s[i] && t[i + 1 - d] == s[i + 1]);
        assert(!spec_crlf_at(t, i - d));
        lemma_header_line_localized(s, d, l, i);
        lemma_headers_localized(s, d, l, h.line_end);
        let (rest, _) = spec_headers(s, h.line_end)->0;
        assert(shs == seq![h] + rest);
        let r = spec_headers(t, i - d);
        let (tshs, _) = r->0;
        let (trest, _) = spec_headers(t, h.line_end - d)->0;
        assert(tshs == seq![header_shape_shifted(h, 0 - d)] + trest);
        assert forall|k: int| 0 <= k < shs.len() implies tshs[k] == header_shape_shifted(
            #[trigger] shs[k],
            0 - d,
        ) by {
            if k == 0 {
                assert(shs[0] == h && tshs[0] == header_shape_shifted(h, 0 - d));
            } else {
                assert(shs[k] == rest[k - 1] && tshs[k] == trest[k - 1]);
            }
        }
    }
}

/// Looking a header name up among shapes shifted into a window of the
/// source sees exactly the same name and value bytes.
proof fn lemma_named_localized(
    s: Seq<u8>,
    d: int,
    l: int,
    hs: Seq<HeaderShape>,
    hs2: Seq<HeaderShape>,
    name: Seq<u8>,
)
    requires
        0 <= d <= l <= s.len(),
        hs2.len() == hs.len(),
        forall|k: int| 0 <= k < hs.len() ==> #[trigger] hs2[k] == header_shape_shifted(
            hs[k],
            0 - d,
        ),
        forall|k: int| 0 <= k < hs.len() ==> {
            &&& d <= (#[trigger] hs[k]).name_start <= hs[k].name_end <= l
            &&& d <= hs[k].value_start <= hs[k].value_end <= l
        },
    ensures
        has_named_header(s.subrange(d, l), hs2, name) == has_named_header(s, hs, name),
        first_named_idx(s.subrange(d, l), hs2, name) == first_named_idx(s, hs, name),
        forall|k: int| 0 <= k < hs.len() ==> shape_value_bytes(
            s.subrange(d, l),
            #[trigger] hs2[k],
        ) == shape_value_bytes(s, hs[k]),
        forall|k: int| 0 <= k < hs.len() ==> shape_name_bytes(
            s.subrange(d, l),
            #[trigger] hs2[k],
        ) == shape_name_bytes(s, hs[k]),
    decreases hs.len(),
{
    let t = s.subrange(d, l);
    assert forall|k: int| 0 <= k < hs.len() implies shape_name_bytes(t, #[trigger] hs2[k])
        == shape_name_bytes(s, hs[k]) && shape_value_bytes(t, hs2[k]) == shape_value_bytes(
        s,
        hs[k],
    ) by {
        assert(t.subrange(hs[k].name_start - d, hs[k].name_end - d) =~= s.subrange(
            hs[k].name_start,
            hs[k].name_end,
        ));
        assert(t.subrange(hs[k].value_start - d, hs[k].value_end - d) =~= s.subrange(
            hs[k].value_start,
            hs[k].value_end,
        ));
    }
    if hs.len() > 0 {
        let r1 = hs.drop_first();
        let r2 = hs2.drop_first();
        assert(forall|k: int| 0 <= k < r1.len() ==> #[trigger] r1[k] == hs[k + 1]);
        assert(forall|k: int| 0 <= k < r2.len() ==> #[trigger] r2[k] == hs2[k + 1]);
        lemma_named_localized(s, d, l, r1, r2, name);
        assert(shape_name_bytes(t, hs2[0]) == shape_name_bytes(s, hs[0]));
        if has_named_header(s, hs, name) {
            let w = choose|k: int|
                0 <= k < hs.len() && lower_bytes(shape_name_bytes(s, #[trigger] hs[k])) == name;
            if w > 0 {
                assert(r1[w - 1] == hs[w]);
                assert(has_named_header(s, r1, name));
            }
        }
        if has_named_header(t, hs2, name) {
            let w = choose|k: int|
                0 <= k < hs2.len() && lower_bytes(shape_name_bytes(t, #[trigger] hs2[k]))
                    == name;
            if w > 0 {
                assert(r2[w - 1] == hs2[w]);
                assert(has_named_header(t, r2, name));
            } else {
                assert(lower_bytes(shape_name_bytes(s, hs[0])) == name);
            }
        }
        if has_named_header(s, r1, name) {
            let w = choose|k: int|
                0 <= k < r1.len() && lower_bytes(shape_name_bytes(s, #[trigger] r1[k])) == name;
            assert(hs[w + 1] == r1[w]);
        }
        if has_named_header(t, r2, name) {
            let w = choose|k: int|
                0 <= k < r2.len() && lower_bytes(shape_name_bytes(t, #[trigger] r2[k])) == name;
            assert(hs2[w + 1] == r2[w]);
        }
    }
}

/// Parsing the exact byte range of a parsed request yields the same
/// message, anchored at the start of the window: the head has the same
/// shifted shape, the same headers, and the same body length.
pub proof fn lemma_reparse_request(s: Seq<u8>, offset: int)
    requires
        0 <= offset,
        spec_request(s, offset) is Ok,
    ensures
        ({
            let sh = spec_request(s, offset)->Ok_0;
            let r = spec_request(s.subrange(offset, sh.end), 0);
            &&& r is Ok
            &&& r->Ok_0.end == sh.end - offset
            &&& r->Ok_0.head_end == sh.head_end - offset
            &&& r->Ok_0.body_len == sh.body_len
            &&& r->Ok_0.headers.len() == sh.headers.len()
            &&& forall|k: int| 0 <= k < sh.headers.len() ==> r->Ok_0.headers[k]
                == header_shape_shifted(#[trigger] sh.headers[k], 0 - offset)
        }),
{
    let sh = spec_request(s, offset)->Ok_0;
    let d = offset;
    let l = sh.end;
    let t = s.subrange(d, l);
    lemma_spec_headers_bounds(s, sh.line.line_end);
    lemma_request_body_len_nonneg(s, sh.headers);
    assert(sh.head_end <= l <= s.len());
    lemma_request_line_localized(s, d, l, offset);
    lemma_headers_localized(s, d, l, sh.line.line_end);
    let (tshs, _) = spec_headers(t, sh.line.line_end - d)->0;
    lemma_headers_shapes(s, sh.line.line_end);
    assert forall|k: int| 0 <= k < sh.headers.len() implies {
        &&& d <= (#[trigger] sh.headers[k]).name_start <= sh.headers[k].name_end <= l
        &&& d <= sh.headers[k].value_start <= sh.headers[k].value_end <= l
    } by {
        lemma_header_line_shape_wf(s, sh.headers[k].name_start);
    }
    lemma_named_localized(s, d, l, sh.headers, tshs, te_name());
    lemma_named_localized(s, d, l, sh.headers, tshs, cl_name());
    lemma_first_named_idx(s, sh.headers, cl_name());
    lemma_first_named_idx(t, tshs, cl_name());
    assert(spec_request_body_len(t, tshs) == spec_request_body_len(s, sh.headers)) by {
        if has_named_header(s, sh.headers, cl_name()) && !has_named_header(
            s,
            sh.headers,
            te_name(),
        ) {
            let f = first_named_idx(s, sh.headers, cl_name());
            assert(shape_value_bytes(t, tshs[f]) == shape_value_bytes(s, sh.headers[f]));
        }
    }
}

/// Parsing the exact byte range of a parsed response yields the same
/// message, anchored at the start of the window: the head has the same
/// shifted shape, the same headers, and the same body length.
pub proof fn lemma_reparse_response(s: Seq<u8>, offset: int)
    requires
        0 <= offset,
        spec_response(s, offset) is Ok,
    ensures
        ({
            let sh = spec_response(s, offset)->Ok_0;
            let r = spec_response(s.subrange(offset, sh.end), 0);
            &&& r is Ok
            &&& r->Ok_0.end == sh.end - offset
            &&& r->Ok_0.head_end == sh.head_end - offset
            &&& r->Ok_0.body_len == sh.body_len
            &&& r->Ok_0.headers.len() == sh.headers.len()
            &&& forall|k: int| 0 <= k < sh.headers.len() ==> r->Ok_0.headers[k]
                == header_shape_shifted(#[trigger] sh.headers[k], 0 - offset)
        }),
{
    let sh = spec_response(s, offset)->Ok_0;
    let d = offset;
    let l = sh.end;
    let t = s.subrange(d, l);
    lemma_spec_headers_bounds(s, sh.line.line_end);
    lemma_response_body_len_nonneg(s, spec_code_val(s, sh.line), sh.headers);
    assert(sh.head_end <= l <= s.len());
    if !spec_crlf_at(s, sh.line.start + 12) {
        lemma_scan(s, sh.line.start + 13, ByteClass::Reason);
    }
    assert(sh.line.line_end > offset);
    lemma_status_line_localized(s, d, l, offset);
    lemma_headers_localized(s, d, l, sh.line.line_end);
    let (tshs, _) = spec_headers(t, sh.line.line_end - d)->0;
    lemma_headers_shapes(s, sh.line.line_end);
    assert forall|k: int| 0 <= k < sh.headers.len() implies {
        &&& d <= (#[trigger] sh.headers[k]).name_start <= sh.headers[k].name_end <= l
        &&& d <= sh.headers[k].value_start <= sh.headers[k].value_end <= l
    } by {
        lemma_header_line_shape_wf(s, sh.headers[k].name_start);
    }
    lemma_named_localized(s, d, l, sh.headers, tshs, te_name());
    lemma_named_localized(s, d, l, sh.headers, tshs, cl_name());
    assert(spec_code_val(t, spec_status_line(t, 0)->0) == spec_code_val(s, sh.line)) by {
        assert(t.subrange(sh.line.code_start - d, sh.line.code_end - d) =~= s.subrange(
            sh.line.code_start,
            sh.line.code_end,
        ));
    }
    lemma_first_named_idx(s, sh.headers, cl_name());
    lemma_first_named_idx(t, tshs, cl_name());
    assert(spec_response_body_len(t, spec_code_val(t, spec_status_line(t, 0)->0), tshs)
        == spec_response_body_len(s, spec_code_val(s, sh.line), sh.headers)) by {
        if has_named_header(s, sh.headers, cl_name()) && !has_named_header(
            s,
            sh.headers,
            te_name(),
        ) {
            let f = first_named_idx(s, sh.headers, cl_name());
            assert(shape_value_bytes(t, tshs[f]) == shape_value_bytes(s, sh.headers[f]));
        }
    }
}

} // verus!
