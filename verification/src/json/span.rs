//! The JSON grammar and the recursive-descent span parser.
//!
//! The grammar is that of JSON (RFC 8259): a single value — object,
//! array, string, number, boolean or null — with insignificant
//! whitespace (space, tab, CR, LF) around values, separators and the
//! document. Strings admit the usual escapes (`\" \\ \/ \b \f \n \r \t`
//! and `\u` with four hex digits) and any other byte from space upward;
//! numbers admit no leading zeros, require a digit after the decimal
//! point and in the exponent. The parser produces spans only: it never
//! unescapes strings nor evaluates numbers.

use vstd::prelude::*;

verus! {

use crate::{Span, ParseError, ErrorKind};
use crate::buffer::{bytes_view, bytes_as_slice, bytes_copy_from_slice, check_utf8};
use crate::helpers::{
    ByteClass, byte_in_class, in_class, spec_scan, lemma_scan, lemma_scan_localized, scan_from,
    lemma_utf8_subrange,
};
use crate::json::types::{Array, Bool, JsonKey, JsonValue, KeyValue, Null, Number, Object, String};
use vstd::utf8::valid_utf8;
use vstd::string::StringSliceAdditionalSpecFns;

/// The position of the first non-whitespace byte at or after `i`.
pub open spec fn skip_ws(s: Seq<u8>, i: int) -> int {
    spec_scan(s, i, ByteClass::Ws)
}

/// The byte is one of the single-character string escapes.
pub open spec fn is_simple_escape(b: u8) -> bool {
    b == 34 || b == 92 || b == 47 || b == 98 || b == 102 || b == 110 || b == 114 || b == 116
}

/// The position of the closing quote of a string whose content begins
/// at `i`, if the content is well formed.
pub open spec fn spec_string_end(s: Seq<u8>, i: int) -> Option<int>
    decreases s.len() - i,
{
    if i < 0 || i >= s.len() {
        None
    } else if s[i] == 34 {
        Some(i)
    } else if s[i] == 92 {
        if i + 2 <= s.len() && is_simple_escape(s[i + 1]) {
            spec_string_end(s, i + 2)
        } else if i + 6 <= s.len() && s[i + 1] == 117 && byte_in_class(ByteClass::Hex, s[i + 2])
            && byte_in_class(ByteClass::Hex, s[i + 3]) && byte_in_class(ByteClass::Hex, s[i + 4])
            && byte_in_class(ByteClass::Hex, s[i + 5]) {
            spec_string_end(s, i + 6)
        } else {
            None
        }
    } else if 0x20 <= s[i] {
        spec_string_end(s, i + 1)
    } else {
        None
    }
}

/// The position one past a number that begins at `i`, if a well-formed
/// number begins there.
pub open spec fn spec_number_end(s: Seq<u8>, i: int) -> Option<int> {
    let j = if 0 <= i < s.len() && s[i] == 45 {
        i + 1
    } else {
        i
    };
    if 0 <= j < s.len() && byte_in_class(ByteClass::Digit, s[j]) {
        let int_end = if s[j] == 48 {
            j + 1
        } else {
            spec_scan(s, j, ByteClass::Digit)
        };
        let frac_end = if int_end < s.len() && s[int_end] == 46 {
            let d = spec_scan(s, int_end + 1, ByteClass::Digit);
            if d > int_end + 1 {
                d
            } else {
                -1
            }
        } else {
            int_end
        };
        if frac_end < 0 {
            None
        } else {
            let exp_end = if frac_end < s.len() && (s[frac_end] == 101 || s[frac_end] == 69) {
                let es = if frac_end + 1 < s.len() && (s[frac_end + 1] == 43 || s[frac_end + 1]
                    == 45) {
                    frac_end + 2
                } else {
                    frac_end + 1
                };
                let d = spec_scan(s, es, ByteClass::Digit);
                if d > es {
                    d
                } else {
                    -1
                }
            } else {
                frac_end
            };
            if exp_end < 0 {
                None
            } else {
                Some(exp_end)
            }
        }
    } else {
        None
    }
}

/// The shape of a parsed JSON value within the source bytes.
///
/// For strings the range is the content, quotes excluded; for arrays
/// and objects it runs from the opening to the closing delimiter
/// inclusive; for the other kinds it is the exact token.
pub ghost enum JShape {
    /// A null token.
    Null { start: int, end: int },
    /// A boolean token.
    Bool { start: int, end: int },
    /// A number token.
    Number { start: int, end: int },
    /// A string's content, quotes excluded.
    String { start: int, end: int },
    /// An array with its element shapes.
    Array { start: int, end: int, elems: Seq<JShape> },
    /// An object with its member shapes.
    Object { start: int, end: int, elems: Seq<JPairShape> },
}

/// The shape of one key-value pair of an object: from the opening quote
/// of the key through the end of the value.
pub ghost struct JPairShape {
    /// Where the pair (the key's opening quote) begins.
    pub start: int,
    /// One past the end of the value.
    pub end: int,
    /// Where the key content begins, after the quote.
    pub key_start: int,
    /// Where the key content ends, at the closing quote.
    pub key_end: int,
    /// The value of the pair.
    pub value: JShape,
}

/// Parses one JSON value whose first byte is at `i` (no leading
/// whitespace), returning its shape and the position one past it.
pub open spec fn spec_json_value(s: Seq<u8>, i: int) -> Option<(JShape, int)>
    decreases s.len() - i, 0int,
{
    if i < 0 || i >= s.len() {
        None
    } else if s[i] == 110 {
        if i + 4 <= s.len() && s[i + 1] == 117 && s[i + 2] == 108 && s[i + 3] == 108 {
            Some((JShape::Null { start: i, end: i + 4 }, i + 4))
        } else {
            None
        }
    } else if s[i] == 116 {
        if i + 4 <= s.len() && s[i + 1] == 114 && s[i + 2] == 117 && s[i + 3] == 101 {
            Some((JShape::Bool { start: i, end: i + 4 }, i + 4))
        } else {
            None
        }
    } else if s[i] == 102 {
        if i + 5 <= s.len() && s[i + 1] == 97 && s[i + 2] == 108 && s[i + 3] == 115 && s[i + 4]
            == 101 {
            Some((JShape::Bool { start: i, end: i + 5 }, i + 5))
        } else {
            None
        }
    } else if s[i] == 34 {
        match spec_string_end(s, i + 1) {
            Option::None => None,
            Option::Some(q) => Some((JShape::String { start: i + 1, end: q }, q + 1)),
        }
    } else if s[i] == 45 || byte_in_class(ByteClass::Digit, s[i]) {
        match spec_number_end(s, i) {
            Option::None => None,
            Option::Some(e) => Some((JShape::Number { start: i, end: e }, e)),
        }
    } else if s[i] == 123 {
        match spec_members(s, i + 1) {
            Option::None => None,
            Option::Some((elems, close)) => Some(
                (JShape::Object { start: i, end: close + 1, elems }, close + 1),
            ),
        }
    } else if s[i] == 91 {
        match spec_elems(s, i + 1) {
            Option::None => None,
            Option::Some((elems, close)) => Some(
                (JShape::Array { start: i, end: close + 1, elems }, close + 1),
            ),
        }
    } else {
        None
    }
}

/// Parses one `key : value` pair whose key's opening quote is at `i`,
/// returning its shape and the position one past the value.
pub open spec fn spec_pair(s: Seq<u8>, i: int) -> Option<(JPairShape, int)>
    decreases s.len() - i, 1int,
{
    if 0 <= i < s.len() && s[i] == 34 {
        match spec_string_end(s, i + 1) {
            Option::None => None,
            Option::Some(q) => {
                let c = skip_ws(s, q + 1);
                if c < s.len() && s[c] == 58 {
                    let v = skip_ws(s, c + 1);
                    if i < v <= s.len() {
                        match spec_json_value(s, v) {
                            Option::None => None,
                            Option::Some((val, e)) => Some(
                                (
                                    JPairShape {
                                        start: i,
                                        end: e,
                                        key_start: i + 1,
                                        key_end: q,
                                        value: val,
                                    },
                                    e,
                                ),
                            ),
                        }
                    } else {
                        None
                    }
                } else {
                    None
                }
            },
        }
    } else {
        None
    }
}

/// Parses the members of an object from just after the opening brace,
/// returning the pairs and the position of the closing brace.
pub open spec fn spec_members(s: Seq<u8>, i: int) -> Option<(Seq<JPairShape>, int)>
    decreases s.len() - i, 2int,
{
    if i < 0 || i > s.len() {
        None
    } else {
        let j = skip_ws(s, i);
        if !(i <= j <= s.len()) {
            None
        } else if j < s.len() && s[j] == 125 {
            Some((Seq::empty(), j))
        } else {
            match spec_pair(s, j) {
                Option::None => None,
                Option::Some((p, k)) => if i < k <= s.len() {
                    match spec_members_tail(s, k) {
                        Option::None => None,
                        Option::Some((rest, close)) => Some((seq![p] + rest, close)),
                    }
                } else {
                    None
                },
            }
        }
    }
}

/// Parses what follows a member of an object: a comma and another
/// member, or the closing brace.
pub open spec fn spec_members_tail(s: Seq<u8>, i: int) -> Option<(Seq<JPairShape>, int)>
    decreases s.len() - i, 2int,
{
    if i < 0 || i > s.len() {
        None
    } else {
        let j = skip_ws(s, i);
        if !(i <= j <= s.len()) {
            None
        } else if j < s.len() && s[j] == 125 {
            Some((Seq::empty(), j))
        } else if j < s.len() && s[j] == 44 {
            let p_start = skip_ws(s, j + 1);
            if !(i < p_start <= s.len()) {
                None
            } else {
            match spec_pair(s, p_start) {
                Option::None => None,
                Option::Some((p, k)) => if i < k <= s.len() {
                    match spec_members_tail(s, k) {
                        Option::None => None,
                        Option::Some((rest, close)) => Some((seq![p] + rest, close)),
                    }
                } else {
                    None
                },
            }
            }
        } else {
            None
        }
    }
}

/// Parses the elements of an array from just after the opening bracket,
/// returning the values and the position of the closing bracket.
pub open spec fn spec_elems(s: Seq<u8>, i: int) -> Option<(Seq<JShape>, int)>
    decreases s.len() - i, 2int,
{
    if i < 0 || i > s.len() {
        None
    } else {
        let j = skip_ws(s, i);
        if !(i <= j <= s.len()) {
            None
        } else if j < s.len() && s[j] == 93 {
            Some((Seq::empty(), j))
        } else {
            match spec_json_value(s, j) {
                Option::None => None,
                Option::Some((v, k)) => if i < k <= s.len() {
                    match spec_elems_tail(s, k) {
                        Option::None => None,
                        Option::Some((rest, close)) => Some((seq![v] + rest, close)),
                    }
                } else {
                    None
                },
            }
        }
    }
}

/// Parses what follows an element of an array: a comma and another
/// element, or the closing bracket.
pub open spec fn spec_elems_tail(s: Seq<u8>, i: int) -> Option<(Seq<JShape>, int)>
    decreases s.len() - i, 2int,
{
    if i < 0 || i > s.len() {
        None
    } else {
        let j = skip_ws(s, i);
        if !(i <= j <= s.len()) {
            None
        } else if j < s.len() && s[j] == 93 {
            Some((Seq::empty(), j))
        } else if j < s.len() && s[j] == 44 {
            let v_start = skip_ws(s, j + 1);
            if !(i < v_start <= s.len()) {
                None
            } else {
            match spec_json_value(s, v_start) {
                Option::None => None,
                Option::Some((v, k)) => if i < k <= s.len() {
                    match spec_elems_tail(s, k) {
                        Option::None => None,
                        Option::Some((rest, close)) => Some((seq![v] + rest, close)),
                    }
                } else {
                    None
                },
            }
            }
        } else {
            None
        }
    }
}

/// Parses a whole document: insignificant whitespace around exactly one
/// JSON value, and nothing else.
pub open spec fn spec_json_doc(s: Seq<u8>) -> Option<JShape> {
    let i = skip_ws(s, 0);
    match spec_json_value(s, i) {
        Option::None => None,
        Option::Some((sh, e)) => if skip_ws(s, e) == s.len() {
            Some(sh)
        } else {
            None
        },
    }
}

/// The value's spans reference exactly the ranges of the shape.
pub open spec fn jvalue_matches(v: JsonValue, s: Seq<u8>, sh: JShape) -> bool
    decreases sh,
{
    match sh {
        JShape::Null { start, end } => v is Null && v->Null_0.0.is_slice_of(s, start, end),
        JShape::Bool { start, end } => v is Bool && v->Bool_0.0.is_slice_of(s, start, end),
        JShape::Number { start, end } => v is Number && v->Number_0.0.is_slice_of(s, start, end),
        JShape::String { start, end } => v is String && v->String_0.0.is_slice_of(s, start, end),
        JShape::Array { start, end, elems } => {
            &&& v is Array
            &&& v->Array_0.span.is_slice_of(s, start, end)
            &&& v->Array_0.elems@.len() == elems.len()
            &&& forall|k: int| 0 <= k < elems.len() ==> jvalue_matches(
                #[trigger] v->Array_0.elems@[k],
                s,
                elems[k],
            )
        },
        JShape::Object { start, end, elems } => {
            &&& v is Object
            &&& v->Object_0.span.is_slice_of(s, start, end)
            &&& v->Object_0.elems@.len() == elems.len()
            &&& forall|k: int| 0 <= k < elems.len() ==> jpair_matches(
                #[trigger] v->Object_0.elems@[k],
                s,
                elems[k],
            )
        },
    }
}

/// The pair's spans reference exactly the ranges of the shape.
pub open spec fn jpair_matches(kv: KeyValue, s: Seq<u8>, sh: JPairShape) -> bool
    decreases sh,
{
    &&& kv.span.is_slice_of(s, sh.start, sh.end)
    &&& kv.key.0.is_slice_of(s, sh.key_start, sh.key_end)
    &&& jvalue_matches(kv.value, s, sh.value)
}

/// Finds the closing quote of a string whose content begins at `i`.
fn parse_string_end(s: &[u8], i: usize) -> (r: Option<usize>)
    requires
        i <= s@.len(),
    ensures
        match r {
            Some(q) => spec_string_end(s@, i as int) == Some(q as int) && i <= q < s@.len()
                && s@[q as int] == 34,
            None => spec_string_end(s@, i as int) is None,
        },
{
    let n = s.len();
    let mut cur = i;
    while cur < n
        invariant
            i <= cur <= n == s@.len(),
            spec_string_end(s@, i as int) == spec_string_end(s@, cur as int),
        decreases n - cur,
    {
        let b = s[cur];
        if b == 34 {
            return Some(cur);
        }
        if b == 92 {
            if n - cur < 2 {
                return None;
            }
            let eb = s[cur + 1];
            if eb == 34 || eb == 92 || eb == 47 || eb == 98 || eb == 102 || eb == 110 || eb == 114
                || eb == 116 {
                proof {
                    assert(spec_string_end(s@, cur as int) == spec_string_end(s@, cur + 2));
                }
                cur = cur + 2;
            } else if eb == 117 {
                if n - cur < 6 {
                    return None;
                }
                if in_class(ByteClass::Hex, s[cur + 2]) && in_class(ByteClass::Hex, s[cur + 3])
                    && in_class(ByteClass::Hex, s[cur + 4]) && in_class(
                    ByteClass::Hex,
                    s[cur + 5],
                ) {
                    proof {
                        assert(spec_string_end(s@, cur as int) == spec_string_end(s@, cur + 6));
                    }
                    cur = cur + 6;
                } else {
                    return None;
                }
            } else {
                return None;
            }
        } else if b >= 0x20 {
            proof {
                assert(spec_string_end(s@, cur as int) == spec_string_end(s@, cur + 1));
            }
            cur = cur + 1;
        } else {
            return None;
        }
    }
    None
}

/// Finds the end of a number that begins at `i`.
fn parse_number_end(s: &[u8], i: usize) -> (r: Option<usize>)
    requires
        i <= s@.len(),
    ensures
        match r {
            Some(e) => spec_number_end(s@, i as int) == Some(e as int) && i < e <= s@.len()
                && byte_in_class(ByteClass::Digit, s@[e - 1]),
            None => spec_number_end(s@, i as int) is None,
        },
{
    let n = s.len();
    let j = if i < n && s[i] == 45 {
        i + 1
    } else {
        i
    };
    if j >= n {
        return None;
    }
    let b0 = s[j];
    if !(48 <= b0 && b0 <= 57) {
        return None;
    }
    proof {
        lemma_scan(s@, j as int, ByteClass::Digit);
    }
    let int_end = if b0 == 48 {
        j + 1
    } else {
        scan_from(s, j, ByteClass::Digit)
    };
    let mut end = int_end;
    if int_end < n && s[int_end] == 46 {
        proof {
            lemma_scan(s@, int_end + 1, ByteClass::Digit);
        }
        let d = scan_from(s, int_end + 1, ByteClass::Digit);
        if d > int_end + 1 {
            end = d;
        } else {
            return None;
        }
    }
    if end < n && (s[end] == 101 || s[end] == 69) {
        let es = if end + 1 < n && (s[end + 1] == 43 || s[end + 1] == 45) {
            end + 2
        } else {
            end + 1
        };
        proof {
            lemma_scan(s@, es as int, ByteClass::Digit);
        }
        let d = scan_from(s, es, ByteClass::Digit);
        if d > es {
            end = d;
        } else {
            return None;
        }
    }
    Some(end)
}

/// Parses one JSON value whose first byte is at `i`, building its span
/// tree.
fn parse_value_at(src: &bytes::Bytes, s: &[u8], i: usize) -> (r: Result<(JsonValue, usize), usize>)
    requires
        s@ == bytes_view(*src),
        i <= s@.len(),
        valid_utf8(s@),
    ensures
        match r {
            Ok((v, e)) => {
                &&& spec_json_value(s@, i as int) is Some
                &&& (spec_json_value(s@, i as int)->0).1 == e as int
                &&& jvalue_matches(v, s@, (spec_json_value(s@, i as int)->0).0)
                &&& v.wf()
                &&& i < e <= s@.len()
                &&& s@[e - 1] < 128
            },
            Err(off) => spec_json_value(s@, i as int) is None && off <= s@.len(),
        },
    decreases s@.len() - i, 0int,
{
    let n = s.len();
    if i >= n {
        return Err(i);
    }
    let b = s[i];
    if b == 110 {
        if n - i >= 4 && s[i + 1] == 117 && s[i + 2] == 108 && s[i + 3] == 108 {
            proof {
                lemma_utf8_subrange(s@, i as int, i + 4);
            }
            let sp = Span::new_str(src, i, i + 4);
            Ok((JsonValue::Null(Null(sp)), i + 4))
        } else {
            Err(i)
        }
    } else if b == 116 {
        if n - i >= 4 && s[i + 1] == 114 && s[i + 2] == 117 && s[i + 3] == 101 {
            proof {
                lemma_utf8_subrange(s@, i as int, i + 4);
            }
            let sp = Span::new_str(src, i, i + 4);
            Ok((JsonValue::Bool(Bool(sp)), i + 4))
        } else {
            Err(i)
        }
    } else if b == 102 {
        if n - i >= 5 && s[i + 1] == 97 && s[i + 2] == 108 && s[i + 3] == 115 && s[i + 4] == 101 {
            proof {
                lemma_utf8_subrange(s@, i as int, i + 5);
            }
            let sp = Span::new_str(src, i, i + 5);
            Ok((JsonValue::Bool(Bool(sp)), i + 5))
        } else {
            Err(i)
        }
    } else if b == 34 {
        match parse_string_end(s, i + 1) {
            Option::Some(q) => {
                proof {
                    lemma_utf8_subrange(s@, i + 1, q as int);
                }
                let sp = Span::new_str(src, i + 1, q);
                Ok((JsonValue::String(String(sp)), q + 1))
            },
            Option::None => Err(i),
        }
    } else if b == 45 || (48 <= b && b <= 57) {
        match parse_number_end(s, i) {
            Option::Some(e) => {
                proof {
                    lemma_utf8_subrange(s@, i as int, e as int);
                }
                let sp = Span::new_str(src, i, e);
                Ok((JsonValue::Number(Number(sp)), e))
            },
            Option::None => Err(i),
        }
    } else if b == 123 {
        match parse_members_at(src, s, i + 1) {
            Ok((elems, close)) => {
                proof {
                    lemma_utf8_subrange(s@, i as int, close + 1);
                }
                let sp = Span::new_str(src, i, close + 1);
                Ok((JsonValue::Object(Object { span: sp, elems }), close + 1))
            },
            Err(off) => Err(off),
        }
    } else if b == 91 {
        match parse_elems_at(src, s, i + 1) {
            Ok((elems, close)) => {
                proof {
                    lemma_utf8_subrange(s@, i as int, close + 1);
                }
                let sp = Span::new_str(src, i, close + 1);
                Ok((JsonValue::Array(Array { span: sp, elems }), close + 1))
            },
            Err(off) => Err(off),
        }
    } else {
        Err(i)
    }
}

/// Parses one `key : value` pair whose key's opening quote is at `i`.
fn parse_pair_at(src: &bytes::Bytes, s: &[u8], i: usize) -> (r: Result<(KeyValue, usize), usize>)
    requires
        s@ == bytes_view(*src),
        i <= s@.len(),
        valid_utf8(s@),
    ensures
        match r {
            Ok((kv, e)) => {
                &&& spec_pair(s@, i as int) is Some
                &&& (spec_pair(s@, i as int)->0).1 == e as int
                &&& jpair_matches(kv, s@, (spec_pair(s@, i as int)->0).0)
                &&& kv.wf_kv()
                &&& i < e <= s@.len()
                &&& s@[e - 1] < 128
            },
            Err(off) => spec_pair(s@, i as int) is None && off <= s@.len(),
        },
    decreases s@.len() - i, 1int,
{
    let n = s.len();
    if i >= n || s[i] != 34 {
        return Err(i);
    }
    let q = match parse_string_end(s, i + 1) {
        Option::Some(q) => q,
        Option::None => {
            return Err(i);
        },
    };
    proof {
        lemma_scan(s@, q + 1, ByteClass::Ws);
    }
    let c = scan_from(s, q + 1, ByteClass::Ws);
    if !(c < n && s[c] == 58) {
        return Err(c);
    }
    proof {
        lemma_scan(s@, c + 1, ByteClass::Ws);
    }
    let v = scan_from(s, c + 1, ByteClass::Ws);
    match parse_value_at(src, s, v) {
        Ok((val, e)) => {
            proof {
                lemma_utf8_subrange(s@, i + 1, q as int);
                lemma_utf8_subrange(s@, i as int, e as int);
            }
            let key_sp = Span::new_str(src, i + 1, q);
            let pair_sp = Span::new_str(src, i, e);
            Ok((KeyValue { span: pair_sp, key: JsonKey(key_sp), value: val }, e))
        },
        Err(off) => Err(off),
    }
}

/// Parses the members of an object from just after the opening brace.
fn parse_members_at(src: &bytes::Bytes, s: &[u8], i: usize) -> (r: Result<
    (Vec<KeyValue>, usize),
    usize,
>)
    requires
        s@ == bytes_view(*src),
        i <= s@.len(),
        valid_utf8(s@),
    ensures
        match r {
            Ok((elems, close)) => {
                &&& spec_members(s@, i as int) is Some
                &&& (spec_members(s@, i as int)->0).1 == close as int
                &&& elems@.len() == (spec_members(s@, i as int)->0).0.len()
                &&& forall|k: int| 0 <= k < elems@.len() ==> jpair_matches(
                    #[trigger] elems@[k],
                    s@,
                    (spec_members(s@, i as int)->0).0[k],
                ) && elems@[k].wf_kv()
                &&& i <= close < s@.len()
                &&& s@[close as int] == 125
            },
            Err(off) => spec_members(s@, i as int) is None && off <= s@.len(),
        },
    decreases s@.len() - i, 2int,
{
    let n = s.len();
    proof {
        lemma_scan(s@, i as int, ByteClass::Ws);
    }
    let j = scan_from(s, i, ByteClass::Ws);
    if j < n && s[j] == 125 {
        let elems: Vec<KeyValue> = Vec::new();
        return Ok((elems, j));
    }
    match parse_pair_at(src, s, j) {
        Err(off) => Err(off),
        Ok((p, k)) => {
            let ghost psh = (spec_pair(s@, j as int)->0).0;
            match parse_members_tail_at(src, s, k) {
                Err(off) => Err(off),
                Ok((rest, close)) => {
                    let ghost rest0 = rest@;
                    let mut elems: Vec<KeyValue> = Vec::new();
                    elems.push(p);
                    let mut rest = rest;
                    elems.append(&mut rest);
                    proof {
                        assert(elems@ =~= seq![p] + rest0);
                        let shs = (spec_members(s@, i as int)->0).0;
                        let rest_shs = (spec_members_tail(s@, k as int)->0).0;
                        assert(shs =~= seq![psh] + rest_shs);
                        assert forall|x: int| 0 <= x < elems@.len() implies jpair_matches(
                            #[trigger] elems@[x],
                            s@,
                            shs[x],
                        ) && elems@[x].wf_kv() by {
                            if x == 0 {
                                assert(elems@[0] == p && shs[0] == psh);
                            } else {
                                assert(elems@[x] == rest0[x - 1] && shs[x] == rest_shs[x - 1]);
                            }
                        }
                    }
                    Ok((elems, close))
                },
            }
        },
    }
}

/// Parses what follows a member of an object: a comma and another
/// member, or the closing brace.
fn parse_members_tail_at(src: &bytes::Bytes, s: &[u8], i: usize) -> (r: Result<
    (Vec<KeyValue>, usize),
    usize,
>)
    requires
        s@ == bytes_view(*src),
        i <= s@.len(),
        valid_utf8(s@),
    ensures
        match r {
            Ok((elems, close)) => {
                &&& spec_members_tail(s@, i as int) is Some
                &&& (spec_members_tail(s@, i as int)->0).1 == close as int
                &&& elems@.len() == (spec_members_tail(s@, i as int)->0).0.len()
                &&& forall|k: int| 0 <= k < elems@.len() ==> jpair_matches(
                    #[trigger] elems@[k],
                    s@,
                    (spec_members_tail(s@, i as int)->0).0[k],
                ) && elems@[k].wf_kv()
                &&& i <= close < s@.len()
                &&& s@[close as int] == 125
            },
            Err(off) => spec_members_tail(s@, i as int) is None && off <= s@.len(),
        },
    decreases s@.len() - i, 2int,
{
    let n = s.len();
    proof {
        lemma_scan(s@, i as int, ByteClass::Ws);
    }
    let j = scan_from(s, i, ByteClass::Ws);
    if j < n && s[j] == 125 {
        let elems: Vec<KeyValue> = Vec::new();
        return Ok((elems, j));
    }
    if !(j < n && s[j] == 44) {
        return Err(j);
    }
    proof {
        lemma_scan(s@, j + 1, ByteClass::Ws);
    }
    let p_start = scan_from(s, j + 1, ByteClass::Ws);
    match parse_pair_at(src, s, p_start) {
        Err(off) => Err(off),
        Ok((p, k)) => {
            let ghost psh = (spec_pair(s@, p_start as int)->0).0;
            match parse_members_tail_at(src, s, k) {
                Err(off) => Err(off),
                Ok((rest, close)) => {
                    let ghost rest0 = rest@;
                    let mut elems: Vec<KeyValue> = Vec::new();
                    elems.push(p);
                    let mut rest = rest;
                    elems.append(&mut rest);
                    proof {
                        assert(elems@ =~= seq![p] + rest0);
                        let shs = (spec_members_tail(s@, i as int)->0).0;
                        let rest_shs = (spec_members_tail(s@, k as int)->0).0;
                        assert(shs =~= seq![psh] + rest_shs);
                        assert forall|x: int| 0 <= x < elems@.len() implies jpair_matches(
                            #[trigger] elems@[x],
                            s@,
                            shs[x],
                        ) && elems@[x].wf_kv() by {
                            if x == 0 {
                                assert(elems@[0] == p && shs[0] == psh);
                            } else {
                                assert(elems@[x] == rest0[x - 1] && shs[x] == rest_shs[x - 1]);
                            }
                        }
                    }
                    Ok((elems, close))
                },
            }
        },
    }
}

/// Parses the elements of an array from just after the opening bracket.
fn parse_elems_at(src: &bytes::Bytes, s: &[u8], i: usize) -> (r: Result<
    (Vec<JsonValue>, usize),
    usize,
>)
    requires
        s@ == bytes_view(*src),
        i <= s@.len(),
        valid_utf8(s@),
    ensures
        match r {
            Ok((elems, close)) => {
                &&& spec_elems(s@, i as int) is Some
                &&& (spec_elems(s@, i as int)->0).1 == close as int
                &&& elems@.len() == (spec_elems(s@, i as int)->0).0.len()
                &&& forall|k: int| 0 <= k < elems@.len() ==> jvalue_matches(
                    #[trigger] elems@[k],
                    s@,
                    (spec_elems(s@, i as int)->0).0[k],
                ) && elems@[k].wf()
                &&& i <= close < s@.len()
                &&& s@[close as int] == 93
            },
            Err(off) => spec_elems(s@, i as int) is None && off <= s@.len(),
        },
    decreases s@.len() - i, 2int,
{
    let n = s.len();
    proof {
        lemma_scan(s@, i as int, ByteClass::Ws);
    }
    let j = scan_from(s, i, ByteClass::Ws);
    if j < n && s[j] == 93 {
        let elems: Vec<JsonValue> = Vec::new();
        return Ok((elems, j));
    }
    match parse_value_at(src, s, j) {
        Err(off) => Err(off),
        Ok((v, k)) => {
            let ghost vsh = (spec_json_value(s@, j as int)->0).0;
            match parse_elems_tail_at(src, s, k) {
                Err(off) => Err(off),
                Ok((rest, close)) => {
                    let ghost rest0 = rest@;
                    let mut elems: Vec<JsonValue> = Vec::new();
                    elems.push(v);
                    let mut rest = rest;
                    elems.append(&mut rest);
                    proof {
                        assert(elems@ =~= seq![v] + rest0);
                        let shs = (spec_elems(s@, i as int)->0).0;
                        let rest_shs = (spec_elems_tail(s@, k as int)->0).0;
                        assert(shs =~= seq![vsh] + rest_shs);
                        assert forall|x: int| 0 <= x < elems@.len() implies jvalue_matches(
                            #[trigger] elems@[x],
                            s@,
                            shs[x],
                        ) && elems@[x].wf() by {
                            if x == 0 {
                                assert(elems@[0] == v && shs[0] == vsh);
                            } else {
                                assert(elems@[x] == rest0[x - 1] && shs[x] == rest_shs[x - 1]);
                            }
                        }
                    }
                    Ok((elems, close))
                },
            }
        },
    }
}

/// Parses what follows an element of an array: a comma and another
/// element, or the closing bracket.
fn parse_elems_tail_at(src: &bytes::Bytes, s: &[u8], i: usize) -> (r: Result<
    (Vec<JsonValue>, usize),
    usize,
>)
    requires
        s@ == bytes_view(*src),
        i <= s@.len(),
        valid_utf8(s@),
    ensures
        match r {
            Ok((elems, close)) => {
                &&& spec_elems_tail(s@, i as int) is Some
                &&& (spec_elems_tail(s@, i as int)->0).1 == close as int
                &&& elems@.len() == (spec_elems_tail(s@, i as int)->0).0.len()
                &&& forall|k: int| 0 <= k < elems@.len() ==> jvalue_matches(
                    #[trigger] elems@[k],
                    s@,
                    (spec_elems_tail(s@, i as int)->0).0[k],
                ) && elems@[k].wf()
                &&& i <= close < s@.len()
                &&& s@[close as int] == 93
            },
            Err(off) => spec_elems_tail(s@, i as int) is None && off <= s@.len(),
        },
    decreases s@.len() - i, 2int,
{
    let n = s.len();
    proof {
        lemma_scan(s@, i as int, ByteClass::Ws);
    }
    let j = scan_from(s, i, ByteClass::Ws);
    if j < n && s[j] == 93 {
        let elems: Vec<JsonValue> = Vec::new();
        return Ok((elems, j));
    }
    if !(j < n && s[j] == 44) {
        return Err(j);
    }
    proof {
        lemma_scan(s@, j + 1, ByteClass::Ws);
    }
    let v_start = scan_from(s, j + 1, ByteClass::Ws);
    match parse_value_at(src, s, v_start) {
        Err(off) => Err(off),
        Ok((v, k)) => {
            let ghost vsh = (spec_json_value(s@, v_start as int)->0).0;
            match parse_elems_tail_at(src, s, k) {
                Err(off) => Err(off),
                Ok((rest, close)) => {
                    let ghost rest0 = rest@;
                    let mut elems: Vec<JsonValue> = Vec::new();
                    elems.push(v);
                    let mut rest = rest;
                    elems.append(&mut rest);
                    proof {
                        assert(elems@ =~= seq![v] + rest0);
                        let shs = (spec_elems_tail(s@, i as int)->0).0;
                        let rest_shs = (spec_elems_tail(s@, k as int)->0).0;
                        assert(shs =~= seq![vsh] + rest_shs);
                        assert forall|x: int| 0 <= x < elems@.len() implies jvalue_matches(
                            #[trigger] elems@[x],
                            s@,
                            shs[x],
                        ) && elems@[x].wf() by {
                            if x == 0 {
                                assert(elems@[0] == v && shs[0] == vsh);
                            } else {
                                assert(elems@[x] == rest0[x - 1] && shs[x] == rest_shs[x - 1]);
                            }
                        }
                    }
                    Ok((elems, close))
                },
            }
        },
    }
}

/// The number of line feeds in the bytes.
pub open spec fn count_nl(a: Seq<u8>) -> int
    decreases a.len(),
{
    if a.len() == 0 {
        0
    } else {
        count_nl(a.drop_last()) + if a.last() == 10 {
            1int
        } else {
            0int
        }
    }
}

/// The position just after the last line feed before `off`, or zero.
pub open spec fn line_start_before(s: Seq<u8>, off: int) -> int
    decreases off,
{
    if off <= 0 {
        0
    } else if s[off - 1] == 10 {
        off
    } else {
        line_start_before(s, off - 1)
    }
}

/// Computes the 1-based line and column of a byte offset.
fn line_col_of(s: &[u8], off: usize) -> (r: (usize, usize))
    requires
        off <= s@.len(),
        off < usize::MAX,
    ensures
        r.0 == 1 + count_nl(s@.subrange(0, off as int)),
        r.1 == off - line_start_before(s@, off as int) + 1,
{
    let mut line: usize = 1;
    let mut ls: usize = 0;
    let mut k: usize = 0;
    proof {
        assert(s@.subrange(0, 0) =~= Seq::<u8>::empty());
    }
    while k < off
        invariant
            0 <= k <= off <= s@.len(),
            off < usize::MAX,
            line == 1 + count_nl(s@.subrange(0, k as int)),
            ls == line_start_before(s@, k as int),
            line <= k + 1,
            ls <= k,
        decreases off - k,
    {
        proof {
            assert(s@.subrange(0, k + 1).drop_last() =~= s@.subrange(0, k as int));
            assert(s@.subrange(0, k + 1).last() == s@[k as int]);
        }
        if s[k] == 10 {
            line = line + 1;
            ls = k + 1;
        }
        k = k + 1;
    }
    (line, off - ls + 1)
}

/// Builds a positioned JSON syntax error for a failure at `off`.
fn json_syntax_error(s: &[u8], off: usize) -> (r: ParseError)
    requires
        off <= s@.len(),
    ensures
        r.kind == ErrorKind::JsonSyntax,
{
    if off < usize::MAX {
        let (line, column) = line_col_of(s, off);
        ParseError { kind: ErrorKind::JsonSyntax, line, column }
    } else {
        ParseError::new(ErrorKind::JsonSyntax)
    }
}

/// Parse a JSON value from source bytes containing JSON text.
///
/// The source must be valid UTF-8 holding exactly one JSON value,
/// surrounded by insignificant whitespace only; every span of the
/// returned tree references its exact byte range in the source.
pub fn parse(src: bytes::Bytes) -> (r: Result<JsonValue, ParseError>)
    ensures
        ({
            let s = bytes_view(src);
            match r {
                Ok(v) => {
                    &&& valid_utf8(s)
                    &&& spec_json_doc(s) is Some
                    &&& v.wf()
                    &&& jvalue_matches(v, s, spec_json_doc(s)->0)
                },
                Err(e) => {
                    ||| (!valid_utf8(s) && e.kind == ErrorKind::InvalidUtf8)
                    ||| (valid_utf8(s) && spec_json_doc(s) is None && e.kind
                        == ErrorKind::JsonSyntax)
                },
            }
        }),
{
    let s = bytes_as_slice(&src);
    if !check_utf8(s) {
        return Err(ParseError::new(ErrorKind::InvalidUtf8));
    }
    proof {
        lemma_scan(s@, 0, ByteClass::Ws);
    }
    let i = scan_from(s, 0, ByteClass::Ws);
    match parse_value_at(&src, s, i) {
        Err(off) => Err(json_syntax_error(s, off)),
        Ok((v, e)) => {
            proof {
                lemma_scan(s@, e as int, ByteClass::Ws);
            }
            let t = scan_from(s, e, ByteClass::Ws);
            if t == s.len() {
                Ok(v)
            } else {
                Err(json_syntax_error(s, t))
            }
        },
    }
}

/// Parse a JSON value from a byte slice containing JSON text.
pub fn parse_slice(src: &[u8]) -> (r: Result<JsonValue, ParseError>)
    ensures
        match r {
            Ok(v) => {
                &&& valid_utf8(src@)
                &&& spec_json_doc(src@) is Some
                &&& v.wf()
                &&& jvalue_matches(v, src@, spec_json_doc(src@)->0)
            },
            Err(e) => {
                ||| (!valid_utf8(src@) && e.kind == ErrorKind::InvalidUtf8)
                ||| (valid_utf8(src@) && spec_json_doc(src@) is None && e.kind
                    == ErrorKind::JsonSyntax)
            },
        },
{
    let b = bytes_copy_from_slice(src);
    parse(b)
}

/// Parse a JSON value from a source string containing JSON text.
pub fn parse_str(src: &str) -> (r: Result<JsonValue, ParseError>)
    ensures
        ({
            let s = src.spec_bytes();
            match r {
                Ok(v) => {
                    &&& spec_json_doc(s) is Some
                    &&& v.wf()
                    &&& jvalue_matches(v, s, spec_json_doc(s)->0)
                },
                Err(e) => spec_json_doc(s) is None && e.kind == ErrorKind::JsonSyntax,
            }
        }),
{
    proof {
        vstd::utf8::encode_utf8_valid_utf8(src@);
    }
    let b = bytes_copy_from_slice(src.as_bytes());
    parse(b)
}


/// When a string's content is well formed, its closing quote lies at or
/// after the content's start, within the sequence.
pub proof fn lemma_string_end_bounds(s: Seq<u8>, i: int)
    requires
        spec_string_end(s, i) is Some,
    ensures
        i <= spec_string_end(s, i)->0 < s.len(),
        s[spec_string_end(s, i)->0] == 34,
    decreases s.len() - i,
{
    if s[i] == 34 {
    } else if s[i] == 92 {
        if i + 2 <= s.len() && is_simple_escape(s[i + 1]) {
            lemma_string_end_bounds(s, i + 2);
        } else {
            lemma_string_end_bounds(s, i + 6);
        }
    } else {
        lemma_string_end_bounds(s, i + 1);
    }
}


/// Finding a string's closing quote inside a window of the source sees
/// exactly the same bytes, when the quote lies within the window.
pub proof fn lemma_string_end_localized(s: Seq<u8>, d: int, l: int, i: int)
    requires
        0 <= d <= i <= l <= s.len(),
        spec_string_end(s, i) is Some,
        spec_string_end(s, i)->0 < l,
    ensures
        spec_string_end(s.subrange(d, l), i - d) == Some(spec_string_end(s, i)->0 - d),
    decreases l - i,
{
    let t = s.subrange(d, l);
    let q = spec_string_end(s, i)->0;
    lemma_string_end_bounds(s, i);
    assert(i <= q < l);
    assert(t[i - d] == s[i]);
    if s[i] == 34 {
    } else if s[i] == 92 {
        if i + 2 <= s.len() && is_simple_escape(s[i + 1]) {
            assert(spec_string_end(s, i) == spec_string_end(s, i + 2));
            lemma_string_end_bounds(s, i + 2);
            assert(i + 2 <= q < l);
            assert(t[i + 1 - d] == s[i + 1]);
            lemma_string_end_localized(s, d, l, i + 2);
        } else {
            assert(i + 6 <= s.len() && s[i + 1] == 117);
            assert(spec_string_end(s, i) == spec_string_end(s, i + 6));
            lemma_string_end_bounds(s, i + 6);
            assert(i + 6 <= q < l);
            assert(t[i + 1 - d] == s[i + 1] && t[i + 2 - d] == s[i + 2] && t[i + 3 - d] == s[i + 3]
                && t[i + 4 - d] == s[i + 4] && t[i + 5 - d] == s[i + 5]);
            lemma_string_end_localized(s, d, l, i + 6);
        }
    } else {
        assert(spec_string_end(s, i) == spec_string_end(s, i + 1));
        lemma_string_end_bounds(s, i + 1);
        assert(i + 1 <= q < l);
        lemma_string_end_localized(s, d, l, i + 1);
    }
}

/// Finding a number's end inside a window of the source sees exactly
/// the same bytes, when the number ends within the window.
pub proof fn lemma_number_end_localized(s: Seq<u8>, d: int, l: int, i: int)
    requires
        0 <= d <= i <= l <= s.len(),
        spec_number_end(s, i) is Some,
        spec_number_end(s, i)->0 <= l,
    ensures
        spec_number_end(s.subrange(d, l), i - d) == Some(spec_number_end(s, i)->0 - d),
{
    let t = s.subrange(d, l);
    let e = spec_number_end(s, i)->0;
    let j = if 0 <= i < s.len() && s[i] == 45 {
        i + 1
    } else {
        i
    };
    lemma_scan(s, j, ByteClass::Digit);
    assert(j < s.len() && byte_in_class(ByteClass::Digit, s[j]));
    let int_end = if s[j] == 48 {
        j + 1
    } else {
        spec_scan(s, j, ByteClass::Digit)
    };
    assert(j < e <= l);
    assert(t[i - d] == s[i]);
    assert(t[j - d] == s[j]);
    assert(int_end <= e);
    if s[j] != 48 {
        lemma_scan_localized(s, d, l, j, ByteClass::Digit);
    }
    let frac_end_s = if int_end < s.len() && s[int_end] == 46 {
        let dd = spec_scan(s, int_end + 1, ByteClass::Digit);
        if dd > int_end + 1 {
            dd
        } else {
            -1
        }
    } else {
        int_end
    };
    assert(frac_end_s >= 0);
    assert(frac_end_s <= e) by {
        if int_end < s.len() && s[int_end] == 46 {
            lemma_scan(s, int_end + 1, ByteClass::Digit);
        }
    }
    if int_end < l {
        assert(t[int_end - d] == s[int_end]);
    }
    if int_end < s.len() && s[int_end] == 46 {
        assert(int_end < e);
        lemma_scan_localized(s, d, l, int_end + 1, ByteClass::Digit);
        lemma_scan(s, int_end + 1, ByteClass::Digit);
    }
    let frac_end_t = frac_end_s - d;
    if frac_end_s < l {
        assert(t[frac_end_s - d] == s[frac_end_s]);
    }
    if frac_end_s < s.len() && (s[frac_end_s] == 101 || s[frac_end_s] == 69) {
        assert(frac_end_s < e);
        let es = if frac_end_s + 1 < s.len() && (s[frac_end_s + 1] == 43 || s[frac_end_s + 1]
            == 45) {
            frac_end_s + 2
        } else {
            frac_end_s + 1
        };
        lemma_scan(s, es, ByteClass::Digit);
        assert(spec_scan(s, es, ByteClass::Digit) == e);
        assert(es <= e);
        if frac_end_s + 1 < l {
            assert(t[frac_end_s + 1 - d] == s[frac_end_s + 1]);
        }
        lemma_scan_localized(s, d, l, es, ByteClass::Digit);
    }
}


/// A well-formed number ends after its first digit, within the
/// sequence.
pub proof fn lemma_number_end_bounds(s: Seq<u8>, i: int)
    requires
        spec_number_end(s, i) is Some,
    ensures
        i < spec_number_end(s, i)->0 <= s.len(),
{
    let j = if 0 <= i < s.len() && s[i] == 45 {
        i + 1
    } else {
        i
    };
    lemma_scan(s, j, ByteClass::Digit);
    let int_end = if s[j] == 48 {
        j + 1
    } else {
        spec_scan(s, j, ByteClass::Digit)
    };
    if int_end < s.len() && s[int_end] == 46 {
        lemma_scan(s, int_end + 1, ByteClass::Digit);
    }
    let frac_end = if int_end < s.len() && s[int_end] == 46 {
        spec_scan(s, int_end + 1, ByteClass::Digit)
    } else {
        int_end
    };
    if frac_end < s.len() && (s[frac_end] == 101 || s[frac_end] == 69) {
        let es = if frac_end + 1 < s.len() && (s[frac_end + 1] == 43 || s[frac_end + 1] == 45) {
            frac_end + 2
        } else {
            frac_end + 1
        };
        lemma_scan(s, es, ByteClass::Digit);
    }
}

/// A parsed value ends after its first byte, within the sequence.
pub proof fn lemma_value_bounds(s: Seq<u8>, i: int)
    requires
        spec_json_value(s, i) is Some,
    ensures
        i < (spec_json_value(s, i)->0).1 <= s.len(),
    decreases s.len() - i, 0int,
{
    assert(0 <= i < s.len());
    if s[i] == 34 {
        lemma_string_end_bounds(s, i + 1);
    } else if s[i] == 45 || byte_in_class(ByteClass::Digit, s[i]) {
        lemma_number_end_bounds(s, i);
    } else if s[i] == 123 {
        lemma_members_bounds(s, i + 1);
    } else if s[i] == 91 {
        lemma_elems_bounds(s, i + 1);
    }
}

/// A parsed pair ends after its first byte, within the sequence.
pub proof fn lemma_pair_bounds(s: Seq<u8>, i: int)
    requires
        spec_pair(s, i) is Some,
    ensures
        i < (spec_pair(s, i)->0).1 <= s.len(),
    decreases s.len() - i, 1int,
{
    let q = spec_string_end(s, i + 1)->0;
    lemma_string_end_bounds(s, i + 1);
    let c = skip_ws(s, q + 1);
    let v = skip_ws(s, c + 1);
    lemma_value_bounds(s, v);
}

/// Parsed object members end at a closing brace at or after their
/// start, within the sequence.
pub proof fn lemma_members_bounds(s: Seq<u8>, i: int)
    requires
        spec_members(s, i) is Some,
    ensures
        ({
            let close = (spec_members(s, i)->0).1;
            i <= close < s.len() && s[close] == 125
        }),
    decreases s.len() - i, 2int,
{
    let j = skip_ws(s, i);
    lemma_scan(s, i, ByteClass::Ws);
    if j < s.len() && s[j] == 125 {
    } else {
        let k = (spec_pair(s, j)->0).1;
        lemma_members_tail_bounds(s, k);
    }
}

/// The continuation of object members ends at a closing brace at or
/// after its start, within the sequence.
pub proof fn lemma_members_tail_bounds(s: Seq<u8>, i: int)
    requires
        spec_members_tail(s, i) is Some,
    ensures
        ({
            let close = (spec_members_tail(s, i)->0).1;
            i <= close < s.len() && s[close] == 125
        }),
    decreases s.len() - i, 2int,
{
    let j = skip_ws(s, i);
    lemma_scan(s, i, ByteClass::Ws);
    if j < s.len() && s[j] == 125 {
    } else {
        let p_start = skip_ws(s, j + 1);
        let k = (spec_pair(s, p_start)->0).1;
        lemma_members_tail_bounds(s, k);
    }
}

/// Parsed array elements end at a closing bracket at or after their
/// start, within the sequence.
pub proof fn lemma_elems_bounds(s: Seq<u8>, i: int)
    requires
        spec_elems(s, i) is Some,
    ensures
        ({
            let close = (spec_elems(s, i)->0).1;
            i <= close < s.len() && s[close] == 93
        }),
    decreases s.len() - i, 2int,
{
    let j = skip_ws(s, i);
    lemma_scan(s, i, ByteClass::Ws);
    if j < s.len() && s[j] == 93 {
    } else {
        let k = (spec_json_value(s, j)->0).1;
        lemma_elems_tail_bounds(s, k);
    }
}

/// The continuation of array elements ends at a closing bracket at or
/// after its start, within the sequence.
pub proof fn lemma_elems_tail_bounds(s: Seq<u8>, i: int)
    requires
        spec_elems_tail(s, i) is Some,
    ensures
        ({
            let close = (spec_elems_tail(s, i)->0).1;
            i <= close < s.len() && s[close] == 93
        }),
    decreases s.len() - i, 2int,
{
    let j = skip_ws(s, i);
    lemma_scan(s, i, ByteClass::Ws);
    if j < s.len() && s[j] == 93 {
    } else {
        let v_start = skip_ws(s, j + 1);
        let k = (spec_json_value(s, v_start)->0).1;
        lemma_elems_tail_bounds(s, k);
    }
}


/// The second shape is the first with every position shifted by
/// `delta`.
pub open spec fn shape_shifted_eq(a: JShape, b: JShape, delta: int) -> bool
    decreases a,
{
    match a {
        JShape::Null { start, end } => b == (JShape::Null {
            start: start + delta,
            end: end + delta,
        }),
        JShape::Bool { start, end } => b == (JShape::Bool {
            start: start + delta,
            end: end + delta,
        }),
        JShape::Number { start, end } => b == (JShape::Number {
            start: start + delta,
            end: end + delta,
        }),
        JShape::String { start, end } => b == (JShape::String {
            start: start + delta,
            end: end + delta,
        }),
        JShape::Array { start, end, elems } => {
            &&& b is Array
            &&& b->Array_start == start + delta
            &&& b->Array_end == end + delta
            &&& b->Array_elems.len() == elems.len()
            &&& forall|k: int| 0 <= k < elems.len() ==> shape_shifted_eq(
                #[trigger] elems[k],
                b->Array_elems[k],
                delta,
            )
        },
        JShape::Object { start, end, elems } => {
            &&& b is Object
            &&& b->Object_start == start + delta
            &&& b->Object_end == end + delta
            &&& b->Object_elems.len() == elems.len()
            &&& forall|k: int| 0 <= k < elems.len() ==> pair_shape_shifted_eq(
                #[trigger] elems[k],
                b->Object_elems[k],
                delta,
            )
        },
    }
}

/// The second pair shape is the first with every position shifted by
/// `delta`.
pub open spec fn pair_shape_shifted_eq(a: JPairShape, b: JPairShape, delta: int) -> bool
    decreases a,
{
    &&& b.start == a.start + delta
    &&& b.end == a.end + delta
    &&& b.key_start == a.key_start + delta
    &&& b.key_end == a.key_end + delta
    &&& shape_shifted_eq(a.value, b.value, delta)
}

/// Parsing a value inside a window of the source that contains it sees
/// exactly the same bytes: the window's parse succeeds with the same
/// shape, shifted to the window's coordinates.
#[verifier::rlimit(60)]
pub proof fn lemma_value_localized(s: Seq<u8>, d: int, l: int, i: int)
    requires
        0 <= d <= i <= l <= s.len(),
        spec_json_value(s, i) is Some,
        (spec_json_value(s, i)->0).1 <= l,
    ensures
        ({
            let (sh, e) = spec_json_value(s, i)->0;
            let r = spec_json_value(s.subrange(d, l), i - d);
            &&& r is Some
            &&& (r->0).1 == e - d
            &&& shape_shifted_eq(sh, (r->0).0, 0 - d)
        }),
    decreases s.len() - i, 0int,
{
    let t = s.subrange(d, l);
    let (sh, e) = spec_json_value(s, i)->0;
    lemma_value_bounds(s, i);
    assert(i < l);
    assert(t[i - d] == s[i]);
    if s[i] == 110 || s[i] == 116 {
        assert(t[i + 1 - d] == s[i + 1] && t[i + 2 - d] == s[i + 2] && t[i + 3 - d] == s[i + 3]);
    } else if s[i] == 102 {
        assert(t[i + 1 - d] == s[i + 1] && t[i + 2 - d] == s[i + 2] && t[i + 3 - d] == s[i + 3]
            && t[i + 4 - d] == s[i + 4]);
    } else if s[i] == 34 {
        lemma_string_end_bounds(s, i + 1);
        lemma_string_end_localized(s, d, l, i + 1);
    } else if s[i] == 45 || byte_in_class(ByteClass::Digit, s[i]) {
        lemma_number_end_localized(s, d, l, i);
    } else if s[i] == 123 {
        lemma_members_bounds(s, i + 1);
        lemma_members_localized(s, d, l, i + 1);
    } else {
        assert(s[i] == 91);
        lemma_elems_bounds(s, i + 1);
        lemma_elems_localized(s, d, l, i + 1);
    }
}

/// Parsing a pair inside a window of the source that contains it sees
/// exactly the same bytes.
pub proof fn lemma_pair_localized(s: Seq<u8>, d: int, l: int, i: int)
    requires
        0 <= d <= i <= l <= s.len(),
        spec_pair(s, i) is Some,
        (spec_pair(s, i)->0).1 <= l,
    ensures
        ({
            let (sh, e) = spec_pair(s, i)->0;
            let r = spec_pair(s.subrange(d, l), i - d);
            &&& r is Some
            &&& (r->0).1 == e - d
            &&& pair_shape_shifted_eq(sh, (r->0).0, 0 - d)
        }),
    decreases s.len() - i, 1int,
{
    let t = s.subrange(d, l);
    let (sh, e) = spec_pair(s, i)->0;
    lemma_pair_bounds(s, i);
    assert(t[i - d] == s[i]);
    let q = spec_string_end(s, i + 1)->0;
    lemma_string_end_bounds(s, i + 1);
    let c = skip_ws(s, q + 1);
    lemma_scan(s, q + 1, ByteClass::Ws);
    let v = skip_ws(s, c + 1);
    lemma_scan(s, c + 1, ByteClass::Ws);
    lemma_value_bounds(s, v);
    assert(v < e <= l);
    assert(q < c < v < l);
    lemma_string_end_localized(s, d, l, i + 1);
    lemma_scan_localized(s, d, l, q + 1, ByteClass::Ws);
    assert(t[c - d] == s[c]);
    lemma_scan_localized(s, d, l, c + 1, ByteClass::Ws);
    lemma_value_localized(s, d, l, v);
}

/// Parsing object members inside a window of the source that contains
/// them, brace included, sees exactly the same bytes.
pub proof fn lemma_members_localized(s: Seq<u8>, d: int, l: int, i: int)
    requires
        0 <= d <= i <= l <= s.len(),
        spec_members(s, i) is Some,
        (spec_members(s, i)->0).1 < l,
    ensures
        ({
            let (shs, close) = spec_members(s, i)->0;
            let r = spec_members(s.subrange(d, l), i - d);
            &&& r is Some
            &&& (r->0).1 == close - d
            &&& (r->0).0.len() == shs.len()
            &&& forall|k: int| 0 <= k < shs.len() ==> pair_shape_shifted_eq(
                #[trigger] shs[k],
                (r->0).0[k],
                0 - d,
            )
        }),
    decreases s.len() - i, 2int,
{
    let t = s.subrange(d, l);
    let (shs, close) = spec_members(s, i)->0;
    lemma_members_bounds(s, i);
    let j = skip_ws(s, i);
    lemma_scan(s, i, ByteClass::Ws);
    if j < s.len() && s[j] == 125 {
        assert(j == close);
        lemma_scan_localized(s, d, l, i, ByteClass::Ws);
        assert(t[j - d] == s[j]);
    } else {
        let (p, k) = spec_pair(s, j)->0;
        lemma_pair_bounds(s, j);
        lemma_members_tail_bounds(s, k);
        assert(j < k <= close < l);
        lemma_scan_localized(s, d, l, i, ByteClass::Ws);
        lemma_pair_localized(s, d, l, j);
        lemma_members_tail_localized(s, d, l, k);
        let (rest, _) = spec_members_tail(s, k)->0;
        assert(shs == seq![p] + rest);
        let r = spec_members(t, i - d);
        let (tshs, _) = r->0;
        let (trest, _) = spec_members_tail(t, k - d)->0;
        assert(tshs == seq![(spec_pair(t, j - d)->0).0] + trest);
        assert forall|x: int| 0 <= x < shs.len() implies pair_shape_shifted_eq(
            #[trigger] shs[x],
            tshs[x],
            0 - d,
        ) by {
            if x == 0 {
                assert(shs[0] == p && tshs[0] == (spec_pair(t, j - d)->0).0);
            } else {
                assert(shs[x] == rest[x - 1] && tshs[x] == trest[x - 1]);
            }
        }
    }
}

/// Parsing the continuation of object members inside a window of the
/// source that contains it, brace included, sees exactly the same
/// bytes.
pub proof fn lemma_members_tail_localized(s: Seq<u8>, d: int, l: int, i: int)
    requires
        0 <= d <= i <= l <= s.len(),
        spec_members_tail(s, i) is Some,
        (spec_members_tail(s, i)->0).1 < l,
    ensures
        ({
            let (shs, close) = spec_members_tail(s, i)->0;
            let r = spec_members_tail(s.subrange(d, l), i - d);
            &&& r is Some
            &&& (r->0).1 == close - d
            &&& (r->0).0.len() == shs.len()
            &&& forall|k: int| 0 <= k < shs.len() ==> pair_shape_shifted_eq(
                #[trigger] shs[k],
                (r->0).0[k],
                0 - d,
            )
        }),
    decreases s.len() - i, 2int,
{
    let t = s.subrange(d, l);
    let (shs, close) = spec_members_tail(s, i)->0;
    lemma_members_tail_bounds(s, i);
    let j = skip_ws(s, i);
    lemma_scan(s, i, ByteClass::Ws);
    if j < s.len() && s[j] == 125 {
        assert(j == close);
        lemma_scan_localized(s, d, l, i, ByteClass::Ws);
        assert(t[j - d] == s[j]);
    } else {
        assert(j < s.len() && s[j] == 44);
        let p_start = skip_ws(s, j + 1);
        lemma_scan(s, j + 1, ByteClass::Ws);
        let (p, k) = spec_pair(s, p_start)->0;
        lemma_pair_bounds(s, p_start);
        lemma_members_tail_bounds(s, k);
        assert(p_start < k <= close < l);
        lemma_scan_localized(s, d, l, i, ByteClass::Ws);
        assert(t[j - d] == s[j]);
        lemma_scan_localized(s, d, l, j + 1, ByteClass::Ws);
        lemma_pair_localized(s, d, l, p_start);
        lemma_members_tail_localized(s, d, l, k);
        let (rest, _) = spec_members_tail(s, k)->0;
        assert(shs == seq![p] + rest);
        let r = spec_members_tail(t, i - d);
        let (tshs, _) = r->0;
        let (trest, _) = spec_members_tail(t, k - d)->0;
        assert(tshs == seq![(spec_pair(t, p_start - d)->0).0] + trest);
        assert forall|x: int| 0 <= x < shs.len() implies pair_shape_shifted_eq(
            #[trigger] shs[x],
            tshs[x],
            0 - d,
        ) by {
            if x == 0 {
                assert(shs[0] == p && tshs[0] == (spec_pair(t, p_start - d)->0).0);
            } else {
                assert(shs[x] == rest[x - 1] && tshs[x] == trest[x - 1]);
            }
        }
    }
}

/// Parsing array elements inside a window of the source that contains
/// them, bracket included, sees exactly the same bytes.
pub proof fn lemma_elems_localized(s: Seq<u8>, d: int, l: int, i: int)
    requires
        0 <= d <= i <= l <= s.len(),
        spec_elems(s, i) is Some,
        (spec_elems(s, i)->0).1 < l,
    ensures
        ({
            let (shs, close) = spec_elems(s, i)->0;
            let r = spec_elems(s.subrange(d, l), i - d);
            &&& r is Some
            &&& (r->0).1 == close - d
            &&& (r->0).0.len() == shs.len()
            &&& forall|k: int| 0 <= k < shs.len() ==> shape_shifted_eq(
                #[trigger] shs[k],
                (r->0).0[k],
                0 - d,
            )
        }),
    decreases s.len() - i, 2int,
{
    let t = s.subrange(d, l);
    let (shs, close) = spec_elems(s, i)->0;
    lemma_elems_bounds(s, i);
    let j = skip_ws(s, i);
    lemma_scan(s, i, ByteClass::Ws);
    if j < s.len() && s[j] == 93 {
        assert(j == close);
        lemma_scan_localized(s, d, l, i, ByteClass::Ws);
        assert(t[j - d] == s[j]);
    } else {
        let (v, k) = spec_json_value(s, j)->0;
        lemma_value_bounds(s, j);
        lemma_elems_tail_bounds(s, k);
        assert(j < k <= close < l);
        lemma_scan_localized(s, d, l, i, ByteClass::Ws);
        lemma_value_localized(s, d, l, j);
        lemma_elems_tail_localized(s, d, l, k);
        let (rest, _) = spec_elems_tail(s, k)->0;
        assert(shs == seq![v] + rest);
        let r = spec_elems(t, i - d);
        let (tshs, _) = r->0;
        let (trest, _) = spec_elems_tail(t, k - d)->0;
        assert(tshs == seq![(spec_json_value(t, j - d)->0).0] + trest);
        assert forall|x: int| 0 <= x < shs.len() implies shape_shifted_eq(
            #[trigger] shs[x],
            tshs[x],
            0 - d,
        ) by {
            if x == 0 {
                assert(shs[0] == v && tshs[0] == (spec_json_value(t, j - d)->0).0);
            } else {
                assert(shs[x] == rest[x - 1] && tshs[x] == trest[x - 1]);
            }
        }
    }
}

/// Parsing the continuation of array elements inside a window of the
/// source that contains it, bracket included, sees exactly the same
/// bytes.
pub proof fn lemma_elems_tail_localized(s: Seq<u8>, d: int, l: int, i: int)
    requires
        0 <= d <= i <= l <= s.len(),
        spec_elems_tail(s, i) is Some,
        (spec_elems_tail(s, i)->0).1 < l,
    ensures
        ({
            let (shs, close) = spec_elems_tail(s, i)->0;
            let r = spec_elems_tail(s.subrange(d, l), i - d);
            &&& r is Some
            &&& (r->0).1 == close - d
            &&& (r->0).0.len() == shs.len()
            &&& forall|k: int| 0 <= k < shs.len() ==> shape_shifted_eq(
                #[trigger] shs[k],
                (r->0).0[k],
                0 - d,
            )
        }),
    decreases s.len() - i, 2int,
{
    let t = s.subrange(d, l);
    let (shs, close) = spec_elems_tail(s, i)->0;
    lemma_elems_tail_bounds(s, i);
    let j = skip_ws(s, i);
    lemma_scan(s, i, ByteClass::Ws);
    if j < s.len() && s[j] == 93 {
        assert(j == close);
        lemma_scan_localized(s, d, l, i, ByteClass::Ws);
        assert(t[j - d] == s[j]);
    } else {
        assert(j < s.len() && s[j] == 44);
        let v_start = skip_ws(s, j + 1);
        lemma_scan(s, j + 1, ByteClass::Ws);
        let (v, k) = spec_json_value(s, v_start)->0;
        lemma_value_bounds(s, v_start);
        lemma_elems_tail_bounds(s, k);
        assert(v_start < k <= close < l);
        lemma_scan_localized(s, d, l, i, ByteClass::Ws);
        assert(t[j - d] == s[j]);
        lemma_scan_localized(s, d, l, j + 1, ByteClass::Ws);
        lemma_value_localized(s, d, l, v_start);
        lemma_elems_tail_localized(s, d, l, k);
        let (rest, _) = spec_elems_tail(s, k)->0;
        assert(shs == seq![v] + rest);
        let r = spec_elems_tail(t, i - d);
        let (tshs, _) = r->0;
        let (trest, _) = spec_elems_tail(t, k - d)->0;
        assert(tshs == seq![(spec_json_value(t, v_start - d)->0).0] + trest);
        assert forall|x: int| 0 <= x < shs.len() implies shape_shifted_eq(
            #[trigger] shs[x],
            tshs[x],
            0 - d,
        ) by {
            if x == 0 {
                assert(shs[0] == v && tshs[0] == (spec_json_value(t, v_start - d)->0).0);
            } else {
                assert(shs[x] == rest[x - 1] && tshs[x] == trest[x - 1]);
            }
        }
    }
}

/// Parsing is local: the exact byte range of a parsed value, taken
/// alone, parses as a whole document to the same shape, shifted to
/// start at zero. Re-parsing an already-parsed sub-entity therefore
/// yields an equivalent result to the original sub-parse.
pub proof fn lemma_reparse_sub_entity(s: Seq<u8>, i: int)
    requires
        0 <= i,
        spec_json_value(s, i) is Some,
    ensures
        ({
            let (sh, e) = spec_json_value(s, i)->0;
            let doc = spec_json_doc(s.subrange(i, e));
            &&& doc is Some
            &&& shape_shifted_eq(sh, doc->0, 0 - i)
        }),
{
    let (sh, e) = spec_json_value(s, i)->0;
    lemma_value_bounds(s, i);
    let t = s.subrange(i, e);
    lemma_value_localized(s, i, e, i);
    assert(0 <= i < s.len());
    assert(t[0] == s[i]);
    assert(!byte_in_class(ByteClass::Ws, s[i])) by {
        if byte_in_class(ByteClass::Ws, s[i]) {
            assert(spec_json_value(s, i) is None);
        }
    }
    assert(skip_ws(t, 0) == 0);
    assert(skip_ws(t, e - i) == t.len()) by {
        lemma_scan(t, e - i, ByteClass::Ws);
    }
}

} // verus!
