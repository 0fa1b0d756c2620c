//! Helpers for locating spans within source bytes.

use vstd::prelude::*;

verus! {

use crate::range::ByteRange;
use vstd::utf8::{valid_utf8, partial_valid_utf8, partial_valid_utf8_extend_ascii_block};

/// Maps an ASCII upper-case letter to lower case and leaves every other
/// byte unchanged.
pub open spec fn ascii_lower(b: u8) -> u8 {
    if 65 <= b <= 90 {
        (b + 32) as u8
    } else {
        b
    }
}

/// Maps every byte of a sequence to lower case.
pub open spec fn lower_bytes(a: Seq<u8>) -> Seq<u8> {
    a.map_values(|b: u8| ascii_lower(b))
}

/// Maps an ASCII upper-case letter to lower case and leaves every other
/// byte unchanged.
pub fn ascii_lower_byte(b: u8) -> (r: u8)
    ensures
        r == ascii_lower(b),
{
    if 65 <= b && b <= 90 {
        b + 32
    } else {
        b
    }
}

/// Returns `true` if the two byte sequences are equal up to ASCII case.
pub fn bytes_eq_ci(a: &[u8], b: &[u8]) -> (r: bool)
    ensures
        r == (lower_bytes(a@) == lower_bytes(b@)),
{
    if a.len() != b.len() {
        proof {
            assert(lower_bytes(a@).len() == a@.len());
            assert(lower_bytes(b@).len() == b@.len());
        }
        return false;
    }
    let n = a.len();
    let mut i: usize = 0;
    while i < n
        invariant
            n == a@.len() == b@.len(),
            0 <= i <= n,
            forall|j: int| 0 <= j < i ==> ascii_lower(a@[j]) == ascii_lower(b@[j]),
        decreases n - i,
    {
        let x = a[i];
        let y = b[i];
        let xl = if 65 <= x && x <= 90 {
            x + 32
        } else {
            x
        };
        let yl = if 65 <= y && y <= 90 {
            y + 32
        } else {
            y
        };
        if xl != yl {
            proof {
                assert(lower_bytes(a@)[i as int] == ascii_lower(a@[i as int]));
                assert(lower_bytes(b@)[i as int] == ascii_lower(b@[i as int]));
            }
            return false;
        }
        i = i + 1;
    }
    proof {
        assert(lower_bytes(a@) =~= lower_bytes(b@));
    }
    true
}

/// The index is at, or directly after, an ASCII byte, or at one end of
/// the sequence: enough evidence for a character boundary.
pub open spec fn boundary_evidence(s: Seq<u8>, i: int) -> bool {
    ||| i == 0
    ||| i == s.len()
    ||| (0 <= i < s.len() && s[i] < 128)
    ||| (0 < i <= s.len() && s[i - 1] < 128)
}

/// In valid UTF-8, an index at or directly after an ASCII byte is a
/// character boundary.
pub proof fn lemma_char_boundary_evidence(s: Seq<u8>, i: int)
    requires
        valid_utf8(s),
        0 <= i <= s.len(),
        boundary_evidence(s, i),
    ensures
        vstd::utf8::is_char_boundary(s, i),
{
    vstd::utf8::is_char_boundary_start_end_of_seq(s);
    if i == 0 || i == s.len() {
    } else if s[i] < 128 {
        vstd::utf8::is_char_boundary_iff_not_is_continuation_byte(s, i);
    } else {
        // The byte before `i` is ASCII, so it is a one-byte character
        // and the next boundary is exactly at `i`.
        vstd::utf8::is_char_boundary_iff_not_is_continuation_byte(s, i - 1);
        assert(vstd::utf8::is_char_boundary(s, i - 1));
        vstd::utf8::valid_utf8_split(s, i - 1);
        let t = s.subrange(i - 1, s.len() as int);
        assert(valid_utf8(t));
        assert(t[0] == s[i - 1]);
        assert(vstd::utf8::length_of_first_scalar(t) == 1);
        assert(vstd::utf8::is_char_boundary(t, 1)) by {
            reveal_with_fuel(vstd::utf8::is_char_boundary, 2);
            assert(vstd::utf8::is_char_boundary(vstd::utf8::pop_first_scalar(t), 0));
        }
        vstd::utf8::is_char_boundary_iff_not_is_continuation_byte(t, 1);
        assert(t[1] == s[i]);
        vstd::utf8::is_char_boundary_iff_not_is_continuation_byte(s, i);
    }
}

/// A subrange of valid UTF-8 whose two ends sit at, or directly after,
/// ASCII bytes (or at the ends of the sequence) is itself valid UTF-8.
pub proof fn lemma_utf8_subrange(s: Seq<u8>, a: int, b: int)
    requires
        valid_utf8(s),
        0 <= a <= b <= s.len(),
        boundary_evidence(s, a),
        boundary_evidence(s, b),
    ensures
        valid_utf8(s.subrange(a, b)),
{
    lemma_char_boundary_evidence(s, b);
    vstd::utf8::valid_utf8_split(s, b);
    let p = s.subrange(0, b);
    assert(valid_utf8(p));
    if a == b {
        assert(s.subrange(a, b) =~= Seq::<u8>::empty());
    } else {
        assert(vstd::utf8::is_char_boundary(p, a)) by {
            if a == 0 {
                vstd::utf8::is_char_boundary_start_end_of_seq(p);
            } else if a < s.len() && s[a] < 128 {
                assert(p[a] == s[a]);
                lemma_char_boundary_evidence(p, a);
            } else {
                assert(p[a - 1] == s[a - 1]);
                lemma_char_boundary_evidence(p, a);
            }
        }
        vstd::utf8::valid_utf8_split(p, a);
        assert(p.subrange(a, p.len() as int) =~= s.subrange(a, b));
    }
}

/// The pattern occurs in `src` at position `k`.
pub open spec fn is_match_at(src: Seq<u8>, pat: Seq<u8>, k: int) -> bool {
    &&& 0 <= k
    &&& k + pat.len() <= src.len()
    &&& src.subrange(k, k + pat.len()) == pat
}

/// Returns the range within the source bytes of the first occurrence of
/// `span`, or `None` if `span` does not occur in `src`.
pub fn get_span_range(src: &[u8], span: &[u8]) -> (r: Option<ByteRange>)
    ensures
        match r {
            Some(rg) => {
                &&& rg.wf()
                &&& rg.end <= src@.len()
                &&& rg.end - rg.start == span@.len()
                &&& is_match_at(src@, span@, rg.start as int)
                &&& forall|k: int| 0 <= k < rg.start ==> !is_match_at(src@, span@, k)
            },
            None => forall|k: int| !is_match_at(src@, span@, k),
        },
{
    let n = src.len();
    let m = span.len();
    if m > n {
        return None;
    }
    let mut k: usize = 0;
    while k <= n - m
        invariant
            m <= n == src@.len(),
            m == span@.len(),
            0 <= k <= n - m + 1,
            forall|j: int| 0 <= j < k ==> !is_match_at(src@, span@, j),
        decreases n - m + 1 - k,
    {
        let mut i: usize = 0;
        while i < m && src[k + i] == span[i]
            invariant
                m <= n == src@.len(),
                m == span@.len(),
                0 <= k <= n - m,
                0 <= i <= m,
                forall|j: int| 0 <= j < i ==> src@[k + j] == span@[j],
            decreases m - i,
        {
            i = i + 1;
        }
        if i == m {
            proof {
                assert(src@.subrange(k as int, k + m as int) =~= span@);
            }
            return Some(ByteRange { start: k, end: k + m });
        }
        proof {
            if is_match_at(src@, span@, k as int) {
                assert(src@.subrange(k as int, k + m as int)[i as int] == span@[i as int]);
                assert(false);
            }
        }
        k = k + 1;
    }
    proof {
        assert forall|j: int| !is_match_at(src@, span@, j) by {
            if 0 <= j <= n - m {
                assert(!is_match_at(src@, span@, j));
            }
        }
    }
    None
}

/// A class of bytes that a scan accepts.
#[derive(Clone, Copy, Debug, PartialEq, Eq, Structural)]
pub enum ByteClass {
    /// RFC 9110 token characters: letters, digits and a few marks.
    Tchar,
    /// Request-target characters: visible ASCII after `!`, and any
    /// byte above `0x7f`.
    Target,
    /// Header-value characters: horizontal tab, visible ASCII including
    /// space, and any byte above `0x7f`.
    Value,
    /// Reason-phrase characters: any byte except CR and LF.
    Reason,
    /// ASCII decimal digits.
    Digit,
    /// Optional whitespace: space and horizontal tab.
    Ows,
    /// JSON insignificant whitespace: space, tab, CR and LF.
    Ws,
    /// JSON string content characters: any byte from space upward except
    /// the quote and the backslash.
    JStr,
    /// ASCII hexadecimal digits.
    Hex,
}

/// The byte belongs to the class.
pub open spec fn byte_in_class(c: ByteClass, b: u8) -> bool {
    match c {
        ByteClass::Tchar => (65 <= b <= 90) || (97 <= b <= 122) || (48 <= b <= 57)
            || b == 33 || b == 35 || b == 36 || b == 37 || b == 38 || b == 39
            || b == 42 || b == 43 || b == 45 || b == 46 || b == 94 || b == 95
            || b == 96 || b == 124 || b == 126,
        ByteClass::Target => 33 <= b && b != 0x7f,
        ByteClass::Value => b == 9 || (0x20 <= b && b != 0x7f),
        ByteClass::Reason => b != 13 && b != 10,
        ByteClass::Digit => 48 <= b <= 57,
        ByteClass::Ows => b == 32 || b == 9,
        ByteClass::Ws => b == 32 || b == 9 || b == 13 || b == 10,
        ByteClass::JStr => 0x20 <= b && b != 34 && b != 92,
        ByteClass::Hex => (48 <= b <= 57) || (97 <= b <= 102) || (65 <= b <= 70),
    }
}

/// The byte belongs to the class.
pub fn in_class(c: ByteClass, b: u8) -> (r: bool)
    ensures
        r == byte_in_class(c, b),
{
    match c {
        ByteClass::Tchar => (65 <= b && b <= 90) || (97 <= b && b <= 122) || (48 <= b
            && b <= 57) || b == 33 || b == 35 || b == 36 || b == 37 || b == 38
            || b == 39 || b == 42 || b == 43 || b == 45 || b == 46 || b == 94
            || b == 95 || b == 96 || b == 124 || b == 126,
        ByteClass::Target => 33 <= b && b != 0x7f,
        ByteClass::Value => b == 9 || (0x20 <= b && b != 0x7f),
        ByteClass::Reason => b != 13 && b != 10,
        ByteClass::Digit => 48 <= b && b <= 57,
        ByteClass::Ows => b == 32 || b == 9,
        ByteClass::Ws => b == 32 || b == 9 || b == 13 || b == 10,
        ByteClass::JStr => 0x20 <= b && b != 34 && b != 92,
        ByteClass::Hex => (48 <= b && b <= 57) || (97 <= b && b <= 102) || (65 <= b && b <= 70),
    }
}

/// The position of the first byte at or after `i` that is not in the
/// class, or the end of the sequence.
pub open spec fn spec_scan(s: Seq<u8>, i: int, c: ByteClass) -> int
    decreases s.len() - i,
{
    if i < 0 || i >= s.len() || !byte_in_class(c, s[i]) {
        i
    } else {
        spec_scan(s, i + 1, c)
    }
}

/// Bounds and meaning of `spec_scan`: the scan stays within the sequence,
/// every byte it passed is in the class, and the byte it stopped on
/// (if any) is not.
pub proof fn lemma_scan(s: Seq<u8>, i: int, c: ByteClass)
    requires
        0 <= i <= s.len(),
    ensures
        i <= spec_scan(s, i, c) <= s.len(),
        forall|j: int| i <= j < spec_scan(s, i, c) ==> byte_in_class(c, #[trigger] s[j]),
        spec_scan(s, i, c) < s.len() ==> !byte_in_class(c, s[spec_scan(s, i, c)]),
    decreases s.len() - i,
{
    if i < s.len() && byte_in_class(c, s[i]) {
        lemma_scan(s, i + 1, c);
    }
}

/// Scans forward from `i` while bytes belong to the class.
pub fn scan_from(s: &[u8], i: usize, c: ByteClass) -> (r: usize)
    requires
        i <= s@.len(),
    ensures
        r == spec_scan(s@, i as int, c),
        i <= r <= s@.len(),
{
    let n = s.len();
    let mut j = i;
    while j < n && in_class(c, s[j])
        invariant
            i <= j <= n == s@.len(),
            spec_scan(s@, i as int, c) == spec_scan(s@, j as int, c),
        decreases n - j,
    {
        j = j + 1;
    }
    j
}

/// A sequence of ASCII bytes is valid UTF-8.
pub proof fn lemma_ascii_valid_utf8(s: Seq<u8>)
    requires
        forall|i: int| 0 <= i < s.len() ==> (#[trigger] s[i]) < 128,
    ensures
        valid_utf8(s),
{
    assert(s.subrange(0, 0) =~= Seq::<u8>::empty());
    assert(partial_valid_utf8(s, 0));
    assert(forall|i: int| 0 <= i < s.len() ==> vstd::utf8::is_leading_byte_width_1(
        #[trigger] s[i],
    ));
    partial_valid_utf8_extend_ascii_block(s, 0, s.len() as int);
    assert(s.subrange(0, s.len() as int) =~= s);
}


/// The bytes are one or more ASCII decimal digits.
pub open spec fn is_digits(a: Seq<u8>) -> bool {
    a.len() > 0 && forall|k: int| 0 <= k < a.len() ==> byte_in_class(
        ByteClass::Digit,
        #[trigger] a[k],
    )
}

/// The value of the bytes read as a decimal number.
pub open spec fn dec_val(a: Seq<u8>) -> int
    decreases a.len(),
{
    if a.len() == 0 {
        0
    } else {
        dec_val(a.drop_last()) * 10 + (a.last() - 48)
    }
}

/// The decimal value of a digit sequence is non-negative and grows with
/// the sequence.
pub proof fn lemma_dec_val_grows(a: Seq<u8>, k: int)
    requires
        forall|j: int| 0 <= j < a.len() ==> byte_in_class(ByteClass::Digit, #[trigger] a[j]),
        0 <= k <= a.len(),
    ensures
        0 <= dec_val(a.take(k)) <= dec_val(a),
    decreases a.len() - k,
{
    if k == a.len() {
        assert(a.take(k) =~= a);
        lemma_dec_val_nonneg(a);
    } else {
        lemma_dec_val_grows(a, k + 1);
        assert(a.take(k + 1).drop_last() =~= a.take(k));
        assert(a.take(k + 1).last() == a[k]);
        lemma_dec_val_nonneg(a.take(k));
        assert(dec_val(a.take(k + 1)) == dec_val(a.take(k)) * 10 + (a[k] - 48));
        assert(dec_val(a.take(k)) * 10 >= dec_val(a.take(k))) by (nonlinear_arith)
            requires
                dec_val(a.take(k)) >= 0,
        ;
    }
}

/// The decimal value of a digit sequence is non-negative.
pub proof fn lemma_dec_val_nonneg(a: Seq<u8>)
    requires
        forall|j: int| 0 <= j < a.len() ==> byte_in_class(ByteClass::Digit, #[trigger] a[j]),
    ensures
        dec_val(a) >= 0,
    decreases a.len(),
{
    if a.len() > 0 {
        assert(forall|j: int| 0 <= j < a.drop_last().len() ==> byte_in_class(
            ByteClass::Digit,
            #[trigger] a.drop_last()[j],
        ));
        lemma_dec_val_nonneg(a.drop_last());
        assert(dec_val(a.drop_last()) * 10 >= 0) by (nonlinear_arith)
            requires
                dec_val(a.drop_last()) >= 0,
        ;
    }
}

/// Parses the bytes as a decimal number, exactly when they are all
/// digits and the value fits in `usize`.
pub fn parse_dec(v: &[u8]) -> (r: Option<usize>)
    ensures
        match r {
            Some(n) => is_digits(v@) && dec_val(v@) == n as int,
            None => !(is_digits(v@) && dec_val(v@) <= usize::MAX),
        },
{
    let n = v.len();
    if n == 0 {
        return None;
    }
    let mut acc: usize = 0;
    let mut k: usize = 0;
    proof {
        assert(v@.take(0) =~= Seq::<u8>::empty());
    }
    while k < n
        invariant
            n == v@.len(),
            0 <= k <= n,
            forall|j: int| 0 <= j < k ==> byte_in_class(ByteClass::Digit, #[trigger] v@[j]),
            acc == dec_val(v@.take(k as int)),
        decreases n - k,
    {
        let b = v[k];
        if b < 48 || b > 57 {
            return None;
        }
        let d = (b - 48) as usize;
        if acc > (usize::MAX - d) / 10 {
            proof {
                assert(v@.take(k + 1).drop_last() =~= v@.take(k as int));
                assert(v@.take(k + 1).last() == v@[k as int]);
                assert(dec_val(v@.take(k + 1)) == acc * 10 + d);
                assert(acc * 10 + d > usize::MAX) by (nonlinear_arith)
                    requires
                        acc > (usize::MAX - d) / 10,
                        0 <= d <= 9,
                        acc >= 0,
                ;
                if is_digits(v@) {
                    lemma_dec_val_grows(v@, k + 1);
                }
            }
            return None;
        }
        proof {
            assert(acc * 10 + d <= usize::MAX) by (nonlinear_arith)
                requires
                    acc <= (usize::MAX - d) / 10,
                    0 <= d <= 9,
                    acc >= 0,
            ;
            assert(v@.take(k + 1).drop_last() =~= v@.take(k as int));
            assert(v@.take(k + 1).last() == v@[k as int]);
        }
        acc = acc * 10 + d;
        k = k + 1;
    }
    proof {
        assert(v@.take(n as int) =~= v@);
    }
    Some(acc)
}


/// Returns `true` if the two byte sequences hold the same bytes.
pub fn bytes_eq(a: &[u8], b: &[u8]) -> (r: bool)
    ensures
        r == (a@ == b@),
{
    if a.len() != b.len() {
        return false;
    }
    let n = a.len();
    let mut i: usize = 0;
    while i < n
        invariant
            n == a@.len() == b@.len(),
            0 <= i <= n,
            forall|j: int| 0 <= j < i ==> a@[j] == b@[j],
        decreases n - i,
    {
        if a[i] != b[i] {
            return false;
        }
        i = i + 1;
    }
    proof {
        assert(a@ =~= b@);
    }
    true
}

/// Scanning a class inside a window of the source sees exactly the same
/// bytes: the scan of the window equals the scan of the source, capped
/// at the window's end.
pub proof fn lemma_scan_localized(s: Seq<u8>, d: int, l: int, i: int, c: ByteClass)
    requires
        0 <= d <= i <= l <= s.len(),
    ensures
        spec_scan(s.subrange(d, l), i - d, c) + d == if spec_scan(s, i, c) <= l {
            spec_scan(s, i, c)
        } else {
            l
        },
    decreases l - i,
{
    let t = s.subrange(d, l);
    if i == l {
        assert(spec_scan(t, i - d, c) == i - d);
        lemma_scan(s, i, c);
    } else {
        assert(t[i - d] == s[i]);
        if byte_in_class(c, s[i]) {
            lemma_scan_localized(s, d, l, i + 1, c);
        } else {
            assert(spec_scan(t, i - d, c) == i - d);
            assert(spec_scan(s, i, c) == i);
        }
    }
}

} // verus!
