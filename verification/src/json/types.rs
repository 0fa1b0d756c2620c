//! JSON entity types: a span tree over one JSON document.

use vstd::prelude::*;

verus! {

use crate::{Span, Spanned};
use crate::helpers::{is_digits, dec_val, parse_dec, bytes_eq};
use crate::range::RangeSet;
use vstd::string::StringSliceAdditionalSpecFns;

/// A JSON value.
#[derive(Debug)]
pub enum JsonValue {
    /// A null value.
    Null(Null),
    /// A boolean value.
    Bool(Bool),
    /// A number value.
    Number(Number),
    /// A string value.
    String(String),
    /// An array value.
    Array(Array),
    /// An object value.
    Object(Object),
}

/// A null value.
#[derive(Debug)]
pub struct Null(pub Span<str>);

/// A boolean value.
#[derive(Debug, Clone)]
pub struct Bool(pub Span<str>);

/// A number value.
#[derive(Debug, Clone)]
pub struct Number(pub Span<str>);

/// A string value.
#[derive(Debug, Clone)]
pub struct String(pub Span<str>);

/// A key in a JSON object.
#[derive(Debug, Clone)]
pub struct JsonKey(pub Span<str>);

/// A key value pair in a JSON object.
#[derive(Debug)]
pub struct KeyValue {
    /// The span from the key through the value.
    pub span: Span<str>,
    /// The key of the pair.
    pub key: JsonKey,
    /// The value of the pair.
    pub value: JsonValue,
}

/// An array value.
#[derive(Debug)]
pub struct Array {
    /// The span from the opening to the closing bracket.
    pub span: Span<str>,
    /// The elements of the array.
    pub elems: Vec<JsonValue>,
}

/// A JSON object value.
#[derive(Debug)]
pub struct Object {
    /// The span from the opening to the closing brace.
    pub span: Span<str>,
    /// The key value pairs of the object.
    pub elems: Vec<KeyValue>,
}

impl JsonValue {
    /// Every span of the value tree is a well-formed text span.
    pub open spec fn wf(self) -> bool
        decreases self,
    {
        match self {
            JsonValue::Null(v) => v.0.wf() && v.0.is_text(),
            JsonValue::Bool(v) => v.0.wf() && v.0.is_text(),
            JsonValue::Number(v) => v.0.wf() && v.0.is_text(),
            JsonValue::String(v) => v.0.wf() && v.0.is_text(),
            JsonValue::Array(v) => v.span.wf() && v.span.is_text() && forall|k: int|
                0 <= k < v.elems@.len() ==> (#[trigger] v.elems@[k]).wf(),
            JsonValue::Object(v) => v.span.wf() && v.span.is_text() && forall|k: int|
                0 <= k < v.elems@.len() ==> (#[trigger] v.elems@[k]).wf_kv(),
        }
    }
}

impl KeyValue {
    /// Every span of the pair is a well-formed text span.
    pub open spec fn wf_kv(self) -> bool
        decreases self,
    {
        self.span.wf() && self.span.is_text() && self.key.0.wf() && self.key.0.is_text()
            && self.value.wf()
    }

    /// Returns the indices of the key value pair, excluding the value.
    pub fn without_value(&self) -> (r: RangeSet)
        requires
            self.wf_kv(),
        ensures
            r.wf(),
            r.to_set() =~= self.span.idx_set().difference(self.value.spec_span().idx_set()),
    {
        self.span.indices.difference(&self.value.span_of().indices)
    }
}

impl JsonValue {
    /// The span of the value.
    pub open spec fn spec_span(self) -> Span<str> {
        match self {
            JsonValue::Null(v) => v.0,
            JsonValue::Bool(v) => v.0,
            JsonValue::Number(v) => v.0,
            JsonValue::String(v) => v.0,
            JsonValue::Array(v) => v.span,
            JsonValue::Object(v) => v.span,
        }
    }

    /// Returns a reference to the span corresponding to the value.
    pub fn span_of(&self) -> (r: &Span<str>)
        ensures
            *r == self.spec_span(),
    {
        match self {
            JsonValue::Null(v) => &v.0,
            JsonValue::Bool(v) => &v.0,
            JsonValue::Number(v) => &v.0,
            JsonValue::String(v) => &v.0,
            JsonValue::Array(v) => &v.span,
            JsonValue::Object(v) => &v.span,
        }
    }

    /// Returns the span corresponding to the value.
    pub fn into_span(self) -> (r: Span<str>)
        ensures
            r == self.spec_span(),
    {
        match self {
            JsonValue::Null(v) => v.0,
            JsonValue::Bool(v) => v.0,
            JsonValue::Number(v) => v.0,
            JsonValue::String(v) => v.0,
            JsonValue::Array(v) => v.span,
            JsonValue::Object(v) => v.span,
        }
    }

    /// Get a reference to the value using the given dotted path.
    ///
    /// Each path segment is an object key (compared by its exact bytes)
    /// or a decimal array index; lookup fails softly, returning `None`,
    /// as soon as a segment does not match the current node's shape.
    pub fn get<'a>(&'a self, path: &str) -> (r: Option<&'a JsonValue>)
        ensures
            match r {
                Some(v) => spec_get_value(*self, path.spec_bytes()) == Some(*v),
                None => spec_get_value(*self, path.spec_bytes()) is None,
            },
    {
        get_value(self, path.as_bytes())
    }
}

impl Spanned<str> for JsonValue {
    fn span(&self) -> &Span<str> {
        self.span_of()
    }
}

impl Spanned<str> for Null {
    fn span(&self) -> &Span<str> {
        &self.0
    }
}

impl Spanned<str> for Bool {
    fn span(&self) -> &Span<str> {
        &self.0
    }
}

impl Spanned<str> for Number {
    fn span(&self) -> &Span<str> {
        &self.0
    }
}

impl Spanned<str> for String {
    fn span(&self) -> &Span<str> {
        &self.0
    }
}

impl Spanned<str> for JsonKey {
    fn span(&self) -> &Span<str> {
        &self.0
    }
}

impl Spanned<str> for KeyValue {
    fn span(&self) -> &Span<str> {
        &self.span
    }
}

impl Spanned<str> for Array {
    fn span(&self) -> &Span<str> {
        &self.span
    }
}

impl Spanned<str> for Object {
    fn span(&self) -> &Span<str> {
        &self.span
    }
}

/// The position of the first `.` at or after `i`, or the length of the
/// path.
pub open spec fn dot_pos(p: Seq<u8>, i: int) -> int
    decreases p.len() - i,
{
    if i < 0 || i >= p.len() {
        p.len() as int
    } else if p[i] == 46 {
        i
    } else {
        dot_pos(p, i + 1)
    }
}

/// The first index in the pair sequence whose key content equals the
/// segment, or `-1` if there is none.
pub open spec fn obj_key_idx(elems: Seq<KeyValue>, seg: Seq<u8>) -> int
    decreases elems.len(),
{
    if elems.len() == 0 {
        -1
    } else if elems[0].key.0.content() == seg {
        0
    } else {
        let r = obj_key_idx(elems.drop_first(), seg);
        if r < 0 {
            -1
        } else {
            r + 1
        }
    }
}

/// `obj_key_idx` returns exactly the first matching index, and `-1`
/// exactly when no pair matches.
pub proof fn lemma_obj_key_idx(elems: Seq<KeyValue>, seg: Seq<u8>)
    ensures
        obj_key_idx(elems, seg) >= 0 ==> {
            let k = obj_key_idx(elems, seg);
            &&& 0 <= k < elems.len()
            &&& elems[k].key.0.content() == seg
            &&& forall|j: int| 0 <= j < k ==> (#[trigger] elems[j]).key.0.content() != seg
        },
        obj_key_idx(elems, seg) < 0 ==> forall|j: int|
            0 <= j < elems.len() ==> (#[trigger] elems[j]).key.0.content() != seg,
    decreases elems.len(),
{
    if elems.len() > 0 {
        let rest = elems.drop_first();
        lemma_obj_key_idx(rest, seg);
        assert(forall|j: int| 0 <= j < rest.len() ==> #[trigger] rest[j] == elems[j + 1]);
        if elems[0].key.0.content() == seg {
        } else {
            let r = obj_key_idx(rest, seg);
            if r >= 0 {
                assert(elems[r + 1] == rest[r]);
                assert forall|j: int| 0 <= j < r + 1 implies (#[trigger] elems[j]).key.0.content()
                    != seg by {
                    if j > 0 {
                        assert(rest[j - 1] == elems[j]);
                        assert(rest[j - 1].key.0.content() != seg);
                    }
                }
            } else {
                assert forall|j: int| 0 <= j < elems.len() implies (
                #[trigger] elems[j]).key.0.content() != seg by {
                    if j > 0 {
                        assert(rest[j - 1] == elems[j]);
                        assert(rest[j - 1].key.0.content() != seg);
                    }
                }
            }
        }
    }
}

/// Looks a value up in an object by a dotted path.
pub open spec fn spec_get_obj(o: Object, p: Seq<u8>) -> Option<JsonValue>
    decreases o,
    via spec_get_obj_dec
{
    let d = dot_pos(p, 0);
    let seg = p.subrange(0, d);
    let k = obj_key_idx(o.elems@, seg);
    if k < 0 {
        None
    } else if d == p.len() {
        Some(o.elems@[k].value)
    } else {
        spec_get_value(o.elems@[k].value, p.skip(d + 1))
    }
}

/// Looks a value up in an array by a dotted path whose first segment is
/// a decimal index.
pub open spec fn spec_get_arr(a: Array, p: Seq<u8>) -> Option<JsonValue>
    decreases a,
    via spec_get_arr_dec
{
    let d = dot_pos(p, 0);
    let seg = p.subrange(0, d);
    if is_digits(seg) && dec_val(seg) <= usize::MAX && dec_val(seg) < a.elems@.len() {
        if d == p.len() {
            Some(a.elems@[dec_val(seg)])
        } else {
            spec_get_value(a.elems@[dec_val(seg)], p.skip(d + 1))
        }
    } else {
        None
    }
}

#[via_fn]
proof fn spec_get_obj_dec(o: Object, p: Seq<u8>) {
    broadcast use vstd::std_specs::vec::axiom_vec_decreases_to_view;

    let d = dot_pos(p, 0);
    let seg = p.subrange(0, d);
    let k = obj_key_idx(o.elems@, seg);
    if k >= 0 && d != p.len() {
        lemma_obj_key_idx(o.elems@, seg);
        assert(decreases_to!(o => o.elems));
        assert(decreases_to!(o.elems => o.elems@));
        assert(decreases_to!(o.elems@ => o.elems@[k]));
        assert(decreases_to!(o.elems@[k] => o.elems@[k].value));
    }
}

#[via_fn]
proof fn spec_get_arr_dec(a: Array, p: Seq<u8>) {
    broadcast use vstd::std_specs::vec::axiom_vec_decreases_to_view;

    let d = dot_pos(p, 0);
    let seg = p.subrange(0, d);
    if is_digits(seg) && dec_val(seg) <= usize::MAX && dec_val(seg) < a.elems@.len() && d
        != p.len() {
        crate::helpers::lemma_dec_val_nonneg(seg);
        let k = dec_val(seg);
        assert(decreases_to!(a => a.elems));
        assert(decreases_to!(a.elems => a.elems@));
        assert(decreases_to!(a.elems@ => a.elems@[k]));
    }
}

/// Looks a value up by a dotted path: only objects and arrays can be
/// descended into.
pub open spec fn spec_get_value(v: JsonValue, p: Seq<u8>) -> Option<JsonValue>
    decreases v,
{
    match v {
        JsonValue::Object(o) => spec_get_obj(o, p),
        JsonValue::Array(a) => spec_get_arr(a, p),
        _ => None,
    }
}

/// Finds the first `.` in the path, or its length.
fn find_dot(p: &[u8]) -> (r: usize)
    ensures
        r as int == dot_pos(p@, 0),
        r <= p@.len(),
        r < p@.len() ==> p@[r as int] == 46,
        forall|j: int| 0 <= j < r ==> p@[j] != 46,
    decreases p@.len(),
{
    let n = p.len();
    let mut i: usize = 0;
    while i < n
        invariant
            0 <= i <= n == p@.len(),
            dot_pos(p@, 0) == dot_pos(p@, i as int),
            forall|j: int| 0 <= j < i ==> p@[j] != 46,
        decreases n - i,
    {
        if p[i] == 46 {
            return i;
        }
        i = i + 1;
    }
    n
}

/// Looks a value up in a value tree by a dotted path.
fn get_value<'a>(v: &'a JsonValue, p: &[u8]) -> (r: Option<&'a JsonValue>)
    ensures
        match r {
            Some(x) => spec_get_value(*v, p@) == Some(*x),
            None => spec_get_value(*v, p@) is None,
        },
    decreases *v,
{
    match v {
        JsonValue::Object(o) => get_obj(o, p),
        JsonValue::Array(a) => get_arr(a, p),
        _ => None,
    }
}

/// Looks a value up in an object by a dotted path.
fn get_obj<'a>(o: &'a Object, p: &[u8]) -> (r: Option<&'a JsonValue>)
    ensures
        match r {
            Some(x) => spec_get_obj(*o, p@) == Some(*x),
            None => spec_get_obj(*o, p@) is None,
        },
    decreases *o,
{
    let d = find_dot(p);
    let seg = &p[0..d];
    let ghost segs = p@.subrange(0, d as int);
    let mut k: usize = 0;
    while k < o.elems.len()
        invariant
            0 <= k <= o.elems@.len(),
            segs == p@.subrange(0, dot_pos(p@, 0)),
            seg@ == segs,
            d as int == dot_pos(p@, 0),
            d <= p@.len(),
            forall|j: int| 0 <= j < k ==> (#[trigger] o.elems@[j]).key.0.content() != segs,
        decreases o.elems@.len() - k,
    {
        let kv = &o.elems[k];
        if bytes_eq(kv.key.0.data(), seg) {
            proof {
                lemma_obj_key_idx(o.elems@, segs);
                let f = obj_key_idx(o.elems@, segs);
                if f < 0 {
                    assert(o.elems@[k as int].key.0.content() != segs);
                    assert(false);
                }
                if f < k {
                    assert(o.elems@[f].key.0.content() != segs);
                    assert(false);
                }
                if f > k {
                    assert(forall|j: int| 0 <= j < f ==> (#[trigger] o.elems@[j]).key.0.content()
                        != segs);
                    assert(false);
                }
            }
            if d == p.len() {
                return Some(&kv.value);
            }
            return get_value(&kv.value, &p[d + 1..p.len()]);
        }
        k = k + 1;
    }
    proof {
        lemma_obj_key_idx(o.elems@, segs);
        if obj_key_idx(o.elems@, segs) >= 0 {
            let f = obj_key_idx(o.elems@, segs);
            assert(o.elems@[f].key.0.content() != segs);
            assert(false);
        }
    }
    None
}

/// Looks a value up in an array by a dotted path whose first segment is
/// a decimal index.
fn get_arr<'a>(a: &'a Array, p: &[u8]) -> (r: Option<&'a JsonValue>)
    ensures
        match r {
            Some(x) => spec_get_arr(*a, p@) == Some(*x),
            None => spec_get_arr(*a, p@) is None,
        },
    decreases *a,
{
    let d = find_dot(p);
    let seg = &p[0..d];
    match parse_dec(seg) {
        Option::None => None,
        Option::Some(idx) => {
            if idx >= a.elems.len() {
                return None;
            }
            if d == p.len() {
                return Some(&a.elems[idx]);
            }
            get_value(&a.elems[idx], &p[d + 1..p.len()])
        },
    }
}

impl Object {
    /// Get a reference to the value using the given dotted path.
    pub fn get<'a>(&'a self, path: &str) -> (r: Option<&'a JsonValue>)
        ensures
            match r {
                Some(v) => spec_get_obj(*self, path.spec_bytes()) == Some(*v),
                None => spec_get_obj(*self, path.spec_bytes()) is None,
            },
    {
        get_obj(self, path.as_bytes())
    }

    /// Returns the value at the given key of the object.
    ///
    /// The key must be present: absence is a contract violation.
    pub fn index<'a>(&'a self, key: &str) -> (r: &'a JsonValue)
        requires
            spec_get_obj(*self, key.spec_bytes()) is Some,
        ensures
            spec_get_obj(*self, key.spec_bytes()) == Some(*r),
    {
        match self.get(key) {
            Option::Some(v) => v,
            Option::None => {
                proof {
                    assert(false);
                }
                vstd::pervasive::unreached()
            },
        }
    }

    /// Returns the indices of the object, excluding the key value pairs.
    pub fn without_pairs(&self) -> (r: RangeSet)
        requires
            self.span.wf(),
            forall|k: int| 0 <= k < self.elems@.len() ==> (#[trigger] self.elems@[k]).span.wf(),
        ensures
            r.wf(),
            r.to_set() =~= self.span.idx_set().difference(kv_idx_union(self.elems@)),
    {
        let mut indices = self.span.indices.clone();
        let ghost base = self.span.idx_set();
        let mut i: usize = 0;
        proof {
            assert(self.elems@.take(0) =~= Seq::<KeyValue>::empty());
            assert(indices.to_set() =~= base.difference(kv_idx_union(self.elems@.take(0))));
        }
        while i < self.elems.len()
            invariant
                self.span.wf(),
                forall|k: int| 0 <= k < self.elems@.len() ==> (#[trigger] self.elems@[k]).span.wf(),
                base == self.span.idx_set(),
                0 <= i <= self.elems@.len(),
                indices.wf(),
                indices.to_set() =~= base.difference(kv_idx_union(self.elems@.take(i as int))),
            decreases self.elems@.len() - i,
        {
            let kv = &self.elems[i];
            let next = indices.difference(&kv.span.indices);
            proof {
                assert(self.elems@.take(i + 1).drop_last() =~= self.elems@.take(i as int));
                assert(self.elems@.take(i + 1).last() == self.elems@[i as int]);
                assert(next.to_set() =~= base.difference(kv_idx_union(self.elems@.take(i + 1))));
            }
            indices = next;
            i = i + 1;
        }
        proof {
            assert(self.elems@.take(self.elems@.len() as int) =~= self.elems@);
        }
        indices
    }
}

/// The union of the index sets of the pair spans.
pub open spec fn kv_idx_union(elems: Seq<KeyValue>) -> Set<int>
    decreases elems.len(),
{
    if elems.len() == 0 {
        Set::empty()
    } else {
        kv_idx_union(elems.drop_last()).union(elems.last().span.idx_set())
    }
}

impl Array {
    /// Get a reference to the value using the given dotted path.
    pub fn get<'a>(&'a self, path: &str) -> (r: Option<&'a JsonValue>)
        ensures
            match r {
                Some(v) => spec_get_arr(*self, path.spec_bytes()) == Some(*v),
                None => spec_get_arr(*self, path.spec_bytes()) is None,
            },
    {
        get_arr(self, path.as_bytes())
    }

    /// Returns the value at the given index of the array.
    ///
    /// The index must be in bounds: anything else is a contract
    /// violation.
    pub fn index(&self, index: usize) -> (r: &JsonValue)
        requires
            index < self.elems@.len(),
        ensures
            *r == self.elems@[index as int],
    {
        &self.elems[index]
    }

    /// Returns the indices of the array, excluding the values and
    /// separators: only the opening and closing bracket positions
    /// remain.
    pub fn without_values(&self) -> (r: RangeSet)
        requires
            self.span.wf(),
            self.span.content().len() > 0,
        ensures
            r.wf(),
            r.to_set() =~= Set::<int>::empty().insert(choose_min(self.span.idx_set())).insert(
                choose_max(self.span.idx_set()),
            ),
    {
        proof {
            crate::range::lemma_to_set_card(self.span.indices@);
        }
        let lo = match self.span.indices.min() {
            Option::Some(m) => m,
            Option::None => {
                proof {
                    assert(false);
                }
                vstd::pervasive::unreached()
            },
        };
        let hi = match self.span.indices.max() {
            Option::Some(m) => m,
            Option::None => {
                proof {
                    assert(false);
                }
                vstd::pervasive::unreached()
            },
        };
        proof {
            lemma_choose_min_max(self.span.idx_set(), lo as int, hi as int);
            if self.span.indices@.len() == 0 {
                assert(self.span.idx_set() =~= Set::<int>::empty());
            }
            crate::range::lemma_to_set_bounds(self.span.indices@);
            assert(hi < self.span.indices@[self.span.indices@.len() - 1].end);
        }
        let low_piece = RangeSet::from_range(crate::range::ByteRange { start: lo, end: lo + 1 });
        let high_piece = RangeSet::from_range(crate::range::ByteRange { start: hi, end: hi + 1 });
        let r = low_piece.union(&high_piece);
        proof {
            assert(r.to_set() =~= Set::<int>::empty().insert(lo as int).insert(hi as int));
        }
        r
    }
}

/// Every span of the value tree can shift right by `off` without
/// overflowing.
pub open spec fn jvalue_can_shift(v: JsonValue, off: int) -> bool
    decreases v,
{
    match v {
        JsonValue::Null(x) => x.0.can_shift(off),
        JsonValue::Bool(x) => x.0.can_shift(off),
        JsonValue::Number(x) => x.0.can_shift(off),
        JsonValue::String(x) => x.0.can_shift(off),
        JsonValue::Array(x) => x.span.can_shift(off) && forall|k: int|
            0 <= k < x.elems@.len() ==> jvalue_can_shift(#[trigger] x.elems@[k], off),
        JsonValue::Object(x) => x.span.can_shift(off) && forall|k: int|
            0 <= k < x.elems@.len() ==> jpair_can_shift(#[trigger] x.elems@[k], off),
    }
}

/// Every span of the pair can shift right by `off` without overflowing.
pub open spec fn jpair_can_shift(kv: KeyValue, off: int) -> bool
    decreases kv,
{
    kv.span.can_shift(off) && kv.key.0.can_shift(off) && jvalue_can_shift(kv.value, off)
}

/// Every span of `b` references the bytes of the corresponding span of
/// `a`, with all indices shifted right by `off`.
pub open spec fn jvalue_shifted(a: JsonValue, b: JsonValue, off: int) -> bool
    decreases a,
{
    match a {
        JsonValue::Null(x) => b is Null && crate::span_shifted(x.0, b->Null_0.0, off),
        JsonValue::Bool(x) => b is Bool && crate::span_shifted(x.0, b->Bool_0.0, off),
        JsonValue::Number(x) => b is Number && crate::span_shifted(x.0, b->Number_0.0, off),
        JsonValue::String(x) => b is String && crate::span_shifted(x.0, b->String_0.0, off),
        JsonValue::Array(x) => {
            &&& b is Array
            &&& crate::span_shifted(x.span, b->Array_0.span, off)
            &&& b->Array_0.elems@.len() == x.elems@.len()
            &&& forall|k: int| 0 <= k < x.elems@.len() ==> jvalue_shifted(
                #[trigger] x.elems@[k],
                b->Array_0.elems@[k],
                off,
            )
        },
        JsonValue::Object(x) => {
            &&& b is Object
            &&& crate::span_shifted(x.span, b->Object_0.span, off)
            &&& b->Object_0.elems@.len() == x.elems@.len()
            &&& forall|k: int| 0 <= k < x.elems@.len() ==> jpair_shifted(
                #[trigger] x.elems@[k],
                b->Object_0.elems@[k],
                off,
            )
        },
    }
}

/// Every span of `b` references the bytes of the corresponding span of
/// `a`, with all indices shifted right by `off`.
pub open spec fn jpair_shifted(a: KeyValue, b: KeyValue, off: int) -> bool
    decreases a,
{
    &&& crate::span_shifted(a.span, b.span, off)
    &&& crate::span_shifted(a.key.0, b.key.0, off)
    &&& jvalue_shifted(a.value, b.value, off)
}

/// Builds a copy of a text span with its indices shifted right.
fn shifted_span(sp: &Span<str>, offset: usize) -> (r: Span<str>)
    requires
        sp.wf(),
        sp.can_shift(offset as int),
    ensures
        r.wf(),
        crate::span_shifted(*sp, r, offset as int),
        sp.is_text() ==> r.is_text(),
{
    let mut c = sp.clone();
    c.offset(offset);
    c
}

/// Builds a copy of the value tree with every span's indices shifted
/// right.
fn shifted_value(v: &JsonValue, offset: usize) -> (r: JsonValue)
    requires
        v.wf(),
        jvalue_can_shift(*v, offset as int),
    ensures
        r.wf(),
        jvalue_shifted(*v, r, offset as int),
    decreases *v,
{
    match v {
        JsonValue::Null(x) => JsonValue::Null(Null(shifted_span(&x.0, offset))),
        JsonValue::Bool(x) => JsonValue::Bool(Bool(shifted_span(&x.0, offset))),
        JsonValue::Number(x) => JsonValue::Number(Number(shifted_span(&x.0, offset))),
        JsonValue::String(x) => JsonValue::String(String(shifted_span(&x.0, offset))),
        JsonValue::Array(x) => {
            let span = shifted_span(&x.span, offset);
            let mut elems: Vec<JsonValue> = Vec::new();
            let mut i: usize = 0;
            while i < x.elems.len()
                invariant
                    *v == JsonValue::Array(*x),
                    (JsonValue::Array(*x)).wf(),
                    jvalue_can_shift(JsonValue::Array(*x), offset as int),
                    0 <= i <= x.elems@.len(),
                    elems@.len() == i,
                    forall|k: int| 0 <= k < i ==> (#[trigger] elems@[k]).wf() && jvalue_shifted(
                        x.elems@[k],
                        elems@[k],
                        offset as int,
                    ),
                decreases x.elems@.len() - i,
            {
                proof {
                    broadcast use vstd::std_specs::vec::axiom_vec_decreases_to_view;

                    assert(x.elems@[i as int].wf());
                    assert(jvalue_can_shift(x.elems@[i as int], offset as int));
                    assert(*v == JsonValue::Array(*x));
                    assert(decreases_to!(*v => *x));
                    assert(decreases_to!(*x => x.elems));
                    assert(decreases_to!(x.elems => x.elems@));
                    assert(decreases_to!(x.elems@ => x.elems@[i as int]));
                }
                let e = shifted_value(&x.elems[i], offset);
                elems.push(e);
                i = i + 1;
            }
            JsonValue::Array(Array { span, elems })
        },
        JsonValue::Object(x) => {
            let span = shifted_span(&x.span, offset);
            let mut elems: Vec<KeyValue> = Vec::new();
            let mut i: usize = 0;
            while i < x.elems.len()
                invariant
                    *v == JsonValue::Object(*x),
                    (JsonValue::Object(*x)).wf(),
                    jvalue_can_shift(JsonValue::Object(*x), offset as int),
                    0 <= i <= x.elems@.len(),
                    elems@.len() == i,
                    forall|k: int| 0 <= k < i ==> (#[trigger] elems@[k]).wf_kv() && jpair_shifted(
                        x.elems@[k],
                        elems@[k],
                        offset as int,
                    ),
                decreases x.elems@.len() - i,
            {
                proof {
                    broadcast use vstd::std_specs::vec::axiom_vec_decreases_to_view;

                    assert(x.elems@[i as int].wf_kv());
                    assert(jpair_can_shift(x.elems@[i as int], offset as int));
                    assert(*v == JsonValue::Object(*x));
                    assert(decreases_to!(*v => *x));
                    assert(decreases_to!(*x => x.elems));
                    assert(decreases_to!(x.elems => x.elems@));
                    assert(decreases_to!(x.elems@ => x.elems@[i as int]));
                    assert(decreases_to!(x.elems@[i as int] => x.elems@[i as int].value));
                }
                let kv = &x.elems[i];
                let new_kv = KeyValue {
                    span: shifted_span(&kv.span, offset),
                    key: JsonKey(shifted_span(&kv.key.0, offset)),
                    value: shifted_value(&kv.value, offset),
                };
                elems.push(new_kv);
                i = i + 1;
            }
            JsonValue::Object(Object { span, elems })
        },
    }
}

impl JsonValue {
    /// Shifts every span of the value tree by the given offset.
    pub fn offset(&mut self, offset: usize)
        requires
            old(self).wf(),
            jvalue_can_shift(*old(self), offset as int),
        ensures
            final(self).wf(),
            jvalue_shifted(*old(self), *final(self), offset as int),
    {
        let mut r = shifted_value(&*self, offset);
        core::mem::swap(self, &mut r);
    }
}

impl Null {
    /// Returns the span corresponding to the value.
    pub fn into_span(self) -> (r: Span<str>)
        ensures
            r == self.0,
    {
        self.0
    }

    /// Shifts the value's own span by the given offset.
    pub fn offset(&mut self, offset: usize)
        requires
            old(self).0.wf(),
            old(self).0.can_shift(offset as int),
        ensures
            final(self).0.wf(),
            crate::span_shifted(old(self).0, final(self).0, offset as int),
    {
        self.0.offset(offset);
    }
}

impl Bool {
    /// Returns the span corresponding to the value.
    pub fn into_span(self) -> (r: Span<str>)
        ensures
            r == self.0,
    {
        self.0
    }

    /// Shifts the value's own span by the given offset.
    pub fn offset(&mut self, offset: usize)
        requires
            old(self).0.wf(),
            old(self).0.can_shift(offset as int),
        ensures
            final(self).0.wf(),
            crate::span_shifted(old(self).0, final(self).0, offset as int),
    {
        self.0.offset(offset);
    }
}

impl Number {
    /// Returns the span corresponding to the value.
    pub fn into_span(self) -> (r: Span<str>)
        ensures
            r == self.0,
    {
        self.0
    }

    /// Shifts the value's own span by the given offset.
    pub fn offset(&mut self, offset: usize)
        requires
            old(self).0.wf(),
            old(self).0.can_shift(offset as int),
        ensures
            final(self).0.wf(),
            crate::span_shifted(old(self).0, final(self).0, offset as int),
    {
        self.0.offset(offset);
    }
}

impl String {
    /// Returns the span corresponding to the value.
    pub fn into_span(self) -> (r: Span<str>)
        ensures
            r == self.0,
    {
        self.0
    }

    /// Shifts the value's own span by the given offset.
    pub fn offset(&mut self, offset: usize)
        requires
            old(self).0.wf(),
            old(self).0.can_shift(offset as int),
        ensures
            final(self).0.wf(),
            crate::span_shifted(old(self).0, final(self).0, offset as int),
    {
        self.0.offset(offset);
    }
}

impl JsonKey {
    /// Returns the span corresponding to the key.
    pub fn into_span(self) -> (r: Span<str>)
        ensures
            r == self.0,
    {
        self.0
    }

    /// Shifts the key's own span by the given offset.
    pub fn offset(&mut self, offset: usize)
        requires
            old(self).0.wf(),
            old(self).0.can_shift(offset as int),
        ensures
            final(self).0.wf(),
            crate::span_shifted(old(self).0, final(self).0, offset as int),
    {
        self.0.offset(offset);
    }
}

/// The least element of a non-empty set of indices.
pub open spec fn choose_min(s: Set<int>) -> int {
    choose|m: int| s.contains(m) && forall|x: int| s.contains(x) ==> m <= x
}

/// The greatest element of a non-empty set of indices.
pub open spec fn choose_max(s: Set<int>) -> int {
    choose|m: int| s.contains(m) && forall|x: int| s.contains(x) ==> x <= m
}

/// A witnessed least and greatest element are the chosen ones.
pub proof fn lemma_choose_min_max(s: Set<int>, lo: int, hi: int)
    requires
        s.contains(lo),
        forall|x: int| s.contains(x) ==> lo <= x,
        s.contains(hi),
        forall|x: int| s.contains(x) ==> x <= hi,
    ensures
        choose_min(s) == lo,
        choose_max(s) == hi,
{
    assert(s.contains(choose_min(s)) && forall|x: int| s.contains(x) ==> choose_min(s) <= x) by {
        assert(s.contains(lo) && forall|x: int| s.contains(x) ==> lo <= x);
    }
    assert(s.contains(choose_max(s)) && forall|x: int| s.contains(x) ==> x <= choose_max(s)) by {
        assert(s.contains(hi) && forall|x: int| s.contains(x) ==> x <= hi);
    }
}


impl KeyValue {
    /// Shifts the pair's own span by the given offset, leaving the key
    /// and value spans unchanged.
    pub fn offset(&mut self, offset: usize)
        requires
            old(self).span.wf(),
            old(self).span.can_shift(offset as int),
        ensures
            final(self).span.wf(),
            crate::span_shifted(old(self).span, final(self).span, offset as int),
            final(self).key == old(self).key,
            final(self).value == old(self).value,
    {
        self.span.offset(offset);
    }

    /// Returns the span corresponding to the pair.
    pub fn into_span(self) -> (r: Span<str>)
        ensures
            r == self.span,
    {
        self.span
    }
}

impl Array {
    /// Shifts the array's own span by the given offset, leaving the
    /// element spans unchanged.
    pub fn offset(&mut self, offset: usize)
        requires
            old(self).span.wf(),
            old(self).span.can_shift(offset as int),
        ensures
            final(self).span.wf(),
            crate::span_shifted(old(self).span, final(self).span, offset as int),
            final(self).elems == old(self).elems,
    {
        self.span.offset(offset);
    }

    /// Returns the span corresponding to the array.
    pub fn into_span(self) -> (r: Span<str>)
        ensures
            r == self.span,
    {
        self.span
    }
}

impl Object {
    /// Shifts the object's own span by the given offset, leaving the
    /// pair spans unchanged.
    pub fn offset(&mut self, offset: usize)
        requires
            old(self).span.wf(),
            old(self).span.can_shift(offset as int),
        ensures
            final(self).span.wf(),
            crate::span_shifted(old(self).span, final(self).span, offset as int),
            final(self).elems == old(self).elems,
    {
        self.span.offset(offset);
    }

    /// Returns the span corresponding to the object.
    pub fn into_span(self) -> (r: Span<str>)
        ensures
            r == self.span,
    {
        self.span
    }
}


/// Array elements and object member values sit below their enclosing
/// value in the termination order.
pub proof fn lemma_value_elem_decreases(v: JsonValue)
    ensures
        v is Array ==> forall|k: int|
            0 <= k < v->Array_0.elems@.len() ==> (decreases_to!(v => v->Array_0.elems@[k])),
        v is Object ==> forall|k: int|
            0 <= k < v->Object_0.elems@.len() ==> (decreases_to!(
                v => v->Object_0.elems@[k].value,
            )),
        v is Object ==> forall|k: int|
            0 <= k < v->Object_0.elems@.len() ==> (decreases_to!(v => v->Object_0.elems@[k])),
{
    broadcast use vstd::std_specs::vec::axiom_vec_decreases_to_view;

    match v {
        JsonValue::Array(x) => {
            assert forall|k: int| 0 <= k < x.elems@.len() implies (decreases_to!(
                v => v->Array_0.elems@[k],
            )) by {
                assert(decreases_to!(v => x));
                assert(decreases_to!(x => x.elems));
                assert(decreases_to!(x.elems => x.elems@));
                assert(decreases_to!(x.elems@ => x.elems@[k]));
            }
        },
        JsonValue::Object(x) => {
            assert forall|k: int| 0 <= k < x.elems@.len() implies (decreases_to!(
                v => v->Object_0.elems@[k],
            )) && (decreases_to!(v => v->Object_0.elems@[k].value)) by {
                assert(decreases_to!(v => x));
                assert(decreases_to!(x => x.elems));
                assert(decreases_to!(x.elems => x.elems@));
                assert(decreases_to!(x.elems@ => x.elems@[k]));
                assert(decreases_to!(x.elems@[k] => x.elems@[k].value));
            }
        },
        _ => {},
    }
}

} // verus!
