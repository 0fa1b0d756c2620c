//! Parsing span information.
//!
//! Every recognized syntactic unit of an HTTP message or a JSON document is
//! represented as a span: a reference to a byte range (or a set of byte
//! ranges) within an immutable, shared source buffer. Consumers use spans to
//! slice out exact bytes, compare them, or compute complementary range sets
//! for selective redaction.

use vstd::prelude::*;

pub mod buffer;
pub mod helpers;
pub mod http;
pub mod json;
pub mod range;

use core::marker::PhantomData;

verus! {

use crate::buffer::{bytes_view, bytes_clone, bytes_as_slice, bytes_slice};
use crate::range::{ByteRange, RangeSet, ranges_total_len, lemma_to_set_bounds, lemma_to_set_card};
use vstd::utf8::valid_utf8;
use vstd::string::StringSliceAdditionalSpecFns;

/// The kind of a parsing failure.
#[derive(Clone, Copy, Debug, PartialEq, Eq, Structural)]
pub enum ErrorKind {
    /// The head of the message is incomplete or malformed.
    MalformedHead,
    /// A `Transfer-Encoding` header is present; that framing is unsupported.
    UnsupportedFraming,
    /// A `Content-Length` value is invalid, or the body range it implies
    /// exceeds the source buffer.
    InvalidLength,
    /// A response has no length signal and is not a bodyless status.
    AmbiguousBody,
    /// Bytes that must form text are not valid UTF-8.
    InvalidUtf8,
    /// The JSON text violates the grammar.
    JsonSyntax,
    /// The message has more headers than the supported maximum.
    HeaderCapExceeded,
}

/// A parsing error.
///
/// For JSON syntax errors the line and column (both 1-based) locate the
/// failure in the source text; for all other kinds they are zero.
#[derive(Clone, Copy, Debug, PartialEq, Eq, Structural)]
pub struct ParseError {
    /// What went wrong.
    pub kind: ErrorKind,
    /// The line of the failure, 1-based, or zero.
    pub line: usize,
    /// The column of the failure, 1-based, or zero.
    pub column: usize,
}

impl ParseError {
    /// Creates an error of the given kind with no position.
    pub fn new(kind: ErrorKind) -> (r: ParseError)
        ensures
            r == (ParseError { kind, line: 0, column: 0 }),
    {
        ParseError { kind, line: 0, column: 0 }
    }

    /// Returns the kind of the error.
    pub fn kind(&self) -> (r: ErrorKind)
        ensures
            r == self.kind,
    {
        self.kind
    }
}

/// A span of a source buffer.
///
/// The marker type records whether the referenced bytes are plain bytes
/// (`[u8]`, the default) or validated UTF-8 text (`str`).
#[derive(Debug)]
pub struct Span<T: ?Sized = [u8]> {
    /// The referenced bytes, sharing the source buffer's allocation.
    pub data: bytes::Bytes,
    /// The set of indices within the source buffer.
    pub indices: RangeSet,
    /// Records the byte/text kind of the span.
    pub marker: PhantomData<T>,
}

/// The second span references the same bytes as the first, with every
/// index shifted right by `off`.
pub open spec fn span_shifted<T: ?Sized>(a: Span<T>, b: Span<T>, off: int) -> bool {
    &&& b.content() == a.content()
    &&& forall|x: int| #[trigger] b.idx_set().contains(x) <==> a.idx_set().contains(x - off)
}

/// A spanned value.
pub trait Spanned<T: ?Sized = [u8]> {
    /// Get a reference to the span of the value.
    fn span(&self) -> &Span<T>;
}

impl<T: ?Sized> Clone for Span<T> {
    fn clone(&self) -> (r: Self)
        ensures
            r.content() == self.content(),
            r.indices@ == self.indices@,
    {
        Span { data: bytes_clone(&self.data), indices: self.indices.clone(), marker: PhantomData }
    }
}

impl<T: ?Sized> Span<T> {
    /// The bytes the span references, in order.
    pub open spec fn content(self) -> Seq<u8> {
        bytes_view(self.data)
    }

    /// The set of source-buffer indices the span covers.
    pub open spec fn idx_set(self) -> Set<int> {
        self.indices.to_set()
    }

    /// The span is well formed: its index set is normalized and covers as
    /// many indices as it references bytes.
    pub open spec fn wf(self) -> bool {
        &&& self.indices.wf()
        &&& ranges_total_len(self.indices@) == self.content().len()
    }

    /// The referenced bytes are valid UTF-8 text.
    pub open spec fn is_text(self) -> bool {
        valid_utf8(self.content())
    }

    /// The span's indices can shift right by `offset` without
    /// overflowing `usize`.
    pub open spec fn can_shift(self, offset: int) -> bool {
        self.indices@.len() > 0 ==> self.indices@.last().end + offset <= usize::MAX
    }

    /// The span references the bytes of `src` selected by its index set,
    /// which is the single contiguous range `start..end`.
    pub open spec fn is_slice_of(self, src: Seq<u8>, start: int, end: int) -> bool {
        &&& 0 <= start <= end <= src.len()
        &&& self.content() == src.subrange(start, end)
        &&& self.idx_set() == vstd::set_lib::set_int_range(start, end)
        &&& self.indices@ == if end > start {
            seq![ByteRange { start: start as usize, end: end as usize }]
        } else {
            Seq::<ByteRange>::empty()
        }
    }

    /// Returns a reference to the span data.
    pub fn data(&self) -> (r: &[u8])
        ensures
            r@ == self.content(),
    {
        bytes_as_slice(&self.data)
    }

    /// Converts the span into its referenced bytes.
    pub fn to_bytes(self) -> (r: bytes::Bytes)
        ensures
            bytes_view(r) == self.content(),
    {
        self.data
    }

    /// Returns the indices within the source data.
    pub fn indices(&self) -> (r: &RangeSet)
        ensures
            r == &self.indices,
    {
        &self.indices
    }

    /// Returns the length of the span in bytes.
    ///
    /// Just like `str::len()`, this is not necessarily the number of
    /// characters.
    pub fn len(&self) -> (r: usize)
        requires
            self.wf(),
        ensures
            r == self.content().len(),
            r == self.idx_set().len(),
    {
        proof {
            lemma_to_set_card(self.indices@);
        }
        self.indices.len()
    }

    /// Returns `true` if the span is empty.
    pub fn is_empty(&self) -> (r: bool)
        requires
            self.wf(),
        ensures
            r == (self.content().len() == 0),
    {
        proof {
            lemma_to_set_card(self.indices@);
            if self.indices@.len() > 0 {
                lemma_to_set_bounds(self.indices@);
            } else {
                assert(self.idx_set() =~= Set::<int>::empty());
            }
        }
        self.indices.is_empty()
    }

    /// Returns `true` if the two spans reference equal bytes.
    ///
    /// Spans are compared by content: neither buffer identity nor the
    /// index sets take part.
    pub fn content_eq<U: ?Sized>(&self, other: &Span<U>) -> (r: bool)
        ensures
            r == (self.content() == other.content()),
    {
        crate::helpers::bytes_eq(bytes_as_slice(&self.data), bytes_as_slice(&other.data))
    }

    /// Returns `true` if the span's index set is exactly the single
    /// contiguous range `start..end`.
    ///
    /// A span whose indices are a non-contiguous range set never equals
    /// a single range, whatever indices the set covers.
    pub fn is_range(&self, start: usize, end: usize) -> (r: bool)
        ensures
            r == (self.indices@ == if start < end {
                seq![ByteRange { start, end }]
            } else {
                Seq::<ByteRange>::empty()
            }),
    {
        if start < end {
            if self.indices.ranges.len() != 1 {
                proof {
                    assert(self.indices@ != seq![ByteRange { start, end }]);
                }
                return false;
            }
            let r0 = self.indices.ranges[0];
            proof {
                if r0 == (ByteRange { start, end }) {
                    assert(self.indices@ =~= seq![ByteRange { start, end }]);
                } else {
                    assert(self.indices@[0] != seq![ByteRange { start, end }][0]);
                }
            }
            r0.start == start && r0.end == end
        } else {
            proof {
                if self.indices@.len() == 0 {
                    assert(self.indices@ =~= Seq::<ByteRange>::empty());
                }
            }
            self.indices.ranges.len() == 0
        }
    }

    /// Shifts the span indices by the given offset.
    ///
    /// The indices must not overflow `usize::MAX`.
    pub fn offset(&mut self, offset: usize)
        requires
            old(self).wf(),
            old(self).can_shift(offset as int),
        ensures
            final(self).wf(),
            final(self).content() == old(self).content(),
            forall|x: int| #[trigger]
                final(self).idx_set().contains(x) <==> old(self).idx_set().contains(x - offset),
    {
        self.indices.shift_right(offset);
        proof {
            crate::range::lemma_shift_total_len(old(self).indices@, final(self).indices@, offset as int);
        }
    }
}

impl Span<[u8]> {
    /// Create a new byte span referencing `src` at `start..end`.
    pub(crate) fn new_bytes(src: &bytes::Bytes, start: usize, end: usize) -> (r: Span<[u8]>)
        requires
            start <= end <= bytes_view(*src).len(),
        ensures
            r.wf(),
            r.is_slice_of(bytes_view(*src), start as int, end as int),
    {
        let data = bytes_slice(src, start, end);
        let indices = RangeSet::from_range(ByteRange { start, end });
        proof {
            assert(bytes_view(data).len() == end - start);
        }
        Span { data, indices, marker: PhantomData }
    }

    /// Converts this type to a byte slice.
    pub fn as_bytes(&self) -> (r: &[u8])
        ensures
            r@ == self.content(),
    {
        bytes_as_slice(&self.data)
    }
}

impl Span<str> {
    /// Create a new string span referencing `src` at `start..end`.
    ///
    /// The referenced bytes must be valid UTF-8; this is established once,
    /// at construction.
    pub(crate) fn new_str(src: &bytes::Bytes, start: usize, end: usize) -> (r: Span<str>)
        requires
            start <= end <= bytes_view(*src).len(),
            valid_utf8(bytes_view(*src).subrange(start as int, end as int)),
        ensures
            r.wf(),
            r.is_text(),
            r.is_slice_of(bytes_view(*src), start as int, end as int),
    {
        let data = bytes_slice(src, start, end);
        let indices = RangeSet::from_range(ByteRange { start, end });
        proof {
            assert(bytes_view(data).len() == end - start);
        }
        Span { data, indices, marker: PhantomData }
    }

    /// Converts this type to a string slice.
    pub fn as_str(&self) -> (r: &str)
        requires
            self.is_text(),
        ensures
            r.spec_bytes() == self.content(),
            r@ == vstd::utf8::decode_utf8(self.content()),
    {
        let s = bytes_as_slice(&self.data);
        match crate::buffer::bytes_to_str(s) {
            Some(st) => st,
            None => {
                proof {
                    assert(false);
                }
                ""
            },
        }
    }

    /// Returns the corresponding byte span.
    pub fn to_byte_span(&self) -> (r: Span<[u8]>)
        ensures
            r.content() == self.content(),
            r.indices@ == self.indices@,
    {
        Span {
            data: bytes_clone(&self.data),
            indices: self.indices.clone(),
            marker: PhantomData,
        }
    }
}

} // verus!
