//! HTTP entity types: thin wrappers composing spans over one message.

use vstd::prelude::*;

verus! {

use crate::{Span, Spanned};
use crate::helpers::{lower_bytes, bytes_eq_ci};
use crate::range::RangeSet;
use vstd::string::StringSliceAdditionalSpecFns;

/// The header has the given name, compared case-insensitively at the
/// byte level.
pub open spec fn header_matches_name(h: Header, name_bytes: Seq<u8>) -> bool {
    lower_bytes(h.name.0.content()) == lower_bytes(name_bytes)
}

/// An HTTP header name.
#[derive(Debug, Clone)]
pub struct HeaderName(pub Span<str>);

impl HeaderName {
    /// The header name is well formed.
    pub open spec fn wf(self) -> bool {
        self.0.wf() && self.0.is_text()
    }

    /// Returns the header name as a string slice.
    pub fn as_str(&self) -> (r: &str)
        requires
            self.wf(),
        ensures
            r.spec_bytes() == self.0.content(),
    {
        self.0.as_str()
    }

    /// Shifts the span range by the given offset.
    pub fn offset(&mut self, offset: usize)
        requires
            old(self).wf(),
            old(self).0.can_shift(offset as int),
        ensures
            final(self).wf(),
            final(self).0.content() == old(self).0.content(),
            forall|x: int| #[trigger]
                final(self).0.idx_set().contains(x) <==> old(self).0.idx_set().contains(
                    x - offset,
                ),
    {
        self.0.offset(offset);
    }
}

impl Spanned<str> for HeaderName {
    fn span(&self) -> &Span<str> {
        &self.0
    }
}

/// An HTTP header value.
#[derive(Debug, Clone)]
pub struct HeaderValue(pub Span<[u8]>);

impl HeaderValue {
    /// The header value is well formed.
    pub open spec fn wf(self) -> bool {
        self.0.wf()
    }

    /// Returns the header value as a byte slice.
    pub fn as_bytes(&self) -> (r: &[u8])
        ensures
            r@ == self.0.content(),
    {
        self.0.as_bytes()
    }

    /// Shifts the span range by the given offset.
    pub fn offset(&mut self, offset: usize)
        requires
            old(self).wf(),
            old(self).0.can_shift(offset as int),
        ensures
            final(self).wf(),
            final(self).0.content() == old(self).0.content(),
            forall|x: int| #[trigger]
                final(self).0.idx_set().contains(x) <==> old(self).0.idx_set().contains(
                    x - offset,
                ),
    {
        self.0.offset(offset);
    }
}

impl Spanned for HeaderValue {
    fn span(&self) -> &Span<[u8]> {
        &self.0
    }
}

/// An HTTP header, including optional whitespace and the trailing CRLF.
#[derive(Debug, Clone)]
pub struct Header {
    /// The span of the whole header line.
    pub span: Span<[u8]>,
    /// The header name.
    pub name: HeaderName,
    /// The header value.
    pub value: HeaderValue,
}

impl Header {
    /// The header is well formed: its parts are well formed and the name
    /// and value index sets lie within the header line's index set.
    pub open spec fn wf(self) -> bool {
        &&& self.span.wf()
        &&& self.name.wf()
        &&& self.value.wf()
        &&& self.name.0.idx_set().subset_of(self.span.idx_set())
        &&& self.value.0.idx_set().subset_of(self.span.idx_set())
    }

    /// All spans of the header can shift right by `offset` without
    /// overflowing.
    pub open spec fn can_shift(self, offset: int) -> bool {
        &&& self.span.can_shift(offset)
        &&& self.name.0.can_shift(offset)
        &&& self.value.0.can_shift(offset)
    }

    /// Returns the indices of the header excluding the value.
    ///
    /// The indices will include any optional whitespace and the CRLF.
    pub fn without_value(&self) -> (r: RangeSet)
        requires
            self.wf(),
        ensures
            r.wf(),
            r.to_set() =~= self.span.idx_set().difference(self.value.0.idx_set()),
    {
        self.span.indices.difference(&self.value.0.indices)
    }

    /// Shifts the span range by the given offset.
    pub fn offset(&mut self, offset: usize)
        requires
            old(self).wf(),
            old(self).can_shift(offset as int),
        ensures
            final(self).wf(),
            final(self).span.content() == old(self).span.content(),
            final(self).name.0.content() == old(self).name.0.content(),
            final(self).value.0.content() == old(self).value.0.content(),
            forall|x: int| #[trigger]
                final(self).span.idx_set().contains(x) <==> old(self).span.idx_set().contains(
                    x - offset,
                ),
            forall|x: int| #[trigger]
                final(self).name.0.idx_set().contains(x) <==> old(self).name.0.idx_set().contains(
                    x - offset,
                ),
            forall|x: int| #[trigger]
                final(self).value.0.idx_set().contains(x) <==> old(
                    self,
                ).value.0.idx_set().contains(x - offset),
    {
        self.span.offset(offset);
        self.name.offset(offset);
        self.value.offset(offset);
    }
}

impl Spanned for Header {
    fn span(&self) -> &Span<[u8]> {
        &self.span
    }
}

/// An HTTP request method.
#[derive(Debug, Clone)]
pub struct Method(pub Span<str>);

impl Method {
    /// The method is well formed.
    pub open spec fn wf(self) -> bool {
        self.0.wf() && self.0.is_text()
    }

    /// Returns the method as a string slice.
    pub fn as_str(&self) -> (r: &str)
        requires
            self.wf(),
        ensures
            r.spec_bytes() == self.0.content(),
    {
        self.0.as_str()
    }

    /// Shifts the span range by the given offset.
    pub fn offset(&mut self, offset: usize)
        requires
            old(self).wf(),
            old(self).0.can_shift(offset as int),
        ensures
            final(self).wf(),
            final(self).0.content() == old(self).0.content(),
            forall|x: int| #[trigger]
                final(self).0.idx_set().contains(x) <==> old(self).0.idx_set().contains(
                    x - offset,
                ),
    {
        self.0.offset(offset);
    }
}

impl Spanned<str> for Method {
    fn span(&self) -> &Span<str> {
        &self.0
    }
}

/// An HTTP request target.
#[derive(Debug, Clone)]
pub struct Target(pub Span<str>);

impl Target {
    /// The target is well formed.
    pub open spec fn wf(self) -> bool {
        self.0.wf() && self.0.is_text()
    }

    /// Returns the target as a string slice.
    pub fn as_str(&self) -> (r: &str)
        requires
            self.wf(),
        ensures
            r.spec_bytes() == self.0.content(),
    {
        self.0.as_str()
    }

    /// Shifts the span range by the given offset.
    pub fn offset(&mut self, offset: usize)
        requires
            old(self).wf(),
            old(self).0.can_shift(offset as int),
        ensures
            final(self).wf(),
            final(self).0.content() == old(self).0.content(),
            forall|x: int| #[trigger]
                final(self).0.idx_set().contains(x) <==> old(self).0.idx_set().contains(
                    x - offset,
                ),
    {
        self.0.offset(offset);
    }
}

impl Spanned<str> for Target {
    fn span(&self) -> &Span<str> {
        &self.0
    }
}

/// An HTTP request line, including the trailing CRLF.
#[derive(Debug, Clone)]
pub struct RequestLine {
    /// The span of the whole request line.
    pub span: Span<str>,
    /// The request method.
    pub method: Method,
    /// The request target.
    pub target: Target,
}

impl RequestLine {
    /// The request line is well formed.
    pub open spec fn wf(self) -> bool {
        &&& self.span.wf()
        &&& self.span.is_text()
        &&& self.method.wf()
        &&& self.target.wf()
        &&& self.method.0.idx_set().subset_of(self.span.idx_set())
        &&& self.target.0.idx_set().subset_of(self.span.idx_set())
    }

    /// All spans of the request line can shift right by `offset`.
    pub open spec fn can_shift(self, offset: int) -> bool {
        &&& self.span.can_shift(offset)
        &&& self.method.0.can_shift(offset)
        &&& self.target.0.can_shift(offset)
    }

    /// Returns the indices of the request line excluding the request target.
    pub fn without_target(&self) -> (r: RangeSet)
        requires
            self.wf(),
        ensures
            r.wf(),
            r.to_set() =~= self.span.idx_set().difference(self.target.0.idx_set()),
    {
        self.span.indices.difference(&self.target.0.indices)
    }

    /// Shifts the span range by the given offset.
    pub fn offset(&mut self, offset: usize)
        requires
            old(self).wf(),
            old(self).can_shift(offset as int),
        ensures
            final(self).wf(),
            final(self).span.content() == old(self).span.content(),
            final(self).method.0.content() == old(self).method.0.content(),
            final(self).target.0.content() == old(self).target.0.content(),
            forall|x: int| #[trigger]
                final(self).span.idx_set().contains(x) <==> old(self).span.idx_set().contains(
                    x - offset,
                ),
            forall|x: int| #[trigger]
                final(self).target.0.idx_set().contains(x) <==> old(
                    self,
                ).target.0.idx_set().contains(x - offset),
    {
        self.span.offset(offset);
        self.method.offset(offset);
        self.target.offset(offset);
    }
}

impl Spanned<str> for RequestLine {
    fn span(&self) -> &Span<str> {
        &self.span
    }
}

/// An HTTP request or response body.
#[derive(Debug, Clone)]
pub struct Body {
    /// The span of the body bytes.
    pub span: Span<[u8]>,
}

impl Body {
    /// The body is well formed.
    pub open spec fn wf(self) -> bool {
        self.span.wf()
    }

    /// Returns the body as a byte slice.
    pub fn as_bytes(&self) -> (r: &[u8])
        ensures
            r@ == self.span.content(),
    {
        self.span.as_bytes()
    }

    /// Shifts the span range by the given offset.
    pub fn offset(&mut self, offset: usize)
        requires
            old(self).wf(),
            old(self).span.can_shift(offset as int),
        ensures
            final(self).wf(),
            final(self).span.content() == old(self).span.content(),
            forall|x: int| #[trigger]
                final(self).span.idx_set().contains(x) <==> old(self).span.idx_set().contains(
                    x - offset,
                ),
    {
        self.span.offset(offset);
    }
}

impl Spanned for Body {
    fn span(&self) -> &Span<[u8]> {
        &self.span
    }
}

/// Every header in the sequence is well formed.
pub open spec fn headers_wf(hs: Seq<Header>) -> bool {
    forall|i: int| 0 <= i < hs.len() ==> (#[trigger] hs[i]).wf()
}

/// The union of the index sets of the header spans.
pub open spec fn headers_idx_union(hs: Seq<Header>) -> Set<int>
    decreases hs.len(),
{
    if hs.len() == 0 {
        Set::empty()
    } else {
        headers_idx_union(hs.drop_last()).union(hs.last().span.idx_set())
    }
}

/// Every header of the sequence can shift right by `offset`.
pub open spec fn headers_can_shift(hs: Seq<Header>, offset: int) -> bool {
    forall|i: int| 0 <= i < hs.len() ==> (#[trigger] hs[i]).can_shift(offset)
}

/// An HTTP request.
#[derive(Debug, Clone)]
pub struct Request {
    /// The span of the whole message, head and body.
    pub span: Span<[u8]>,
    /// The request line.
    pub request: RequestLine,
    /// Request headers.
    pub headers: Vec<Header>,
    /// Request body.
    pub body: Option<Body>,
}

impl Request {
    /// The request is well formed.
    pub open spec fn wf(self) -> bool {
        &&& self.span.wf()
        &&& self.request.wf()
        &&& headers_wf(self.headers@)
        &&& match self.body {
            Some(b) => b.wf(),
            None => true,
        }
    }

    /// Returns the request headers with the given name (case-insensitive),
    /// in document order.
    ///
    /// All matches are returned because it is valid for HTTP records to
    /// contain duplicate header names.
    pub fn headers_with_name<'a>(&'a self, name: &str) -> (r: Vec<&'a Header>)
        ensures
            r@.map_values(|h: &Header| *h) == self.headers@.filter(
                |h: Header| header_matches_name(h, name.spec_bytes()),
            ),
    {
        headers_filter_by_name(&self.headers, name)
    }

    /// Returns the indices of the request excluding the target, headers
    /// and body.
    pub fn without_data(&self) -> (r: RangeSet)
        requires
            self.wf(),
        ensures
            r.wf(),
            r.to_set() =~= self.span.idx_set().difference(self.request.target.0.idx_set())
                .difference(headers_idx_union(self.headers@)).difference(
                match self.body {
                    Some(b) => b.span.idx_set(),
                    None => Set::<int>::empty(),
                },
            ),
    {
        let mut indices = self.span.indices.difference(&self.request.target.0.indices);
        let ghost base = self.span.idx_set().difference(self.request.target.0.idx_set());
        let mut i: usize = 0;
        proof {
            assert(self.headers@.take(0) =~= Seq::<Header>::empty());
            assert(indices.to_set() =~= base.difference(
                headers_idx_union(self.headers@.take(0)),
            ));
        }
        while i < self.headers.len()
            invariant
                self.wf(),
                0 <= i <= self.headers@.len(),
                indices.wf(),
                indices.to_set() =~= base.difference(
                    headers_idx_union(self.headers@.take(i as int)),
                ),
            decreases self.headers@.len() - i,
        {
            let h = &self.headers[i];
            let next = indices.difference(&h.span.indices);
            proof {
                assert(self.headers@.take(i + 1).drop_last() =~= self.headers@.take(i as int));
                assert(self.headers@.take(i + 1).last() == self.headers@[i as int]);
                assert(next.to_set() =~= base.difference(
                    headers_idx_union(self.headers@.take(i + 1)),
                ));
            }
            indices = next;
            i = i + 1;
        }
        proof {
            assert(self.headers@.take(self.headers@.len() as int) =~= self.headers@);
        }
        if let Some(body) = &self.body {
            let r = indices.difference(&body.span.indices);
            return r;
        }
        proof {
            assert(indices.to_set() =~= indices.to_set().difference(Set::<int>::empty()));
        }
        indices
    }

    /// Shifts the span range by the given offset.
    pub fn offset(&mut self, offset: usize)
        requires
            old(self).wf(),
            old(self).span.can_shift(offset as int),
            old(self).request.can_shift(offset as int),
            headers_can_shift(old(self).headers@, offset as int),
            match old(self).body {
                Some(b) => b.span.can_shift(offset as int),
                None => true,
            },
        ensures
            final(self).wf(),
            final(self).span.content() == old(self).span.content(),
            forall|x: int| #[trigger]
                final(self).span.idx_set().contains(x) <==> old(self).span.idx_set().contains(
                    x - offset,
                ),
            final(self).headers@.len() == old(self).headers@.len(),
            final(self).body is Some == old(self).body is Some,
    {
        self.span.offset(offset);
        self.request.offset(offset);
        let ghost pre = self.headers@;
        let ghost span1 = self.span;
        let ghost req1 = self.request;
        let mut i: usize = 0;
        while i < self.headers.len()
            invariant
                0 <= i <= self.headers@.len(),
                self.headers@.len() == pre.len(),
                headers_wf(pre),
                headers_can_shift(pre, offset as int),
                forall|j: int| i <= j < pre.len() ==> self.headers@[j] == pre[j],
                forall|j: int| 0 <= j < i ==> (#[trigger] self.headers@[j]).wf(),
                self.span == span1,
                self.request == req1,
                self.body == old(self).body,
            decreases self.headers@.len() - i,
        {
            proof {
                assert(self.headers@[i as int] == pre[i as int]);
            }
            let h = &mut self.headers[i];
            offset_header(h, offset);
            i = i + 1;
        }
        if let Some(body) = &mut self.body {
            body.offset(offset);
        }
    }
}

/// Shifts one header right by the given offset.
fn offset_header(h: &mut Header, offset: usize)
    requires
        old(h).wf(),
        old(h).can_shift(offset as int),
    ensures
        final(h).wf(),
{
    h.offset(offset);
}

/// Filters a header list by name, case-insensitively, keeping document
/// order.
fn headers_filter_by_name<'a>(headers: &'a Vec<Header>, name: &str) -> (r: Vec<&'a Header>)
    ensures
        r@.map_values(|h: &Header| *h) == headers@.filter(
            |h: Header| header_matches_name(h, name.spec_bytes()),
        ),
{
    let name_bytes = name.as_bytes();
    let ghost pred = |h: Header| header_matches_name(h, name.spec_bytes());
    let mut out: Vec<&'a Header> = Vec::new();
    let mut i: usize = 0;
    proof {
        reveal(Seq::filter);
        assert(headers@.take(0) =~= Seq::<Header>::empty());
        assert(out@.map_values(|h: &Header| *h) =~= headers@.take(0).filter(pred));
    }
    while i < headers.len()
        invariant
            0 <= i <= headers@.len(),
            name_bytes@ == name.spec_bytes(),
            out@.map_values(|h: &Header| *h) =~= headers@.take(i as int).filter(
                |h: Header| header_matches_name(h, name.spec_bytes()),
            ),
        decreases headers@.len() - i,
    {
        let h = &headers[i];
        let ghost out0 = out@;
        if bytes_eq_ci(h.name.0.data(), name_bytes) {
            out.push(h);
        }
        proof {
            reveal(Seq::filter);
            assert(headers@.take(i + 1).drop_last() =~= headers@.take(i as int));
            assert(headers@.take(i + 1).last() == headers@[i as int]);
            if header_matches_name(headers@[i as int], name.spec_bytes()) {
                assert(out@.map_values(|h: &Header| *h) =~= out0.map_values(|h: &Header| *h).push(
                    headers@[i as int],
                ));
            }
            assert(out@.map_values(|h: &Header| *h) =~= headers@.take(i + 1).filter(
                |h: Header| header_matches_name(h, name.spec_bytes()),
            ));
        }
        i = i + 1;
    }
    proof {
        assert(headers@.take(headers@.len() as int) =~= headers@);
    }
    out
}

impl Spanned for Request {
    fn span(&self) -> &Span<[u8]> {
        &self.span
    }
}

/// An HTTP response code.
#[derive(Debug, Clone)]
pub struct Code(pub Span<str>);

impl Code {
    /// The code is well formed.
    pub open spec fn wf(self) -> bool {
        self.0.wf() && self.0.is_text()
    }

    /// Returns the response code as a string slice.
    pub fn as_str(&self) -> (r: &str)
        requires
            self.wf(),
        ensures
            r.spec_bytes() == self.0.content(),
    {
        self.0.as_str()
    }

    /// Shifts the span range by the given offset.
    pub fn offset(&mut self, offset: usize)
        requires
            old(self).wf(),
            old(self).0.can_shift(offset as int),
        ensures
            final(self).wf(),
            final(self).0.content() == old(self).0.content(),
            forall|x: int| #[trigger]
                final(self).0.idx_set().contains(x) <==> old(self).0.idx_set().contains(
                    x - offset,
                ),
    {
        self.0.offset(offset);
    }
}

impl Spanned<str> for Code {
    fn span(&self) -> &Span<str> {
        &self.0
    }
}

/// An HTTP response reason phrase.
#[derive(Debug, Clone)]
pub struct Reason(pub Span<str>);

impl Reason {
    /// The reason phrase is well formed.
    pub open spec fn wf(self) -> bool {
        self.0.wf() && self.0.is_text()
    }

    /// Returns the response reason phrase as a string slice.
    pub fn as_str(&self) -> (r: &str)
        requires
            self.wf(),
        ensures
            r.spec_bytes() == self.0.content(),
    {
        self.0.as_str()
    }

    /// Shifts the span range by the given offset.
    pub fn offset(&mut self, offset: usize)
        requires
            old(self).wf(),
            old(self).0.can_shift(offset as int),
        ensures
            final(self).wf(),
            final(self).0.content() == old(self).0.content(),
            forall|x: int| #[trigger]
                final(self).0.idx_set().contains(x) <==> old(self).0.idx_set().contains(
                    x - offset,
                ),
    {
        self.0.offset(offset);
    }
}

impl Spanned<str> for Reason {
    fn span(&self) -> &Span<str> {
        &self.0
    }
}

/// An HTTP response status.
#[derive(Debug, Clone)]
pub struct Status {
    /// The span of the whole status line.
    pub span: Span<str>,
    /// The response code.
    pub code: Code,
    /// The reason phrase.
    pub reason: Reason,
}

impl Status {
    /// The status line is well formed.
    pub open spec fn wf(self) -> bool {
        &&& self.span.wf()
        &&& self.span.is_text()
        &&& self.code.wf()
        &&& self.reason.wf()
        &&& self.code.0.idx_set().subset_of(self.span.idx_set())
        &&& self.reason.0.idx_set().subset_of(self.span.idx_set())
    }

    /// All spans of the status line can shift right by `offset`.
    pub open spec fn can_shift(self, offset: int) -> bool {
        &&& self.span.can_shift(offset)
        &&& self.code.0.can_shift(offset)
        &&& self.reason.0.can_shift(offset)
    }

    /// Shifts the span range by the given offset.
    pub fn offset(&mut self, offset: usize)
        requires
            old(self).wf(),
            old(self).can_shift(offset as int),
        ensures
            final(self).wf(),
            final(self).span.content() == old(self).span.content(),
            final(self).code.0.content() == old(self).code.0.content(),
            final(self).reason.0.content() == old(self).reason.0.content(),
            forall|x: int| #[trigger]
                final(self).span.idx_set().contains(x) <==> old(self).span.idx_set().contains(
                    x - offset,
                ),
    {
        self.span.offset(offset);
        self.code.offset(offset);
        self.reason.offset(offset);
    }
}

impl Spanned<str> for Status {
    fn span(&self) -> &Span<str> {
        &self.span
    }
}

/// An HTTP response.
#[derive(Debug, Clone)]
pub struct Response {
    /// The span of the whole message, head and body.
    pub span: Span<[u8]>,
    /// The response status.
    pub status: Status,
    /// Response headers.
    pub headers: Vec<Header>,
    /// Response body.
    pub body: Option<Body>,
}

impl Response {
    /// The response is well formed.
    pub open spec fn wf(self) -> bool {
        &&& self.span.wf()
        &&& self.status.wf()
        &&& headers_wf(self.headers@)
        &&& match self.body {
            Some(b) => b.wf(),
            None => true,
        }
    }

    /// Returns the response headers with the given name (case-insensitive),
    /// in document order.
    ///
    /// All matches are returned because it is valid for HTTP records to
    /// contain duplicate header names.
    pub fn headers_with_name<'a>(&'a self, name: &str) -> (r: Vec<&'a Header>)
        ensures
            r@.map_values(|h: &Header| *h) == self.headers@.filter(
                |h: Header| header_matches_name(h, name.spec_bytes()),
            ),
    {
        headers_filter_by_name(&self.headers, name)
    }

    /// Returns the indices of the response excluding the headers and body.
    pub fn without_data(&self) -> (r: RangeSet)
        requires
            self.wf(),
        ensures
            r.wf(),
            r.to_set() =~= self.span.idx_set().difference(
                headers_idx_union(self.headers@),
            ).difference(
                match self.body {
                    Some(b) => b.span.idx_set(),
                    None => Set::<int>::empty(),
                },
            ),
    {
        let mut indices = self.span.indices.clone();
        let ghost base = self.span.idx_set();
        let mut i: usize = 0;
        proof {
            assert(self.headers@.take(0) =~= Seq::<Header>::empty());
            assert(indices.to_set() =~= base.difference(
                headers_idx_union(self.headers@.take(0)),
            ));
        }
        while i < self.headers.len()
            invariant
                self.wf(),
                0 <= i <= self.headers@.len(),
                indices.wf(),
                indices.to_set() =~= base.difference(
                    headers_idx_union(self.headers@.take(i as int)),
                ),
            decreases self.headers@.len() - i,
        {
            let h = &self.headers[i];
            let next = indices.difference(&h.span.indices);
            proof {
                assert(self.headers@.take(i + 1).drop_last() =~= self.headers@.take(i as int));
                assert(self.headers@.take(i + 1).last() == self.headers@[i as int]);
                assert(next.to_set() =~= base.difference(
                    headers_idx_union(self.headers@.take(i + 1)),
                ));
            }
            indices = next;
            i = i + 1;
        }
        proof {
            assert(self.headers@.take(self.headers@.len() as int) =~= self.headers@);
        }
        if let Some(body) = &self.body {
            let r = indices.difference(&body.span.indices);
            return r;
        }
        proof {
            assert(indices.to_set() =~= indices.to_set().difference(Set::<int>::empty()));
        }
        indices
    }

    /// Shifts the span range by the given offset.
    pub fn offset(&mut self, offset: usize)
        requires
            old(self).wf(),
            old(self).span.can_shift(offset as int),
            old(self).status.can_shift(offset as int),
            headers_can_shift(old(self).headers@, offset as int),
            match old(self).body {
                Some(b) => b.span.can_shift(offset as int),
                None => true,
            },
        ensures
            final(self).wf(),
            final(self).span.content() == old(self).span.content(),
            forall|x: int| #[trigger]
                final(self).span.idx_set().contains(x) <==> old(self).span.idx_set().contains(
                    x - offset,
                ),
            final(self).headers@.len() == old(self).headers@.len(),
            final(self).body is Some == old(self).body is Some,
    {
        self.span.offset(offset);
        self.status.offset(offset);
        let ghost pre = self.headers@;
        let ghost span1 = self.span;
        let ghost status1 = self.status;
        let mut i: usize = 0;
        while i < self.headers.len()
            invariant
                0 <= i <= self.headers@.len(),
                self.headers@.len() == pre.len(),
                headers_wf(pre),
                headers_can_shift(pre, offset as int),
                forall|j: int| i <= j < pre.len() ==> self.headers@[j] == pre[j],
                forall|j: int| 0 <= j < i ==> (#[trigger] self.headers@[j]).wf(),
                self.span == span1,
                self.status == status1,
                self.body == old(self).body,
            decreases self.headers@.len() - i,
        {
            proof {
                assert(self.headers@[i as int] == pre[i as int]);
            }
            let h = &mut self.headers[i];
            offset_header(h, offset);
            i = i + 1;
        }
        if let Some(body) = &mut self.body {
            body.offset(offset);
        }
    }
}

impl Spanned for Response {
    fn span(&self) -> &Span<[u8]> {
        &self.span
    }
}


/// Filtering by extensionally equal predicates gives equal results.
proof fn lemma_filter_ext<A>(s: Seq<A>, p: spec_fn(A) -> bool, q: spec_fn(A) -> bool)
    requires
        forall|x: A| #[trigger] p(x) == q(x),
    ensures
        s.filter(p) == s.filter(q),
    decreases s.len(),
{
    reveal(Seq::filter);
    if s.len() > 0 {
        lemma_filter_ext(s.drop_last(), p, q);
    }
}

/// Header lookup is case-insensitive: two names that are equal up to
/// ASCII case select exactly the same headers, in the same (document)
/// order.
pub proof fn lemma_header_lookup_case_insensitive(headers: Seq<Header>, n1: Seq<u8>, n2: Seq<u8>)
    requires
        lower_bytes(n1) == lower_bytes(n2),
    ensures
        headers.filter(|h: Header| header_matches_name(h, n1)) == headers.filter(
            |h: Header| header_matches_name(h, n2),
        ),
{
    assert forall|h: Header| #[trigger] header_matches_name(h, n1) == header_matches_name(
        h,
        n2,
    ) by {}
    lemma_filter_ext(
        headers,
        |h: Header| header_matches_name(h, n1),
        |h: Header| header_matches_name(h, n2),
    );
}

} // verus!
