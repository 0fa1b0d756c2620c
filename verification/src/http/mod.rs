//! HTTP span parsing.

use vstd::prelude::*;

pub mod span;
pub mod types;

pub use span::{parse_request, parse_response, parse_request_from_bytes, parse_response_from_bytes};
pub use types::{
    Body, Code, Header, HeaderName, HeaderValue, Method, Reason, Request, RequestLine, Response,
    Status, Target,
};

verus! {

use crate::{ParseError};
use crate::buffer::{bytes_view, bytes_len, bytes_copy_from_slice};
use crate::http::span::{spec_request, spec_response, req_matches_shape, resp_matches_shape};

/// An iterator yielding parsed HTTP requests from one buffer, message
/// after message.
#[derive(Debug)]
pub struct Requests {
    /// The source buffer.
    pub src: bytes::Bytes,
    /// The current position in the source buffer.
    pub pos: usize,
}

impl Requests {
    /// Returns a new `Requests` iterator.
    pub fn new(src: bytes::Bytes) -> (r: Requests)
        ensures
            bytes_view(r.src) == bytes_view(src),
            r.pos == 0,
    {
        Requests { src, pos: 0 }
    }

    /// Returns a new `Requests` iterator over a copy of the slice.
    pub fn new_from_slice(src: &[u8]) -> (r: Requests)
        ensures
            bytes_view(r.src) == src@,
            r.pos == 0,
    {
        Requests { src: bytes_copy_from_slice(src), pos: 0 }
    }

    /// Parses the next request, advancing past its span on success.
    ///
    /// The iterator stops, without an error, exactly at the end of the
    /// buffer; a parse failure mid-stream is surfaced and the position
    /// is left unchanged.
    pub fn next(&mut self) -> (r: Option<Result<Request, ParseError>>)
        ensures
            bytes_view(final(self).src) == bytes_view(old(self).src),
            ({
                let s = bytes_view(old(self).src);
                match r {
                    None => old(self).pos >= s.len() && final(self).pos == old(self).pos,
                    Some(Ok(req)) => {
                        &&& old(self).pos < s.len()
                        &&& spec_request(s, old(self).pos as int) is Ok
                        &&& req.wf()
                        &&& req_matches_shape(req, s, spec_request(s, old(self).pos as int)->Ok_0)
                        &&& final(self).pos == spec_request(s, old(self).pos as int)->Ok_0.end
                        &&& old(self).pos < final(self).pos <= s.len()
                    },
                    Some(Err(e)) => {
                        &&& old(self).pos < s.len()
                        &&& spec_request(s, old(self).pos as int) is Err
                        &&& e.kind == spec_request(s, old(self).pos as int)->Err_0
                        &&& final(self).pos == old(self).pos
                    },
                }
            }),
    {
        if self.pos >= bytes_len(&self.src) {
            return None;
        }
        match span::parse_request_from_bytes(&self.src, self.pos) {
            Ok(req) => {
                let ghost s = bytes_view(self.src);
                let ghost shape = spec_request(s, self.pos as int)->Ok_0;
                proof {
                    assert(shape.line.start == self.pos as int);
                    assert(req.span.content().len() == shape.end - shape.line.start);
                    crate::http::span::lemma_spec_headers_bounds(s, shape.line.line_end);
                    crate::http::span::lemma_request_body_len_nonneg(s, shape.headers);
                }
                let l = req.span.len();
                self.pos = self.pos + l;
                Some(Ok(req))
            },
            Err(e) => Some(Err(e)),
        }
    }
}

/// An iterator yielding parsed HTTP responses from one buffer, message
/// after message.
#[derive(Debug)]
pub struct Responses {
    /// The source buffer.
    pub src: bytes::Bytes,
    /// The current position in the source buffer.
    pub pos: usize,
}

impl Responses {
    /// Returns a new `Responses` iterator.
    pub fn new(src: bytes::Bytes) -> (r: Responses)
        ensures
            bytes_view(r.src) == bytes_view(src),
            r.pos == 0,
    {
        Responses { src, pos: 0 }
    }

    /// Returns a new `Responses` iterator over a copy of the slice.
    pub fn new_from_slice(src: &[u8]) -> (r: Responses)
        ensures
            bytes_view(r.src) == src@,
            r.pos == 0,
    {
        Responses { src: bytes_copy_from_slice(src), pos: 0 }
    }

    /// Parses the next response, advancing past its span on success.
    ///
    /// The iterator stops, without an error, exactly at the end of the
    /// buffer; a parse failure mid-stream is surfaced and the position
    /// is left unchanged.
    pub fn next(&mut self) -> (r: Option<Result<Response, ParseError>>)
        ensures
            bytes_view(final(self).src) == bytes_view(old(self).src),
            ({
                let s = bytes_view(old(self).src);
                match r {
                    None => old(self).pos >= s.len() && final(self).pos == old(self).pos,
                    Some(Ok(resp)) => {
                        &&& old(self).pos < s.len()
                        &&& spec_response(s, old(self).pos as int) is Ok
                        &&& resp.wf()
                        &&& resp_matches_shape(
                            resp,
                            s,
                            spec_response(s, old(self).pos as int)->Ok_0,
                        )
                        &&& final(self).pos == spec_response(s, old(self).pos as int)->Ok_0.end
                        &&& old(self).pos < final(self).pos <= s.len()
                    },
                    Some(Err(e)) => {
                        &&& old(self).pos < s.len()
                        &&& spec_response(s, old(self).pos as int) is Err
                        &&& e.kind == spec_response(s, old(self).pos as int)->Err_0
                        &&& final(self).pos == old(self).pos
                    },
                }
            }),
    {
        if self.pos >= bytes_len(&self.src) {
            return None;
        }
        match span::parse_response_from_bytes(&self.src, self.pos) {
            Ok(resp) => {
                let ghost s = bytes_view(self.src);
                let ghost shape = spec_response(s, self.pos as int)->Ok_0;
                proof {
                    assert(shape.line.start == self.pos as int);
                    assert(resp.span.content().len() == shape.end - shape.line.start);
                    crate::http::span::lemma_spec_headers_bounds(s, shape.line.line_end);
                    crate::http::span::lemma_response_body_len_nonneg(
                        s,
                        crate::http::span::spec_code_val(s, shape.line),
                        shape.headers,
                    );
                }
                let l = resp.span.len();
                self.pos = self.pos + l;
                Some(Ok(resp))
            },
            Err(e) => Some(Err(e)),
        }
    }
}

} // verus!
