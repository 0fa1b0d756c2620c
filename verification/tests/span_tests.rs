//! Tests for the span and range-set model.

use spansy::helpers::get_span_range;
use spansy::range::{ByteRange, RangeSet, SourceRange};
use spansy::{Span, Spanned};

#[test]
fn test_get_span_range() {
    let src = b"foobar";

    assert_eq!(get_span_range(src, &src[..]).unwrap(), ByteRange { start: 0, end: src.len() });
    assert_eq!(get_span_range(src, &src[0..1]).unwrap(), ByteRange { start: 0, end: 1 });
    assert_eq!(get_span_range(src, &src[1..2]).unwrap(), ByteRange { start: 1, end: 2 });
    assert_eq!(get_span_range(src, &src[3..6]).unwrap(), ByteRange { start: 3, end: 6 });
}

#[test]
fn test_get_span_range_not_found() {
    let src = b"foobar";
    assert!(get_span_range(src, b"baz").is_none());
    assert!(get_span_range(src, b"foobarbaz").is_none());
    // The empty pattern occurs at the very start.
    assert_eq!(get_span_range(src, b"").unwrap(), ByteRange { start: 0, end: 0 });
}

#[test]
fn test_range_set_difference() {
    let a = RangeSet::from_range(ByteRange { start: 0, end: 10 });
    let b = RangeSet::from_range(ByteRange { start: 3, end: 5 });
    let d = a.difference(&b);
    assert_eq!(d.ranges.len(), 2);
    assert_eq!(d.ranges[0], ByteRange { start: 0, end: 3 });
    assert_eq!(d.ranges[1], ByteRange { start: 5, end: 10 });
    assert_eq!(d.len(), 8);
    assert!(!d.is_empty());

    // Removing everything leaves the empty set.
    let e = a.difference(&a);
    assert!(e.is_empty());
    assert_eq!(e.len(), 0);
}

#[test]
fn test_range_set_union() {
    let a = RangeSet::from_range(ByteRange { start: 0, end: 3 });
    let b = RangeSet::from_range(ByteRange { start: 3, end: 6 });
    let u = a.union(&b);
    // Touching ranges coalesce.
    assert_eq!(u.ranges.len(), 1);
    assert_eq!(u.ranges[0], ByteRange { start: 0, end: 6 });

    let c = RangeSet::from_range(ByteRange { start: 10, end: 12 });
    let u2 = u.union(&c);
    assert_eq!(u2.ranges.len(), 2);
    assert_eq!(u2.len(), 8);
    assert_eq!(u2.min(), Some(0));
    assert_eq!(u2.max(), Some(11));
}

#[test]
fn test_range_set_shift() {
    let mut a = RangeSet::from_range(ByteRange { start: 2, end: 4 });
    a.shift_right(5);
    assert_eq!(a.ranges[0], ByteRange { start: 7, end: 9 });
}

#[test]
fn test_source_range_iteration() {
    let set = RangeSet::from_range(ByteRange { start: 1, end: 3 }).union(&RangeSet::from_range(
        ByteRange { start: 6, end: 8 },
    ));
    let sr = SourceRange::RangeSet(set);
    assert_eq!(sr.len(), 4);
    assert!(!sr.is_empty());

    let mut it = sr.iter();
    let mut seen = Vec::new();
    while let Some(i) = it.next() {
        seen.push(i);
    }
    assert_eq!(seen, vec![1, 2, 6, 7]);

    let mut it = sr.iter_ranges();
    let mut ranges = Vec::new();
    while let Some(r) = it.next() {
        ranges.push(r);
    }
    assert_eq!(
        ranges,
        vec![ByteRange { start: 1, end: 3 }, ByteRange { start: 6, end: 8 }]
    );

    let single = SourceRange::Range(ByteRange { start: 4, end: 6 });
    let mut it = single.iter();
    assert_eq!(it.next(), Some(4));
    assert_eq!(it.next(), Some(5));
    assert_eq!(it.next(), None);
}

#[test]
fn test_source_range_offset() {
    let mut sr = SourceRange::Range(ByteRange { start: 1, end: 3 });
    sr.offset(10);
    let mut it = sr.iter();
    assert_eq!(it.next(), Some(11));
    assert_eq!(it.next(), Some(12));
    assert_eq!(it.next(), None);
}

#[test]
fn test_span_accessors() {
    let req = spansy::http::parse_request(b"GET / HTTP/1.1\r\nHost: h\r\n\r\n").unwrap();
    let span: &Span = req.span();
    assert_eq!(span.len(), 27);
    assert!(!span.is_empty());
    assert_eq!(span.data(), span.as_bytes());
    assert_eq!(span.indices().ranges[0], ByteRange { start: 0, end: 27 });

    let name_span = req.headers[0].name.span();
    assert_eq!(name_span.as_str(), "Host");
    let byte_view = name_span.to_byte_span();
    assert_eq!(byte_view.as_bytes(), b"Host");

    let cloned = span.clone();
    assert_eq!(cloned.as_bytes(), span.as_bytes());
    let owned = cloned.to_bytes();
    assert_eq!(owned.as_ref(), span.as_bytes());
}

#[test]
fn test_span_offset() {
    let req = spansy::http::parse_request(b"GET / HTTP/1.1\r\nHost: h\r\n\r\n").unwrap();
    let mut span = req.request.method.span().clone();
    assert_eq!(span.indices().ranges[0], ByteRange { start: 0, end: 3 });
    span.offset(100);
    assert_eq!(span.indices().ranges[0], ByteRange { start: 100, end: 103 });
    // The referenced bytes do not change, only the index bookkeeping.
    assert_eq!(span.as_str(), "GET");
}
