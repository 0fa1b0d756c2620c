//! Tests for HTTP span parsing.

use spansy::http::{parse_request, parse_response, parse_request_from_bytes,
    parse_response_from_bytes, Requests, Responses, Request, Response};
use spansy::{ErrorKind, ParseError, Spanned};

const TEST_REQUEST: &[u8] = b"\
                    GET /home.html HTTP/1.1\r\n\
                    Host: developer.mozilla.org\r\n\
                    User-Agent: Mozilla/5.0 (Macintosh; Intel Mac OS X 10.9; rv:50.0) Gecko/20100101 Firefox/50.0\r\n\
                    Accept: text/html,application/xhtml+xml,application/xml;q=0.9,*/*;q=0.\r\n\
                    Accept-Language: en-US,en;q=0.\r\n\
                    Accept-Encoding: gzip, deflate, b\r\n\
                    Referer: https://developer.mozilla.org/testpage.htm\r\n\
                    Connection: keep-alive\r\n\
                    Content-Length: 12\r\n\
                    Cache-Control: max-age=0\r\n\r\n\
                    Hello World!";

const TEST_RESPONSE: &[u8] = b"\
                    HTTP/1.1 200 OK\r\n\
                    Date: Mon, 27 Jul 2009 12:28:53 GMT\r\n\
                    Server: Apache/2.2.14 (Win32)\r\n\
                    Last-Modified: Wed, 22 Jul 2009 19:15:56 GMT\r\n\
                    Content-Length: 52\r\n\
                    Content-Type: text/html\r\n\
                    Connection: Closed\r\n\r\n\
                    <html>\n\
                    <body>\n\
                    <h1>Hello, World!</h1>\n\
                    </body>\n\
                    </html>";

const TEST_REQUEST2: &[u8] = b"\
                    GET /info.html HTTP/1.1\r\n\
                    Host: tlsnotary.org\r\n\
                    User-Agent: client\r\n\
                    Content-Length: 4\r\n\r\n\
                    ping";

const TEST_RESPONSE2: &[u8] = b"\
                    HTTP/1.1 200 OK\r\n\
                    Server: server\r\n\
                    Content-Length: 4\r\n\
                    Content-Type: text/plain\r\n\
                    Connection: keep-alive\r\n\r\n\
                    pong";

const MULTIPLE_REQUESTS: &[u8] = b"GET / HTTP/1.1\r\nHost: localhost\r\n\r\n\
    POST /hello HTTP/1.1\r\nHost: localhost\r\nContent-Length: 14\r\n\r\n\
    Hello, world!\n";

const MULTIPLE_RESPONSES: &[u8] = b"HTTP/1.1 200 OK\r\nContent-Length: 0\r\n\r\n\
    HTTP/1.1 200 OK\r\nContent-Length: 14\r\n\r\nHello, world!\n\
    HTTP/1.1 204 OK\r\nContent-Length: 0\r\n\r\n";

fn collect_requests(src: &[u8]) -> Result<Vec<Request>, ParseError> {
    let mut it = Requests::new_from_slice(src);
    let mut out = Vec::new();
    while let Some(r) = it.next() {
        out.push(r?);
    }
    Ok(out)
}

fn collect_responses(src: &[u8]) -> Result<Vec<Response>, ParseError> {
    let mut it = Responses::new_from_slice(src);
    let mut out = Vec::new();
    while let Some(r) = it.next() {
        out.push(r?);
    }
    Ok(out)
}

#[test]
fn test_parse_request() {
    let req = parse_request(TEST_REQUEST).unwrap();

    assert_eq!(req.span().as_bytes(), TEST_REQUEST);
    assert_eq!(req.request.method.as_str(), "GET");
    assert_eq!(
        req.headers_with_name("Host")[0].value.span().as_bytes(),
        b"developer.mozilla.org".as_slice()
    );
    assert_eq!(
        req.headers_with_name("User-Agent")[0].value.span().as_bytes(),
        b"Mozilla/5.0 (Macintosh; Intel Mac OS X 10.9; rv:50.0) Gecko/20100101 Firefox/50.0"
            .as_slice()
    );
    assert_eq!(req.body.unwrap().span().as_bytes(), b"Hello World!".as_slice());
}

#[test]
fn test_parse_header_trailing_whitespace() {
    let req = parse_request(b"GET / HTTP/1.1\r\nHost: example.com \r\n\r\n").unwrap();
    let headers = req.headers_with_name("Host");
    let header = headers.first().unwrap();

    assert_eq!(header.span.as_bytes(), b"Host: example.com \r\n".as_slice());
}

#[test]
fn test_parse_response() {
    let res = parse_response(TEST_RESPONSE).unwrap();

    assert_eq!(res.span().as_bytes(), TEST_RESPONSE);
    assert_eq!(res.status.code.as_str(), "200");
    assert_eq!(res.status.reason.as_str(), "OK");
    assert_eq!(
        res.headers_with_name("Server")[0].value.span().as_bytes(),
        b"Apache/2.2.14 (Win32)".as_slice()
    );
    assert_eq!(
        res.headers_with_name("Connection")[0].value.span().as_bytes(),
        b"Closed".as_slice()
    );
    assert_eq!(
        res.body.unwrap().span().as_bytes(),
        b"<html>\n<body>\n<h1>Hello, World!</h1>\n</body>\n</html>".as_slice()
    );
}

// Make sure the first request is not parsed.
#[test]
fn test_parse_request_from_bytes() {
    let mut request = Vec::new();
    request.extend(TEST_REQUEST2);
    request.extend(TEST_REQUEST);
    let request = bytes::Bytes::copy_from_slice(&request);
    let req = parse_request_from_bytes(&request, TEST_REQUEST2.len()).unwrap();

    assert_eq!(req.span().as_bytes(), TEST_REQUEST);
    assert_eq!(req.request.method.as_str(), "GET");
    assert_eq!(
        req.headers_with_name("Host")[0].value.span().as_bytes(),
        b"developer.mozilla.org".as_slice()
    );
    assert_eq!(
        req.headers_with_name("User-Agent")[0].value.span().as_bytes(),
        b"Mozilla/5.0 (Macintosh; Intel Mac OS X 10.9; rv:50.0) Gecko/20100101 Firefox/50.0"
            .as_slice()
    );
    assert_eq!(req.body.unwrap().span().as_bytes(), b"Hello World!".as_slice());
}

// Make sure the first response is not parsed.
#[test]
fn test_parse_response_from_bytes() {
    let mut response = Vec::new();
    response.extend(TEST_RESPONSE2);
    response.extend(TEST_RESPONSE);
    let response = bytes::Bytes::copy_from_slice(&response);
    let res = parse_response_from_bytes(&response, TEST_RESPONSE2.len()).unwrap();

    assert_eq!(res.span().as_bytes(), TEST_RESPONSE);
    assert_eq!(res.status.code.as_str(), "200");
    assert_eq!(res.status.reason.as_str(), "OK");
    assert_eq!(
        res.headers_with_name("Server")[0].value.span().as_bytes(),
        b"Apache/2.2.14 (Win32)".as_slice()
    );
    assert_eq!(
        res.headers_with_name("Connection")[0].value.span().as_bytes(),
        b"Closed".as_slice()
    );
    assert_eq!(
        res.body.unwrap().span().as_bytes(),
        b"<html>\n<body>\n<h1>Hello, World!</h1>\n</body>\n</html>".as_slice()
    );
}

#[test]
fn test_parse_requests() {
    let reqs = collect_requests(MULTIPLE_REQUESTS).unwrap();

    assert_eq!(reqs.len(), 2);

    assert_eq!(reqs[0].request.method.as_str(), "GET");
    assert!(reqs[0].body.is_none());
    assert_eq!(
        reqs[0].headers_with_name("host")[0].value.as_bytes(),
        b"localhost"
    );

    assert_eq!(reqs[1].request.method.as_str(), "POST");
    assert_eq!(
        reqs[1].headers_with_name("host")[0].value.as_bytes(),
        b"localhost"
    );
    assert_eq!(
        reqs[1].headers_with_name("content-length")[0].value.as_bytes(),
        b"14"
    );
    assert_eq!(
        reqs[1].body.as_ref().unwrap().span().as_bytes(),
        b"Hello, world!\n".as_slice()
    );
}

#[test]
fn test_parse_responses() {
    let resps = collect_responses(MULTIPLE_RESPONSES).unwrap();

    assert_eq!(resps.len(), 3);

    assert_eq!(resps[0].status.code.as_str(), "200");
    assert_eq!(
        resps[0].headers_with_name("content-length")[0].value.as_bytes(),
        b"0"
    );
    assert!(resps[0].body.is_none());

    assert_eq!(resps[1].status.code.as_str(), "200");
    assert_eq!(
        resps[1].headers_with_name("content-length")[0].value.as_bytes(),
        b"14"
    );
    assert_eq!(
        resps[1].body.as_ref().unwrap().span().as_bytes(),
        b"Hello, world!\n".as_slice()
    );

    assert_eq!(resps[2].status.code.as_str(), "204");
    assert_eq!(
        resps[2].headers_with_name("content-length")[0].value.as_bytes(),
        b"0"
    );
    assert!(resps[2].body.is_none());
}

#[test]
fn test_parse_request_duplicate_headers() {
    let req_bytes = b"GET / HTTP/1.1\r\nHost: localhost\r\nAccept: application/json\r\n\
    Accept: application/xml\r\n\r\n";
    let reqs = collect_requests(req_bytes).unwrap();

    assert_eq!(reqs.len(), 1);
    let req = reqs.first().unwrap();

    let headers = req.headers_with_name("host");
    assert_eq!(headers.len(), 1);
    assert_eq!(headers.first().unwrap().value.as_bytes(), b"localhost");

    let headers = req.headers_with_name("accept");
    assert_eq!(headers.len(), 2);
    assert_eq!(
        headers.iter().map(|h| h.value.as_bytes()).collect::<Vec<_>>(),
        vec!["application/json".as_bytes(), "application/xml".as_bytes()],
    );
}

#[test]
fn test_parse_response_duplicate_headers() {
    let resp_bytes = b"HTTP/1.1 200 OK\r\nSet-Cookie: lang=en; Path=/\r\n\
    Set-Cookie: fang=fen; Path=/\r\nContent-Length: 14\r\n\r\n{\"foo\": \"bar\"}";
    let resps = collect_responses(resp_bytes).unwrap();

    assert_eq!(resps.len(), 1);
    let resp = resps.first().unwrap();

    let headers = resp.headers_with_name("set-cookie");
    assert_eq!(headers.len(), 2);
    assert_eq!(
        headers.iter().map(|h| h.value.as_bytes()).collect::<Vec<_>>(),
        vec!["lang=en; Path=/".as_bytes(), "fang=fen; Path=/".as_bytes()],
    );

    let headers = resp.headers_with_name("content-length");
    assert_eq!(headers.len(), 1);
    assert_eq!(headers.first().unwrap().value.as_bytes(), b"14");
}

#[test]
fn test_header_lookup_case_insensitive() {
    let req = parse_request(TEST_REQUEST).unwrap();
    let upper = req.headers_with_name("Host");
    let lower = req.headers_with_name("host");
    let mixed = req.headers_with_name("hOsT");
    assert_eq!(upper.len(), 1);
    assert_eq!(lower.len(), 1);
    assert_eq!(mixed.len(), 1);
    assert_eq!(upper[0].value.as_bytes(), lower[0].value.as_bytes());
    assert_eq!(upper[0].value.as_bytes(), mixed[0].value.as_bytes());
}

#[test]
fn test_content_length_body_exact() {
    let req = parse_request(
        b"POST /hello HTTP/1.1\r\nContent-Length: 14\r\n\r\nHello, world!\nTRAILING",
    )
    .unwrap();
    let body = req.body.unwrap();
    assert_eq!(body.span().as_bytes(), b"Hello, world!\n".as_slice());
    assert_eq!(body.span().len(), 14);

    // A 204 response never has a body, whatever Content-Length says.
    let res = parse_response(b"HTTP/1.1 204 No Content\r\nContent-Length: 14\r\n\r\n").unwrap();
    assert!(res.body.is_none());
}

#[test]
fn test_transfer_encoding_rejected() {
    let err = parse_request(
        b"POST / HTTP/1.1\r\nTransfer-Encoding: chunked\r\nContent-Length: 4\r\n\r\nabcd",
    )
    .unwrap_err();
    assert_eq!(err.kind(), ErrorKind::UnsupportedFraming);

    let err = parse_response(
        b"HTTP/1.1 200 OK\r\ntransfer-encoding: chunked\r\n\r\n",
    )
    .unwrap_err();
    assert_eq!(err.kind(), ErrorKind::UnsupportedFraming);
}

#[test]
fn test_error_kinds() {
    // A head without its final empty line is malformed.
    let err = parse_request(b"GET / HTTP/1.1\r\nHost: x\r\n").unwrap_err();
    assert_eq!(err.kind(), ErrorKind::MalformedHead);

    // A non-numeric Content-Length is an invalid length.
    let err = parse_request(b"GET / HTTP/1.1\r\nContent-Length: ab\r\n\r\n").unwrap_err();
    assert_eq!(err.kind(), ErrorKind::InvalidLength);

    // A body range past the end of the buffer is an invalid length.
    let err = parse_request(b"GET / HTTP/1.1\r\nContent-Length: 99\r\n\r\nshort").unwrap_err();
    assert_eq!(err.kind(), ErrorKind::InvalidLength);

    // A response with neither length signal nor bodyless status is ambiguous.
    let err = parse_response(b"HTTP/1.1 200 OK\r\nServer: x\r\n\r\n").unwrap_err();
    assert_eq!(err.kind(), ErrorKind::AmbiguousBody);

    // More headers than the cap is its own error.
    let mut big = String::from("GET / HTTP/1.1\r\n");
    for i in 0..129 {
        big.push_str(&format!("X-H{}: v\r\n", i));
    }
    big.push_str("\r\n");
    let err = parse_request(big.as_bytes()).unwrap_err();
    assert_eq!(err.kind(), ErrorKind::HeaderCapExceeded);
}

#[test]
fn test_stream_stops_cleanly() {
    let mut it = Requests::new_from_slice(MULTIPLE_REQUESTS);
    let first = it.next().unwrap().unwrap();
    let second = it.next().unwrap().unwrap();
    assert!(it.next().is_none());
    assert!(it.next().is_none());

    // The spans are adjacent and non-overlapping, in order.
    let r0 = first.span().indices().ranges.clone();
    let r1 = second.span().indices().ranges.clone();
    assert_eq!(r0.len(), 1);
    assert_eq!(r1.len(), 1);
    assert_eq!(r0[0].start, 0);
    assert_eq!(r0[0].end, r1[0].start);
    assert_eq!(r1[0].end, MULTIPLE_REQUESTS.len());
}

#[test]
fn test_reparse_consumed_prefix() {
    // Re-parsing exactly the bytes a request's span covers yields the
    // same entity, anchored at zero.
    let mut buf = Vec::new();
    buf.extend(TEST_REQUEST2);
    buf.extend(TEST_REQUEST);
    let whole = bytes::Bytes::copy_from_slice(&buf);
    let req = parse_request_from_bytes(&whole, TEST_REQUEST2.len()).unwrap();
    let again = parse_request(req.span().as_bytes()).unwrap();
    assert_eq!(again.span().as_bytes(), req.span().as_bytes());
    assert_eq!(again.request.method.as_str(), req.request.method.as_str());
    assert_eq!(again.headers.len(), req.headers.len());
    assert_eq!(
        again.body.unwrap().span().as_bytes(),
        req.body.unwrap().span().as_bytes()
    );
}

#[test]
fn test_header_without_value() {
    let req = parse_request(b"GET / HTTP/1.1\r\nHost: example.com \r\n\r\n").unwrap();
    let headers = req.headers_with_name("Host");
    let header = headers.first().unwrap();
    let indices = header.without_value();
    let src = b"GET / HTTP/1.1\r\nHost: example.com \r\n\r\n";
    let redacted: Vec<u8> = indices
        .ranges
        .iter()
        .flat_map(|r| src[r.start..r.end].to_vec())
        .collect();
    assert_eq!(redacted, b"Host:  \r\n".to_vec());
}

#[test]
fn test_request_without_data() {
    let src = b"GET /secret HTTP/1.1\r\nHost: h\r\n\r\n";
    let req = parse_request(src).unwrap();
    let indices = req.without_data();
    let redacted: Vec<u8> = indices
        .ranges
        .iter()
        .flat_map(|r| src[r.start..r.end].to_vec())
        .collect();
    assert_eq!(redacted, b"GET  HTTP/1.1\r\n\r\n".to_vec());
}
