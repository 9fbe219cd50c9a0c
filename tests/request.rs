use tinyhttp::{find_crlf, parse_usize, Error, HttpMethod, Request, RequestLine, RequestParser, RequestReader};

/// Cuts `data` into reads of at most `n` bytes, as a connection might deliver it.
fn read_in_chunks(data: &str, n: usize) -> Result<Request, Error> {
    let chunks: Vec<Vec<u8>> = data.as_bytes().chunks(n).map(|c| c.to_vec()).collect();
    Request::from_chunks(&chunks)
}

#[test]
fn test_good_request_line() {
    let request = "GET / HTTP/1.1\r\nHost: localhost:42069\r\nUser-Agent: curl/7.81.0\r\nAccept: */*\r\n\r\n";
    let request = read_in_chunks(request, 2).unwrap();
    assert_eq!(request.line().method, HttpMethod::GET);
    assert_eq!(request.line().http_version, "1.1");
    assert_eq!(request.line().request_target, "/");
}

#[test]
fn test_good_request_line_with_path() {
    let request = "GET /coffee HTTP/1.1\r\nHost: localhost:42069\r\nUser-Agent: curl/7.81.0\r\nAccept: */*\r\n\r\n";
    let request = read_in_chunks(request, 1).unwrap();
    assert_eq!(request.line().method, HttpMethod::GET);
    assert_eq!(request.line().http_version, "1.1");
    assert_eq!(request.line().request_target, "/coffee");
}

#[test]
fn test_request_line_invalid_number_of_line_parts() {
    let request = "/coffee HTTP/1.1\r\nHost: localhost:42069\r\nUser-Agent: curl/7.81.0\r\nAccept: */*\r\n\r\n";
    let err = read_in_chunks(request, 2).unwrap_err();
    assert_eq!(err, Error::InvalidLinePartSize(2))
}

#[test]
fn test_request_line_invalid_out_of_order() {
    let request = "/coffee GET HTTP/1.1\r\nHost: localhost:42069\r\nUser-Agent: curl/7.81.0\r\nAccept: */*\r\n\r\n";
    let err = read_in_chunks(request, 2).unwrap_err();
    assert_eq!(err, Error::UnknownHttpMethod("/coffee".to_string()))
}

#[test]
fn test_request_line_invalid_version() {
    let request = "GET /coffee HTTP/1.2\r\nHost: localhost:42069\r\nUser-Agent: curl/7.81.0\r\nAccept: */*\r\n\r\n";
    let err = read_in_chunks(request, 10).unwrap_err();
    assert_eq!(err, Error::UnsupportedHttpVersion("HTTP/1.2".to_string()))
}

#[test]
fn test_buffer_resizing_on_large_request_line() {
    let long_method = "A".repeat(1025);
    let request_line = format!("{} / HTTP/1.1\r\nHost: localhost:42069\r\n\r\n", long_method);
    let err = read_in_chunks(&request_line, 2).unwrap_err();
    assert_eq!(err, Error::UnknownHttpMethod(long_method));
}

#[test]
fn test_parsing_headers() {
    let request = "GET /coffee HTTP/1.1\r\nHost: localhost:42069\r\nUser-Agent: curl/7.81.0\r\nAccept: */*\r\n\r\n";
    let request = read_in_chunks(request, 2).unwrap();
    assert_eq!(request.headers().get("host"), Some(&"localhost:42069".to_string()));
    assert_eq!(request.headers().get("user-agent"), Some(&"curl/7.81.0".to_string()));
    assert_eq!(request.headers().get("accept"), Some(&"*/*".to_string()));
}

#[test]
fn test_parsing_headers_multiple_values() {
    let request = "GET /coffee HTTP/1.1\r\nHost: localhost:42069\r\nSet-Person: lane-loves-go\r\nSet-Person: prime-loves-zig\r\nSet-Person: tj-loves-ocaml\r\nUser-Agent: curl/7.81.0\r\nAccept: */*\r\n\r\n";
    let request = read_in_chunks(request, 2).unwrap();
    assert_eq!(request.headers().get("host"), Some(&"localhost:42069".to_string()));
    assert_eq!(request.headers().get("user-agent"), Some(&"curl/7.81.0".to_string()));
    assert_eq!(
        request.headers().get("set-person"),
        Some(&"lane-loves-go, prime-loves-zig, tj-loves-ocaml".to_string())
    );
    assert_eq!(request.headers().get("accept"), Some(&"*/*".to_string()));
}

#[test]
fn test_parsing_body_good_body() {
    let request = "POST /submit HTTP/1.1\r\n".to_string()
        + "Host: localhost:42069\r\n"
        + "Content-Length: 13\r\n"
        + "\r\n"
        + "hello world!\n";
    let request = read_in_chunks(&request, 2).unwrap();
    assert_eq!(request.headers().get("host"), Some(&"localhost:42069".to_string()));
    assert_eq!(request.headers().get("content-length"), Some(&"13".to_string()));
    assert_eq!(
        String::from_utf8_lossy(request.body()).to_string(),
        "hello world!\n".to_string()
    )
}

#[test]
fn test_parsing_body_partial_content() {
    let request = "POST /submit HTTP/1.1\r\n".to_string()
        + "Host: localhost:42069\r\n"
        + "Content-Length: 20\r\n"
        + "\r\n"
        + "partial content";
    let error = read_in_chunks(&request, 2).unwrap_err();
    assert_eq!(error, Error::BodySmallerThanContentLength);
}

#[test]
fn test_parsing_body_bigger_than_content_length() {
    let request = "POST /submit HTTP/1.1\r\n".to_string()
        + "Host: localhost:42069\r\n"
        + "Content-Length: 13\r\n"
        + "\r\n"
        + "hello world!\naaaaaaaaaaaaaaaaaaaa";
    let request = read_in_chunks(&request, 2).unwrap();
    assert_eq!(request.headers().get("host"), Some(&"localhost:42069".to_string()));
    assert_eq!(request.headers().get("content-length"), Some(&"13".to_string()));
    assert_eq!(
        String::from_utf8_lossy(request.body()).to_string(),
        "hello world!\n".to_string()
    )
}

#[test]
fn same_request_for_every_chunk_size() {
    let wire = "POST /a/b HTTP/1.1\r\nHost: h\r\nX-Y: 1\r\nx-y: 2\r\nContent-Length: 5\r\n\r\nabcde";
    let whole = read_in_chunks(wire, wire.len()).unwrap();
    for n in [1usize, 2, 8] {
        let r = read_in_chunks(wire, n).unwrap();
        assert_eq!(r.line().method, whole.line().method);
        assert_eq!(r.line().request_target, whole.line().request_target);
        assert_eq!(r.headers().get("host"), whole.headers().get("host"));
        assert_eq!(r.headers().get("x-y"), Some(&"1, 2".to_string()));
        assert_eq!(r.headers().len(), whole.headers().len());
        assert_eq!(r.body(), whole.body());
    }
}

#[test]
fn same_error_for_every_chunk_size() {
    let wire = "GET / HTTP/1.1\r\nBad Header\r\n\r\n";
    for n in [1usize, 2, 8, wire.len()] {
        assert_eq!(read_in_chunks(wire, n).unwrap_err(), Error::MalFormedHeader("Bad Header".to_string()));
    }
}

#[test]
fn header_names_only_lower_case() {
    let r = read_in_chunks("GET / HTTP/1.1\r\nHOST: a\r\nContent-TYPE: b\r\n\r\n", 3).unwrap();
    assert_eq!(r.headers().get("host"), Some(&"a".to_string()));
    assert_eq!(r.headers().get("HOST"), None);
    assert_eq!(r.headers().get("content-type"), Some(&"b".to_string()));
    assert_eq!(r.headers().get("Content-TYPE"), None);
}

#[test]
fn scenario_simple_get() {
    let r = read_in_chunks(
        "GET / HTTP/1.1\r\nHost: localhost:42069\r\nUser-Agent: curl/7.81.0\r\nAccept: */*\r\n\r\n",
        5,
    )
    .unwrap();
    assert_eq!(r.line().method, HttpMethod::GET);
    assert_eq!(r.line().request_target, "/");
    assert_eq!(r.headers().get("host"), Some(&"localhost:42069".to_string()));
    assert!(r.body().is_empty());
}

#[test]
fn scenario_post_body() {
    let r = read_in_chunks("POST /submit HTTP/1.1\r\nHost: h\r\nContent-Length: 13\r\n\r\nhello world!\n", 4).unwrap();
    assert_eq!(r.body(), &b"hello world!\n".to_vec());
    assert_eq!(r.body().len(), 13);
}

#[test]
fn scenario_short_body_then_end_of_input() {
    let e = read_in_chunks("POST /submit HTTP/1.1\r\nHost: h\r\nContent-Length: 20\r\n\r\n123456789012345", 4).unwrap_err();
    assert_eq!(e, Error::BodySmallerThanContentLength);
}

#[test]
fn scenario_two_line_parts() {
    let e = read_in_chunks("/coffee HTTP/1.1\r\nHost: h\r\n\r\n", 64).unwrap_err();
    assert_eq!(e, Error::InvalidLinePartSize(2));
}

#[test]
fn four_line_parts() {
    let e = read_in_chunks("GET / x HTTP/1.1\r\n\r\n", 64).unwrap_err();
    assert_eq!(e, Error::InvalidLinePartSize(4));
}

#[test]
fn malformed_content_length() {
    let e = read_in_chunks("POST / HTTP/1.1\r\nContent-Length: abc\r\n\r\n", 64).unwrap_err();
    assert_eq!(e, Error::MalFormedContentLengthHeader("abc".to_string()));
}

#[test]
fn content_length_with_plus_sign() {
    let r = read_in_chunks("POST / HTTP/1.1\r\nContent-Length: +3\r\n\r\nxyz", 64).unwrap();
    assert_eq!(r.body(), &b"xyz".to_vec());
}

#[test]
fn input_ends_in_headers() {
    let e = read_in_chunks("GET / HTTP/1.1\r\nHost: h\r\n", 64).unwrap_err();
    assert_eq!(e, Error::BodySmallerThanContentLength);
}

#[test]
fn parser_refuses_after_done() {
    let mut p = RequestParser::new();
    let data = b"GET / HTTP/1.1\r\n\r\n";
    assert_eq!(p.parse(data).unwrap(), data.len());
    assert!(p.done());
    assert_eq!(p.parse(b"more").unwrap_err(), Error::AlreadyCloseParser);
    assert!(p.done());
    assert_eq!(p.line.as_ref().unwrap().request_target, "/");
}

#[test]
fn parser_not_done_after_bad_content_length() {
    let mut p = RequestParser::new();
    let data = b"POST / HTTP/1.1\r\nContent-Length: -1\r\n\r\nabc";
    assert_eq!(p.parse(data).unwrap_err(), Error::MalFormedContentLengthHeader("-1".to_string()));
    assert!(!p.done());
    assert_eq!(p.parse(b"abc").unwrap_err(), Error::MalFormedContentLengthHeader("-1".to_string()));
    assert!(!p.done());
}

#[test]
fn parser_reports_bytes_used() {
    let mut p = RequestParser::new();
    assert_eq!(p.parse(b"GET / HT").unwrap(), 0);
    assert_eq!(p.parse(b"GET / HTTP/1.1\r\nHost: a\r\nAcc").unwrap(), 25);
    assert!(!p.done());
    assert_eq!(p.parse(b"Accept: b\r\nContent-Length: 3\r\n\r\nab").unwrap(), 34);
    assert_eq!(p.content_length().unwrap(), 3);
    assert_eq!(p.parse(b"cdef").unwrap(), 1);
    assert!(p.done());
}

#[test]
fn reader_capacity_doubles_when_full() {
    let mut r = RequestReader::new();
    assert_eq!(r.read_capacity(), 1024);
    let long = vec![b'A'; 1024];
    assert!(matches!(r.feed(&long), Ok(false)));
    assert_eq!(r.read_capacity(), 1024);
    assert_eq!(r.feed(&[]).unwrap_err(), Error::BodySmallerThanContentLength);
}

#[test]
fn request_line_direct() {
    let (n, r) = RequestLine::new_from_bytes(b"DELETE /x HTTP/1.1\r\nrest");
    assert_eq!(n, 20);
    let l = r.unwrap().unwrap();
    assert_eq!(l.method, HttpMethod::DELETE);
    assert_eq!(l.request_target, "/x");
    let (n, r) = RequestLine::new_from_bytes(b"GET /x HTTP/1.1");
    assert_eq!(n, 0);
    assert!(matches!(r, Ok(None)));
}

#[test]
fn method_names() {
    assert_eq!(HttpMethod::try_from("PATCH").unwrap(), HttpMethod::PATCH);
    assert_eq!(HttpMethod::try_from("get").unwrap_err(), Error::UnknownHttpMethod("get".to_string()));
    assert_eq!(HttpMethod::OPTIONS.name(), "OPTIONS");
}

#[test]
fn decimal_parsing() {
    assert_eq!(parse_usize(b"13"), Some(13));
    assert_eq!(parse_usize(b"+0"), Some(0));
    assert_eq!(parse_usize(b""), None);
    assert_eq!(parse_usize(b"+"), None);
    assert_eq!(parse_usize(b"-1"), None);
    assert_eq!(parse_usize(b"18446744073709551615"), Some(18446744073709551615));
    assert_eq!(parse_usize(b"18446744073709551616"), None);
}

#[test]
fn line_break_search() {
    assert_eq!(find_crlf(b"ab\r\ncd"), Some(2));
    assert_eq!(find_crlf(b"ab\rcd\n"), None);
    assert_eq!(find_crlf(b""), None);
}
