use tinyhttp::{
    ChunkedResponseWriter, Endpoints, HttpMethod, Request, ResponseWriter, ResponseWriterError,
    RouteError, ServerResponse, StatusCode,
};

fn request(wire: &str) -> Request {
    Request::from_chunks(&vec![wire.as_bytes().to_vec()]).unwrap()
}

fn text(b: &[u8]) -> String {
    String::from_utf8(b.to_vec()).unwrap()
}

#[test]
fn label_value_reaches_handler() {
    let mut routes = Endpoints::new();
    assert_eq!(routes.insert_endpoint(HttpMethod::GET, "/user/{id}").unwrap(), 0);
    let mut req = request("GET /user/42 HTTP/1.1\r\nHost: h\r\n\r\n");
    assert_eq!(routes.dispatch(&mut req), Some(0));
    let id = req.get_path_value("id").unwrap();
    assert_eq!(id, "42");
    assert_eq!(req.get_path_value("other"), None);

    let mut w = ResponseWriter::new();
    w.write_code(StatusCode::OK).unwrap();
    w.write_body(format!("The id sended was {}", id).as_bytes()).unwrap();
    w.finish();
    assert_eq!(
        text(&w.take_output()),
        "HTTP/1.1 200 OK\r\nContent-Length: 20\r\nConnection: close\r\nContent-Type: text/plain\r\n\r\nThe id sended was 42"
    );
}

#[test]
fn label_values_in_the_middle() {
    let mut routes = Endpoints::new();
    routes.insert_endpoint(HttpMethod::GET, "/users/{id}/info/{name}/some").unwrap();
    let mut req = request("GET /users/7/info/mario/some HTTP/1.1\r\n\r\n");
    assert_eq!(routes.dispatch(&mut req), Some(0));
    assert_eq!(req.get_path_value("id").unwrap(), "7");
    assert_eq!(req.get_path_value("name").unwrap(), "mario");
}

#[test]
fn no_route_for_other_method_or_path() {
    let mut routes = Endpoints::new();
    routes.insert_endpoint(HttpMethod::GET, "/").unwrap();
    routes.insert_endpoint(HttpMethod::GET, "/user/{id}").unwrap();
    let mut req = request("POST /user/1 HTTP/1.1\r\n\r\n");
    assert_eq!(routes.dispatch(&mut req), None);
    assert_eq!(req.get_path_value("id"), None);
    assert_eq!(routes.find_target(HttpMethod::GET, "/nothing"), None);
    assert_eq!(routes.find_target(HttpMethod::GET, "/"), Some(0));
    assert_eq!(routes.len(), 2);
}

#[test]
fn conflicting_routes_are_refused() {
    let mut routes = Endpoints::new();
    routes.insert_endpoint(HttpMethod::GET, "/users/{id}/info").unwrap();
    assert_eq!(
        routes.insert_endpoint(HttpMethod::GET, "/users/{name}/info").unwrap_err(),
        RouteError::Conflict
    );
    assert_eq!(routes.insert_endpoint(HttpMethod::POST, "/users/{name}/info").unwrap(), 1);
    assert!(matches!(
        routes.insert_endpoint(HttpMethod::GET, "/x/{a"),
        Err(RouteError::Pattern(_))
    ));
    assert_eq!(routes.path(1).raw_value(), "/users/{name}/info");
}

#[test]
fn unflushed_writer_still_sends_full_response() {
    let mut w = ResponseWriter::new();
    w.write_code(StatusCode::NotFound).unwrap();
    w.write_header("Content-Type", "text/html").unwrap();
    w.write_body(b"<p>x</p>").unwrap();
    assert!(!w.flushed());
    w.finish();
    assert!(w.flushed());
    assert_eq!(
        text(&w.take_output()),
        "HTTP/1.1 404 Not Found\r\nContent-Type: text/html\r\nContent-Length: 8\r\nConnection: close\r\n\r\n<p>x</p>"
    );
    w.finish();
    assert!(w.take_output().is_empty());
}

#[test]
fn writer_refuses_after_flush() {
    let mut w = ResponseWriter::new();
    w.append_body(b"ab").unwrap();
    w.append_body(b"c").unwrap();
    w.flush().unwrap();
    assert!(text(&w.take_output()).ends_with("\r\n\r\nabc"));
    assert!(matches!(w.flush(), Err(ResponseWriterError::WriterAlreadyFlushed)));
    assert!(matches!(w.write_code(StatusCode::OK), Err(ResponseWriterError::WriterAlreadyFlushed)));
    assert!(matches!(w.write_header("a", "b"), Err(ResponseWriterError::WriterAlreadyFlushed)));
    assert!(matches!(w.write_body(b"x"), Err(ResponseWriterError::WriterAlreadyFlushed)));
}

#[test]
fn writer_overwrites_length_and_connection() {
    let mut w = ResponseWriter::new();
    w.write_header("Connection", "keep-alive").unwrap();
    w.write_header("Content-Length", "99").unwrap();
    w.write_body(b"hello").unwrap();
    w.flush().unwrap();
    assert_eq!(
        text(&w.take_output()),
        "HTTP/1.1 200 OK\r\nConnection: close\r\nContent-Length: 5\r\nContent-Type: text/plain\r\n\r\nhello"
    );
}

fn chunked() -> ChunkedResponseWriter {
    ResponseWriter::new().chunked_writer()
}

#[test]
fn chunked_three_writes_and_trailer() {
    let mut w = chunked();
    w.write_trailer("X-Content-Length", "5").unwrap();
    let n = w.write(b"ab").unwrap();
    let head = "HTTP/1.1 200 OK\r\nTransfer-Encoding: chunked\r\nContent-Type: text/plain\r\n\r\n";
    assert_eq!(n, head.len() + 7);
    assert_eq!(w.write(b"cde").unwrap(), 8);
    assert_eq!(w.write(b"").unwrap(), 5);
    w.close().unwrap();
    let out = text(&w.take_output());
    assert_eq!(
        out,
        format!("{}2\r\nab\r\n3\r\ncde\r\n0\r\n\r\n0\r\nX-Content-Length: 5\r\n\r\n", head)
    );
    assert!(matches!(w.close(), Err(ResponseWriterError::WriterAlreadyClosed)));
    assert!(matches!(w.write(b"x"), Err(ResponseWriterError::WriterAlreadyClosed)));
}

/// Reads a chunked body back: the bytes of the chunks, and what follows the last one.
fn decode(body: &str) -> (String, String) {
    let mut rest = body;
    let mut payload = String::new();
    loop {
        let k = rest.find("\r\n").unwrap();
        let n = usize::from_str_radix(&rest[..k], 16).unwrap();
        rest = &rest[k + 2..];
        if n == 0 {
            return (payload, rest.to_string());
        }
        payload.push_str(&rest[..n]);
        assert_eq!(&rest[n..n + 2], "\r\n");
        rest = &rest[n + 2..];
    }
}

#[test]
fn chunked_round_trip_of_buffers() {
    let mut w = chunked();
    w.flush_headers().unwrap();
    let head = text(&w.take_output());
    assert!(head.ends_with("\r\n\r\n"));
    let parts = ["hello", "x", &"y".repeat(26), "end"];
    for p in parts.iter() {
        w.write(p.as_bytes()).unwrap();
    }
    w.write_trailer("A", "1").unwrap();
    w.close().unwrap();
    let body = text(&w.take_output());
    assert!(body.contains("\r\n1A\r\n"));
    let (payload, after) = decode(&body);
    assert_eq!(payload, parts.concat());
    assert_eq!(after, "A: 1\r\n\r\n");
}

#[test]
fn chunked_rules_before_and_after_headers() {
    let mut w = chunked();
    w.write_code(StatusCode::InternalServerError).unwrap();
    w.write_header("Content-Type", "video/mp4").unwrap();
    w.flush_headers().unwrap();
    assert_eq!(
        text(&w.take_output()),
        "HTTP/1.1 500 Internal Server Error\r\nTransfer-Encoding: chunked\r\nContent-Type: video/mp4\r\n\r\n"
    );
    assert!(matches!(w.flush_headers(), Err(ResponseWriterError::WriterAlreadyFlushed)));
    assert!(matches!(w.write_code(StatusCode::OK), Err(ResponseWriterError::WriterAlreadyFlushed)));
    assert!(matches!(w.write_header("a", "b"), Err(ResponseWriterError::WriterAlreadyFlushed)));
    w.finish();
    assert_eq!(text(&w.take_output()), "0\r\n\r\n");
    assert!(matches!(w.write_trailer("a", "b"), Err(ResponseWriterError::WriterAlreadyClosed)));
}

#[test]
fn chunked_drops_content_length() {
    let mut w = ResponseWriter::new();
    w.write_header("Content-Length", "3").unwrap();
    w.write_header("Trailer", "X").unwrap();
    let mut c = w.chunked_writer();
    c.flush_headers().unwrap();
    assert_eq!(
        text(&c.take_output()),
        "HTTP/1.1 200 OK\r\nTrailer: X\r\nTransfer-Encoding: chunked\r\nContent-Type: text/plain\r\n\r\n"
    );
}

#[test]
fn digest_trailers() {
    let mut w = chunked();
    w.write(b"hello").unwrap();
    w.write_digest_trailers(b"hello").unwrap();
    w.close().unwrap();
    let out = text(&w.take_output());
    assert!(out.ends_with(
        "0\r\nX-Content-Length: 5\r\nX-Content-Sha256: 2cf24dba5fb0a30e26e83b2ac5b9e29e1b161e5c1fa7425e73043362938b9824\r\n\r\n"
    ));
}

#[test]
fn status_texts() {
    assert_eq!(StatusCode::BadRequest.text(), "400 Bad Request");
    assert_eq!(StatusCode::OK.bytes(), b"200 OK");
    assert_eq!(StatusCode::InternalServerError.byte_len(), 25);
    let r = ServerResponse { code: StatusCode::NotFound, content: Some("gone".to_string()) };
    assert_eq!(r.message(), "404 Not Found:gone");
    let r = ServerResponse { code: StatusCode::OK, content: None };
    assert_eq!(r.message(), "200 OK");
}

#[test]
fn response_line_bytes() {
    let l = tinyhttp::ResponseLine::new(StatusCode::NotFound);
    let mut out = Vec::new();
    l.write_to(&mut out);
    assert_eq!(out, b"HTTP/1.1 404 Not Found\r\n".to_vec());
    assert_eq!(l.byte_len(), out.len());
}
