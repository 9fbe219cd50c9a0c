use vstd::prelude::*;
use vstd::utf8::*;

use crate::code::{status_text, StatusCode};
use crate::digest::{hex_encode, lower_hex_text, sha256, sha256_of};
use crate::header::{
    crlf, fields_insert, fields_insert_absent, fields_overwrite, fields_remove, fields_wire,
    headers_wire, FieldsView, Headers,
};
use crate::text::{ascii_chars, ascii_text, decimal, is_ascii_bytes, push_decimal, push_upper_hex, upper_hex};

verus! {

/// `HTTP/1.1`, the version on every status line.
pub open spec fn version_bytes() -> Seq<u8> {
    seq![72u8, 84u8, 84u8, 80u8, 47u8, 49u8, 46u8, 49u8]
}

/// A status line on the wire: `HTTP/1.1 200 OK\r\n`.
pub open spec fn status_line(version: Seq<u8>, code: StatusCode) -> Seq<u8> {
    version + seq![32u8] + encode_utf8(status_text(code)) + crlf()
}

/// The first line of a response.
#[derive(Debug)]
pub struct ResponseLine {
    pub http_version: [u8; 8],
    pub code: StatusCode,
}

impl ResponseLine {
    /// The status line for `code`.
    pub fn new(code: StatusCode) -> (r: ResponseLine)
        ensures
            r.code == code,
            r.http_version@ == version_bytes(),
    {
        ResponseLine { http_version: [72u8, 84u8, 84u8, 80u8, 47u8, 49u8, 46u8, 49u8], code }
    }

    /// Appends the line as it goes on the wire.
    pub fn write_to(&self, out: &mut Vec<u8>)
        ensures
            final(out)@ == old(out)@ + status_line(self.http_version@, self.code),
    {
        out.extend_from_slice(self.http_version.as_slice());
        out.push(32u8);
        out.extend_from_slice(self.code.bytes());
        out.push(13u8);
        out.push(10u8);
        proof {
            assert(final(out)@ =~= old(out)@ + status_line(self.http_version@, self.code));
        }
    }

    /// Number of bytes that [`ResponseLine::write_to`] appends.
    pub fn byte_len(&self) -> (r: usize)
        ensures
            r == status_line(self.http_version@, self.code).len(),
    {
        let mut scratch: Vec<u8> = Vec::new();
        self.write_to(&mut scratch);
        proof {
            assert(scratch@ =~= status_line(self.http_version@, self.code));
        }
        scratch.len()
    }
}

/// A whole response on the wire: status line, header section, body.
pub open spec fn response_wire(version: Seq<u8>, code: StatusCode, h: FieldsView, body: Seq<u8>) -> Seq<u8> {
    status_line(version, code) + headers_wire(h) + body
}

/// A response to write out.
pub struct Response<'a> {
    line: &'a ResponseLine,
    headers: &'a Headers,
    body: &'a Vec<u8>,
}

impl<'a> Response<'a> {
    pub fn new(line: &'a ResponseLine, headers: &'a Headers, body: &'a Vec<u8>) -> (r: Response<'a>)
        ensures
            r.wire() == response_wire(line.http_version@, line.code, headers@, body@),
    {
        Response { line, headers, body }
    }

    /// The bytes of the response.
    pub closed spec fn wire(&self) -> Seq<u8> {
        response_wire(self.line.http_version@, self.line.code, self.headers@, self.body@)
    }

    /// Appends the response as it goes on the wire.
    pub fn write_to(&self, out: &mut Vec<u8>)
        ensures
            final(out)@ == old(out)@ + self.wire(),
    {
        self.line.write_to(out);
        self.headers.write_to(out);
        out.extend_from_slice(self.body.as_slice());
        proof {
            assert(final(out)@ =~= old(out)@ + self.wire());
        }
    }

    /// The response as bytes.
    pub fn to_bytes(self) -> (r: Vec<u8>)
        ensures
            r@ == self.wire(),
    {
        let mut resp: Vec<u8> = Vec::new();
        self.write_to(&mut resp);
        proof {
            assert(resp@ =~= Seq::<u8>::empty() + self.wire());
        }
        resp
    }
}

/// Why a writer refused an operation.
#[derive(Debug)]
pub enum ResponseWriterError {
    WriterAlreadyFlushed,
    WriterAlreadyClosed,
    WritingError(std::io::Error),
}

/// The text of the decimal digits of `n`.
pub open spec fn decimal_text(n: nat) -> Seq<char> {
    ascii_chars(decimal(n))
}

proof fn lemma_decimal_ascii(n: nat)
    ensures
        is_ascii_bytes(decimal(n)),
    decreases n,
{
    if n >= 10 {
        lemma_decimal_ascii(n / 10);
        assert forall|i: int| 0 <= i < decimal(n).len() implies #[trigger] decimal(n)[i] < 128u8 by {
            if i < decimal(n / 10).len() {
                assert(decimal(n)[i] == decimal(n / 10)[i]);
            }
        }
    }
}

fn decimal_string(n: usize) -> (r: String)
    ensures
        r@ == decimal_text(n as nat),
{
    let mut digits: Vec<u8> = Vec::new();
    push_decimal(n, &mut digits);
    proof {
        lemma_decimal_ascii(n as nat);
        assert(digits@ =~= decimal(n as nat));
    }
    ascii_text(digits.as_slice())
}

/// The header fields that a buffered response goes out with: the body
/// length, `Connection: close`, and a content type unless one was set.
pub open spec fn final_headers(h: FieldsView, body_len: nat) -> FieldsView {
    fields_insert_absent(
        fields_overwrite(
            fields_overwrite(h, "Content-Length"@, decimal_text(body_len)),
            "Connection"@,
            "close"@,
        ),
        "Content-Type"@,
        "text/plain"@,
    )
}

/// A buffered writer: what it holds before its single flush.
pub struct WriterView {
    pub code: StatusCode,
    pub headers: FieldsView,
    pub body: Seq<u8>,
    pub flushed: bool,
    /// Bytes written to the wire and not yet taken.
    pub out: Seq<u8>,
}

/// A response assembled first and written out once, with its length.
pub struct ResponseWriter {
    line: ResponseLine,
    headers: Headers,
    body: Vec<u8>,
    flushed: bool,
    out: Vec<u8>,
}

impl View for ResponseWriter {
    type V = WriterView;

    closed spec fn view(&self) -> WriterView {
        WriterView {
            code: self.line.code,
            headers: self.headers@,
            body: self.body@,
            flushed: self.flushed,
            out: self.out@,
        }
    }
}

impl ResponseWriter {
    pub closed spec fn wf(&self) -> bool {
        self.headers.wf() && self.line.http_version@ == version_bytes()
    }

    /// A writer for a `200 OK` response with no headers and no body.
    pub fn new() -> (r: ResponseWriter)
        ensures
            r.wf(),
            r@ == (WriterView {
                code: StatusCode::OK,
                headers: Seq::empty(),
                body: Seq::empty(),
                flushed: false,
                out: Seq::empty(),
            }),
    {
        ResponseWriter {
            line: ResponseLine::new(StatusCode::OK),
            headers: Headers::new(),
            body: Vec::new(),
            flushed: false,
            out: Vec::new(),
        }
    }

    /// Sets the status.
    pub fn write_code(&mut self, code: StatusCode) -> (r: Result<(), ResponseWriterError>)
        requires
            old(self).wf(),
        ensures
            final(self).wf(),
            old(self)@.flushed ==> (r matches Err(ResponseWriterError::WriterAlreadyFlushed)
                && final(self)@ == old(self)@),
            !old(self)@.flushed ==> r is Ok && final(self)@ == (WriterView { code, ..old(self)@ }),
    {
        if self.flushed {
            return Err(ResponseWriterError::WriterAlreadyFlushed);
        }
        self.line.code = code;
        Ok(())
    }

    /// Adds a header field; a name already present gets the value appended.
    pub fn write_header(&mut self, key: &str, value: &str) -> (r: Result<(), ResponseWriterError>)
        requires
            old(self).wf(),
        ensures
            final(self).wf(),
            old(self)@.flushed ==> (r matches Err(ResponseWriterError::WriterAlreadyFlushed)
                && final(self)@ == old(self)@),
            !old(self)@.flushed ==> r is Ok && final(self)@ == (WriterView {
                headers: fields_insert(old(self)@.headers, key@, value@),
                ..old(self)@
            }),
    {
        if self.flushed {
            return Err(ResponseWriterError::WriterAlreadyFlushed);
        }
        self.headers.insert(key.to_owned(), value.to_owned());
        Ok(())
    }

    /// Replaces the body.
    pub fn write_body(&mut self, body: &[u8]) -> (r: Result<(), ResponseWriterError>)
        requires
            old(self).wf(),
        ensures
            final(self).wf(),
            old(self)@.flushed ==> (r matches Err(ResponseWriterError::WriterAlreadyFlushed)
                && final(self)@ == old(self)@),
            !old(self)@.flushed ==> r is Ok && final(self)@ == (WriterView { body: body@, ..old(self)@ }),
    {
        if self.flushed {
            return Err(ResponseWriterError::WriterAlreadyFlushed);
        }
        let mut b: Vec<u8> = Vec::new();
        b.extend_from_slice(body);
        proof {
            assert(b@ =~= body@);
        }
        self.body = b;
        proof {
            assert(self@ == (WriterView { body: body@, ..old(self)@ }));
        }
        Ok(())
    }

    /// Adds bytes at the end of the body.
    pub fn append_body(&mut self, p: &[u8]) -> (r: Result<(), ResponseWriterError>)
        requires
            old(self).wf(),
        ensures
            final(self).wf(),
            old(self)@.flushed ==> (r matches Err(ResponseWriterError::WriterAlreadyFlushed)
                && final(self)@ == old(self)@),
            !old(self)@.flushed ==> r is Ok && final(self)@ == (WriterView {
                body: old(self)@.body + p@,
                ..old(self)@
            }),
    {
        if self.flushed {
            return Err(ResponseWriterError::WriterAlreadyFlushed);
        }
        self.body.extend_from_slice(p);
        proof {
            assert(self.body@ =~= old(self)@.body + p@);
            assert(self@ == (WriterView { body: old(self)@.body + p@, ..old(self)@ }));
        }
        Ok(())
    }

    /// Writes the response out, once: the status line, the headers with
    /// `Content-Length` set to the body length, `Connection: close` and a
    /// default `Content-Type: text/plain`, the blank line, the body.
    pub fn flush(&mut self) -> (r: Result<(), ResponseWriterError>)
        requires
            old(self).wf(),
        ensures
            final(self).wf(),
            old(self)@.flushed ==> (r matches Err(ResponseWriterError::WriterAlreadyFlushed)
                && final(self)@ == old(self)@),
            !old(self)@.flushed ==> r is Ok && final(self)@.flushed && final(self)@.code
                == old(self)@.code && final(self)@.body == old(self)@.body && final(self)@.headers
                == final_headers(old(self)@.headers, old(self)@.body.len()) && final(self)@.out
                == old(self)@.out + response_wire(
                version_bytes(),
                old(self)@.code,
                final_headers(old(self)@.headers, old(self)@.body.len()),
                old(self)@.body,
            ),
    {
        if self.flushed {
            return Err(ResponseWriterError::WriterAlreadyFlushed);
        }
        let content_length = self.body.len();
        self.headers.overwrite("Content-Length".to_owned(), decimal_string(content_length));
        self.headers.overwrite("Connection".to_owned(), "close".to_owned());
        self.headers.insert_if_not_exists("Content-Type".to_owned(), "text/plain".to_owned());
        let response = Response::new(&self.line, &self.headers, &self.body);
        response.write_to(&mut self.out);
        self.flushed = true;
        Ok(())
    }

    /// The response has been written out.
    pub fn flushed(&self) -> (r: bool)
        ensures
            r == self@.flushed,
    {
        self.flushed
    }

    /// Writes the response out unless that was done already: whatever path a
    /// handler leaves by, a complete response goes on the wire exactly once.
    pub fn finish(&mut self)
        requires
            old(self).wf(),
        ensures
            final(self).wf(),
            final(self)@.flushed,
            old(self)@.flushed ==> final(self)@ == old(self)@,
            !old(self)@.flushed ==> final(self)@.out == old(self)@.out + response_wire(
                version_bytes(),
                old(self)@.code,
                final_headers(old(self)@.headers, old(self)@.body.len()),
                old(self)@.body,
            ),
    {
        if !self.flushed {
            let _ = self.flush();
        }
    }

    /// Takes the bytes written so far, to send them.
    pub fn take_output(&mut self) -> (r: Vec<u8>)
        requires
            old(self).wf(),
        ensures
            final(self).wf(),
            r@ == old(self)@.out,
            final(self)@ == (WriterView { out: Seq::empty(), ..old(self)@ }),
    {
        let mut taken: Vec<u8> = Vec::new();
        taken.append(&mut self.out);
        proof {
            assert(taken@ =~= old(self)@.out);
            assert(self.out@ =~= Seq::<u8>::empty());
        }
        taken
    }

    /// Turns the writer into a chunked one that keeps its status and
    /// headers, with `Transfer-Encoding: chunked` and no `Content-Length`.
    /// After a flush the chunked writer starts over from `200 OK` with no
    /// headers. Nothing is written yet.
    pub fn chunked_writer(self) -> (r: ChunkedResponseWriter)
        requires
            self.wf(),
        ensures
            r.wf(),
            r@.out == self@.out,
            !r@.headers_flushed && !r@.closed,
            r@.trailers == FieldsView::empty(),
            self@.flushed ==> r@.code == StatusCode::OK && r@.headers == FieldsView::empty(),
            !self@.flushed ==> r@.code == self@.code && r@.headers == fields_remove(
                fields_overwrite(self@.headers, "Transfer-Encoding"@, "chunked"@),
                "Content-Length"@,
            ),
    {
        if self.flushed {
            return ChunkedResponseWriter {
                line: ResponseLine::new(StatusCode::OK),
                headers: Headers::new(),
                trailers: Headers::new(),
                headers_flushed: false,
                closed: false,
                out: self.out,
            };
        }
        let mut headers = self.headers;
        headers.overwrite("Transfer-Encoding".to_owned(), "chunked".to_owned());
        headers.remove("Content-Length");
        ChunkedResponseWriter {
            line: self.line,
            headers,
            trailers: Headers::new(),
            headers_flushed: false,
            closed: false,
            out: self.out,
        }
    }
}

/// One chunk on the wire: its length in upper-case hexadecimal, `\r\n`, the
/// bytes, `\r\n`.
pub open spec fn chunk_frame(b: Seq<u8>) -> Seq<u8> {
    upper_hex(b.len()) + crlf() + b + crlf()
}

/// The end of a chunked body: `0\r\n`, the trailer fields, `\r\n`.
pub open spec fn chunked_end(trailers: FieldsView) -> Seq<u8> {
    seq![48u8] + crlf() + fields_wire(trailers) + crlf()
}

/// The head of a chunked response: status line and header section, with a
/// default `Content-Type: text/plain`.
pub open spec fn chunked_head(code: StatusCode, h: FieldsView) -> Seq<u8> {
    status_line(version_bytes(), code) + headers_wire(
        fields_insert_absent(h, "Content-Type"@, "text/plain"@),
    )
}

/// A chunked writer: status and headers until they are sent, trailers until
/// the end.
pub struct ChunkedView {
    pub code: StatusCode,
    pub headers: FieldsView,
    pub trailers: FieldsView,
    pub headers_flushed: bool,
    pub closed: bool,
    /// Bytes written to the wire and not yet taken.
    pub out: Seq<u8>,
}

/// A response whose body goes out in chunks as it is written.
pub struct ChunkedResponseWriter {
    line: ResponseLine,
    headers: Headers,
    trailers: Headers,
    headers_flushed: bool,
    closed: bool,
    out: Vec<u8>,
}

impl View for ChunkedResponseWriter {
    type V = ChunkedView;

    closed spec fn view(&self) -> ChunkedView {
        ChunkedView {
            code: self.line.code,
            headers: self.headers@,
            trailers: self.trailers@,
            headers_flushed: self.headers_flushed,
            closed: self.closed,
            out: self.out@,
        }
    }
}

impl ChunkedResponseWriter {
    pub closed spec fn wf(&self) -> bool {
        self.headers.wf() && self.trailers.wf() && self.line.http_version@ == version_bytes()
    }

    /// Sets the status, before the headers are sent.
    pub fn write_code(&mut self, code: StatusCode) -> (r: Result<(), ResponseWriterError>)
        requires
            old(self).wf(),
        ensures
            final(self).wf(),
            old(self)@.headers_flushed ==> (r matches Err(ResponseWriterError::WriterAlreadyFlushed)
                && final(self)@ == old(self)@),
            !old(self)@.headers_flushed && old(self)@.closed ==> (r matches Err(
                ResponseWriterError::WriterAlreadyClosed,
            ) && final(self)@ == old(self)@),
            !old(self)@.headers_flushed && !old(self)@.closed ==> r is Ok && final(self)@ == (
            ChunkedView { code, ..old(self)@ }),
    {
        if self.headers_flushed {
            return Err(ResponseWriterError::WriterAlreadyFlushed);
        }
        if self.closed {
            return Err(ResponseWriterError::WriterAlreadyClosed);
        }
        self.line.code = code;
        Ok(())
    }

    /// Adds a header field, before the headers are sent.
    pub fn write_header(&mut self, key: &str, value: &str) -> (r: Result<(), ResponseWriterError>)
        requires
            old(self).wf(),
        ensures
            final(self).wf(),
            old(self)@.headers_flushed ==> (r matches Err(ResponseWriterError::WriterAlreadyFlushed)
                && final(self)@ == old(self)@),
            !old(self)@.headers_flushed && old(self)@.closed ==> (r matches Err(
                ResponseWriterError::WriterAlreadyClosed,
            ) && final(self)@ == old(self)@),
            !old(self)@.headers_flushed && !old(self)@.closed ==> r is Ok && final(self)@ == (
            ChunkedView { headers: fields_insert(old(self)@.headers, key@, value@), ..old(self)@ }),
    {
        if self.headers_flushed {
            return Err(ResponseWriterError::WriterAlreadyFlushed);
        }
        if self.closed {
            return Err(ResponseWriterError::WriterAlreadyClosed);
        }
        self.headers.insert(key.to_owned(), value.to_owned());
        Ok(())
    }

    /// Adds a trailer field, before the end.
    pub fn write_trailer(&mut self, key: &str, value: &str) -> (r: Result<(), ResponseWriterError>)
        requires
            old(self).wf(),
        ensures
            final(self).wf(),
            old(self)@.closed ==> (r matches Err(ResponseWriterError::WriterAlreadyClosed)
                && final(self)@ == old(self)@),
            !old(self)@.closed ==> r is Ok && final(self)@ == (ChunkedView {
                trailers: fields_insert(old(self)@.trailers, key@, value@),
                ..old(self)@
            }),
    {
        if self.closed {
            return Err(ResponseWriterError::WriterAlreadyClosed);
        }
        self.trailers.insert(key.to_owned(), value.to_owned());
        Ok(())
    }

    /// Sends the status line and the headers, with a default content type;
    /// returns the number of bytes sent. They go out once.
    pub fn flush_headers(&mut self) -> (r: Result<usize, ResponseWriterError>)
        requires
            old(self).wf(),
        ensures
            final(self).wf(),
            old(self)@.closed ==> (r matches Err(ResponseWriterError::WriterAlreadyClosed)
                && final(self)@ == old(self)@),
            !old(self)@.closed && old(self)@.headers_flushed ==> (r matches Err(
                ResponseWriterError::WriterAlreadyFlushed,
            ) && final(self)@ == old(self)@),
            !old(self)@.closed && !old(self)@.headers_flushed ==> (r matches Ok(n) && final(self)@
                == (ChunkedView {
                headers: fields_insert_absent(old(self)@.headers, "Content-Type"@, "text/plain"@),
                headers_flushed: true,
                out: old(self)@.out + chunked_head(old(self)@.code, old(self)@.headers),
                ..old(self)@
            }) && n == chunked_head(old(self)@.code, old(self)@.headers).len()),
    {
        if self.closed {
            return Err(ResponseWriterError::WriterAlreadyClosed);
        }
        if self.headers_flushed {
            return Err(ResponseWriterError::WriterAlreadyFlushed);
        }
        let before = self.out.len();
        self.headers.insert_if_not_exists("Content-Type".to_owned(), "text/plain".to_owned());
        self.line.write_to(&mut self.out);
        self.headers.write_to(&mut self.out);
        self.headers_flushed = true;
        proof {
            assert(self.out@ =~= old(self)@.out + chunked_head(old(self)@.code, old(self)@.headers));
        }
        Ok(self.out.len() - before)
    }

    /// Sends `p` as one chunk, after the status line and headers if they
    /// have not gone out yet; returns the number of bytes sent. An empty `p`
    /// still makes a chunk, which ends the body for a reader.
    pub fn write(&mut self, p: &[u8]) -> (r: Result<usize, ResponseWriterError>)
        requires
            old(self).wf(),
        ensures
            final(self).wf(),
            old(self)@.closed ==> (r matches Err(ResponseWriterError::WriterAlreadyClosed)
                && final(self)@ == old(self)@),
            !old(self)@.closed ==> (r matches Ok(n) && final(self)@ == (ChunkedView {
                headers: if old(self)@.headers_flushed {
                    old(self)@.headers
                } else {
                    fields_insert_absent(old(self)@.headers, "Content-Type"@, "text/plain"@)
                },
                headers_flushed: true,
                out: old(self)@.out + (if old(self)@.headers_flushed {
                    Seq::empty()
                } else {
                    chunked_head(old(self)@.code, old(self)@.headers)
                }) + chunk_frame(p@),
                ..old(self)@
            }) && n == final(self)@.out.len() - old(self)@.out.len()),
    {
        if self.closed {
            return Err(ResponseWriterError::WriterAlreadyClosed);
        }
        let before = self.out.len();
        if !self.headers_flushed {
            let _ = self.flush_headers();
        }
        let ghost mid = self.out@;
        push_upper_hex(p.len(), &mut self.out);
        self.out.push(13u8);
        self.out.push(10u8);
        self.out.extend_from_slice(p);
        self.out.push(13u8);
        self.out.push(10u8);
        proof {
            assert(self.out@ =~= mid + chunk_frame(p@));
            if old(self)@.headers_flushed {
                assert(mid =~= old(self)@.out + Seq::<u8>::empty());
            }
        }
        Ok(self.out.len() - before)
    }

    /// Ends the body: `0\r\n`, the trailers, `\r\n`.
    pub fn close(&mut self) -> (r: Result<(), ResponseWriterError>)
        requires
            old(self).wf(),
        ensures
            final(self).wf(),
            old(self)@.closed ==> (r matches Err(ResponseWriterError::WriterAlreadyClosed)
                && final(self)@ == old(self)@),
            !old(self)@.closed ==> r is Ok && final(self)@ == (ChunkedView {
                closed: true,
                out: old(self)@.out + chunked_end(old(self)@.trailers),
                ..old(self)@
            }),
    {
        if self.closed {
            return Err(ResponseWriterError::WriterAlreadyClosed);
        }
        self.out.push(48u8);
        self.out.push(13u8);
        self.out.push(10u8);
        self.trailers.write_fields_to(&mut self.out);
        self.out.push(13u8);
        self.out.push(10u8);
        self.closed = true;
        proof {
            assert(self.out@ =~= old(self)@.out + chunked_end(old(self)@.trailers));
        }
        Ok(())
    }

    /// Ends the body unless that was done already: whatever path a handler
    /// leaves by, the body is ended exactly once.
    pub fn finish(&mut self)
        requires
            old(self).wf(),
        ensures
            final(self).wf(),
            final(self)@.closed,
            old(self)@.closed ==> final(self)@ == old(self)@,
            !old(self)@.closed ==> final(self)@.out == old(self)@.out + chunked_end(
                old(self)@.trailers,
            ),
    {
        if !self.closed {
            let _ = self.close();
        }
    }

    /// Adds the trailers that describe a body of `len` bytes whose SHA-256
    /// digest is `digest_hex`: `X-Content-Length`, then `X-Content-Sha256`.
    pub fn write_content_trailers(&mut self, len: usize, digest_hex: &str) -> (r: Result<
        (),
        ResponseWriterError,
    >)
        requires
            old(self).wf(),
        ensures
            final(self).wf(),
            old(self)@.closed ==> (r matches Err(ResponseWriterError::WriterAlreadyClosed)
                && final(self)@ == old(self)@),
            !old(self)@.closed ==> r is Ok && final(self)@ == (ChunkedView {
                trailers: fields_insert(
                    fields_insert(old(self)@.trailers, "X-Content-Length"@, decimal_text(len as nat)),
                    "X-Content-Sha256"@,
                    digest_hex@,
                ),
                ..old(self)@
            }),
    {
        if self.closed {
            return Err(ResponseWriterError::WriterAlreadyClosed);
        }
        self.trailers.insert("X-Content-Length".to_owned(), decimal_string(len));
        self.trailers.insert("X-Content-Sha256".to_owned(), digest_hex.to_owned());
        Ok(())
    }

    /// Adds the trailers that describe `body`, all the bytes sent: its length
    /// and its SHA-256 digest in lower-case hexadecimal.
    pub fn write_digest_trailers(&mut self, body: &[u8]) -> (r: Result<(), ResponseWriterError>)
        requires
            old(self).wf(),
        ensures
            final(self).wf(),
            old(self)@.closed ==> (r matches Err(ResponseWriterError::WriterAlreadyClosed)
                && final(self)@ == old(self)@),
            !old(self)@.closed ==> r is Ok && final(self)@ == (ChunkedView {
                trailers: fields_insert(
                    fields_insert(
                        old(self)@.trailers,
                        "X-Content-Length"@,
                        decimal_text(body@.len()),
                    ),
                    "X-Content-Sha256"@,
                    lower_hex_text(sha256_of(body@)),
                ),
                ..old(self)@
            }),
    {
        if self.closed {
            return Err(ResponseWriterError::WriterAlreadyClosed);
        }
        let digest = sha256(body);
        let hex = hex_encode(digest.as_slice());
        self.write_content_trailers(body.len(), hex.as_str())
    }

    /// Takes the bytes written so far, to send them.
    pub fn take_output(&mut self) -> (r: Vec<u8>)
        requires
            old(self).wf(),
        ensures
            final(self).wf(),
            r@ == old(self)@.out,
            final(self)@ == (ChunkedView { out: Seq::empty(), ..old(self)@ }),
    {
        let mut taken: Vec<u8> = Vec::new();
        taken.append(&mut self.out);
        proof {
            assert(taken@ =~= old(self)@.out);
            assert(self.out@ =~= Seq::<u8>::empty());
        }
        taken
    }
}

} // verus!
