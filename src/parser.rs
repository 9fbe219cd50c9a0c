use vstd::prelude::*;
use vstd::utf8::*;

use crate::error::{Error, ErrorView};
use crate::header::{
    field_value, fields_insert, header_step, FieldsView, Headers, ProtoHeader,
};
use crate::line::{line_step, LineView, RequestLine};
use crate::text::{parse_usize, usize_text_value};

verus! {

/// Where a parser stands in a request.
pub enum Phase {
    Line,
    Headers,
    Body,
    Done,
}

/// What a parser holds: its phase, what it has read so far, and the body
/// length it expects once the headers are complete.
pub struct ParseView {
    pub phase: Phase,
    pub line: Option<LineView>,
    pub headers: FieldsView,
    pub body: Seq<u8>,
    pub content_length: nat,
}

/// Outcome of reading header lines: more bytes needed, or the blank line
/// reached, each with the bytes used and the fields; or an error.
pub enum HeadersRun {
    More(nat, FieldsView),
    End(nat, FieldsView),
    Fail(ErrorView),
}

pub open spec fn shift_headers_run(n: nat, r: HeadersRun) -> HeadersRun {
    match r {
        HeadersRun::More(m, h) => HeadersRun::More(n + m, h),
        HeadersRun::End(m, h) => HeadersRun::End(n + m, h),
        HeadersRun::Fail(e) => HeadersRun::Fail(e),
    }
}

/// Reads header lines off the front of `d` for as long as there are full
/// ones, adding each field to `hs`.
pub open spec fn headers_run(hs: FieldsView, d: Seq<u8>) -> HeadersRun
    decreases d.len(),
{
    let (n, r) = header_step(d);
    match r {
        Err(e) => HeadersRun::Fail(e),
        Ok(None) => if n == 0 {
            HeadersRun::More(0, hs)
        } else {
            HeadersRun::End(2, hs)
        },
        // A field line always uses between 1 and `d.len()` bytes; the other
        // branch is never taken.
        Ok(Some(f)) => if 0 < n <= d.len() {
            shift_headers_run(n, headers_run(fields_insert(hs, f.0, f.1), d.subrange(n as int, d.len() as int)))
        } else {
            HeadersRun::Fail(ErrorView::MalFormedHeader(Seq::empty()))
        },
    }
}

/// The fields of the full header lines at the front of `d`, in order, up to
/// the blank line or the first line that is incomplete or wrong.
pub open spec fn header_fields(d: Seq<u8>) -> FieldsView
    decreases d.len(),
{
    let (n, r) = header_step(d);
    match r {
        Ok(Some(f)) => if 0 < n <= d.len() {
            seq![f] + header_fields(d.subrange(n as int, d.len() as int))
        } else {
            Seq::empty()
        },
        _ => Seq::empty(),
    }
}

/// The fields `hs` after inserting `fs`, one after another.
pub open spec fn fold_from(hs: FieldsView, fs: FieldsView) -> FieldsView
    decreases fs.len(),
{
    if fs.len() == 0 {
        hs
    } else {
        fold_from(fields_insert(hs, fs[0].0, fs[0].1), fs.drop_first())
    }
}

/// The name under which the body length is given, as stored after parsing.
pub open spec fn content_length_name() -> Seq<char> {
    "content-length"@
}

/// The body length that the fields announce: 0 without a `content-length`
/// field; its value when that is an unsigned integer; else the raw value.
pub open spec fn content_length_of(hs: FieldsView) -> Result<nat, Seq<char>> {
    match field_value(hs, content_length_name()) {
        None => Ok(0),
        Some(v) => match usize_text_value(encode_utf8(v)) {
            Some(n) => Ok(n),
            None => Err(v),
        },
    }
}

/// Outcome of one call of [`RequestParser::parse`]: the bytes used and the
/// state after, or an error.
pub enum ParseRun {
    Stop(nat, ParseView),
    Fail(ErrorView),
}

pub open spec fn min_nat(a: nat, b: nat) -> nat {
    if a <= b {
        a
    } else {
        b
    }
}

/// The body length in the body phase: the one fixed already if it is not 0,
/// else the one that the fields announce.
pub open spec fn body_length(v: ParseView) -> Result<nat, Seq<char>> {
    if v.content_length > 0 {
        Ok(v.content_length)
    } else {
        content_length_of(v.headers)
    }
}

/// Body phase: fixes the body length, then takes from `d[off..]` what the
/// body still lacks.
pub open spec fn from_body(v: ParseView, off: nat, d: Seq<u8>) -> ParseRun {
    match body_length(v) {
        Err(raw) => ParseRun::Fail(ErrorView::MalFormedContentLengthHeader(raw)),
        Ok(cl) => take_body(ParseView { content_length: cl, ..v }, off, d),
    }
}

/// Takes from `d[off..]` what the body still lacks.
pub open spec fn take_body(v: ParseView, off: nat, d: Seq<u8>) -> ParseRun {
    let avail = (d.len() - off) as nat;
    let take = min_nat((v.content_length - v.body.len()) as nat, avail);
    let body = v.body + d.subrange(off as int, (off + take) as int);
    ParseRun::Stop(
        off + take,
        ParseView {
            phase: if body.len() == v.content_length {
                Phase::Done
            } else {
                Phase::Body
            },
            body,
            ..v
        },
    )
}

/// Header phase: reads header lines from `d[off..]`; at the blank line it
/// fixes the body length and goes on with the body.
pub open spec fn from_headers(v: ParseView, off: nat, d: Seq<u8>) -> ParseRun {
    match headers_run(v.headers, d.subrange(off as int, d.len() as int)) {
        HeadersRun::Fail(e) => ParseRun::Fail(e),
        HeadersRun::More(m, h) => ParseRun::Stop(off + m, ParseView { headers: h, ..v }),
        HeadersRun::End(m, h) => match content_length_of(h) {
            Err(raw) => ParseRun::Fail(ErrorView::MalFormedContentLengthHeader(raw)),
            Ok(cl) => take_body(
                ParseView {
                    phase: Phase::Body,
                    headers: h,
                    body: Seq::empty(),
                    content_length: cl,
                    ..v
                },
                off + m,
                d,
            ),
        },
    }
}

/// What one call of [`RequestParser::parse`] on `d` does from the state `v`.
pub open spec fn parse_run(v: ParseView, d: Seq<u8>) -> ParseRun {
    match v.phase {
        Phase::Done => ParseRun::Fail(ErrorView::AlreadyCloseParser),
        Phase::Line => {
            let (n, r) = line_step(d);
            match r {
                Err(e) => ParseRun::Fail(e),
                Ok(None) => ParseRun::Stop(0, v),
                // A request line never uses more than `d.len()` bytes; the
                // other branch is never taken.
                Ok(Some(l)) => if n <= d.len() {
                    from_headers(ParseView { phase: Phase::Headers, line: Some(l), ..v }, n, d)
                } else {
                    ParseRun::Fail(ErrorView::InvalidLinePartSize(0))
                },
            }
        },
        Phase::Headers => from_headers(v, 0, d),
        Phase::Body => from_body(v, 0, d),
    }
}

/// The state of a parser that has read nothing.
pub open spec fn initial_view() -> ParseView {
    ParseView {
        phase: Phase::Line,
        line: None,
        headers: Seq::empty(),
        body: Seq::empty(),
        content_length: 0,
    }
}

/// The phase a parser is in; a new parser has not started yet.
#[derive(Debug, PartialEq, Eq, Structural)]
pub enum ParserState {
    Done,
    ParsingLine,
    ParsingHeaders,
    ParsingBody,
    Uninitialized,
}

/// An incremental request parser: fed the unread bytes again and again, it
/// goes as far as they allow and reports how many it used.
#[derive(Debug)]
pub struct RequestParser {
    pub line: Option<RequestLine>,
    pub headers: Headers,
    pub body: Option<Vec<u8>>,
    content_length: usize,
    state: ParserState,
}

impl View for RequestParser {
    type V = ParseView;

    closed spec fn view(&self) -> ParseView {
        ParseView {
            phase: match self.state {
                ParserState::Done => Phase::Done,
                ParserState::ParsingHeaders => Phase::Headers,
                ParserState::ParsingBody => Phase::Body,
                _ => Phase::Line,
            },
            line: match self.line {
                Some(l) => Some(l@),
                None => None,
            },
            headers: self.headers@,
            body: match self.body {
                Some(b) => b@,
                None => Seq::empty(),
            },
            content_length: self.content_length as nat,
        }
    }
}

impl RequestParser {
    pub closed spec fn wf(&self) -> bool {
        &&& self.headers.wf()
        &&& (self@.phase != Phase::Line ==> self.line.is_some())
        &&& self@.phase == Phase::Body ==> (self.content_length > 0 && self.body.is_some()
            && self@.body.len() < self@.content_length) || (self.content_length == 0
            && self@.body.len() == 0)
        &&& self@.phase == Phase::Done ==> self.body.is_some() && self@.body.len()
            == self@.content_length
    }

    /// A parser that is done gives up the request line, the headers and the body.
    pub fn into_parts(self) -> (r: (RequestLine, Headers, Vec<u8>))
        requires
            self.wf(),
            self@.phase == Phase::Done,
        ensures
            Some(r.0@) == self@.line,
            r.1@ == self@.headers,
            r.1.wf(),
            r.2@ == self@.body,
            r.2@.len() == self@.content_length,
    {
        let line = match self.line {
            Some(l) => l,
            None => RequestLine {
                method: crate::method::HttpMethod::GET,
                request_target: String::new(),
                http_version: String::new(),
            },
        };
        let body = match self.body {
            Some(b) => b,
            None => Vec::new(),
        };
        (line, self.headers, body)
    }

    /// A parser that has read nothing.
    pub fn new() -> (r: RequestParser)
        ensures
            r.wf(),
            r@ == initial_view(),
    {
        RequestParser {
            line: None,
            headers: Headers::new(),
            body: None,
            content_length: 0,
            state: ParserState::Uninitialized,
        }
    }

    /// The whole request has been read.
    pub fn done(&self) -> (r: bool)
        ensures
            r == (self@.phase == Phase::Done),
    {
        self.state == ParserState::Done
    }

    /// The body length: the one already fixed if it is not 0, else the one
    /// that the headers read so far announce.
    pub fn content_length(&self) -> (r: Result<usize, Error>)
        ensures
            self@.content_length > 0 ==> (r matches Ok(n) && n as nat == self@.content_length),
            self@.content_length == 0 ==> match (r, content_length_of(self@.headers)) {
                (Ok(n), Ok(m)) => n as nat == m,
                (Err(e), Err(raw)) => e@ == ErrorView::MalFormedContentLengthHeader(raw),
                _ => false,
            },
    {
        if self.content_length > 0 {
            return Ok(self.content_length);
        }
        let raw = match self.headers.get("content-length") {
            None => {
                return Ok(0);
            },
            Some(raw) => raw,
        };
        match parse_usize(raw.as_str().as_bytes()) {
            Some(n) => Ok(n),
            None => Err(Error::MalFormedContentLengthHeader(raw.clone())),
        }
    }

    /// Reads as much of the request as `data` allows and returns the number
    /// of bytes used; the caller hands the unused rest back on the next call,
    /// with more bytes after it. An error ends the request; a parser that is
    /// done answers `AlreadyCloseParser`.
    pub fn parse(&mut self, data: &[u8]) -> (r: Result<usize, Error>)
        requires
            old(self).wf(),
        ensures
            final(self).wf(),
            match (r, parse_run(old(self)@, data@)) {
                (Ok(n), ParseRun::Stop(m, v)) => n as nat == m && final(self)@ == v,
                (Err(e), ParseRun::Fail(ev)) => e@ == ev,
                _ => false,
            },
            old(self)@.phase == Phase::Done ==> final(self)@ == old(self)@,
            old(self)@.phase != Phase::Done && r is Err ==> final(self)@.phase != Phase::Done,
            (r matches Err(e) && e@ is MalFormedContentLengthHeader) ==> final(self)@.phase
                == Phase::Body,
    {
        if self.state == ParserState::Done {
            return Err(Error::AlreadyCloseParser);
        }
        if self.state == ParserState::Uninitialized {
            self.state = ParserState::ParsingLine;
        }
        if self.state == ParserState::ParsingLine {
            let (n, result) = RequestLine::new_from_bytes(data);
            let line = match result {
                Err(e) => {
                    return Err(e);
                },
                Ok(None) => {
                    return Ok(0);
                },
                Ok(Some(line)) => line,
            };
            proof {
                crate::text::lemma_crlf_from_bounds(data@, 0);
            }
            self.line = Some(line);
            self.state = ParserState::ParsingHeaders;
            return self.parse_headers(n, data);
        }
        if self.state == ParserState::ParsingHeaders {
            return self.parse_headers(0, data);
        }
        self.parse_body(0, data)
    }

    fn parse_headers(&mut self, init_read: usize, data: &[u8]) -> (r: Result<usize, Error>)
        requires
            old(self).wf(),
            old(self)@.phase == Phase::Headers,
            init_read <= data@.len(),
        ensures
            final(self).wf(),
            match (r, from_headers(old(self)@, init_read as nat, data@)) {
                (Ok(n), ParseRun::Stop(m, v)) => n as nat == m && final(self)@ == v,
                (Err(e), ParseRun::Fail(ev)) => e@ == ev,
                _ => false,
            },
            (r matches Err(e) && e@ is MalFormedContentLengthHeader) ==> final(self)@.phase
                == Phase::Body,
            (r matches Err(e) && !(e@ is MalFormedContentLengthHeader)) ==> final(self)@.phase
                == Phase::Headers,
    {
        let ghost start = old(self)@.headers;
        let mut b_read: usize = init_read;
        while b_read <= data.len()
            invariant
                init_read <= b_read <= data@.len(),
                start == old(self)@.headers,
                old(self)@.phase == Phase::Headers,
                self.wf(),
                self@.phase == Phase::Headers,
                self@.line == old(self)@.line,
                self@.body == old(self)@.body,
                self@.content_length == old(self)@.content_length,
                headers_run(start, data@.subrange(init_read as int, data@.len() as int))
                    == shift_headers_run(
                    (b_read - init_read) as nat,
                    headers_run(self.headers@, data@.subrange(b_read as int, data@.len() as int)),
                ),
            decreases data@.len() - b_read,
        {
            let rest = vstd::slice::slice_subrange(data, b_read, data.len());
            let (n_read, result) = ProtoHeader::new_from_bytes(rest);
            proof {
                crate::text::lemma_crlf_from_bounds(rest@, 0);
                assert(rest@ =~= data@.subrange(b_read as int, data@.len() as int));
            }
            match result {
                Err(e) => {
                    return Err(e);
                },
                Ok(None) => {
                    if n_read == 0 {
                        return Ok(b_read);
                    }
                    let end = b_read + 2;
                    return self.enter_body(end, data);
                },
                Ok(Some(ph)) => {
                    self.headers.push_from_proto(ph);
                    proof {
                        assert(rest@.subrange(n_read as int, rest@.len() as int) =~= data@.subrange(
                            b_read + n_read,
                            data@.len() as int,
                        ));
                    }
                    b_read = b_read + n_read;
                },
            }
        }
        Ok(b_read)
    }

    fn enter_body(&mut self, init_read: usize, data: &[u8]) -> (r: Result<usize, Error>)
        requires
            old(self).headers.wf(),
            old(self).line.is_some(),
            old(self)@.phase == Phase::Headers,
            init_read <= data@.len(),
        ensures
            final(self).wf(),
            final(self)@.phase != Phase::Line && final(self)@.phase != Phase::Headers,
            match (r, content_length_of(old(self)@.headers)) {
                (Err(e), Err(raw)) => e@ == ErrorView::MalFormedContentLengthHeader(raw)
                    && final(self)@.phase == Phase::Body,
                (Ok(n), Ok(cl)) => match take_body(
                    ParseView {
                        phase: Phase::Body,
                        body: Seq::empty(),
                        content_length: cl,
                        ..old(self)@
                    },
                    init_read as nat,
                    data@,
                ) {
                    ParseRun::Stop(m, v) => n as nat == m && final(self)@ == v,
                    _ => false,
                },
                _ => false,
            },
    {
        self.state = ParserState::ParsingBody;
        self.content_length = 0;
        self.body = None;
        self.parse_body(init_read, data)
    }

    fn parse_body(&mut self, init_read: usize, data: &[u8]) -> (r: Result<usize, Error>)
        requires
            old(self).wf(),
            old(self)@.phase == Phase::Body,
            init_read <= data@.len(),
        ensures
            final(self).wf(),
            final(self)@.phase != Phase::Line && final(self)@.phase != Phase::Headers,
            match (r, from_body(old(self)@, init_read as nat, data@)) {
                (Ok(n), ParseRun::Stop(m, v)) => n as nat == m && final(self)@ == v,
                (Err(e), ParseRun::Fail(ev)) => e@ == ev && final(self)@ == old(self)@,
                _ => false,
            },
    {
        let cl = match self.content_length() {
            Err(e) => {
                return Err(e);
            },
            Ok(cl) => cl,
        };
        self.content_length = cl;
        if self.body.is_none() {
            self.body = Some(Vec::with_capacity(cl));
        }
        if cl == 0 {
            self.state = ParserState::Done;
        }
        self.take_body(init_read, data)
    }

    fn take_body(&mut self, init_read: usize, data: &[u8]) -> (r: Result<usize, Error>)
        requires
            old(self).headers.wf(),
            old(self).line.is_some(),
            old(self).body.is_some(),
            old(self)@.phase == Phase::Body && old(self)@.body.len() < old(self)@.content_length
                || (old(self)@.phase == Phase::Done && old(self)@.body.len() == 0
                && old(self)@.content_length == 0),
            init_read <= data@.len(),
        ensures
            final(self).wf(),
            final(self)@.phase != Phase::Line && final(self)@.phase != Phase::Headers,
            match (r, take_body(old(self)@, init_read as nat, data@)) {
                (Ok(n), ParseRun::Stop(m, v)) => n as nat == m && final(self)@ == v,
                _ => false,
            },
    {
        let ghost old_body = self@.body;
        let mut body = match self.body.take() {
            Some(b) => b,
            None => Vec::new(),
        };
        assert(body@ == old_body);
        let read_data = data.len() - init_read;
        let remaining = self.content_length - body.len();
        let end = if remaining < read_data {
            remaining
        } else {
            read_data
        };
        body.extend_from_slice(vstd::slice::slice_subrange(data, init_read, init_read + end));
        if body.len() == self.content_length {
            self.state = ParserState::Done;
        }
        self.body = Some(body);
        proof {
            assert(body@ =~= old_body + data@.subrange(init_read as int, init_read + end));
        }
        Ok(init_read + end)
    }
}

} // verus!
