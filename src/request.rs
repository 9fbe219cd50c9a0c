use vstd::prelude::*;
use vstd::utf8::*;

use crate::error::{Error, ErrorView};
use crate::header::{
    crlf, field_line, field_value, fields_insert, fold_fields, header_step, join_values,
    lemma_multi_value_folding, lemma_name_index, lower_byte, lower_bytes, values_for, FieldLine,
    FieldsView, Headers,
};
use crate::line::{line_step, LineView, RequestLine};
use crate::parser::{
    content_length_of, fold_from, header_fields, headers_run, initial_view, parse_run, HeadersRun, ParseRun, ParseView, Phase,
    RequestParser,
};
use crate::path::{label_value, label_value_bytes, seqs_of, Path};
use crate::stream::{lemma_parse_run_extend, shift_run};
use crate::text::{
    ascii_chars, bytes_eq, crlf_index, is_crlf_at, lemma_crlf_from_bounds, lossy_text,
    text_from_bytes,
};

verus! {

/// A request with its texts as character sequences.
pub struct RequestView {
    pub line: LineView,
    pub headers: FieldsView,
    pub body: Seq<u8>,
    /// Segments and label names of the route pattern the request matched.
    pub matched: Option<(Seq<Seq<u8>>, Seq<Seq<u8>>)>,
}

/// Position of the first occurrence of `x` in `s`, or -1.
pub open spec fn seq_index(s: Seq<Seq<u8>>, x: Seq<u8>) -> int
    decreases s.len(),
{
    if s.len() == 0 {
        -1
    } else if seq_index(s.drop_last(), x) >= 0 {
        seq_index(s.drop_last(), x)
    } else if s.last() == x {
        s.len() - 1
    } else {
        -1
    }
}

/// What the label `name` of the matched pattern takes from the request target.
pub open spec fn path_value_of(rv: RequestView, name: Seq<char>) -> Option<Seq<char>> {
    match rv.matched {
        None => None,
        Some((segs, labels)) => {
            let k = seq_index(labels, encode_utf8(name));
            if k < 0 {
                None
            } else {
                match label_value(segs, encode_utf8(rv.line.target), k as nat) {
                    Some(v) => Some(lossy_text(v)),
                    None => None,
                }
            }
        },
    }
}

/// The request that a finished parser holds.
pub open spec fn request_of(v: ParseView) -> RequestView {
    RequestView { line: v.line.unwrap(), headers: v.headers, body: v.body, matched: None }
}

/// What is read from the bytes `w` when the input ends after them: the
/// request, the first error, or `BodySmallerThanContentLength` when the
/// input ends before the request is complete. Bytes after the request are
/// left unread.
pub open spec fn read_outcome(w: Seq<u8>) -> Result<RequestView, ErrorView> {
    match parse_run(initial_view(), w) {
        ParseRun::Fail(e) => Err(e),
        ParseRun::Stop(_, v) => if v.phase == Phase::Done {
            Ok(request_of(v))
        } else {
            Err(ErrorView::BodySmallerThanContentLength)
        },
    }
}

/// What is read when, after the bytes `fed`, the chunks of `rest` arrive one
/// by one and then the input ends; reading stops at the first chunk after
/// which the request is complete or wrong.
pub open spec fn chunked_outcome(fed: Seq<u8>, rest: Seq<Seq<u8>>) -> Result<RequestView, ErrorView>
    decreases rest.len(),
{
    match parse_run(initial_view(), fed) {
        ParseRun::Fail(e) => Err(e),
        ParseRun::Stop(_, v) => if v.phase == Phase::Done {
            Ok(request_of(v))
        } else if rest.len() == 0 {
            Err(ErrorView::BodySmallerThanContentLength)
        } else {
            chunked_outcome(fed + rest[0], rest.drop_first())
        },
    }
}

/// The chunks one after another.
pub open spec fn concat_chunks(cs: Seq<Seq<u8>>) -> Seq<u8>
    decreases cs.len(),
{
    if cs.len() == 0 {
        Seq::empty()
    } else {
        cs[0] + concat_chunks(cs.drop_first())
    }
}

proof fn lemma_chunked_outcome(fed: Seq<u8>, rest: Seq<Seq<u8>>)
    ensures
        chunked_outcome(fed, rest) == read_outcome(fed + concat_chunks(rest)),
    decreases rest.len(),
{
    let x = concat_chunks(rest);
    lemma_parse_run_extend(initial_view(), fed, x);
    match parse_run(initial_view(), fed) {
        ParseRun::Fail(e) => {},
        ParseRun::Stop(_, v) => {
            if v.phase == Phase::Done {
            } else if rest.len() == 0 {
                assert(fed + x =~= fed);
            } else {
                lemma_chunked_outcome(fed + rest[0], rest.drop_first());
                assert(fed + rest[0] + concat_chunks(rest.drop_first()) =~= fed + x);
            }
        },
    }
}

/// However the bytes of a request are cut into chunks, reading the chunks
/// one after another gives the same request, or the same error, as reading
/// all the bytes at once.
pub proof fn lemma_chunk_independence(chunks: Seq<Seq<u8>>)
    ensures
        chunked_outcome(Seq::empty(), chunks) == read_outcome(concat_chunks(chunks)),
{
    lemma_chunked_outcome(Seq::empty(), chunks);
    assert(Seq::<u8>::empty() + concat_chunks(chunks) =~= concat_chunks(chunks));
}

/// No ASCII upper-case letter in `n`.
pub open spec fn has_no_upper(n: Seq<char>) -> bool {
    forall|j: int| 0 <= j < n.len() ==> !('A' <= #[trigger] n[j] <= 'Z')
}

/// Every field name in `h` is in lower case.
pub open spec fn all_names_lower(h: FieldsView) -> bool {
    forall|i: int| 0 <= i < h.len() ==> has_no_upper(#[trigger] h[i].0)
}

proof fn lemma_lowered_name(k: Seq<u8>)
    ensures
        has_no_upper(ascii_chars(lower_bytes(k))),
{
    let n = ascii_chars(lower_bytes(k));
    assert forall|j: int| 0 <= j < n.len() implies !('A' <= #[trigger] n[j] <= 'Z') by {
        let b = lower_bytes(k)[j];
        assert(b == lower_byte(k[j]));
        assert(!(65u8 <= b <= 90u8));
        assert(n[j] == b as char);
    }
}

proof fn lemma_insert_lower(h: FieldsView, k: Seq<char>, v: Seq<char>)
    requires
        all_names_lower(h),
        has_no_upper(k),
    ensures
        all_names_lower(fields_insert(h, k, v)),
{
    let t = fields_insert(h, k, v);
    lemma_name_index(h, k);
    assert forall|i: int| 0 <= i < t.len() implies has_no_upper(#[trigger] t[i].0) by {
        if i < h.len() {
            assert(t[i].0 == h[i].0);
        }
    }
}

proof fn lemma_headers_run_facts(hs: FieldsView, d: Seq<u8>)
    requires
        all_names_lower(hs),
    ensures
        match headers_run(hs, d) {
            HeadersRun::More(_, h) => all_names_lower(h),
            HeadersRun::End(m, h) => all_names_lower(h) && 2 <= m <= d.len() && d.subrange(
                m - 2,
                m as int,
            ) == crlf() && (m == 2 || (m >= 4 && d.subrange(m - 4, m - 2) == crlf())),
            HeadersRun::Fail(_) => true,
        },
    decreases d.len(),
{
    lemma_crlf_from_bounds(d, 0);
    let (n, r) = header_step(d);
    match r {
        Ok(Some(f)) => {
            if 0 < n <= d.len() {
                let line = d.subrange(0, crlf_index(d));
                match field_line(line) {
                    FieldLine::Field(k, _) => {
                        lemma_lowered_name(k);
                    },
                    _ => {},
                }
                lemma_insert_lower(hs, f.0, f.1);
                let rest = d.subrange(n as int, d.len() as int);
                lemma_headers_run_facts(fields_insert(hs, f.0, f.1), rest);
                match headers_run(fields_insert(hs, f.0, f.1), rest) {
                    HeadersRun::End(m, h) => {
                        assert(d.subrange(n + m - 2, (n + m) as int) =~= rest.subrange(m - 2, m as int));
                        if m == 2 {
                            assert(is_crlf_at(d, crlf_index(d)));
                            assert(d.subrange(n - 2, n as int) =~= crlf());
                        } else {
                            assert(d.subrange(n + m - 4, n + m - 2) =~= rest.subrange(m - 4, m - 2));
                        }
                    },
                    _ => {},
                }
            }
        },
        _ => {},
    }
}

/// What a request read from `w` holds: lower-case field names, and a body
/// of the announced length right after the blank line that ends the headers.
proof fn lemma_read_trace(w: Seq<u8>)
    ensures
        read_outcome(w) matches Ok(rv) ==> {
            &&& all_names_lower(rv.headers)
            &&& content_length_of(rv.headers) == Ok::<nat, Seq<char>>(rv.body.len())
            &&& exists|p: int|
                4 <= p && p + rv.body.len() <= w.len() && #[trigger] w.subrange(p - 4, p) == crlf()
                    + crlf() && w.subrange(p, p + rv.body.len()) == rv.body
        },
{
    let v = initial_view();
    let (n, r) = line_step(w);
    match r {
        Ok(Some(l)) => {
            if n <= w.len() {
                let vh = ParseView { phase: Phase::Headers, line: Some(l), ..v };
                let d = w.subrange(n as int, w.len() as int);
                assert(all_names_lower(Seq::<(Seq<char>, Seq<char>)>::empty()));
                lemma_headers_run_facts(Seq::empty(), d);
                match headers_run(Seq::empty(), d) {
                    HeadersRun::End(m, h) => {
                        match content_length_of(h) {
                            Ok(cl) => {
                                let p = (n + m) as int;
                                lemma_crlf_from_bounds(w, 0);
                                assert(w.subrange(p - 2, p) =~= d.subrange(m - 2, m as int));
                                if m == 2 {
                                    assert(is_crlf_at(w, crlf_index(w)));
                                    assert(w.subrange(p - 4, p - 2) =~= crlf());
                                } else {
                                    assert(w.subrange(p - 4, p - 2) =~= d.subrange(m - 4, m - 2));
                                }
                                assert(w.subrange(p - 4, p) =~= w.subrange(p - 4, p - 2) + w.subrange(p - 2, p));
                                match read_outcome(w) {
                                    Ok(rv) => {
                                        assert(rv.body =~= w.subrange(p, p + rv.body.len()));
                                        assert(w.subrange(p - 4, p) == crlf() + crlf());
                                    },
                                    _ => {},
                                }
                            },
                            _ => {},
                        }
                    },
                    _ => {},
                }
            }
        },
        _ => {},
    }
}

/// Field names of a request read from any bytes are in lower case only,
/// whatever case the request used.
pub proof fn lemma_header_names_lower_case(w: Seq<u8>)
    ensures
        read_outcome(w) matches Ok(rv) ==> all_names_lower(rv.headers),
{
    lemma_read_trace(w);
}

/// The body of a request read from any bytes has the length that its
/// `content-length` field gives, and is a copy of the bytes that follow the
/// blank line ending the headers.
pub proof fn lemma_body_exactness(w: Seq<u8>)
    ensures
        read_outcome(w) matches Ok(rv) ==> {
            &&& content_length_of(rv.headers) == Ok::<nat, Seq<char>>(rv.body.len())
            &&& exists|p: int|
                4 <= p && p + rv.body.len() <= w.len() && #[trigger] w.subrange(p - 4, p) == crlf()
                    + crlf() && w.subrange(p, p + rv.body.len()) == rv.body
        },
{
    lemma_read_trace(w);
}

proof fn lemma_headers_run_fold(hs: FieldsView, d: Seq<u8>)
    ensures
        match headers_run(hs, d) {
            HeadersRun::More(_, h) => h == fold_from(hs, header_fields(d)),
            HeadersRun::End(_, h) => h == fold_from(hs, header_fields(d)),
            HeadersRun::Fail(_) => true,
        },
    decreases d.len(),
{
    let (n, r) = header_step(d);
    match r {
        Ok(Some(f)) => {
            if 0 < n <= d.len() {
                let rest = d.subrange(n as int, d.len() as int);
                lemma_headers_run_fold(fields_insert(hs, f.0, f.1), rest);
                assert((seq![f] + header_fields(rest)).drop_first() =~= header_fields(rest));
            }
        },
        _ => {},
    }
}

proof fn lemma_fold_from_push(hs: FieldsView, fs: FieldsView, x: (Seq<char>, Seq<char>))
    ensures
        fold_from(hs, fs.push(x)) == fields_insert(fold_from(hs, fs), x.0, x.1),
    decreases fs.len(),
{
    if fs.len() == 0 {
        assert(fs.push(x).drop_first() =~= Seq::<(Seq<char>, Seq<char>)>::empty());
        assert(fs.push(x)[0] == x);
        assert(fold_from(fields_insert(hs, x.0, x.1), Seq::<(Seq<char>, Seq<char>)>::empty())
            == fields_insert(hs, x.0, x.1));
    } else {
        assert(fs.push(x).drop_first() =~= fs.drop_first().push(x));
        assert(fs.push(x)[0] == fs[0]);
        lemma_fold_from_push(fields_insert(hs, fs[0].0, fs[0].1), fs.drop_first(), x);
    }
}

proof fn lemma_fold_from_empty(fs: FieldsView)
    ensures
        fold_from(Seq::empty(), fs) == fold_fields(fs),
    decreases fs.len(),
{
    if fs.len() > 0 {
        lemma_fold_from_empty(fs.drop_last());
        lemma_fold_from_push(Seq::empty(), fs.drop_last(), fs.last());
        assert(fs.drop_last().push(fs.last()) =~= fs);
    }
}

/// The header lines of the request read from `w`: those after its request line.
pub open spec fn header_section_fields(w: Seq<u8>) -> FieldsView {
    header_fields(w.subrange(line_step(w).0 as int, w.len() as int))
}

/// In a request read from any bytes, a field name given more than once holds
/// all its values in the order the lines came, joined by `, `; a name given
/// once keeps its value.
pub proof fn lemma_parsed_multi_value_folding(w: Seq<u8>, k: Seq<char>)
    ensures
        read_outcome(w) matches Ok(rv) ==> field_value(rv.headers, k) == if values_for(
            header_section_fields(w),
            k,
        ).len() == 0 {
            None::<Seq<char>>
        } else {
            Some(join_values(values_for(header_section_fields(w), k)))
        },
{
    let (n, r) = line_step(w);
    match r {
        Ok(Some(l)) => {
            if n <= w.len() {
                let d = w.subrange(n as int, w.len() as int);
                lemma_headers_run_fold(Seq::empty(), d);
                lemma_fold_from_empty(header_fields(d));
                lemma_multi_value_folding(header_fields(d), k);
            }
        },
        _ => {},
    }
}

/// A request read from a connection.
#[derive(Debug)]
pub struct Request {
    line: RequestLine,
    headers: Headers,
    body: Vec<u8>,
    matched: Option<(Vec<Vec<u8>>, Vec<Vec<u8>>)>,
}

impl View for Request {
    type V = RequestView;

    closed spec fn view(&self) -> RequestView {
        RequestView {
            line: self.line@,
            headers: self.headers@,
            body: self.body@,
            matched: match self.matched {
                Some((s, l)) => Some((seqs_of(s@), seqs_of(l@))),
                None => None,
            },
        }
    }
}

impl Request {
    pub closed spec fn wf(&self) -> bool {
        self.headers.wf()
    }

    /// The request line.
    pub fn line(&self) -> (r: &RequestLine)
        ensures
            r@ == self@.line,
    {
        &self.line
    }

    /// The headers, under their lower-case names.
    pub fn headers(&self) -> (r: &Headers)
        ensures
            r@ == self@.headers,
    {
        &self.headers
    }

    /// The body.
    pub fn body(&self) -> (r: &Vec<u8>)
        ensures
            r@ == self@.body,
    {
        &self.body
    }

    /// Binds the request to the route pattern it matched, so that the
    /// values of the pattern's labels can be read.
    pub fn set_matched_path(&mut self, p: &Path)
        ensures
            final(self)@ == (RequestView {
                matched: match (p@.segments, p@.labels) {
                    (Some(s), Some(l)) => Some((s, l)),
                    _ => None,
                },
                ..old(self)@
            }),
            final(self).wf() == old(self).wf(),
    {
        self.matched = match p.wild_card_parts() {
            Some((s, l)) => Some((s, l)),
            None => None,
        };
    }

    /// What the label `name` of the matched pattern takes from the request
    /// target: the text after the literal segment before the label, up to
    /// the next `/`.
    pub fn get_path_value(&self, name: &str) -> (r: Option<String>)
        ensures
            match (r, path_value_of(self@, name@)) {
                (Some(v), Some(w)) => v@ == w,
                (None, None) => true,
                _ => false,
            },
    {
        let (segs, labels) = match &self.matched {
            None => {
                return None;
            },
            Some(m) => (&m.0, &m.1),
        };
        let n = name.as_bytes();
        let target = self.line.request_target.as_str().as_bytes();
        let mut k: usize = 0;
        while k < labels.len()
            invariant
                k <= labels@.len(),
                n@ == encode_utf8(name@),
                target@ == encode_utf8(self@.line.target),
                self@.matched == Some((seqs_of(segs@), seqs_of(labels@))),
                seq_index(seqs_of(labels@).take(k as int), n@) == -1,
            decreases labels@.len() - k,
        {
            proof {
                assert(seqs_of(labels@).take(k + 1).drop_last() =~= seqs_of(labels@).take(k as int));
            }
            if bytes_eq(labels[k].as_slice(), n) {
                proof {
                    lemma_seq_index_prefix(seqs_of(labels@), n@, k + 1);
                }
                return match label_value_bytes(segs, target, k) {
                    Some(v) => Some(text_from_bytes(v.as_slice())),
                    None => None,
                };
            }
            k = k + 1;
        }
        proof {
            assert(seqs_of(labels@).take(k as int) =~= seqs_of(labels@));
        }
        None
    }

    /// Reads a request from chunks that arrive one after another, the input
    /// ending after the last one; empty chunks are passed over.
    pub fn from_chunks(chunks: &Vec<Vec<u8>>) -> (r: Result<Request, Error>)
        ensures
            match (r, chunked_outcome(Seq::empty(), chunks@.map_values(|c: Vec<u8>| c@))) {
                (Ok(req), Ok(rv)) => req@ == rv,
                (Err(e), Err(ev)) => e@ == ev,
                _ => false,
            },
    {
        let ghost all = chunks@.map_values(|c: Vec<u8>| c@);
        let mut reader = RequestReader::new();
        proof {
            assert(all.subrange(0, all.len() as int) =~= all);
        }
        let mut i: usize = 0;
        while i < chunks.len()
            invariant
                i <= chunks@.len(),
                all == chunks@.map_values(|c: Vec<u8>| c@),
                reader.wf(),
                chunked_outcome(Seq::empty(), all) == chunked_outcome(
                    reader.fed(),
                    all.subrange(i as int, all.len() as int),
                ),
            decreases chunks@.len() - i,
        {
            let chunk = &chunks[i];
            let ghost rest = all.subrange(i as int, all.len() as int);
            proof {
                assert(rest[0] == chunk@);
                assert(rest.drop_first() =~= all.subrange(i + 1, all.len() as int));
                reader.lemma_next_chunk(rest);
            }
            if chunk.len() > 0 {
                match reader.feed(chunk.as_slice()) {
                    Err(e) => {
                        return Err(e);
                    },
                    Ok(true) => {
                        return Ok(reader.into_request());
                    },
                    Ok(false) => {},
                }
            } else {
                proof {
                    assert(reader.fed() + chunk@ =~= reader.fed());
                }
            }
            i = i + 1;
        }
        proof {
            reader.lemma_next_chunk(all.subrange(i as int, all.len() as int));
        }
        Err(Error::BodySmallerThanContentLength)
    }
}

proof fn lemma_feed_step(fed: Seq<u8>, chunk: Seq<u8>, consumed: nat, pv: ParseView, pending: Seq<u8>)
    requires
        parse_run(initial_view(), fed) == ParseRun::Stop(consumed, pv),
        pv.phase != Phase::Done,
        consumed + pending.len() == fed.len(),
        pending == fed.subrange(consumed as int, fed.len() as int),
    ensures
        parse_run(initial_view(), fed + chunk) == shift_run(consumed, parse_run(pv, pending + chunk)),
{
    lemma_parse_run_extend(initial_view(), fed, chunk);
    assert((fed + chunk).subrange(consumed as int, (fed + chunk).len() as int) =~= pending + chunk);
}

proof fn lemma_seq_index_prefix(s: Seq<Seq<u8>>, x: Seq<u8>, n: int)
    requires
        0 <= n <= s.len(),
        seq_index(s.take(n), x) >= 0,
    ensures
        seq_index(s, x) == seq_index(s.take(n), x),
    decreases s.len() - n,
{
    if n < s.len() {
        assert(s.take(n + 1).drop_last() =~= s.take(n));
        lemma_seq_index_prefix(s, x, n + 1);
    } else {
        assert(s.take(n) =~= s);
    }
}

/// Size of the first read.
pub const BUFFER_INITIAL_SIZE: usize = 1024;

/// Reads a request from a connection, one read at a time: the caller reads
/// at most [`RequestReader::read_capacity`] bytes, hands them to
/// [`RequestReader::feed`], and stops when it answers an error or that the
/// request is complete. A read of no bytes means that the input has ended.
pub struct RequestReader {
    parser: RequestParser,
    pending: Vec<u8>,
    capacity: usize,
    fed: Ghost<Seq<u8>>,
    consumed: Ghost<nat>,
}

impl RequestReader {
    /// All the bytes handed over so far.
    pub closed spec fn fed(&self) -> Seq<u8> {
        self.fed@
    }

    /// Ready for the next read: everything handed over so far has been read
    /// as far as it goes, and the request is not complete yet.
    pub closed spec fn wf(&self) -> bool {
        &&& self.parser.wf()
        &&& self.consumed@ + self.pending@.len() == self.fed@.len()
        &&& self.pending@ == self.fed@.subrange(self.consumed@ as int, self.fed@.len() as int)
        &&& parse_run(initial_view(), self.fed@) == ParseRun::Stop(self.consumed@, self.parser@)
        &&& self.parser@.phase != Phase::Done
        &&& self.pending@.len() <= self.capacity
    }

    /// The request is complete after the bytes handed over so far.
    pub closed spec fn complete(&self) -> bool {
        &&& self.parser.wf()
        &&& self.parser@.phase == Phase::Done
        &&& parse_run(initial_view(), self.fed@) matches ParseRun::Stop(_, v) && v
            == self.parser@
    }

    proof fn lemma_next_chunk(&self, rest: Seq<Seq<u8>>)
        requires
            self.wf(),
        ensures
            chunked_outcome(self.fed(), rest) == if rest.len() == 0 {
                Err(ErrorView::BodySmallerThanContentLength)
            } else {
                chunked_outcome(self.fed() + rest[0], rest.drop_first())
            },
    {
    }

    /// A reader that has read nothing.
    pub fn new() -> (r: RequestReader)
        ensures
            r.wf(),
            r.fed() == Seq::<u8>::empty(),
    {
        let r = RequestReader {
            parser: RequestParser::new(),
            pending: Vec::new(),
            capacity: BUFFER_INITIAL_SIZE,
            fed: Ghost(Seq::empty()),
            consumed: Ghost(0),
        };
        proof {
            assert(crate::text::crlf_index(Seq::<u8>::empty()) == -1);
            assert(Seq::<u8>::empty().subrange(0, 0) =~= Seq::<u8>::empty());
        }
        r
    }

    pub closed spec fn room(&self) -> nat {
        (self.capacity - self.pending@.len()) as nat
    }

    /// The most bytes that the next read may bring: what is left of the
    /// buffer, which doubles whenever it is full and nothing could be used.
    pub fn read_capacity(&self) -> (r: usize)
        requires
            self.wf(),
        ensures
            r == self.room(),
    {
        self.capacity - self.pending.len()
    }

    /// Hands over the bytes of one read. No bytes means that the input has
    /// ended: that is `BodySmallerThanContentLength`. Otherwise the answer is
    /// whether the request is complete, or the error that the bytes handed
    /// over so far show.
    #[verifier::rlimit(100)]
    pub fn feed(&mut self, chunk: &[u8]) -> (r: Result<bool, Error>)
        requires
            old(self).wf(),
        ensures
            chunk@.len() == 0 ==> (r matches Err(e) && e@ == ErrorView::BodySmallerThanContentLength),
            chunk@.len() > 0 ==> final(self).fed() == old(self).fed() + chunk@ && match (
                r,
                parse_run(initial_view(), old(self).fed() + chunk@),
            ) {
                (Err(e), ParseRun::Fail(ev)) => e@ == ev,
                (Ok(true), ParseRun::Stop(_, v)) => v.phase == Phase::Done && final(self).complete(),
                (Ok(false), ParseRun::Stop(_, v)) => v.phase != Phase::Done && final(self).wf(),
                _ => false,
            },
    {
        if chunk.len() == 0 {
            return Err(Error::BodySmallerThanContentLength);
        }
        let ghost old_fed = self.fed@;
        let ghost old_pending = self.pending@;
        let ghost pv = self.parser@;
        proof {
            lemma_feed_step(old_fed, chunk@, self.consumed@, pv, old_pending);
        }
        self.pending.extend_from_slice(chunk);
        self.fed = Ghost(old_fed + chunk@);
        if self.pending.len() > self.capacity {
            self.capacity = self.pending.len();
        }
        assert(self.pending@ == old_pending + chunk@);
        assert(self.parser@ == pv);
        let p_read = match self.parser.parse(self.pending.as_slice()) {
            Err(e) => {
                return Err(e);
            },
            Ok(n) => n,
        };
        if self.parser.done() {
            return Ok(true);
        }
        proof {
            lemma_parse_run_extend(pv, old_pending + chunk@, Seq::empty());
        }
        let ghost consumed: nat = self.consumed@ + p_read as nat;
        self.consumed = Ghost(consumed);
        if p_read != 0 {
            let rest = vstd::slice::slice_subrange(self.pending.as_slice(), p_read, self.pending.len());
            let mut kept: Vec<u8> = Vec::new();
            kept.extend_from_slice(rest);
            self.pending = kept;
        } else if self.pending.len() == self.capacity {
            self.capacity = if self.capacity <= usize::MAX / 2 {
                self.capacity * 2
            } else {
                usize::MAX
            };
        }
        proof {
            assert(self.pending@ =~= self.fed@.subrange(consumed as int, self.fed@.len() as int));
        }
        Ok(false)
    }

    /// The request, once it is complete.
    pub fn into_request(self) -> (r: Request)
        requires
            self.complete(),
        ensures
            r.wf(),
            read_outcome(self.fed()) == Ok::<RequestView, ErrorView>(r@),
    {
        let (line, headers, body) = self.parser.into_parts();
        Request { line, headers, body, matched: None }
    }
}

} // verus!
