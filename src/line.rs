use vstd::prelude::*;
use vstd::utf8::*;

use crate::error::{Error, ErrorView};
use crate::method::{method_of, HttpMethod};
use crate::text::{
    bytes_eq, crlf_index, find_byte, find_crlf, index_of, lemma_crlf_from_bounds,
    lemma_index_of, lossy_text, text_from_bytes,
};

verus! {

/// Number of times `b` occurs in `s`.
pub open spec fn count_byte(s: Seq<u8>, b: u8) -> nat
    decreases s.len(),
{
    if s.len() == 0 {
        0
    } else {
        count_byte(s.drop_last(), b) + if s.last() == b {
            1nat
        } else {
            0nat
        }
    }
}

proof fn lemma_count_zero(s: Seq<u8>, b: u8)
    requires
        forall|k: int| 0 <= k < s.len() ==> s[k] != b,
    ensures
        count_byte(s, b) == 0,
    decreases s.len(),
{
    if s.len() > 0 {
        assert forall|k: int| 0 <= k < s.drop_last().len() implies s.drop_last()[k] != b by {
            assert(s.drop_last()[k] == s[k]);
        }
        lemma_count_zero(s.drop_last(), b);
    }
}

proof fn lemma_count_concat(a: Seq<u8>, c: Seq<u8>, b: u8)
    ensures
        count_byte(a + c, b) == count_byte(a, b) + count_byte(c, b),
    decreases c.len(),
{
    if c.len() == 0 {
        assert(a + c =~= a);
    } else {
        assert((a + c).drop_last() =~= a + c.drop_last());
        lemma_count_concat(a, c.drop_last(), b);
    }
}

/// With `k` the first space of `s`, the spaces after it are one fewer than in `s`.
proof fn lemma_count_after_first(s: Seq<u8>, b: u8)
    requires
        count_byte(s, b) > 0,
    ensures
        index_of(s, b) >= 0,
        count_byte(s.subrange(index_of(s, b) + 1, s.len() as int), b) + 1 == count_byte(s, b),
{
    lemma_index_of(s, b);
    if index_of(s, b) == -1 {
        lemma_count_zero(s, b);
    }
    let k = index_of(s, b);
    let pre = s.subrange(0, k);
    assert forall|j: int| 0 <= j < pre.len() implies pre[j] != b by {
        assert(pre[j] == s[j]);
    }
    lemma_count_zero(pre, b);
    assert(s.subrange(0, k + 1).drop_last() =~= pre);
    lemma_count_concat(s.subrange(0, k + 1), s.subrange(k + 1, s.len() as int), b);
    assert(s.subrange(0, k + 1) + s.subrange(k + 1, s.len() as int) =~= s);
}

/// A request line with its texts as character sequences.
pub struct LineView {
    pub method: HttpMethod,
    pub target: Seq<char>,
    pub version: Seq<char>,
}

/// The only protocol version accepted on a request line.
pub open spec fn http_1_1() -> Seq<u8> {
    encode_utf8("HTTP/1.1"@)
}

/// The three space-separated parts of a line with exactly two spaces.
pub open spec fn line_parts(line: Seq<u8>) -> (Seq<u8>, Seq<u8>, Seq<u8>) {
    let s1 = index_of(line, 32u8);
    let rest = line.subrange(s1 + 1, line.len() as int);
    let s2 = index_of(rest, 32u8);
    (line.subrange(0, s1), rest.subrange(0, s2), rest.subrange(s2 + 1, rest.len() as int))
}

/// What reading a request line off the front of `d` gives: the bytes used,
/// and nothing (more bytes needed), the line, or an error.
pub open spec fn line_step(d: Seq<u8>) -> (nat, Result<Option<LineView>, ErrorView>) {
    let i = crlf_index(d);
    if i < 0 {
        (0, Ok(None))
    } else {
        let line = d.subrange(0, i);
        let n = count_byte(line, 32u8) + 1;
        if n != 3 {
            (0, Err(ErrorView::InvalidLinePartSize(n)))
        } else {
            let (p0, p1, p2) = line_parts(line);
            match method_of(p0) {
                None => (0, Err(ErrorView::UnknownHttpMethod(lossy_text(p0)))),
                Some(m) => if p2 != http_1_1() {
                    (0, Err(ErrorView::UnsupportedHttpVersion(lossy_text(p2))))
                } else {
                    (
                        (i + 2) as nat,
                        Ok(Some(LineView { method: m, target: lossy_text(p1), version: "1.1"@ })),
                    )
                },
            }
        }
    }
}

/// The first line of a request: method, target and protocol version.
#[derive(Debug)]
pub struct RequestLine {
    pub method: HttpMethod,
    pub request_target: String,
    pub http_version: String,
}

impl View for RequestLine {
    type V = LineView;

    open spec fn view(&self) -> LineView {
        LineView {
            method: self.method,
            target: self.request_target@,
            version: self.http_version@,
        }
    }
}

fn count_spaces(line: &[u8]) -> (r: usize)
    ensures
        r as nat == count_byte(line@, 32u8),
        r <= line@.len(),
{
    let mut n: usize = 0;
    let mut i: usize = 0;
    while i < line.len()
        invariant
            i <= line@.len(),
            n <= i,
            n as nat == count_byte(line@.subrange(0, i as int), 32u8),
        decreases line@.len() - i,
    {
        proof {
            assert(line@.subrange(0, i + 1).drop_last() =~= line@.subrange(0, i as int));
        }
        if line[i] == 32u8 {
            n = n + 1;
        }
        i = i + 1;
    }
    proof {
        assert(line@.subrange(0, i as int) =~= line@);
    }
    n
}

impl RequestLine {
    /// Reads `METHOD SP TARGET SP HTTP/1.1\r\n` off the front of `data`.
    /// Gives `(0, Ok(None))` when no full line is there yet; the bytes used and
    /// the line when it is valid; `InvalidLinePartSize` when the line does not
    /// have exactly three space-separated parts, `UnknownHttpMethod` for an
    /// unknown method and `UnsupportedHttpVersion` for another version.
    pub fn new_from_bytes(data: &[u8]) -> (r: (usize, Result<Option<RequestLine>, Error>))
        ensures
            r.0 == line_step(data@).0,
            match (r.1, line_step(data@).1) {
                (Ok(None), Ok(None)) => true,
                (Ok(Some(l)), Ok(Some(lv))) => l@ == lv,
                (Err(e), Err(ev)) => e@ == ev,
                _ => false,
            },
    {
        let b_idx = match find_crlf(data) {
            Some(i) => i,
            None => {
                return (0, Ok(None));
            },
        };
        proof {
            lemma_crlf_from_bounds(data@, 0);
        }
        let n = data.len();
        assert(b_idx + 2 <= n);
        let line = vstd::slice::slice_subrange(data, 0, b_idx);
        let spaces = count_spaces(line);
        if spaces != 2 {
            return (0, Err(Error::InvalidLinePartSize(spaces + 1)));
        }
        proof {
            lemma_count_after_first(line@, 32u8);
            lemma_index_of(line@, 32u8);
        }
        let s1 = match find_byte(line, 32u8) {
            Some(k) => k,
            None => {
                return (0, Err(Error::InvalidLinePartSize(spaces + 1)));
            },
        };
        let rest = vstd::slice::slice_subrange(line, s1 + 1, line.len());
        proof {
            lemma_count_after_first(rest@, 32u8);
            lemma_index_of(rest@, 32u8);
        }
        let s2 = match find_byte(rest, 32u8) {
            Some(k) => k,
            None => {
                return (0, Err(Error::InvalidLinePartSize(spaces + 1)));
            },
        };
        let p0 = vstd::slice::slice_subrange(line, 0, s1);
        let p1 = vstd::slice::slice_subrange(rest, 0, s2);
        let p2 = vstd::slice::slice_subrange(rest, s2 + 1, rest.len());
        let method = match HttpMethod::from_bytes(p0) {
            Some(m) => m,
            None => {
                return (0, Err(Error::UnknownHttpMethod(text_from_bytes(p0))));
            },
        };
        if !bytes_eq(p2, "HTTP/1.1".as_bytes()) {
            return (0, Err(Error::UnsupportedHttpVersion(text_from_bytes(p2))));
        }
        (
            b_idx + 2,
            Ok(
                Some(
                    RequestLine {
                        method,
                        request_target: text_from_bytes(p1),
                        http_version: "1.1".to_owned(),
                    },
                ),
            ),
        )
    }
}

} // verus!
