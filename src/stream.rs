use vstd::prelude::*;

use crate::header::{header_step, FieldsView};
use crate::line::line_step;
use crate::parser::{
    body_length, from_headers, headers_run, take_body, parse_run, shift_headers_run, HeadersRun,
    ParseRun, ParseView, Phase,
};
use crate::text::{crlf_index, lemma_crlf_from_bounds, lemma_crlf_from_extend};

verus! {

pub open spec fn shift_run(n: nat, r: ParseRun) -> ParseRun {
    match r {
        ParseRun::Stop(m, v) => ParseRun::Stop(n + m, v),
        ParseRun::Fail(e) => ParseRun::Fail(e),
    }
}

/// How one call that went as far as `d` allows continues when more bytes `x`
/// come after `d`: an error or a finished request stays as it is; otherwise
/// the rest is read from where the call stopped.
pub open spec fn continues(r: ParseRun, v: ParseView, d: Seq<u8>, x: Seq<u8>) -> bool {
    match r {
        ParseRun::Fail(e) => parse_run(v, d + x) == ParseRun::Fail(e),
        ParseRun::Stop(n, w) => if w.phase == Phase::Done {
            parse_run(v, d + x) == r
        } else {
            n <= d.len() && parse_run(v, d + x) == shift_run(
                n,
                parse_run(w, (d + x).subrange(n as int, (d + x).len() as int)),
            )
        },
    }
}

proof fn lemma_line_step_extend(d: Seq<u8>, x: Seq<u8>)
    requires
        crlf_index(d) >= 0,
    ensures
        line_step(d + x) == line_step(d),
{
    lemma_crlf_from_extend(d, x, 0);
    lemma_crlf_from_bounds(d, 0);
    assert((d + x).subrange(0, crlf_index(d)) =~= d.subrange(0, crlf_index(d)));
}

proof fn lemma_header_step_extend(d: Seq<u8>, x: Seq<u8>)
    requires
        crlf_index(d) >= 0,
    ensures
        header_step(d + x) == header_step(d),
{
    lemma_crlf_from_extend(d, x, 0);
    lemma_crlf_from_bounds(d, 0);
    assert((d + x).subrange(0, crlf_index(d)) =~= d.subrange(0, crlf_index(d)));
}

proof fn lemma_headers_run_extend(hs: FieldsView, d: Seq<u8>, x: Seq<u8>)
    ensures
        match headers_run(hs, d) {
            HeadersRun::Fail(e) => headers_run(hs, d + x) == HeadersRun::Fail(e),
            HeadersRun::End(m, h) => headers_run(hs, d + x) == HeadersRun::End(m, h),
            HeadersRun::More(m, h) => m <= d.len() && headers_run(hs, d + x) == shift_headers_run(
                m,
                headers_run(h, d.subrange(m as int, d.len() as int) + x),
            ),
        },
    decreases d.len(),
{
    if crlf_index(d) < 0 {
        assert(d.subrange(0, d.len() as int) + x =~= d + x);
        lemma_shift_headers_zero(headers_run(hs, d + x));
        assert(header_step(d) == (0nat, Ok::<Option<(Seq<char>, Seq<char>)>, crate::error::ErrorView>(None)));
        assert(headers_run(hs, d) == HeadersRun::More(0, hs));
    } else {
        lemma_header_step_extend(d, x);
        lemma_crlf_from_bounds(d, 0);
        let (n, r) = header_step(d);
        match r {
            Err(e) => {
                assert(headers_run(hs, d) == HeadersRun::Fail(e));
                assert(headers_run(hs, d + x) == HeadersRun::Fail(e));
            },
            Ok(None) => {
                assert(headers_run(hs, d) == HeadersRun::End(2, hs));
                assert(headers_run(hs, d + x) == HeadersRun::End(2, hs));
            },
            Ok(Some(f)) => {
                if 0 < n <= d.len() {
                    let rest = d.subrange(n as int, d.len() as int);
                    assert((d + x).subrange(n as int, (d + x).len() as int) =~= rest + x);
                    lemma_headers_run_extend(fields_insert_of(hs, f), rest, x);
                    match headers_run(fields_insert_of(hs, f), rest) {
                        HeadersRun::More(m, h) => {
                            assert(rest.subrange(m as int, rest.len() as int) =~= d.subrange(
                                (n + m) as int,
                                d.len() as int,
                            ));
                            lemma_shift_headers_compose(
                                n,
                                m,
                                headers_run(h, rest.subrange(m as int, rest.len() as int) + x),
                            );
                        },
                        _ => {},
                    }
                }
            },
        }
    }
}

proof fn lemma_shift_headers_zero(r: HeadersRun)
    ensures
        shift_headers_run(0, r) == r,
{
}

proof fn lemma_shift_headers_compose(a: nat, b: nat, r: HeadersRun)
    ensures
        shift_headers_run(a, shift_headers_run(b, r)) == shift_headers_run(a + b, r),
{
}

spec fn fields_insert_of(hs: FieldsView, f: (Seq<char>, Seq<char>)) -> FieldsView {
    crate::header::fields_insert(hs, f.0, f.1)
}

/// Starting `take_body` further along the same bytes only shifts the count.
proof fn lemma_take_body_offset(v: ParseView, off: nat, k: nat, z: Seq<u8>)
    requires
        off + k <= z.len(),
    ensures
        take_body(v, off + k, z) == shift_run(
            k,
            take_body(v, off, z.subrange(k as int, z.len() as int)),
        ),
{
    let y = z.subrange(k as int, z.len() as int);
    let take = crate::parser::min_nat(
        (v.content_length - v.body.len()) as nat,
        (z.len() - (off + k)) as nat,
    );
    assert(y.subrange(off as int, (off + take) as int) =~= z.subrange(
        (off + k) as int,
        (off + k + take) as int,
    ));
}

proof fn lemma_headers_run_bounds(hs: FieldsView, d: Seq<u8>)
    ensures
        match headers_run(hs, d) {
            HeadersRun::More(m, _) => m <= d.len(),
            HeadersRun::End(m, _) => m <= d.len(),
            _ => true,
        },
    decreases d.len(),
{
    lemma_crlf_from_bounds(d, 0);
    let (n, r) = header_step(d);
    match r {
        Ok(Some(f)) => {
            if 0 < n <= d.len() {
                lemma_headers_run_bounds(fields_insert_of(hs, f), d.subrange(n as int, d.len() as int));
            }
        },
        _ => {},
    }
}

proof fn lemma_take_body_extend(v: ParseView, off: nat, d: Seq<u8>, x: Seq<u8>)
    requires
        v.phase == Phase::Body,
        v.body.len() <= v.content_length,
        off <= d.len(),
    ensures
        match take_body(v, off, d) {
            ParseRun::Stop(n, w) => if w.phase == Phase::Done {
                take_body(v, off, d + x) == take_body(v, off, d)
            } else {
                n == d.len() && take_body(v, off, d + x) == shift_run(
                    n,
                    parse_run(w, (d + x).subrange(n as int, (d + x).len() as int)),
                )
            },
            _ => false,
        },
{
    let z = d + x;
    let rem = (v.content_length - v.body.len()) as nat;
    let avail = (d.len() - off) as nat;
    let take = crate::parser::min_nat(rem, avail);
    assert(z.subrange(off as int, (off + take) as int) =~= d.subrange(off as int, (off + take) as int));
    if take < rem {
        let w = ParseView { body: v.body + d.subrange(off as int, (off + take) as int), ..v };
        let y = z.subrange(d.len() as int, z.len() as int);
        assert(y =~= x);
        let take2 = crate::parser::min_nat((w.content_length - w.body.len()) as nat, x.len());
        assert(z.subrange(off as int, (off + take + take2) as int) =~= d.subrange(
            off as int,
            (off + take) as int,
        ) + x.subrange(0, take2 as int));
        assert(y.subrange(0, take2 as int) =~= x.subrange(0, take2 as int));
        assert(w.body + y.subrange(0, take2 as int) =~= v.body + z.subrange(
            off as int,
            (off + take + take2) as int,
        ));
    }
}

/// How a call of [`crate::RequestParser::parse`] on `d` continues on `d + x`.
pub proof fn lemma_parse_run_extend(v: ParseView, d: Seq<u8>, x: Seq<u8>)
    requires
        v.phase == Phase::Body ==> v.body.len() <= v.content_length,
    ensures
        continues(parse_run(v, d), v, d, x),
{
    match v.phase {
        Phase::Done => {},
        Phase::Body => {
            match body_length(v) {
                Ok(cl) => {
                    lemma_take_body_extend(ParseView { content_length: cl, ..v }, 0, d, x);
                },
                Err(_) => {},
            }
        },
        Phase::Headers => {
            lemma_from_headers_extend(v, 0, d, x);
        },
        Phase::Line => {
            if crlf_index(d) < 0 {
                assert(d + x =~= (d + x).subrange(0, (d + x).len() as int));
            } else {
                lemma_line_step_extend(d, x);
                lemma_crlf_from_bounds(d, 0);
                let (n, r) = line_step(d);
                match r {
                    Ok(Some(l)) => {
                        let w = ParseView { phase: Phase::Headers, line: Some(l), ..v };
                        lemma_from_headers_extend(w, n, d, x);
                    },
                    _ => {},
                }
            }
        },
    }
}

proof fn lemma_more_headers(v: ParseView, off: nat, m: nat, h: FieldsView, z: Seq<u8>)
    requires
        v.phase == Phase::Headers,
        off + m <= z.len(),
        headers_run(v.headers, z.subrange(off as int, z.len() as int)) == shift_headers_run(
            m,
            headers_run(h, z.subrange((off + m) as int, z.len() as int)),
        ),
    ensures
        from_headers(v, off, z) == shift_run(
            off + m,
            parse_run(
                ParseView { headers: h, ..v },
                z.subrange((off + m) as int, z.len() as int),
            ),
        ),
{
    let n = off + m;
    let y = z.subrange(n as int, z.len() as int);
    let w = ParseView { headers: h, ..v };
    assert(y.subrange(0, y.len() as int) =~= y);
    lemma_headers_run_bounds(h, y);
    match headers_run(h, y) {
        HeadersRun::End(m2, h2) => {
            match crate::parser::content_length_of(h2) {
                Ok(cl) => {
                    let w2 = ParseView {
                        phase: Phase::Body,
                        headers: h2,
                        body: Seq::empty(),
                        content_length: cl,
                        ..v
                    };
                    lemma_take_body_offset(w2, m2, n, z);
                },
                _ => {},
            }
        },
        _ => {},
    }
}

proof fn lemma_from_headers_extend(v: ParseView, off: nat, d: Seq<u8>, x: Seq<u8>)
    requires
        v.phase == Phase::Headers,
        off <= d.len(),
    ensures
        match from_headers(v, off, d) {
            ParseRun::Fail(e) => from_headers(v, off, d + x) == ParseRun::Fail(e),
            ParseRun::Stop(n, w) => if w.phase == Phase::Done {
                from_headers(v, off, d + x) == from_headers(v, off, d)
            } else {
                n <= d.len() && from_headers(v, off, d + x) == shift_run(
                    n,
                    parse_run(w, (d + x).subrange(n as int, (d + x).len() as int)),
                )
            },
        },
{
    let s = d.subrange(off as int, d.len() as int);
    let z = d + x;
    assert(z.subrange(off as int, z.len() as int) =~= s + x);
    lemma_headers_run_extend(v.headers, s, x);
    lemma_headers_run_bounds(v.headers, s);
    match headers_run(v.headers, s) {
        HeadersRun::Fail(e) => {},
        HeadersRun::More(m, h) => {
            let n = off + m;
            let y = z.subrange(n as int, z.len() as int);
            assert(s.subrange(m as int, s.len() as int) + x =~= y);
            lemma_more_headers(v, off, m, h, z);
        },
        HeadersRun::End(m, h) => {
            match crate::parser::content_length_of(h) {
                Err(raw) => {},
                Ok(cl) => {
                    let w = ParseView {
                        phase: Phase::Body,
                        headers: h,
                        body: Seq::empty(),
                        content_length: cl,
                        ..v
                    };
                    lemma_take_body_extend(w, off + m, d, x);
                },
            }
        },
    }
}

} // verus!
