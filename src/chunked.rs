use vstd::prelude::*;

use crate::header::crlf;
use crate::response::{chunk_frame, chunked_end};
use crate::header::{fields_wire, FieldsView};
use crate::text::{crlf_from, crlf_index, is_crlf_at, upper_hex, upper_hex_digit};

verus! {

/// An upper-case hexadecimal digit.
pub open spec fn is_upper_hex_digit(b: u8) -> bool {
    (48u8 <= b <= 57u8) || (65u8 <= b <= 70u8)
}

pub open spec fn hex_digit_value(b: u8) -> nat {
    if b <= 57u8 {
        (b - 48) as nat
    } else {
        (b - 55) as nat
    }
}

/// Value of a sequence of hexadecimal digits.
pub open spec fn hex_digits_value(s: Seq<u8>) -> nat
    decreases s.len(),
{
    if s.len() == 0 {
        0
    } else {
        hex_digits_value(s.drop_last()) * 16 + hex_digit_value(s.last())
    }
}

/// The number that a chunk-size line gives, if it is one.
pub open spec fn chunk_size(s: Seq<u8>) -> Option<nat> {
    if s.len() > 0 && forall|i: int| 0 <= i < s.len() ==> is_upper_hex_digit(#[trigger] s[i]) {
        Some(hex_digits_value(s))
    } else {
        None
    }
}

/// Reads a chunked body: chunks until the one of size 0; gives the bytes of
/// the chunks, one after another, and what follows the `0\r\n` line.
pub open spec fn decode_chunked(s: Seq<u8>) -> Option<(Seq<u8>, Seq<u8>)>
    decreases s.len(),
{
    let k = crlf_index(s);
    if k <= 0 {
        None
    } else {
        match chunk_size(s.subrange(0, k)) {
            None => None,
            Some(n) => if n == 0 {
                Some((Seq::empty(), s.subrange(k + 2, s.len() as int)))
            } else if k + 2 + n + 2 <= s.len() && s.subrange(k + 2 + n, k + 4 + n) == crlf() {
                match decode_chunked(s.subrange(k + 4 + n, s.len() as int)) {
                    Some((p, t)) => Some((s.subrange(k + 2, k + 2 + n) + p, t)),
                    None => None,
                }
            } else {
                None
            },
        }
    }
}

/// The chunks for the buffers `bs`, one after another.
pub open spec fn chunk_frames(bs: Seq<Seq<u8>>) -> Seq<u8>
    decreases bs.len(),
{
    if bs.len() == 0 {
        Seq::empty()
    } else {
        chunk_frame(bs[0]) + chunk_frames(bs.drop_first())
    }
}

/// The buffers one after another.
pub open spec fn concat_all(bs: Seq<Seq<u8>>) -> Seq<u8>
    decreases bs.len(),
{
    if bs.len() == 0 {
        Seq::empty()
    } else {
        bs[0] + concat_all(bs.drop_first())
    }
}

proof fn lemma_upper_hex(n: nat)
    ensures
        upper_hex(n).len() > 0,
        forall|i: int| 0 <= i < upper_hex(n).len() ==> is_upper_hex_digit(#[trigger] upper_hex(n)[i]),
        hex_digits_value(upper_hex(n)) == n,
    decreases n,
{
    if n < 16 {
        assert(upper_hex(n).drop_last() =~= Seq::<u8>::empty());
        assert(upper_hex(n).last() == upper_hex_digit(n));
        assert(hex_digit_value(upper_hex_digit(n)) == n);
        assert(hex_digits_value(upper_hex(n)) == hex_digits_value(Seq::<u8>::empty()) * 16
            + hex_digit_value(upper_hex_digit(n)));
    } else {
        lemma_upper_hex(n / 16);
        let h = upper_hex(n / 16);
        assert(upper_hex(n).drop_last() =~= h);
        assert forall|i: int| 0 <= i < upper_hex(n).len() implies is_upper_hex_digit(
            #[trigger] upper_hex(n)[i],
        ) by {
            if i < h.len() {
                assert(upper_hex(n)[i] == h[i]);
            }
        }
        assert(upper_hex(n).last() == upper_hex_digit(n % 16));
        assert(hex_digit_value(upper_hex_digit(n % 16)) == n % 16);
        assert(hex_digits_value(upper_hex(n)) == hex_digits_value(h) * 16 + hex_digit_value(
            upper_hex_digit(n % 16),
        ));
        assert((n / 16) * 16 + n % 16 == n) by (nonlinear_arith);
    }
}

/// The first line break of `p + crlf + q`, when `p` has no `\r`, ends `p`.
proof fn lemma_crlf_after(p: Seq<u8>, q: Seq<u8>, j: int)
    requires
        0 <= j <= p.len(),
        forall|i: int| 0 <= i < p.len() ==> p[i] != 13u8,
    ensures
        crlf_from(p + crlf() + q, j) == p.len(),
    decreases p.len() - j,
{
    let s = p + crlf() + q;
    if j < p.len() {
        assert(s[j] == p[j]);
        assert(!is_crlf_at(s, j));
        lemma_crlf_after(p, q, j + 1);
    } else {
        assert(s[j] == 13u8 && s[j + 1] == 10u8);
    }
}

proof fn lemma_decode_end(t: FieldsView)
    ensures
        decode_chunked(chunked_end(t)) == Some((Seq::<u8>::empty(), fields_wire(t) + crlf())),
{
    let s = chunked_end(t);
    assert(s =~= seq![48u8] + crlf() + (fields_wire(t) + crlf()));
    lemma_crlf_after(seq![48u8], fields_wire(t) + crlf(), 0);
    assert(s.subrange(0, 1) =~= seq![48u8]);
    assert(hex_digits_value(seq![48u8]) == hex_digits_value(Seq::<u8>::empty()) * 16 + 0) by {
        assert(seq![48u8].drop_last() =~= Seq::<u8>::empty());
    }
    assert(s.subrange(3, s.len() as int) =~= fields_wire(t) + crlf());
}

proof fn lemma_decode_step(b: Seq<u8>, tail: Seq<u8>)
    requires
        b.len() > 0,
    ensures
        decode_chunked(chunk_frame(b) + tail) == match decode_chunked(tail) {
            Some((p, t)) => Some((b + p, t)),
            None => None,
        },
{
    let h = upper_hex(b.len());
    lemma_upper_hex(b.len());
    let s = chunk_frame(b) + tail;
    assert(s =~= h + crlf() + (b + crlf() + tail));
    assert forall|i: int| 0 <= i < h.len() implies h[i] != 13u8 by {
        assert(is_upper_hex_digit(h[i]));
    }
    lemma_crlf_after(h, b + crlf() + tail, 0);
    let k = h.len() as int;
    let n = b.len() as int;
    assert(s.subrange(0, k) =~= h);
    assert(s.subrange(k + 2, k + 2 + n) =~= b);
    assert(s.subrange(k + 2 + n, k + 4 + n) =~= crlf());
    assert(s.subrange(k + 4 + n, s.len() as int) =~= tail);
}

proof fn lemma_decode_frames(bs: Seq<Seq<u8>>, t: FieldsView)
    requires
        forall|i: int| 0 <= i < bs.len() ==> (#[trigger] bs[i]).len() > 0,
    ensures
        decode_chunked(chunk_frames(bs) + chunked_end(t)) == Some(
            (concat_all(bs), fields_wire(t) + crlf()),
        ),
    decreases bs.len(),
{
    if bs.len() == 0 {
        lemma_decode_end(t);
        assert(chunk_frames(bs) + chunked_end(t) =~= chunked_end(t));
    } else {
        let rest = bs.drop_first();
        assert forall|i: int| 0 <= i < rest.len() implies (#[trigger] rest[i]).len() > 0 by {
            assert(rest[i] == bs[i + 1]);
        }
        lemma_decode_frames(rest, t);
        let tail = chunk_frames(rest) + chunked_end(t);
        lemma_decode_step(bs[0], tail);
        assert(chunk_frames(bs) + chunked_end(t) =~= chunk_frame(bs[0]) + tail);
    }
}

/// For any sequence of non-empty buffers written as chunks and then the end
/// with its trailers, reading the chunked body back gives the buffers one
/// after another, and the trailers after the `0\r\n` line.
pub proof fn lemma_chunked_round_trip(bs: Seq<Seq<u8>>, trailers: FieldsView)
    requires
        forall|i: int| 0 <= i < bs.len() ==> (#[trigger] bs[i]).len() > 0,
    ensures
        decode_chunked(chunk_frames(bs) + chunked_end(trailers)) == Some(
            (concat_all(bs), fields_wire(trailers) + crlf()),
        ),
{
    lemma_decode_frames(bs, trailers);
}

} // verus!
