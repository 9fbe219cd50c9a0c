use vstd::prelude::*;
use vstd::utf8::*;

verus! {

/// `\r\n` starts at index `i` of `s`.
pub open spec fn is_crlf_at(s: Seq<u8>, i: int) -> bool {
    0 <= i && i + 1 < s.len() && s[i] == 13u8 && s[i + 1] == 10u8
}

/// Index of the first `\r\n` of `s` at or after `from`, or -1 when there is none.
pub open spec fn crlf_from(s: Seq<u8>, from: int) -> int
    decreases s.len() - from,
{
    if from < 0 || from + 1 >= s.len() {
        -1
    } else if is_crlf_at(s, from) {
        from
    } else {
        crlf_from(s, from + 1)
    }
}

/// Index of the first `\r\n` of `s`, or -1 when there is none.
pub open spec fn crlf_index(s: Seq<u8>) -> int {
    crlf_from(s, 0)
}

pub proof fn lemma_crlf_from_bounds(s: Seq<u8>, from: int)
    requires
        0 <= from,
    ensures
        crlf_from(s, from) == -1 || (from <= crlf_from(s, from) && is_crlf_at(s, crlf_from(s, from))),
        crlf_from(s, from) == -1 ==> forall|j: int| from <= j ==> !is_crlf_at(s, j),
        forall|j: int| from <= j < crlf_from(s, from) ==> !is_crlf_at(s, j),
    decreases s.len() - from,
{
    if from + 1 >= s.len() {
    } else if is_crlf_at(s, from) {
    } else {
        lemma_crlf_from_bounds(s, from + 1);
    }
}

/// The first line break of a sequence stays the first one when bytes are added after it.
pub proof fn lemma_crlf_from_extend(s: Seq<u8>, t: Seq<u8>, from: int)
    requires
        0 <= from,
        crlf_from(s, from) >= 0,
    ensures
        crlf_from(s + t, from) == crlf_from(s, from),
    decreases s.len() - from,
{
    if is_crlf_at(s, from) {
        assert(is_crlf_at(s + t, from));
    } else {
        assert(from + 1 < s.len());
        assert(!is_crlf_at(s + t, from));
        lemma_crlf_from_extend(s, t, from + 1);
    }
}

/// Finds the first `\r\n` of `data`.
pub fn find_crlf(data: &[u8]) -> (r: Option<usize>)
    ensures
        match r {
            Some(i) => i as int == crlf_index(data@),
            None => crlf_index(data@) == -1,
        },
{
    let mut i: usize = 0;
    while i < data.len()
        invariant
            i <= data.len(),
            crlf_from(data@, i as int) == crlf_index(data@),
        decreases data.len() - i,
    {
        if i + 1 < data.len() && data[i] == 13u8 && data[i + 1] == 10u8 {
            return Some(i);
        }
        i = i + 1;
    }
    None
}

/// The whitespace bytes of ASCII: space, tab, line feed, form feed, carriage return.
pub open spec fn is_space_byte(b: u8) -> bool {
    b == 32u8 || b == 9u8 || b == 10u8 || b == 12u8 || b == 13u8
}

/// First index at or after `i` that does not hold whitespace (or the length).
pub open spec fn skip_space(s: Seq<u8>, i: int) -> int
    decreases s.len() - i,
{
    if i < 0 || i >= s.len() || !is_space_byte(s[i]) {
        i
    } else {
        skip_space(s, i + 1)
    }
}

/// End of `s[..j]` once the whitespace at its end is left out.
pub open spec fn back_space(s: Seq<u8>, j: int) -> int
    decreases j,
{
    if j <= 0 || j > s.len() || !is_space_byte(s[j - 1]) {
        j
    } else {
        back_space(s, j - 1)
    }
}

/// `s` without the ASCII whitespace at either end.
pub open spec fn trim(s: Seq<u8>) -> Seq<u8> {
    let a = skip_space(s, 0);
    let b = back_space(s, s.len() as int);
    if a >= b {
        Seq::empty()
    } else {
        s.subrange(a, b)
    }
}

proof fn lemma_skip_space(s: Seq<u8>, i: int)
    requires
        0 <= i <= s.len(),
    ensures
        i <= skip_space(s, i) <= s.len(),
        forall|k: int| i <= k < skip_space(s, i) ==> is_space_byte(s[k]),
        skip_space(s, i) < s.len() ==> !is_space_byte(s[skip_space(s, i)]),
    decreases s.len() - i,
{
    if i < s.len() && is_space_byte(s[i]) {
        lemma_skip_space(s, i + 1);
    }
}

proof fn lemma_back_space(s: Seq<u8>, j: int)
    requires
        0 <= j <= s.len(),
    ensures
        0 <= back_space(s, j) <= j,
        forall|k: int| back_space(s, j) <= k < j ==> is_space_byte(s[k]),
        back_space(s, j) > 0 ==> !is_space_byte(s[back_space(s, j) - 1]),
    decreases j,
{
    if j > 0 && is_space_byte(s[j - 1]) {
        lemma_back_space(s, j - 1);
    }
}

/// Bounds `[a, b)` of `data` without the ASCII whitespace at either end.
pub fn trim_bounds(data: &[u8]) -> (r: (usize, usize))
    ensures
        r.0 <= r.1 <= data@.len(),
        data@.subrange(r.0 as int, r.1 as int) == trim(data@),
        r.0 < r.1 ==> !is_space_byte(data@[r.0 as int]) && !is_space_byte(data@[r.1 - 1]),
{
    let mut a: usize = 0;
    while a < data.len() && is_space(data[a])
        invariant
            a <= data.len(),
            skip_space(data@, a as int) == skip_space(data@, 0),
        decreases data.len() - a,
    {
        a = a + 1;
    }
    let mut b: usize = data.len();
    while b > 0 && is_space(data[b - 1])
        invariant
            b <= data.len(),
            back_space(data@, b as int) == back_space(data@, data@.len() as int),
        decreases b,
    {
        b = b - 1;
    }
    proof {
        lemma_skip_space(data@, 0);
        lemma_back_space(data@, data@.len() as int);
    }
    if a >= b {
        proof {
            assert(data@.subrange(b as int, b as int) =~= Seq::<u8>::empty());
        }
        (b, b)
    } else {
        (a, b)
    }
}

/// An ASCII whitespace byte.
pub fn is_space(b: u8) -> (r: bool)
    ensures
        r == is_space_byte(b),
{
    b == 32u8 || b == 9u8 || b == 10u8 || b == 12u8 || b == 13u8
}

/// Index of the first occurrence of `b` in `s`, or -1.
pub open spec fn index_of(s: Seq<u8>, b: u8) -> int
    decreases s.len(),
{
    if s.len() == 0 {
        -1
    } else if index_of(s.drop_last(), b) >= 0 {
        index_of(s.drop_last(), b)
    } else if s.last() == b {
        s.len() - 1
    } else {
        -1
    }
}

pub proof fn lemma_index_of(s: Seq<u8>, b: u8)
    ensures
        -1 <= index_of(s, b) < s.len(),
        index_of(s, b) >= 0 ==> s[index_of(s, b)] == b,
        forall|k: int| 0 <= k < s.len() && (index_of(s, b) == -1 || k < index_of(s, b)) ==> s[k] != b,
    decreases s.len(),
{
    if s.len() > 0 {
        lemma_index_of(s.drop_last(), b);
        assert forall|k: int|
            0 <= k < s.len() && (index_of(s, b) == -1 || k < index_of(s, b)) implies s[k] != b by {
            if k < s.len() - 1 {
                assert(s[k] == s.drop_last()[k]);
            }
        }
    }
}

/// Finds the first occurrence of `b` in `data`.
pub fn find_byte(data: &[u8], b: u8) -> (r: Option<usize>)
    ensures
        match r {
            Some(i) => i as int == index_of(data@, b),
            None => index_of(data@, b) == -1,
        },
{
    let mut i: usize = 0;
    while i < data.len()
        invariant
            i <= data.len(),
            index_of(data@.subrange(0, i as int), b) == -1,
        decreases data.len() - i,
    {
        proof {
            assert(data@.subrange(0, i + 1).drop_last() =~= data@.subrange(0, i as int));
        }
        if data[i] == b {
            proof {
                lemma_index_prefix(data@, b, i as int + 1);
            }
            return Some(i);
        }
        i = i + 1;
    }
    proof {
        assert(data@.subrange(0, i as int) =~= data@);
    }
    None
}

/// Once found in a prefix, the first occurrence is the first one of the whole sequence.
pub proof fn lemma_index_prefix(s: Seq<u8>, b: u8, n: int)
    requires
        0 <= n <= s.len(),
        index_of(s.subrange(0, n), b) >= 0,
    ensures
        index_of(s, b) == index_of(s.subrange(0, n), b),
    decreases s.len() - n,
{
    if n < s.len() {
        assert(s.subrange(0, n + 1).drop_last() =~= s.subrange(0, n));
        lemma_index_prefix(s, b, n + 1);
    } else {
        assert(s.subrange(0, n) =~= s);
    }
}

/// Value of a sequence of decimal digits.
pub open spec fn digits_value(s: Seq<u8>) -> nat
    decreases s.len(),
{
    if s.len() == 0 {
        0
    } else {
        digits_value(s.drop_last()) * 10 + (s.last() - 48u8) as nat
    }
}

pub open spec fn is_digit_byte(b: u8) -> bool {
    48u8 <= b <= 57u8
}

pub open spec fn all_digits(s: Seq<u8>) -> bool {
    forall|i: int| 0 <= i < s.len() ==> is_digit_byte(#[trigger] s[i])
}

/// The digits of an unsigned integer, after an optional `+`.
pub open spec fn unsigned_digits(s: Seq<u8>) -> Seq<u8> {
    if s.len() > 0 && s[0] == 43u8 {
        s.drop_first()
    } else {
        s
    }
}

/// An unsigned integer as text: an optional `+`, then at least one decimal digit.
pub open spec fn usize_text_value(s: Seq<u8>) -> Option<nat> {
    let d = unsigned_digits(s);
    if d.len() > 0 && all_digits(d) && digits_value(d) <= usize::MAX {
        Some(digits_value(d))
    } else {
        None
    }
}

proof fn lemma_digits_value_monotone(s: Seq<u8>, n: int)
    requires
        0 <= n <= s.len(),
        all_digits(s),
    ensures
        digits_value(s.subrange(0, n)) <= digits_value(s),
    decreases s.len() - n,
{
    if n < s.len() {
        lemma_digits_value_monotone(s, n + 1);
        assert(s.subrange(0, n + 1).drop_last() =~= s.subrange(0, n));
        let v = digits_value(s.subrange(0, n));
        assert(v <= v * 10) by (nonlinear_arith);
    } else {
        assert(s.subrange(0, n) =~= s);
    }
}

proof fn lemma_overflow(s: Seq<u8>, d: Seq<u8>, start: int, i: int, acc: nat)
    requires
        0 <= start <= i < s.len(),
        d =~= s.subrange(start, s.len() as int),
        all_digits(s.subrange(start, i)),
        is_digit_byte(s[i]),
        acc == digits_value(s.subrange(start, i)),
        acc * 10 + (s[i] - 48u8) as nat > usize::MAX,
    ensures
        !(d.len() > 0 && all_digits(d) && digits_value(d) <= usize::MAX),
{
    let sub = s.subrange(start, i + 1);
    assert(sub.drop_last() =~= s.subrange(start, i));
    assert(digits_value(sub) == acc * 10 + (s[i] - 48u8) as nat);
    if all_digits(d) {
        lemma_digits_value_monotone(d, i + 1 - start);
        assert(d.subrange(0, i + 1 - start) =~= sub);
    }
}

/// Reads an unsigned integer written in decimal, with an optional leading `+`.
pub fn parse_usize(s: &[u8]) -> (r: Option<usize>)
    ensures
        match r {
            Some(v) => usize_text_value(s@) == Some(v as nat),
            None => usize_text_value(s@).is_none(),
        },
{
    let start: usize = if s.len() > 0 && s[0] == 43u8 {
        1
    } else {
        0
    };
    let ghost d = unsigned_digits(s@);
    proof {
        assert(d =~= s@.subrange(start as int, s@.len() as int));
    }
    if start >= s.len() {
        return None;
    }
    let mut acc: usize = 0;
    let mut i: usize = start;
    while i < s.len()
        invariant
            start <= i <= s.len(),
            d == unsigned_digits(s@),
            d =~= s@.subrange(start as int, s@.len() as int),
            all_digits(s@.subrange(start as int, i as int)),
            acc as nat == digits_value(s@.subrange(start as int, i as int)),
        decreases s.len() - i,
    {
        let c = s[i];
        proof {
            assert(s@.subrange(start as int, i + 1).drop_last() =~= s@.subrange(
                start as int,
                i as int,
            ));
        }
        if c < 48u8 || c > 57u8 {
            proof {
                assert(d[i - start] == c);
                assert(!is_digit_byte(d[i - start]));
                assert(!all_digits(d));
            }
            return None;
        }
        let digit: usize = (c - 48u8) as usize;
        match acc.checked_mul(10) {
            None => {
                proof {
                    lemma_overflow(s@, d, start as int, i as int, acc as nat);
                }
                return None;
            },
            Some(m) => match m.checked_add(digit) {
                None => {
                    proof {
                        lemma_overflow(s@, d, start as int, i as int, acc as nat);
                    }
                    return None;
                },
                Some(v) => {
                    acc = v;
                },
            },
        }
        i = i + 1;
        proof {
            assert(all_digits(s@.subrange(start as int, i as int)));
        }
    }
    Some(acc)
}

/// Decimal digits of `n`, most significant first, with no leading zeros.
pub open spec fn decimal(n: nat) -> Seq<u8>
    decreases n,
{
    if n < 10 {
        seq![(48 + n) as u8]
    } else {
        decimal(n / 10).push((48 + n % 10) as u8)
    }
}

/// A hexadecimal digit in upper case.
pub open spec fn upper_hex_digit(d: nat) -> u8 {
    if d < 10 {
        (48 + d) as u8
    } else {
        (55 + d) as u8
    }
}

/// Upper-case hexadecimal digits of `n`, with no prefix and no leading zeros.
pub open spec fn upper_hex(n: nat) -> Seq<u8>
    decreases n,
{
    if n < 16 {
        seq![upper_hex_digit(n)]
    } else {
        upper_hex(n / 16).push(upper_hex_digit(n % 16))
    }
}

/// Appends the decimal digits of `n`.
pub fn push_decimal(n: usize, out: &mut Vec<u8>)
    ensures
        final(out)@ == old(out)@ + decimal(n as nat),
    decreases n,
{
    if n >= 10 {
        push_decimal(n / 10, out);
    }
    out.push((48 + n % 10) as u8);
    proof {
        if n < 10 {
            assert(n % 10 == n);
        }
        assert(final(out)@ =~= old(out)@ + decimal(n as nat));
    }
}

/// Appends the upper-case hexadecimal digits of `n`.
pub fn push_upper_hex(n: usize, out: &mut Vec<u8>)
    ensures
        final(out)@ == old(out)@ + upper_hex(n as nat),
    decreases n,
{
    if n >= 16 {
        push_upper_hex(n / 16, out);
    }
    let d = n % 16;
    let c: u8 = if d < 10 {
        (48 + d) as u8
    } else {
        (55 + d) as u8
    };
    out.push(c);
    proof {
        if n < 16 {
            assert(n % 16 == n);
        }
        assert(final(out)@ =~= old(out)@ + upper_hex(n as nat));
    }
}

/// Each byte read as the character with the same code.
pub open spec fn ascii_chars(b: Seq<u8>) -> Seq<char> {
    Seq::new(b.len(), |i: int| b[i] as char)
}

pub open spec fn is_ascii_bytes(b: Seq<u8>) -> bool {
    forall|i: int| 0 <= i < b.len() ==> #[trigger] b[i] < 128u8
}

/// ASCII bytes are valid UTF-8 and decode to one character per byte.
pub proof fn lemma_ascii_decode(b: Seq<u8>)
    requires
        is_ascii_bytes(b),
    ensures
        valid_utf8(b),
        decode_utf8(b) == ascii_chars(b),
{
    let c = ascii_chars(b);
    assert forall|i: int| 0 <= i < c.len() implies '\0' <= #[trigger] c[i] <= '\u{7f}' by {
        assert(b[i] < 128u8);
    }
    assert(is_ascii_chars(c));
    is_ascii_chars_encode_utf8(c);
    assert(encode_utf8(c) =~= b);
    encode_utf8_valid_utf8(c);
    encode_utf8_decode_utf8(c);
}

/// What `String::from_utf8_lossy` makes of the bytes `b`.
pub uninterp spec fn lossy_text(b: Seq<u8>) -> Seq<char>;

/// Relies on `String::from_utf8_lossy`: the text that the bytes encode, with
/// invalid sequences replaced; valid UTF-8 is decoded unchanged.
#[verifier::external_body]
pub(crate) fn text_from_bytes(b: &[u8]) -> (r: String)
    ensures
        r@ == lossy_text(b@),
        valid_utf8(b@) ==> r@ == decode_utf8(b@),
{
    String::from_utf8_lossy(b).into_owned()
}

/// The text of bytes known to be ASCII.
pub fn ascii_text(b: &[u8]) -> (r: String)
    requires
        is_ascii_bytes(b@),
    ensures
        r@ == ascii_chars(b@),
{
    proof {
        lemma_ascii_decode(b@);
    }
    text_from_bytes(b)
}

/// Byte-for-byte equality of two slices.
pub fn bytes_eq(a: &[u8], b: &[u8]) -> (r: bool)
    ensures
        r == (a@ == b@),
{
    if a.len() != b.len() {
        return false;
    }
    let mut i: usize = 0;
    while i < a.len()
        invariant
            i <= a.len(),
            a.len() == b.len(),
            forall|k: int| 0 <= k < i ==> a@[k] == b@[k],
        decreases a.len() - i,
    {
        if a[i] != b[i] {
            return false;
        }
        i = i + 1;
    }
    proof {
        assert(a@ =~= b@);
    }
    true
}

} // verus!
