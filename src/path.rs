use vstd::prelude::*;
use vstd::utf8::*;

use crate::text::{bytes_eq, find_byte, index_of, is_space_byte, lemma_index_of, lossy_text, text_from_bytes};

verus! {

/// Why a route pattern is refused.
#[derive(Debug, Clone, Copy, PartialEq, Eq, Structural)]
pub enum PathError {
    /// Whitespace anywhere in the pattern.
    Whitespace,
    /// `{` inside a label, `}` outside one, or a label left open.
    MalFormed,
    /// The same label name twice.
    DuplicatedLabel,
}

/// A one-byte whitespace character: ASCII whitespace and the vertical tab.
pub open spec fn is_path_space(c: u8) -> bool {
    is_space_byte(c) || c == 11u8
}

/// The UTF-8 text `s` ends with a whitespace character, as `char::is_whitespace`
/// counts them: the one-byte ones, U+0085, U+00A0, U+1680, U+2000 to U+200A,
/// U+2028, U+2029, U+202F, U+205F and U+3000.
pub open spec fn ends_in_space(s: Seq<u8>) -> bool {
    let n = s.len() as int;
    ||| (n >= 1 && is_path_space(s[n - 1]))
    ||| (n >= 2 && s[n - 2] == 0xC2u8 && (s[n - 1] == 0x85u8 || s[n - 1] == 0xA0u8))
    ||| (n >= 3 && s[n - 3] == 0xE1u8 && s[n - 2] == 0x9Au8 && s[n - 1] == 0x80u8)
    ||| (n >= 3 && s[n - 3] == 0xE2u8 && s[n - 2] == 0x80u8 && ((0x80u8 <= s[n - 1] <= 0x8Au8)
        || s[n - 1] == 0xA8u8 || s[n - 1] == 0xA9u8 || s[n - 1] == 0xAFu8))
    ||| (n >= 3 && s[n - 3] == 0xE2u8 && s[n - 2] == 0x81u8 && s[n - 1] == 0x9Fu8)
    ||| (n >= 3 && s[n - 3] == 0xE3u8 && s[n - 2] == 0x80u8 && s[n - 1] == 0x80u8)
}

/// Whether the first `i + 1` bytes of `b` end with a whitespace character.
fn space_ends_at(b: &[u8], i: usize) -> (r: bool)
    requires
        i < b@.len(),
    ensures
        r == ends_in_space(b@.subrange(0, i + 1)),
{
    let ghost s = b@.subrange(0, i + 1);
    let c = b[i];
    assert(s[i as int] == c);
    if c == 32u8 || c == 9u8 || c == 10u8 || c == 11u8 || c == 12u8 || c == 13u8 {
        return true;
    }
    let p: u8 = if i >= 1 {
        b[i - 1]
    } else {
        0
    };
    let q: u8 = if i >= 2 {
        b[i - 2]
    } else {
        0
    };
    proof {
        if i >= 1 {
            assert(s[i - 1] == p);
        }
        if i >= 2 {
            assert(s[i - 2] == q);
        }
    }
    (i >= 1 && p == 0xC2u8 && (c == 0x85u8 || c == 0xA0u8)) || (i >= 2 && q == 0xE1u8 && p
        == 0x9Au8 && c == 0x80u8) || (i >= 2 && q == 0xE2u8 && p == 0x80u8 && ((0x80u8 <= c
        && c <= 0x8Au8) || c == 0xA8u8 || c == 0xA9u8 || c == 0xAFu8)) || (i >= 2 && q == 0xE2u8
        && p == 0x81u8 && c == 0x9Fu8) || (i >= 2 && q == 0xE3u8 && p == 0x80u8 && c == 0x80u8)
}

/// Where a scan of a pattern stands: the finished segments and labels, the
/// segment or label being read, and whether it is inside `{...}`.
pub struct Scan {
    pub segments: Seq<Seq<u8>>,
    pub labels: Seq<Seq<u8>>,
    pub segment: Seq<u8>,
    pub label: Seq<u8>,
    pub in_label: bool,
}

/// The last byte of the pattern's first bytes `b`.
pub open spec fn scan_step(st: Scan, b: Seq<u8>) -> Result<Scan, PathError> {
    let c = b.last();
    if ends_in_space(b) {
        Err(PathError::Whitespace)
    } else if c == 123u8 {
        if st.in_label {
            Err(PathError::MalFormed)
        } else {
            Ok(Scan { segments: st.segments.push(st.segment), segment: Seq::empty(), in_label: true, ..st })
        }
    } else if c == 125u8 {
        if !st.in_label {
            Err(PathError::MalFormed)
        } else if st.labels.contains(st.label) {
            Err(PathError::DuplicatedLabel)
        } else {
            Ok(Scan { labels: st.labels.push(st.label), label: Seq::empty(), in_label: false, ..st })
        }
    } else if st.in_label {
        Ok(Scan { label: st.label.push(c), ..st })
    } else {
        Ok(Scan { segment: st.segment.push(c), ..st })
    }
}

pub open spec fn scan(b: Seq<u8>) -> Result<Scan, PathError>
    decreases b.len(),
{
    if b.len() == 0 {
        Ok(
            Scan {
                segments: Seq::empty(),
                labels: Seq::empty(),
                segment: Seq::empty(),
                label: Seq::empty(),
                in_label: false,
            },
        )
    } else {
        match scan(b.drop_last()) {
            Err(e) => Err(e),
            Ok(st) => scan_step(st, b),
        }
    }
}

/// A pattern with labels split into its literal segments and its label
/// names; the last segment is kept only when it is not empty.
pub open spec fn compile(b: Seq<u8>) -> Result<(Seq<Seq<u8>>, Seq<Seq<u8>>), PathError> {
    match scan(b) {
        Err(e) => Err(e),
        Ok(st) => if st.in_label {
            Err(PathError::MalFormed)
        } else {
            Ok(
                (
                    if st.segment.len() > 0 {
                        st.segments.push(st.segment)
                    } else {
                        st.segments
                    },
                    st.labels,
                ),
            )
        },
    }
}

/// A route pattern: its text, and for a pattern with labels its segments
/// and label names (a label's position in the list is its ordinal).
pub struct PathView {
    pub raw: Seq<char>,
    pub segments: Option<Seq<Seq<u8>>>,
    pub labels: Option<Seq<Seq<u8>>>,
}

/// What compiling the text `raw` gives: every pattern is scanned, and one
/// without `{` is a plain path, with no segments or labels.
pub open spec fn path_of(raw: Seq<char>) -> Result<PathView, PathError> {
    let b = encode_utf8(raw);
    match compile(b) {
        Err(e) => Err(e),
        Ok((s, l)) => if index_of(b, 123u8) < 0 {
            Ok(PathView { raw, segments: None, labels: None })
        } else {
            Ok(PathView { raw, segments: Some(s), labels: Some(l) })
        },
    }
}

pub open spec fn starts_with(s: Seq<u8>, p: Seq<u8>) -> bool {
    p.len() <= s.len() && s.subrange(0, p.len() as int) == p
}

/// `s` from its first `/` on, or all of `s` when it has none.
pub open spec fn from_slash(s: Seq<u8>) -> Seq<u8> {
    let k = index_of(s, 47u8);
    if k >= 0 {
        s.subrange(k, s.len() as int)
    } else {
        s
    }
}

/// `s` up to its first `/`, or all of `s` when it has none.
pub open spec fn to_slash(s: Seq<u8>) -> Seq<u8> {
    let k = index_of(s, 47u8);
    if k >= 0 {
        s.subrange(0, k)
    } else {
        s
    }
}

/// The segments, in order, each at the front of what is left of `input`;
/// after each one, what follows up to the next `/` is what a label takes.
pub open spec fn walk(segs: Seq<Seq<u8>>, input: Seq<u8>) -> bool
    decreases segs.len(),
{
    if segs.len() == 0 {
        true
    } else if !starts_with(input, segs[0]) {
        false
    } else {
        walk(segs.drop_first(), from_slash(input.subrange(segs[0].len() as int, input.len() as int)))
    }
}

/// What the label after segment `k` takes from `input`, when the walk gets there.
pub open spec fn label_value(segs: Seq<Seq<u8>>, input: Seq<u8>, k: nat) -> Option<Seq<u8>>
    decreases segs.len(),
{
    if segs.len() == 0 {
        None
    } else if !starts_with(input, segs[0]) {
        None
    } else {
        let after = input.subrange(segs[0].len() as int, input.len() as int);
        if k == 0 {
            Some(to_slash(after))
        } else {
            label_value(segs.drop_first(), from_slash(after), (k - 1) as nat)
        }
    }
}

/// When two patterns are the same route: the same text; two patterns with
/// labels and the same segments; or a pattern with labels that the text of
/// a pattern without labels walks through.
pub open spec fn path_eq(p: PathView, q: PathView) -> bool {
    if p.raw == q.raw {
        true
    } else {
        match (p.segments, q.segments) {
            (None, None) => false,
            (Some(a), Some(b)) => a == b,
            (Some(a), None) => walk(a, encode_utf8(q.raw)),
            (None, Some(b)) => walk(b, encode_utf8(p.raw)),
        }
    }
}

/// A compiled route pattern such as `/users/{id}/info`.
#[derive(Debug)]
pub struct Path {
    raw_value: String,
    segments: Option<Vec<Vec<u8>>>,
    labels: Option<Vec<Vec<u8>>>,
}

pub open spec fn seqs_of(v: Seq<Vec<u8>>) -> Seq<Seq<u8>> {
    v.map_values(|x: Vec<u8>| x@)
}

impl View for Path {
    type V = PathView;

    closed spec fn view(&self) -> PathView {
        PathView {
            raw: self.raw_value@,
            segments: match self.segments {
                Some(s) => Some(seqs_of(s@)),
                None => None,
            },
            labels: match self.labels {
                Some(l) => Some(seqs_of(l@)),
                None => None,
            },
        }
    }
}

fn contains_bytes(list: &Vec<Vec<u8>>, x: &Vec<u8>) -> (r: bool)
    ensures
        r == seqs_of(list@).contains(x@),
{
    let mut i: usize = 0;
    while i < list.len()
        invariant
            i <= list@.len(),
            forall|j: int| 0 <= j < i ==> list@[j]@ != x@,
        decreases list@.len() - i,
    {
        if bytes_eq(list[i].as_slice(), x.as_slice()) {
            proof {
                assert(seqs_of(list@)[i as int] == x@);
            }
            return true;
        }
        i = i + 1;
    }
    proof {
        if seqs_of(list@).contains(x@) {
            let j = choose|j: int| 0 <= j < seqs_of(list@).len() && seqs_of(list@)[j] == x@;
            assert(list@[j]@ == x@);
        }
    }
    false
}

fn scan_bytes(b: &[u8]) -> (r: Result<(Vec<Vec<u8>>, Vec<Vec<u8>>), PathError>)
    ensures
        match (r, compile(b@)) {
            (Ok((s, l)), Ok((cs, cl))) => seqs_of(s@) == cs && seqs_of(l@) == cl,
            (Err(e), Err(ce)) => e == ce,
            _ => false,
        },
{
    let mut segments: Vec<Vec<u8>> = Vec::new();
    let mut labels: Vec<Vec<u8>> = Vec::new();
    let mut segment: Vec<u8> = Vec::new();
    let mut label: Vec<u8> = Vec::new();
    let mut in_label = false;
    let mut i: usize = 0;
    proof {
        assert(b@.subrange(0, 0) =~= Seq::<u8>::empty());
        assert(seqs_of(segments@) =~= Seq::<Seq<u8>>::empty());
        assert(seqs_of(labels@) =~= Seq::<Seq<u8>>::empty());
    }
    while i < b.len()
        invariant
            i <= b@.len(),
            scan(b@.subrange(0, i as int)) == Ok::<Scan, PathError>(
                Scan {
                    segments: seqs_of(segments@),
                    labels: seqs_of(labels@),
                    segment: segment@,
                    label: label@,
                    in_label,
                },
            ),
        decreases b@.len() - i,
    {
        let c = b[i];
        let ghost segs0 = segments@;
        let ghost labs0 = labels@;
        let ghost seg0 = segment@;
        let ghost lab0 = label@;
        proof {
            assert(b@.subrange(0, i + 1).drop_last() =~= b@.subrange(0, i as int));
        }
        if space_ends_at(b, i) {
            proof {
                lemma_scan_error_stays(b@, i as int + 1);
            }
            return Err(PathError::Whitespace);
        }
        if c == 123u8 {
            if in_label {
                proof {
                    lemma_scan_error_stays(b@, i as int + 1);
                }
                return Err(PathError::MalFormed);
            }
            in_label = true;
            segments.push(segment);
            segment = Vec::new();
            proof {
                assert(seqs_of(segments@) =~= seqs_of(segs0).push(seg0));
            }
        } else if c == 125u8 {
            if !in_label {
                proof {
                    lemma_scan_error_stays(b@, i as int + 1);
                }
                return Err(PathError::MalFormed);
            }
            if contains_bytes(&labels, &label) {
                proof {
                    lemma_scan_error_stays(b@, i as int + 1);
                }
                return Err(PathError::DuplicatedLabel);
            }
            labels.push(label);
            label = Vec::new();
            proof {
                assert(seqs_of(labels@) =~= seqs_of(labs0).push(lab0));
            }
            in_label = false;
        } else if in_label {
            label.push(c);
        } else {
            segment.push(c);
        }
        i = i + 1;
    }
    proof {
        assert(b@.subrange(0, i as int) =~= b@);
    }
    if in_label {
        return Err(PathError::MalFormed);
    }
    let ghost segs0 = segments@;
    let ghost seg0 = segment@;
    if segment.len() > 0 {
        segments.push(segment);
        proof {
            assert(seqs_of(segments@) =~= seqs_of(segs0).push(seg0));
        }
    }
    Ok((segments, labels))
}

/// Once the scan of a prefix fails, the scan of the whole pattern fails the same way.
proof fn lemma_scan_error_stays(b: Seq<u8>, n: int)
    requires
        0 <= n <= b.len(),
        scan(b.subrange(0, n)) is Err,
    ensures
        scan(b) == scan(b.subrange(0, n)),
    decreases b.len() - n,
{
    if n < b.len() {
        assert(b.subrange(0, n + 1).drop_last() =~= b.subrange(0, n));
        lemma_scan_error_stays(b, n + 1);
    } else {
        assert(b.subrange(0, n) =~= b);
    }
}

fn starts_with_bytes(input: &[u8], seg: &[u8]) -> (r: bool)
    ensures
        r == starts_with(input@, seg@),
{
    seg.len() <= input.len() && bytes_eq(vstd::slice::slice_subrange(input, 0, seg.len()), seg)
}

fn from_slash_bytes(s: &[u8]) -> (r: &[u8])
    ensures
        r@ == from_slash(s@),
{
    proof {
        lemma_index_of(s@, 47u8);
    }
    match find_byte(s, 47u8) {
        Some(k) => vstd::slice::slice_subrange(s, k, s.len()),
        None => s,
    }
}

/// Whether `input` walks through the segments `segs`.
pub fn walk_bytes(segs: &Vec<Vec<u8>>, input: &[u8]) -> (r: bool)
    ensures
        r == walk(seqs_of(segs@), input@),
{
    let ghost all = seqs_of(segs@);
    let mut rest: &[u8] = input;
    let mut i: usize = 0;
    proof {
        assert(all.subrange(0, all.len() as int) =~= all);
    }
    while i < segs.len()
        invariant
            i <= segs@.len(),
            all == seqs_of(segs@),
            walk(all, input@) == walk(all.subrange(i as int, all.len() as int), rest@),
        decreases segs@.len() - i,
    {
        let seg = segs[i].as_slice();
        proof {
            let sub = all.subrange(i as int, all.len() as int);
            assert(sub[0] == seg@);
            assert(sub.drop_first() =~= all.subrange(i + 1, all.len() as int));
        }
        if !starts_with_bytes(rest, seg) {
            return false;
        }
        rest = from_slash_bytes(vstd::slice::slice_subrange(rest, seg.len(), rest.len()));
        i = i + 1;
    }
    true
}

/// What the label after segment `k` takes from `input`.
pub fn label_value_bytes(segs: &Vec<Vec<u8>>, input: &[u8], k: usize) -> (r: Option<Vec<u8>>)
    ensures
        match (r, label_value(seqs_of(segs@), input@, k as nat)) {
            (Some(v), Some(w)) => v@ == w,
            (None, None) => true,
            _ => false,
        },
{
    let ghost all = seqs_of(segs@);
    let mut rest: &[u8] = input;
    let mut i: usize = 0;
    proof {
        assert(all.subrange(0, all.len() as int) =~= all);
    }
    while i < segs.len()
        invariant
            i <= segs@.len(),
            i <= k,
            all == seqs_of(segs@),
            label_value(all, input@, k as nat) == label_value(
                all.subrange(i as int, all.len() as int),
                rest@,
                (k - i) as nat,
            ),
        decreases segs@.len() - i,
    {
        let seg = segs[i].as_slice();
        proof {
            let sub = all.subrange(i as int, all.len() as int);
            assert(sub[0] == seg@);
            assert(sub.drop_first() =~= all.subrange(i + 1, all.len() as int));
        }
        if !starts_with_bytes(rest, seg) {
            return None;
        }
        let after = vstd::slice::slice_subrange(rest, seg.len(), rest.len());
        if i == k {
            proof {
                lemma_index_of(after@, 47u8);
            }
            let upto = match find_byte(after, 47u8) {
                Some(j) => vstd::slice::slice_subrange(after, 0, j),
                None => after,
            };
            let mut v: Vec<u8> = Vec::new();
            v.extend_from_slice(upto);
            return Some(v);
        }
        rest = from_slash_bytes(after);
        i = i + 1;
    }
    None
}

fn same_seqs(a: &Vec<Vec<u8>>, b: &Vec<Vec<u8>>) -> (r: bool)
    ensures
        r == (seqs_of(a@) == seqs_of(b@)),
{
    if a.len() != b.len() {
        proof {
            assert(seqs_of(a@).len() != seqs_of(b@).len());
        }
        return false;
    }
    let mut i: usize = 0;
    while i < a.len()
        invariant
            i <= a@.len(),
            a@.len() == b@.len(),
            forall|j: int| 0 <= j < i ==> a@[j]@ == b@[j]@,
        decreases a@.len() - i,
    {
        if !bytes_eq(a[i].as_slice(), b[i].as_slice()) {
            proof {
                assert(seqs_of(a@)[i as int] != seqs_of(b@)[i as int]);
            }
            return false;
        }
        i = i + 1;
    }
    proof {
        assert(seqs_of(a@) =~= seqs_of(b@));
    }
    true
}

/// A copy of a list of byte strings.
fn copy_seqs(v: &Vec<Vec<u8>>) -> (r: Vec<Vec<u8>>)
    ensures
        seqs_of(r@) == seqs_of(v@),
{
    let mut out: Vec<Vec<u8>> = Vec::new();
    let mut i: usize = 0;
    while i < v.len()
        invariant
            i <= v@.len(),
            out@.len() == i,
            forall|j: int| 0 <= j < i ==> #[trigger] out@[j]@ == v@[j]@,
        decreases v@.len() - i,
    {
        let mut c: Vec<u8> = Vec::new();
        c.extend_from_slice(v[i].as_slice());
        out.push(c);
        i = i + 1;
    }
    proof {
        assert(seqs_of(out@) =~= seqs_of(v@));
    }
    out
}

/// Two patterns with labels are the same route exactly when their texts are
/// equal or their literal segments are equal one for one; the label names
/// play no part.
pub proof fn lemma_route_equivalence(p: PathView, q: PathView)
    requires
        p.segments is Some,
        q.segments is Some,
    ensures
        path_eq(p, q) <==> (p.raw == q.raw || p.segments == q.segments),
{
}

impl PartialEq for Path {
    fn eq(&self, other: &Path) -> (r: bool) {
        if self.raw_value == other.raw_value {
            return true;
        }
        match (&self.segments, &other.segments) {
            (None, None) => false,
            (Some(a), Some(b)) => same_seqs(a, b),
            (Some(a), None) => walk_bytes(a, other.raw_value.as_str().as_bytes()),
            (None, Some(b)) => walk_bytes(b, self.raw_value.as_str().as_bytes()),
        }
    }
}

impl vstd::std_specs::cmp::PartialEqSpecImpl for Path {
    open spec fn obeys_eq_spec() -> bool {
        true
    }

    open spec fn eq_spec(&self, other: &Path) -> bool {
        path_eq(self@, other@)
    }
}

impl Path {
    /// The segments and label names of a pattern with labels, copied.
    pub fn wild_card_parts(&self) -> (r: Option<(Vec<Vec<u8>>, Vec<Vec<u8>>)>)
        ensures
            match (r, self@.segments, self@.labels) {
                (Some((s, l)), Some(ss), Some(ll)) => seqs_of(s@) == ss && seqs_of(l@) == ll,
                (None, None, _) => true,
                (None, _, None) => true,
                _ => false,
            },
    {
        match (&self.segments, &self.labels) {
            (Some(s), Some(l)) => Some((copy_seqs(s), copy_seqs(l))),
            _ => None,
        }
    }

    pub closed spec fn wf(&self) -> bool {
        self.segments.is_some() == self.labels.is_some()
    }

    /// Compiles a route pattern, in which `{name}` marks a label that takes
    /// one path segment; a pattern without `{` is a plain path. Any pattern
    /// is refused for whitespace, for `{` inside a label or `}` outside one,
    /// for a label left open, and for a repeated label name.
    pub fn try_from(value: &str) -> (r: Result<Path, PathError>)
        ensures
            match (r, path_of(value@)) {
                (Ok(p), Ok(pv)) => p@ == pv && p.wf(),
                (Err(e), Err(pe)) => e == pe,
                _ => false,
            },
    {
        let b = value.as_bytes();
        let raw_value = value.to_owned();
        match scan_bytes(b) {
            Err(e) => Err(e),
            Ok((segments, labels)) => match find_byte(b, 123u8) {
                None => Ok(Path { raw_value, segments: None, labels: None }),
                Some(_) => Ok(Path { raw_value, segments: Some(segments), labels: Some(labels) }),
            },
        }
    }

    /// The pattern as it was written.
    pub fn raw_value(&self) -> (r: &String)
        ensures
            r@ == self@.raw,
    {
        &self.raw_value
    }

    /// The pattern has at least one label.
    pub fn has_wild_card(&self) -> (r: bool)
        ensures
            r == self@.segments.is_some(),
    {
        self.segments.is_some()
    }

    /// The literal segments of a pattern with labels, as text.
    pub fn segments(&self) -> (r: Option<Vec<String>>)
        ensures
            match (r, self@.segments) {
                (Some(v), Some(s)) => v@.len() == s.len() && forall|i: int|
                    0 <= i < s.len() ==> #[trigger] v@[i]@ == lossy_text(s[i]),
                (None, None) => true,
                _ => false,
            },
    {
        match &self.segments {
            None => None,
            Some(segs) => {
                let mut out: Vec<String> = Vec::new();
                let mut i: usize = 0;
                while i < segs.len()
                    invariant
                        i <= segs@.len(),
                        self.segments == Some(*segs),
                        out@.len() == i,
                        forall|j: int| 0 <= j < i ==> #[trigger] out@[j]@ == lossy_text(segs@[j]@),
                    decreases segs@.len() - i,
                {
                    out.push(text_from_bytes(segs[i].as_slice()));
                    i = i + 1;
                }
                Some(out)
            },
        }
    }

    /// The label names of a pattern with labels, in order, as text.
    pub fn labels(&self) -> (r: Option<Vec<String>>)
        ensures
            match (r, self@.labels) {
                (Some(v), Some(l)) => v@.len() == l.len() && forall|i: int|
                    0 <= i < l.len() ==> #[trigger] v@[i]@ == lossy_text(l[i]),
                (None, None) => true,
                _ => false,
            },
    {
        match &self.labels {
            None => None,
            Some(names) => {
                let mut out: Vec<String> = Vec::new();
                let mut i: usize = 0;
                while i < names.len()
                    invariant
                        i <= names@.len(),
                        self.labels == Some(*names),
                        out@.len() == i,
                        forall|j: int| 0 <= j < i ==> #[trigger] out@[j]@ == lossy_text(names@[j]@),
                    decreases names@.len() - i,
                {
                    out.push(text_from_bytes(names[i].as_slice()));
                    i = i + 1;
                }
                Some(out)
            },
        }
    }

    /// Number of labels.
    pub fn label_count(&self) -> (r: usize)
        ensures
            r == match self@.labels {
                Some(l) => l.len(),
                None => 0,
            },
    {
        match &self.labels {
            None => 0,
            Some(l) => l.len(),
        }
    }

    /// The ordinal of the label called `name`.
    pub fn label_index(&self, name: &str) -> (r: Option<usize>)
        ensures
            match r {
                Some(k) => self@.labels matches Some(l) && k < l.len() && l[k as int] == encode_utf8(
                    name@,
                ),
                None => !(self@.labels matches Some(l) && l.contains(encode_utf8(name@))),
            },
    {
        let n = name.as_bytes();
        match &self.labels {
            None => None,
            Some(l) => {
                let mut i: usize = 0;
                while i < l.len()
                    invariant
                        i <= l@.len(),
                        self.labels == Some(*l),
                        n@ == encode_utf8(name@),
                        forall|j: int| 0 <= j < i ==> l@[j]@ != n@,
                    decreases l@.len() - i,
                {
                    if bytes_eq(l[i].as_slice(), n) {
                        return Some(i);
                    }
                    i = i + 1;
                }
                proof {
                    if seqs_of(l@).contains(n@) {
                        let j = choose|j: int| 0 <= j < seqs_of(l@).len() && seqs_of(l@)[j] == n@;
                        assert(l@[j]@ == n@);
                    }
                }
                None
            },
        }
    }
}

} // verus!
