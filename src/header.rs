use vstd::prelude::*;
use vstd::utf8::*;

use crate::error::{Error, ErrorView};
use crate::text::{
    ascii_chars, ascii_text, crlf_index, find_byte, find_crlf, index_of, is_ascii_bytes,
    lemma_crlf_from_bounds, lemma_index_of, lossy_text, text_from_bytes, trim, trim_bounds,
};

verus! {

/// The line break that ends a line on the wire.
pub open spec fn crlf() -> Seq<u8> {
    seq![13u8, 10u8]
}

/// What stands between a field's name and its value on the wire.
pub open spec fn colon_space() -> Seq<u8> {
    seq![58u8, 32u8]
}

/// Header fields as (name, value) pairs, in the order they were first added.
pub type FieldsView = Seq<(Seq<char>, Seq<char>)>;

/// One field as it is written on the wire: `name: value\r\n`.
pub open spec fn field_wire(f: (Seq<char>, Seq<char>)) -> Seq<u8> {
    encode_utf8(f.0) + colon_space() + encode_utf8(f.1) + crlf()
}

/// The fields written one after another.
pub open spec fn fields_wire(s: FieldsView) -> Seq<u8>
    decreases s.len(),
{
    if s.len() == 0 {
        Seq::empty()
    } else {
        fields_wire(s.drop_last()) + field_wire(s.last())
    }
}

/// A header section on the wire: every field, then the blank line.
pub open spec fn headers_wire(s: FieldsView) -> Seq<u8> {
    fields_wire(s) + crlf()
}

/// Position of the field named `k`, or -1.
pub open spec fn name_index(s: FieldsView, k: Seq<char>) -> int
    decreases s.len(),
{
    if s.len() == 0 {
        -1
    } else if s.last().0 == k {
        s.len() - 1
    } else {
        name_index(s.drop_last(), k)
    }
}

/// The value stored under `k`.
pub open spec fn field_value(s: FieldsView, k: Seq<char>) -> Option<Seq<char>> {
    if name_index(s, k) >= 0 {
        Some(s[name_index(s, k)].1)
    } else {
        None
    }
}

/// Separator of the values of a field that was given more than once.
pub open spec fn value_join() -> Seq<char> {
    seq![',', ' ']
}

/// Adds `v` under `k`, after the value already there if there is one.
pub open spec fn fields_insert(s: FieldsView, k: Seq<char>, v: Seq<char>) -> FieldsView {
    let i = name_index(s, k);
    if i >= 0 {
        s.update(i, (s[i].0, s[i].1 + value_join() + v))
    } else {
        s.push((k, v))
    }
}

/// Sets `k` to `v`, replacing any value it had.
pub open spec fn fields_overwrite(s: FieldsView, k: Seq<char>, v: Seq<char>) -> FieldsView {
    let i = name_index(s, k);
    if i >= 0 {
        s.update(i, (k, v))
    } else {
        s.push((k, v))
    }
}

/// Sets `k` to `v` only where `k` has no value yet.
pub open spec fn fields_insert_absent(s: FieldsView, k: Seq<char>, v: Seq<char>) -> FieldsView {
    if name_index(s, k) >= 0 {
        s
    } else {
        s.push((k, v))
    }
}

/// The fields without the one named `k`.
pub open spec fn fields_remove(s: FieldsView, k: Seq<char>) -> FieldsView {
    let i = name_index(s, k);
    if i >= 0 {
        s.remove(i)
    } else {
        s
    }
}

/// No name occurs twice.
pub open spec fn names_distinct(s: FieldsView) -> bool {
    forall|i: int, j: int| 0 <= i < j < s.len() ==> s[i].0 != s[j].0
}

pub proof fn lemma_name_index(s: FieldsView, k: Seq<char>)
    ensures
        -1 <= name_index(s, k) < s.len(),
        name_index(s, k) >= 0 ==> s[name_index(s, k)].0 == k,
        name_index(s, k) == -1 ==> forall|j: int| 0 <= j < s.len() ==> s[j].0 != k,
    decreases s.len(),
{
    if s.len() > 0 && s.last().0 != k {
        lemma_name_index(s.drop_last(), k);
        if name_index(s, k) == -1 {
            assert forall|j: int| 0 <= j < s.len() implies s[j].0 != k by {
                if j < s.len() - 1 {
                    assert(s[j] == s.drop_last()[j]);
                }
            }
        }
    }
}

/// In a sequence without repeated names, a field's position is where its name is.
pub proof fn lemma_name_index_at(s: FieldsView, j: int)
    requires
        names_distinct(s),
        0 <= j < s.len(),
    ensures
        name_index(s, s[j].0) == j,
{
    lemma_name_index(s, s[j].0);
}

/// The fields that inserting `fs` one after another, from none, leaves.
pub open spec fn fold_fields(fs: FieldsView) -> FieldsView
    decreases fs.len(),
{
    if fs.len() == 0 {
        Seq::empty()
    } else {
        fields_insert(fold_fields(fs.drop_last()), fs.last().0, fs.last().1)
    }
}

/// The values given for the name `k` in `fs`, in order.
pub open spec fn values_for(fs: FieldsView, k: Seq<char>) -> Seq<Seq<char>>
    decreases fs.len(),
{
    if fs.len() == 0 {
        Seq::empty()
    } else if fs.last().0 == k {
        values_for(fs.drop_last(), k).push(fs.last().1)
    } else {
        values_for(fs.drop_last(), k)
    }
}

/// The values joined by `, `.
pub open spec fn join_values(vs: Seq<Seq<char>>) -> Seq<char>
    decreases vs.len(),
{
    if vs.len() == 0 {
        Seq::empty()
    } else if vs.len() == 1 {
        vs[0]
    } else {
        join_values(vs.drop_last()) + value_join() + vs.last()
    }
}

proof fn lemma_insert_keeps_distinct(s: FieldsView, k: Seq<char>, v: Seq<char>)
    requires
        names_distinct(s),
    ensures
        names_distinct(fields_insert(s, k, v)),
{
    lemma_name_index(s, k);
}

proof fn lemma_insert_value(s: FieldsView, k: Seq<char>, v: Seq<char>, q: Seq<char>)
    requires
        names_distinct(s),
    ensures
        field_value(fields_insert(s, k, v), q) == if q == k {
            match field_value(s, k) {
                Some(old) => Some(old + value_join() + v),
                None => Some(v),
            }
        } else {
            field_value(s, q)
        },
{
    let t = fields_insert(s, k, v);
    lemma_name_index(s, k);
    lemma_name_index(s, q);
    lemma_insert_keeps_distinct(s, k, v);
    lemma_name_index(t, q);
    let i = name_index(s, k);
    let j = name_index(s, q);
    if j >= 0 {
        assert(t[j].0 == q);
        lemma_name_index_at(t, j);
    } else if q == k {
        assert(t[s.len() as int].0 == q);
        lemma_name_index_at(t, s.len() as int);
    } else {
        assert forall|x: int| 0 <= x < t.len() implies t[x].0 != q by {
            if x < s.len() {
                assert(t[x].0 == s[x].0);
            }
        }
    }
}

/// When a name is given more than once, its stored value is all its values
/// in the order they came, joined by `, `; a name given once keeps its value.
pub proof fn lemma_multi_value_folding(fs: FieldsView, k: Seq<char>)
    ensures
        names_distinct(fold_fields(fs)),
        field_value(fold_fields(fs), k) == if values_for(fs, k).len() == 0 {
            None::<Seq<char>>
        } else {
            Some(join_values(values_for(fs, k)))
        },
    decreases fs.len(),
{
    if fs.len() > 0 {
        let prev = fold_fields(fs.drop_last());
        lemma_multi_value_folding(fs.drop_last(), k);
        lemma_insert_keeps_distinct(prev, fs.last().0, fs.last().1);
        lemma_insert_value(prev, fs.last().0, fs.last().1, k);
        if fs.last().0 == k {
            let vs = values_for(fs, k);
            assert(vs.drop_last() =~= values_for(fs.drop_last(), k));
        }
    } else {
        assert(name_index(Seq::<(Seq<char>, Seq<char>)>::empty(), k) == -1);
    }
}

proof fn lemma_fields_wire_take(s: FieldsView, i: int)
    requires
        0 <= i < s.len(),
    ensures
        fields_wire(s.take(i + 1)) == fields_wire(s.take(i)) + field_wire(s[i]),
{
    assert(s.take(i + 1).drop_last() =~= s.take(i));
}

proof fn lemma_fields_wire_len_take(s: FieldsView, i: int)
    requires
        0 <= i <= s.len(),
    ensures
        fields_wire(s.take(i)).len() <= fields_wire(s).len(),
    decreases s.len() - i,
{
    if i < s.len() {
        lemma_fields_wire_take(s, i);
        lemma_fields_wire_len_take(s, i + 1);
    } else {
        assert(s.take(i) =~= s);
    }
}

/// One field of a header section.
#[derive(Debug)]
pub struct HeaderField {
    pub name: String,
    pub value: String,
}

/// A header section: fields with distinct names, each with one value.
#[derive(Debug)]
pub struct Headers {
    fields: Vec<HeaderField>,
}

impl View for Headers {
    type V = FieldsView;

    closed spec fn view(&self) -> FieldsView {
        Seq::new(self.fields@.len(), |i: int| (self.fields@[i].name@, self.fields@[i].value@))
    }
}

impl Headers {
    pub open spec fn wf(&self) -> bool {
        names_distinct(self@)
    }

    /// An empty header section.
    pub fn new() -> (r: Headers)
        ensures
            r@ == FieldsView::empty(),
            r.wf(),
    {
        Headers { fields: Vec::new() }
    }

    /// Number of fields.
    pub fn len(&self) -> (r: usize)
        ensures
            r == self@.len(),
    {
        self.fields.len()
    }

    fn position(&self, key: &String) -> (r: Option<usize>)
        ensures
            match r {
                Some(i) => i as int == name_index(self@, key@) && i < self@.len(),
                None => name_index(self@, key@) == -1,
            },
    {
        let mut i: usize = self.fields.len();
        proof {
            assert(self@.take(i as int) =~= self@);
        }
        while i > 0
            invariant
                i <= self@.len(),
                name_index(self@.take(i as int), key@) == name_index(self@, key@),
            decreases i,
        {
            proof {
                assert(self@.take(i as int).drop_last() =~= self@.take(i - 1));
                assert(self@.take(i as int).last() == self@[i - 1]);
            }
            if self.fields[i - 1].name == *key {
                return Some(i - 1);
            }
            i = i - 1;
        }
        proof {
            assert(self@.take(0) =~= FieldsView::empty());
        }
        None
    }

    /// The value of the field named `key`.
    pub fn get(&self, key: &str) -> (r: Option<&String>)
        ensures
            match r {
                Some(v) => field_value(self@, key@) == Some(v@),
                None => field_value(self@, key@).is_none(),
            },
    {
        let k = key.to_owned();
        match self.position(&k) {
            Some(i) => Some(&self.fields[i].value),
            None => None,
        }
    }

    /// Adds `value` under `key`; a field already present keeps its place
    /// and gets `, ` and the new value after its old one.
    pub fn insert(&mut self, key: String, value: String)
        requires
            old(self).wf(),
        ensures
            final(self).wf(),
            final(self)@ == fields_insert(old(self)@, key@, value@),
    {
        proof {
            lemma_name_index(self@, key@);
        }
        match self.position(&key) {
            Some(i) => {
                proof {
                    reveal_strlit(", ");
                }
                let mut f = self.fields.remove(i);
                f.value.append(", ");
                f.value.append(value.as_str());
                let ghost fv = f.value@;
                let ghost fname = f.name@;
                self.fields.insert(i, f);
                proof {
                    assert(fv == old(self)@[i as int].1 + value_join() + value@);
                    assert(fname == old(self)@[i as int].0);
                    assert(final(self)@ =~= fields_insert(old(self)@, key@, value@));
                }
            },
            None => {
                self.fields.push(HeaderField { name: key, value });
                proof {
                    assert(final(self)@ =~= fields_insert(old(self)@, key@, value@));
                }
            },
        }
    }

    /// Sets `key` to `value`, replacing any value it had.
    pub fn overwrite(&mut self, key: String, value: String)
        requires
            old(self).wf(),
        ensures
            final(self).wf(),
            final(self)@ == fields_overwrite(old(self)@, key@, value@),
    {
        proof {
            lemma_name_index(self@, key@);
        }
        match self.position(&key) {
            Some(i) => {
                self.fields.remove(i);
                self.fields.insert(i, HeaderField { name: key, value });
                proof {
                    assert(final(self)@ =~= fields_overwrite(old(self)@, key@, value@));
                }
            },
            None => {
                self.fields.push(HeaderField { name: key, value });
                proof {
                    assert(final(self)@ =~= fields_overwrite(old(self)@, key@, value@));
                }
            },
        }
    }

    /// Sets `key` to `value` where `key` has no value yet.
    pub fn insert_if_not_exists(&mut self, key: String, value: String)
        requires
            old(self).wf(),
        ensures
            final(self).wf(),
            final(self)@ == fields_insert_absent(old(self)@, key@, value@),
    {
        proof {
            lemma_name_index(self@, key@);
        }
        match self.position(&key) {
            Some(_) => {},
            None => {
                self.fields.push(HeaderField { name: key, value });
                proof {
                    assert(final(self)@ =~= fields_insert_absent(old(self)@, key@, value@));
                }
            },
        }
    }

    /// Removes the field named `key`, if there is one.
    pub fn remove(&mut self, key: &str)
        requires
            old(self).wf(),
        ensures
            final(self).wf(),
            final(self)@ == fields_remove(old(self)@, key@),
    {
        let k = key.to_owned();
        match self.position(&k) {
            Some(i) => {
                self.fields.remove(i);
                proof {
                    assert(final(self)@ =~= fields_remove(old(self)@, key@));
                }
            },
            None => {},
        }
    }

    /// Adds a parsed field, as [`Headers::insert`] does.
    pub fn push_from_proto(&mut self, ph: ProtoHeader)
        requires
            old(self).wf(),
        ensures
            final(self).wf(),
            final(self)@ == fields_insert(old(self)@, ph.key@, ph.value@),
    {
        self.insert(ph.key, ph.value);
    }

    /// Appends the fields as they go on the wire, `name: value\r\n` each.
    pub fn write_fields_to(&self, out: &mut Vec<u8>)
        ensures
            final(out)@ == old(out)@ + fields_wire(self@),
    {
        let mut i: usize = 0;
        while i < self.fields.len()
            invariant
                i <= self@.len(),
                out@ == old(out)@ + fields_wire(self@.take(i as int)),
            decreases self@.len() - i,
        {
            proof {
                lemma_fields_wire_take(self@, i as int);
            }
            let f = &self.fields[i];
            out.extend_from_slice(f.name.as_str().as_bytes());
            out.push(58u8);
            out.push(32u8);
            out.extend_from_slice(f.value.as_str().as_bytes());
            out.push(13u8);
            out.push(10u8);
            i = i + 1;
            proof {
                assert(out@ =~= old(out)@ + fields_wire(self@.take(i as int)));
            }
        }
        proof {
            assert(self@.take(i as int) =~= self@);
        }
    }

    /// Appends the header section as it goes on the wire: `name: value\r\n`
    /// for each field, then `\r\n`.
    pub fn write_to(&self, out: &mut Vec<u8>)
        ensures
            final(out)@ == old(out)@ + headers_wire(self@),
    {
        self.write_fields_to(out);
        out.push(13u8);
        out.push(10u8);
        proof {
            assert(final(out)@ =~= old(out)@ + headers_wire(self@));
        }
    }

    /// Number of bytes that [`Headers::write_to`] appends.
    pub fn byte_len(&self) -> (r: usize)
        requires
            headers_wire(self@).len() <= usize::MAX,
        ensures
            r == headers_wire(self@).len(),
    {
        let mut total: usize = 0;
        let mut i: usize = 0;
        while i < self.fields.len()
            invariant
                i <= self@.len(),
                total == fields_wire(self@.take(i as int)).len(),
                headers_wire(self@).len() <= usize::MAX,
            decreases self@.len() - i,
        {
            proof {
                lemma_fields_wire_take(self@, i as int);
                lemma_fields_wire_len_take(self@, i + 1);
            }
            let f = &self.fields[i];
            total = total + f.name.as_str().len() + 2 + f.value.as_str().len() + 2;
            i = i + 1;
        }
        proof {
            assert(self@.take(i as int) =~= self@);
        }
        total + 2
    }
}

/// What a non-empty header line holds, by the rules for header lines.
pub enum FieldLine {
    /// Lower-cased name and value.
    Field(Seq<u8>, Seq<u8>),
    /// No `:` in the line; the line without surrounding whitespace.
    NoColon(Seq<u8>),
    /// A `:` but an empty name or value, a space before the `:`, or a
    /// name with a byte outside the token set.
    Bad,
}

/// The bytes that may stand in a field name: ASCII letters and digits and
/// ``! # $ % & ' * + - . ^ _ ` | ~``.
pub open spec fn is_token_char(c: char) -> bool {
    ('a' <= c <= 'z') || ('A' <= c <= 'Z') || ('0' <= c <= '9') || c == '!' || c == '#' || c
        == '$' || c == '%' || c == '&' || c == '\'' || c == '*' || c == '+' || c == '-' || c
        == '.' || c == '^' || c == '_' || c == '`' || c == '|' || c == '~'
}

pub open spec fn all_token(s: Seq<u8>) -> bool {
    forall|i: int| 0 <= i < s.len() ==> is_token_char(#[trigger] s[i] as char)
}

/// An ASCII upper-case letter made lower case; any other byte unchanged.
pub open spec fn lower_byte(b: u8) -> u8 {
    if 65u8 <= b <= 90u8 {
        (b + 32) as u8
    } else {
        b
    }
}

pub open spec fn lower_bytes(s: Seq<u8>) -> Seq<u8> {
    Seq::new(s.len(), |i: int| lower_byte(s[i]))
}

/// The reading of a non-empty header line (without its `\r\n`).
pub open spec fn field_line(line: Seq<u8>) -> FieldLine {
    let t = trim(line);
    let c = index_of(t, 58u8);
    if c < 0 {
        FieldLine::NoColon(t)
    } else {
        let key = t.subrange(0, c);
        let value = t.subrange(c + 1, t.len() as int);
        if value.len() == 0 || key.len() == 0 || key.last() == 32u8 {
            FieldLine::Bad
        } else if all_token(trim(key)) {
            FieldLine::Field(lower_bytes(trim(key)), trim(value))
        } else {
            FieldLine::Bad
        }
    }
}

/// What reading one header line off the front of `d` gives: the bytes used,
/// and nothing (more bytes needed, or the blank line that ends the section),
/// a field (name, value), or an error.
pub open spec fn header_step(d: Seq<u8>) -> (nat, Result<Option<(Seq<char>, Seq<char>)>, ErrorView>) {
    let i = crlf_index(d);
    if i < 0 {
        (0, Ok(None))
    } else if i == 0 {
        (2, Ok(None))
    } else {
        let line = d.subrange(0, i);
        match field_line(line) {
            FieldLine::Field(k, v) => ((i + 2) as nat, Ok(Some((ascii_chars(k), lossy_text(v))))),
            FieldLine::NoColon(t) => (0, Err(ErrorView::MalFormedHeader(lossy_text(t)))),
            FieldLine::Bad => (0, Err(ErrorView::MalFormedHeader(lossy_text(line)))),
        }
    }
}

/// The name `key` in lower case, when every byte of it may stand in a name.
fn lower_token(key: &[u8]) -> (r: Option<Vec<u8>>)
    ensures
        match r {
            Some(l) => all_token(key@) && l@ == lower_bytes(key@) && is_ascii_bytes(l@),
            None => !all_token(key@),
        },
{
    let mut lowered: Vec<u8> = Vec::new();
    let mut i: usize = 0;
    while i < key.len()
        invariant
            i <= key@.len(),
            all_token(key@.subrange(0, i as int)),
            lowered@ == lower_bytes(key@.subrange(0, i as int)),
            is_ascii_bytes(lowered@),
        decreases key@.len() - i,
    {
        let k = key[i];
        if !ProtoHeader::is_token(k as char) {
            proof {
                assert(key@[i as int] == k);
            }
            return None;
        }
        lowered.push(
            if 65u8 <= k && k <= 90u8 {
                k + 32
            } else {
                k
            },
        );
        i = i + 1;
        proof {
            assert(lowered@ =~= lower_bytes(key@.subrange(0, i as int)));
            assert forall|j: int| 0 <= j < i implies is_token_char(
                #[trigger] key@.subrange(0, i as int)[j] as char,
            ) by {
                if j < i - 1 {
                    assert(key@.subrange(0, i as int)[j] == key@.subrange(0, i - 1)[j]);
                }
            }
        }
    }
    proof {
        assert(key@.subrange(0, i as int) =~= key@);
    }
    Some(lowered)
}

/// One header field as read from a header line.
#[derive(Debug, PartialEq, Eq)]
pub struct ProtoHeader {
    pub key: String,
    pub value: String,
}

impl ProtoHeader {
    /// Reads one header line off the front of `data`. Gives `(0, Ok(None))`
    /// when no full line is there yet, `(2, Ok(None))` for the blank line that
    /// ends the header section, the bytes used and the field for a valid line,
    /// and `MalFormedHeader` for an invalid one.
    pub fn new_from_bytes(data: &[u8]) -> (r: (usize, Result<Option<ProtoHeader>, Error>))
        ensures
            r.0 == header_step(data@).0,
            match (r.1, header_step(data@).1) {
                (Ok(None), Ok(None)) => true,
                (Ok(Some(h)), Ok(Some(f))) => h.key@ == f.0 && h.value@ == f.1,
                (Err(e), Err(ev)) => e@ == ev,
                _ => false,
            },
    {
        let b_idx = match find_crlf(data) {
            Some(i) => i,
            None => {
                return (0, Ok(None));
            },
        };
        proof {
            lemma_crlf_from_bounds(data@, 0);
        }
        let n = data.len();
        assert(b_idx + 2 <= n);
        if b_idx == 0 {
            return (2, Ok(None));
        }
        let line = vstd::slice::slice_subrange(data, 0, b_idx);
        let (a, b) = trim_bounds(line);
        let t = vstd::slice::slice_subrange(line, a, b);
        proof {
            lemma_index_of(t@, 58u8);
        }
        let c = match find_byte(t, 58u8) {
            Some(c) => c,
            None => {
                return (0, Err(Error::MalFormedHeader(text_from_bytes(t))));
            },
        };
        let key = vstd::slice::slice_subrange(t, 0, c);
        let value = vstd::slice::slice_subrange(t, c + 1, t.len());
        if value.len() < 1 || key.len() < 1 || key[key.len() - 1] == 32u8 {
            return (0, Err(Error::MalFormedHeader(text_from_bytes(line))));
        }
        let (ka, kb) = trim_bounds(key);
        let (va, vb) = trim_bounds(value);
        let key = vstd::slice::slice_subrange(key, ka, kb);
        let value = vstd::slice::slice_subrange(value, va, vb);
        let lowered = match lower_token(key) {
            Some(l) => l,
            None => {
                return (0, Err(Error::MalFormedHeader(text_from_bytes(line))));
            },
        };
        (
            b_idx + 2,
            Ok(Some(ProtoHeader { key: ascii_text(lowered.as_slice()), value: text_from_bytes(value) })),
        )
    }

    /// A character that may stand in a field name.
    pub fn is_token(c: char) -> (r: bool)
        ensures
            r == is_token_char(c),
    {
        ('a' <= c && c <= 'z') || ('A' <= c && c <= 'Z') || ('0' <= c && c <= '9') || c == '!'
            || c == '#' || c == '$' || c == '%' || c == '&' || c == '\'' || c == '*' || c == '+'
            || c == '-' || c == '.' || c == '^' || c == '_' || c == '`' || c == '|' || c == '~'
    }
}

} // verus!
