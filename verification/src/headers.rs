//! The header block: a case-insensitive collection of fields and the parser
//! that fills it line by line.

use crate::request::ParseError;
use crate::request::ParserState;
use crate::scan::find_byte;
use crate::scan::find_crlf;
use crate::scan::first_crlf;
use crate::scan::lemma_first_crlf;
use crate::text::all_ascii;
use crate::text::ascii_text;
use crate::text::decode_text;
use crate::text::lemma_ascii_decodes;
use crate::text::normalize_name;
use crate::text::normalized_name;
use crate::text::trim_ascii;
use crate::text::trim_ascii_bytes;
use crate::text::lossy_text;
use crate::text::SP;
use vstd::prelude::*;
use vstd::std_specs::cmp::PartialEqSpecImpl;
use vstd::string::StringExecFns;

verus! {

/// A header field as the contracts see it: its stored name and its value.
pub type Field = (Seq<char>, Seq<char>);

/// Whether one of `fields` bears `name`.
pub open spec fn has_name(fields: Seq<Field>, name: Seq<char>) -> bool {
    exists|i: int| 0 <= i < fields.len() && (#[trigger] fields[i]).0 == name
}

/// The index of a field that bears `name`.
pub open spec fn index_of_name(fields: Seq<Field>, name: Seq<char>) -> int {
    choose|i: int| 0 <= i < fields.len() && (#[trigger] fields[i]).0 == name
}

/// The value stored under `name`, if there is one.
pub open spec fn value_of(fields: Seq<Field>, name: Seq<char>) -> Option<Seq<char>> {
    if has_name(fields, name) {
        Some(fields[index_of_name(fields, name)].1)
    } else {
        None
    }
}

/// Whether no two of `fields` bear the same name.
pub open spec fn distinct_names(fields: Seq<Field>) -> bool {
    forall|i: int, j: int|
        0 <= i < j < fields.len() ==> (#[trigger] fields[i]).0 != (#[trigger] fields[j]).0
}

/// A value with a further occurrence appended to it, a comma and a space
/// between them.
pub open spec fn joined(value: Seq<char>, more: Seq<char>) -> Seq<char> {
    value + seq![',', ' '] + more
}

/// `fields` after `value` arrived under `name`: joined to the value already
/// stored under that name, or else stored as a new field behind the others.
pub open spec fn insert_field(fields: Seq<Field>, name: Seq<char>, value: Seq<char>) -> Seq<Field> {
    if has_name(fields, name) {
        let i = index_of_name(fields, name);
        fields.update(i, (name, joined(fields[i].1, value)))
    } else {
        fields.push((name, value))
    }
}

/// Whether `a` and `b` store the same value under every name, in whatever
/// order.
pub open spec fn same_fields(a: Seq<Field>, b: Seq<Field>) -> bool {
    forall|name: Seq<char>| #[trigger] value_of(a, name) == value_of(b, name)
}

/// With distinct names, a field found under a name is the one that
/// `index_of_name` gives.
pub proof fn lemma_index_of_name(fields: Seq<Field>, name: Seq<char>, i: int)
    requires
        distinct_names(fields),
        0 <= i < fields.len(),
        fields[i].0 == name,
    ensures
        has_name(fields, name),
        index_of_name(fields, name) == i,
        value_of(fields, name) == Some(fields[i].1),
{
    let j = index_of_name(fields, name);
    if j < i {
        assert(fields[j].0 != fields[i].0);
    } else if i < j {
        assert(fields[i].0 != fields[j].0);
    }
}

/// Inserting keeps names distinct.
pub proof fn lemma_insert_keeps_distinct(fields: Seq<Field>, name: Seq<char>, value: Seq<char>)
    requires
        distinct_names(fields),
    ensures
        distinct_names(insert_field(fields, name, value)),
{
    let after = insert_field(fields, name, value);
    if has_name(fields, name) {
        let k = index_of_name(fields, name);
        assert forall|i: int, j: int| 0 <= i < j < after.len() implies (#[trigger] after[i]).0 != (
        #[trigger] after[j]).0 by {
            assert(fields[i].0 != fields[j].0);
            assert(after[i].0 == fields[i].0);
            assert(after[j].0 == fields[j].0);
        }
    } else {
        assert forall|i: int, j: int| 0 <= i < j < after.len() implies (#[trigger] after[i]).0 != (
        #[trigger] after[j]).0 by {
            if j < fields.len() {
                assert(fields[i].0 != fields[j].0);
            } else {
                assert(fields[i].0 != name);
            }
        }
    }
}

/// The fields that a vector of name and value strings stands for.
pub open spec fn fields_of(pairs: Seq<(String, String)>) -> Seq<Field> {
    Seq::new(pairs.len(), |i: int| (pairs[i].0@, pairs[i].1@))
}

/// The headers of a message. Names are stored in lower case and looked up
/// without regard to case; a name that occurs more than once has its values
/// joined in the order of arrival.
#[derive(Debug)]
pub struct Headers {
    inner: Vec<(String, String)>,
}

impl View for Headers {
    type V = Seq<Field>;

    /// The fields in the order in which their names first arrived.
    closed spec fn view(&self) -> Seq<Field> {
        fields_of(self.inner@)
    }
}

impl Headers {
    #[verifier::type_invariant]
    spec fn names_are_distinct(self) -> bool {
        distinct_names(self@)
    }

    /// No headers.
    pub fn new() -> (r: Self)
        ensures
            r@ == Seq::<Field>::empty(),
    {
        let r = Headers { inner: Vec::new() };
        assert(r@ =~= Seq::<Field>::empty());
        r
    }

    /// The headers that a response bears where its maker supplies none: the
    /// body is chunked, and it is plain text. No length is announced, as the
    /// chunks carry their own.
    pub fn get_default() -> (r: Self)
        ensures
            r@ == insert_field(
                insert_field(
                    Seq::empty(),
                    normalized_name("Transfer-Encoding"@),
                    "chunked"@,
                ),
                normalized_name("Content-Type"@),
                "text/plain"@,
            ),
            distinct_names(r@),
    {
        let mut r = Headers::new();
        r.insert("Transfer-Encoding", String::from_str("chunked"));
        r.insert("Content-Type", String::from_str("text/plain"));
        r
    }

    fn position(&self, name: &String) -> (r: Option<usize>)
        ensures
            match r {
                Some(i) => i < self@.len() && self@[i as int].0 == name@,
                None => !has_name(self@, name@),
            },
    {
        let mut i: usize = 0;
        while i < self.inner.len()
            invariant
                i <= self.inner@.len(),
                forall|j: int| 0 <= j < i ==> (#[trigger] self@[j]).0 != name@,
            decreases self.inner@.len() - i,
        {
            if self.inner[i].0 == *name {
                return Some(i);
            }
            i = i + 1;
        }
        None
    }

    /// Stores `value` under `key`, whatever the case of `key`: joined to the
    /// value already there, or as a new field.
    pub fn insert(&mut self, key: &str, value: String)
        ensures
            final(self)@ == insert_field(old(self)@, normalized_name(key@), value@),
            distinct_names(final(self)@),
    {
        proof {
            use_type_invariant(&*self);
        }
        let name = normalize_name(key);
        let found = self.position(&name);
        let ghost before = self@;
        let mut taken = Headers::new();
        std::mem::swap(self, &mut taken);
        let Headers { mut inner } = taken;
        proof {
            lemma_insert_keeps_distinct(before, name@, value@);
        }
        match found {
            Some(i) => {
                proof {
                    lemma_index_of_name(before, name@, i as int);
                }
                let (stored_name, stored_value) = inner.remove(i);
                let merged = stored_value.concat(", ").concat(value.as_str());
                proof {
                    reveal_strlit(", ");
                    assert(", "@ =~= seq![',', ' ']);
                }
                inner.insert(i, (stored_name, merged));
            },
            None => {
                inner.push((name, value));
            },
        }
        assert(fields_of(inner@) =~= insert_field(before, name@, value@));
        *self = Headers { inner };
    }

    /// The value stored under `key`, whatever the case of `key`.
    pub fn get(&self, key: &str) -> (r: Option<&String>)
        ensures
            match r {
                Some(value) => value_of(self@, normalized_name(key@)) == Some(value@),
                None => value_of(self@, normalized_name(key@)) is None,
            },
    {
        proof {
            use_type_invariant(self);
        }
        let name = normalize_name(key);
        match self.position(&name) {
            Some(i) => {
                proof {
                    lemma_index_of_name(self@, name@, i as int);
                }
                Some(&self.inner[i].1)
            },
            None => None,
        }
    }

    /// The fields, each as a name and its value, in the order in which the
    /// names first arrived.
    pub fn iter(&self) -> (r: &[(String, String)])
        ensures
            r@.len() == self@.len(),
            forall|i: int|
                0 <= i < r@.len() ==> (#[trigger] r@[i]).0@ == self@[i].0 && r@[i].1@
                    == self@[i].1,
            distinct_names(self@),
    {
        proof {
            use_type_invariant(self);
        }
        self.inner.as_slice()
    }

    fn covers(&self, other: &Headers, values_too: bool) -> (r: bool)
        ensures
            r == forall|i: int|
                0 <= i < self@.len() ==> has_name(other@, (#[trigger] self@[i]).0) && (values_too
                    ==> value_of(other@, self@[i].0) == Some(self@[i].1)),
    {
        proof {
            use_type_invariant(other);
        }
        let mut i: usize = 0;
        while i < self.inner.len()
            invariant
                i <= self.inner@.len(),
                distinct_names(other@),
                forall|j: int|
                    0 <= j < i ==> has_name(other@, (#[trigger] self@[j]).0) && (values_too
                        ==> value_of(other@, self@[j].0) == Some(self@[j].1)),
            decreases self.inner@.len() - i,
        {
            match other.position(&self.inner[i].0) {
                Some(k) => {
                    proof {
                        lemma_index_of_name(other@, self@[i as int].0, k as int);
                    }
                    if values_too && self.inner[i].1 != other.inner[k].1 {
                        assert(value_of(other@, self@[i as int].0) != Some(self@[i as int].1));
                        return false;
                    }
                },
                None => {
                    assert(!has_name(other@, self@[i as int].0));
                    return false;
                },
            }
            i = i + 1;
        }
        true
    }
}

impl Default for Headers {
    fn default() -> (r: Self)
        ensures
            r@ == Seq::<Field>::empty(),
    {
        Headers::new()
    }
}

impl PartialEq for Headers {
    /// Two sets of headers are equal when they store the same value under
    /// every name; the order of the fields does not count.
    fn eq(&self, other: &Self) -> (r: bool) {
        proof {
            use_type_invariant(self);
            use_type_invariant(other);
        }
        if !self.covers(other, true) {
            proof {
                let i = choose|i: int|
                    0 <= i < self@.len() && !(has_name(other@, (#[trigger] self@[i]).0)
                        && value_of(other@, self@[i].0) == Some(self@[i].1));
                lemma_index_of_name(self@, self@[i].0, i);
                assert(value_of(self@, self@[i].0) != value_of(other@, self@[i].0));
            }
            return false;
        }
        if !other.covers(self, false) {
            proof {
                let k = choose|k: int|
                    0 <= k < other@.len() && !has_name(self@, (#[trigger] other@[k]).0);
                lemma_index_of_name(other@, other@[k].0, k);
                assert(value_of(self@, other@[k].0) != value_of(other@, other@[k].0));
            }
            return false;
        }
        proof {
            assert forall|name: Seq<char>| #[trigger]
                value_of(self@, name) == value_of(other@, name) by {
                if has_name(self@, name) {
                    let i = index_of_name(self@, name);
                    assert(has_name(other@, self@[i].0));
                } else if has_name(other@, name) {
                    let k = index_of_name(other@, name);
                    assert(has_name(self@, other@[k].0));
                }
            }
        }
        true
    }
}

impl PartialEqSpecImpl for Headers {
    open spec fn obeys_eq_spec() -> bool {
        true
    }

    open spec fn eq_spec(&self, other: &Self) -> bool {
        same_fields(self@, other@)
    }
}

/// The byte that ends a header name.
pub const COLON: u8 = 58;

/// Whether `b` may stand in a header name: a letter, a digit, or one of
/// ``! # $ % & ' * + - . ^ _ ` | ~``.
pub open spec fn is_token_byte(b: u8) -> bool {
    (97 <= b <= 122) || (65 <= b <= 90) || (48 <= b <= 57) || b == 33 || (35 <= b <= 39) || b
        == 42 || b == 43 || b == 45 || b == 46 || (94 <= b <= 96) || b == 124 || b == 126
}

/// Whether `name` is a header name: not empty, and token bytes only.
pub open spec fn is_token(name: Seq<u8>) -> bool {
    name.len() > 0 && forall|i: int| 0 <= i < name.len() ==> is_token_byte(#[trigger] name[i])
}

/// What one header line, taken without its terminator, holds: the name
/// before the first colon and the value behind it, each without the
/// whitespace around it. The line is refused where it has no colon, where a
/// space stands directly before the colon, and where the name is no token.
pub open spec fn parse_field_line(line: Seq<u8>) -> Result<Field, ParseError> {
    match line.index_of_first(COLON) {
        None => Err(ParseError::MissingFieldLineColumn),
        Some(colon) => {
            let key = line.take(colon);
            let value = line.skip(colon + 1);
            if key.len() > 0 && key.last() == SP {
                Err(ParseError::InvalidFieldLineSpacing)
            } else if !is_token(trim_ascii(key)) {
                Err(ParseError::InvalidTokenCharacter)
            } else {
                Ok((ascii_text(trim_ascii(key)), lossy_text(trim_ascii(value))))
            }
        },
    }
}

/// Whether `name` is a header name as it is stored: not empty, and made of
/// token characters, none of them an upper-case letter.
pub open spec fn is_stored_token(name: Seq<char>) -> bool {
    name.len() > 0 && forall|i: int|
        0 <= i < name.len() ==> {
            let c = #[trigger] name[i];
            '\0' <= c <= '\u{7f}' && is_token_byte(c as u8) && !('A' <= c <= 'Z')
        }
}

/// Whether every name in `fields` is a stored token.
pub open spec fn token_names(fields: Seq<Field>) -> bool {
    forall|i: int| 0 <= i < fields.len() ==> is_stored_token((#[trigger] fields[i]).0)
}

/// The field that an accepted header line adds is stored under a token.
pub proof fn lemma_field_line_has_token(line: Seq<u8>)
    requires
        parse_field_line(line) is Ok,
    ensures
        is_stored_token(normalized_name(parse_field_line(line).unwrap().0)),
{
    let colon = line.index_of_first(COLON).unwrap();
    let key = trim_ascii(line.take(colon));
    let name = ascii_text(key);
    assert(all_ascii(key)) by {
        assert forall|i: int| 0 <= i < key.len() implies key[i] < 128 by {
            assert(is_token_byte(key[i]));
        }
    }
    lemma_ascii_decodes(key);
    let stored = normalized_name(name);
    assert forall|i: int| 0 <= i < stored.len() implies {
        let c = #[trigger] stored[i];
        '\0' <= c <= '\u{7f}' && is_token_byte(c as u8) && !('A' <= c <= 'Z')
    } by {
        assert(is_token_byte(key[i]));
        assert(name[i] == key[i] as char);
    }
}

/// Inserting under a stored token keeps every name a stored token.
pub proof fn lemma_insert_keeps_token_names(fields: Seq<Field>, name: Seq<char>, value: Seq<char>)
    requires
        token_names(fields),
        is_stored_token(name),
    ensures
        token_names(insert_field(fields, name, value)),
{
    let after = insert_field(fields, name, value);
    assert forall|i: int| 0 <= i < after.len() implies is_stored_token((#[trigger] after[i]).0) by {
        if i < fields.len() {
            assert(is_stored_token(fields[i].0));
        }
    }
}

/// A scan of header lines stores every field under a token, and no two
/// under the same.
pub proof fn lemma_scan_keeps_names(data: Seq<u8>, fields: Seq<Field>)
    requires
        token_names(fields),
        distinct_names(fields),
    ensures
        token_names(scan_field_lines(data, fields).fields),
        distinct_names(scan_field_lines(data, fields).fields),
    decreases data.len(),
{
    lemma_first_crlf(data);
    let first = scan_field_line(data, fields);
    if first.status == Ok::<ParserState, ParseError>(ParserState::Scanning) {
        let line = data.take(first_crlf(data).unwrap());
        lemma_field_line_has_token(line);
        let field = parse_field_line(line).unwrap();
        lemma_insert_keeps_token_names(fields, normalized_name(field.0), field.1);
        lemma_insert_keeps_distinct(fields, normalized_name(field.0), field.1);
        lemma_scan_keeps_names(data.skip(first.consumed), first.fields);
    }
}

/// What a scan of header lines has come to.
pub struct FieldScan {
    /// The number of bytes that the lines taken in occupy.
    pub consumed: int,
    /// The fields after those lines.
    pub fields: Seq<Field>,
    /// The state that the scan ended in, or the error that ended it.
    pub status: Result<ParserState, ParseError>,
}

/// The scan of the first line of `data` into `fields`. Without a
/// terminator in `data` more data is needed; an empty line ends the block;
/// any other line is a field that joins `fields`, unless it is refused.
pub open spec fn scan_field_line(data: Seq<u8>, fields: Seq<Field>) -> FieldScan {
    match first_crlf(data) {
        None => FieldScan { consumed: 0, fields, status: Ok(ParserState::NeedMoreData) },
        Some(end) => if end == 0 {
            FieldScan { consumed: 2, fields, status: Ok(ParserState::Done) }
        } else {
            match parse_field_line(data.take(end)) {
                Err(e) => FieldScan { consumed: 0, fields, status: Err(e) },
                Ok((name, value)) => FieldScan {
                    consumed: end + 2,
                    fields: insert_field(fields, normalized_name(name), value),
                    status: Ok(ParserState::Scanning),
                },
            }
        },
    }
}

/// The scan of `data` into `fields`, line after line, until the data at
/// hand holds no further line, the block ends, or a line is refused.
pub open spec fn scan_field_lines(data: Seq<u8>, fields: Seq<Field>) -> FieldScan
    decreases data.len(),
    via scan_field_lines_decreases
{
    let first = scan_field_line(data, fields);
    if first.status == Ok::<ParserState, ParseError>(ParserState::Scanning) {
        let rest = scan_field_lines(data.skip(first.consumed), first.fields);
        FieldScan {
            consumed: first.consumed + rest.consumed,
            fields: rest.fields,
            status: rest.status,
        }
    } else {
        first
    }
}

#[via_fn]
proof fn scan_field_lines_decreases(data: Seq<u8>, fields: Seq<Field>) {
    lemma_first_crlf(data);
}

/// A scan takes in no more than the data at hand.
pub proof fn lemma_scan_within(data: Seq<u8>, fields: Seq<Field>)
    ensures
        0 <= scan_field_lines(data, fields).consumed <= data.len(),
    decreases data.len(),
{
    lemma_first_crlf(data);
    let first = scan_field_line(data, fields);
    if first.status == Ok::<ParserState, ParseError>(ParserState::Scanning) {
        lemma_scan_within(data.skip(first.consumed), first.fields);
    }
}

/// Parses a header block from the bytes that it is handed, call after call,
/// and collects the fields.
pub struct HeadersParser {
    headers: Headers,
    state: ParserState,
}

impl HeadersParser {
    /// The fields collected so far.
    pub closed spec fn fields(&self) -> Seq<Field> {
        self.headers@
    }

    /// The state that the last call of `parse` ended in.
    pub closed spec fn state(&self) -> ParserState {
        self.state
    }

    /// A parser that has seen nothing yet.
    pub fn new() -> (r: Self)
        ensures
            r.fields() == Seq::<Field>::empty(),
            r.state() == ParserState::Scanning,
    {
        Self { headers: Headers::new(), state: ParserState::Scanning }
    }

    /// Takes in the header lines that `data` holds in full, and returns the
    /// number of bytes they occupy. The block is complete once the empty line
    /// was taken in; until then the caller hands in the rest of `data`
    /// together with what arrives next.
    pub fn parse(&mut self, data: &[u8]) -> (r: Result<usize, ParseError>)
        ensures
            final(self).fields() == scan_field_lines(data@, old(self).fields()).fields,
            match scan_field_lines(data@, old(self).fields()).status {
                Ok(state) => {
                    &&& r matches Ok(n) && n == scan_field_lines(data@, old(self).fields()).consumed
                    &&& final(self).state() == state
                },
                Err(error) => {
                    &&& r matches Err(e) && e == error
                    &&& final(self).state() == ParserState::Scanning
                },
            },
            0 <= scan_field_lines(data@, old(self).fields()).consumed <= data@.len(),
    {
        self.state = ParserState::Scanning;
        let mut read: usize = 0;
        let ghost start = self.fields();
        proof {
            lemma_scan_within(data@, start);
            assert(data@.skip(0) =~= data@);
        }
        while self.state == ParserState::Scanning
            invariant
                read <= data@.len(),
                start == old(self).fields(),
                scan_field_lines(data@, start).consumed <= data@.len(),
                self.state() == ParserState::Scanning ==> scan_field_lines(data@, start) == ({
                    let rest = scan_field_lines(data@.skip(read as int), self.fields());
                    FieldScan {
                        consumed: read + rest.consumed,
                        fields: rest.fields,
                        status: rest.status,
                    }
                }),
                self.state() != ParserState::Scanning ==> scan_field_lines(data@, start) == (
                    FieldScan {
                        consumed: read as int,
                        fields: self.fields(),
                        status: Ok(self.state()),
                    }
                ),
            decreases
                if self.state() == ParserState::Scanning {
                    1int
                } else {
                    0int
                },
                data@.len() - read,
        {
            let ghost rest = data@.skip(read as int);
            let ghost fields = self.fields();
            let ghost first = scan_field_line(rest, fields);
            proof {
                lemma_first_crlf(rest);
                lemma_scan_within(rest, fields);
                assert(data@.subrange(read as int, data@.len() as int) =~= rest);
                if first.status == Ok::<ParserState, ParseError>(ParserState::Scanning) {
                    lemma_scan_within(rest.skip(first.consumed), first.fields);
                    assert(rest.skip(first.consumed) =~= data@.skip(read + first.consumed));
                } else {
                    assert(scan_field_lines(rest, fields) == first);
                }
            }
            match self.parse_header(&data[read..data.len()]) {
                Ok(n) => {
                    read = read + n;
                },
                Err(e) => {
                    return Err(e);
                },
            }
        }
        Ok(read)
    }

    /// Takes in the first line of `data`, if `data` holds one in full.
    fn parse_header(&mut self, data: &[u8]) -> (r: Result<usize, ParseError>)
        requires
            old(self).state() == ParserState::Scanning,
        ensures
            final(self).fields() == scan_field_line(data@, old(self).fields()).fields,
            match scan_field_line(data@, old(self).fields()).status {
                Ok(state) => {
                    &&& r matches Ok(n) && n == scan_field_line(data@, old(self).fields()).consumed
                    &&& final(self).state() == state
                },
                Err(error) => {
                    &&& r matches Err(e) && e == error
                    &&& final(self).state() == ParserState::Scanning
                },
            },
    {
        proof {
            lemma_first_crlf(data@);
        }
        let idx = match find_crlf(data) {
            Some(idx) => idx,
            None => {
                self.state = ParserState::NeedMoreData;
                return Ok(0);
            },
        };
        let n = data.len();
        assert(idx + 2 <= n);
        let line = &data[0..idx];
        let read = idx + 2;
        if idx == 0 {
            self.state = ParserState::Done;
            return Ok(read);
        }
        assert(line@ =~= data@.take(idx as int));
        let colon_idx = match find_byte(line, COLON) {
            Some(colon_idx) => colon_idx,
            None => {
                return Err(ParseError::MissingFieldLineColumn);
            },
        };
        proof {
            line@.index_of_first_ensures(COLON);
        }
        let key = &line[0..colon_idx];
        let value = &line[colon_idx + 1..idx];
        assert(key@ =~= line@.take(colon_idx as int));
        assert(value@ =~= line@.skip(colon_idx + 1));
        if colon_idx > 0 && key[colon_idx - 1] == SP {
            return Err(ParseError::InvalidFieldLineSpacing);
        }
        let name = trim_ascii_bytes(key);
        if !Self::valid_key(name) {
            return Err(ParseError::InvalidTokenCharacter);
        }
        proof {
            assert(all_ascii(name@)) by {
                assert forall|i: int| 0 <= i < name@.len() implies name@[i] < 128 by {
                    assert(is_token_byte(name@[i]));
                }
            }
            lemma_ascii_decodes(name@);
        }
        let key = decode_text(name);
        let value = decode_text(trim_ascii_bytes(value));
        self.headers.insert(key.as_str(), value);
        Ok(read)
    }

    /// Hands out the fields collected.
    pub fn inner_headers(self) -> (r: Headers)
        ensures
            r@ == self.fields(),
    {
        self.headers
    }

    /// Whether the block is complete.
    pub fn done(&self) -> (r: bool)
        ensures
            r == (self.state() == ParserState::Done),
    {
        self.state == ParserState::Done
    }

    fn valid_key_char(char: u8) -> (r: bool)
        ensures
            r == is_token_byte(char),
    {
        let letter = (97 <= char && char <= 122) || (65 <= char && char <= 90);
        let digit = 48 <= char && char <= 57;
        let symbol = char == 33 || (35 <= char && char <= 39) || char == 42 || char == 43 || char
            == 45 || char == 46 || (94 <= char && char <= 96) || char == 124 || char == 126;
        letter || digit || symbol
    }

    fn valid_key(key: &[u8]) -> (r: bool)
        ensures
            r == is_token(key@),
    {
        if key.len() == 0 {
            return false;
        }
        let mut i: usize = 0;
        while i < key.len()
            invariant
                i <= key@.len(),
                forall|j: int| 0 <= j < i ==> is_token_byte(#[trigger] key@[j]),
            decreases key@.len() - i,
        {
            if !Self::valid_key_char(key[i]) {
                return false;
            }
            i = i + 1;
        }
        true
    }
}

impl Default for HeadersParser {
    fn default() -> (r: Self)
        ensures
            r.fields() == Seq::<Field>::empty(),
            r.state() == ParserState::Scanning,
    {
        HeadersParser::new()
    }
}

} // verus!
