//! Header fields: a case-insensitive map from field names to values, and the
//! parser of one header line.

use vstd::prelude::*;
use vstd::utf8::*;

use crate::error::ParseError;
use crate::text::{
    ascii_lowercase, decode_lossy, find_char, find_char_in, find_crlf, find_crlf_in,
    is_white_space, lemma_encoding_without_cr, lemma_find_char_bounds, lemma_find_crlf_after_line,
    lemma_find_crlf_bounds, lowercase, string_from_chars, sub_vec, to_lowercase, trim,
    trim_bounds, trim_end, trim_start, utf8_lossy,
};

verus! {

/// Header fields, in the order in which their names first arrived. Names are
/// stored in lowercase form; a name that arrives again has its value joined
/// to the stored one with `", "`.
#[derive(Debug)]
pub struct Headers {
    pub inner: Vec<(String, String)>,
}

/// The abstract content of a header collection: (name, value) pairs.
pub type Fields = Seq<(Seq<char>, Seq<char>)>;

impl View for Headers {
    type V = Fields;

    open spec fn view(&self) -> Fields {
        self.inner@.map_values(|p: (String, String)| (p.0@, p.1@))
    }
}

/// The position of the first field named `k`, or the length of `e` if there
/// is none.
pub open spec fn key_pos(e: Fields, k: Seq<char>) -> nat
    decreases e.len(),
{
    if e.len() == 0 || e[0].0 == k {
        0
    } else {
        1 + key_pos(e.drop_first(), k)
    }
}

/// The value of the first field named `k`.
pub open spec fn lookup(e: Fields, k: Seq<char>) -> Option<Seq<char>> {
    if key_pos(e, k) < e.len() {
        Some(e[key_pos(e, k) as int].1)
    } else {
        None
    }
}

/// The separator of repeated field values.
pub open spec fn value_separator() -> Seq<char> {
    seq![',', ' ']
}

/// `e` with `v` recorded under the name `k`: appended to the value of the
/// first field named `k` after a `", "`, or added as a new last field.
pub open spec fn insert_field(e: Fields, k: Seq<char>, v: Seq<char>) -> Fields {
    let p = key_pos(e, k);
    if p < e.len() {
        e.update(p as int, (k, e[p as int].1 + value_separator() + v))
    } else {
        e.push((k, v))
    }
}

/// No two fields share a name.
pub open spec fn distinct_names(e: Fields) -> bool {
    forall|i: int, j: int| 0 <= i < j < e.len() ==> e[i].0 != e[j].0
}

/// `key_pos` finds the first field with the name, or reports there is none.
pub proof fn lemma_key_pos(e: Fields, k: Seq<char>)
    ensures
        key_pos(e, k) <= e.len(),
        key_pos(e, k) < e.len() ==> e[key_pos(e, k) as int].0 == k,
        forall|j: int| 0 <= j < key_pos(e, k) ==> e[j].0 != k,
    decreases e.len(),
{
    if e.len() > 0 && e[0].0 != k {
        lemma_key_pos(e.drop_first(), k);
        assert forall|j: int| 0 <= j < key_pos(e, k) implies e[j].0 != k by {
            if j > 0 {
                assert(e[j] == e.drop_first()[j - 1]);
            }
        }
    }
}

/// A field with name `k` at `i`, with none before it, is the one `key_pos`
/// finds.
pub proof fn lemma_key_pos_at(e: Fields, k: Seq<char>, i: int)
    requires
        0 <= i <= e.len(),
        i < e.len() ==> e[i].0 == k,
        forall|j: int| 0 <= j < i ==> e[j].0 != k,
    ensures
        key_pos(e, k) == i,
    decreases i,
{
    if i > 0 {
        let t = e.drop_first();
        assert forall|j: int| 0 <= j < i - 1 implies t[j].0 != k by {
            assert(t[j] == e[j + 1]);
        }
        if i < e.len() {
            assert(t[i - 1] == e[i]);
        }
        lemma_key_pos_at(t, k, i - 1);
    }
}

/// A character allowed in a header name: an ASCII letter or one of
/// ``!#$%&'*+-.^_`|~``.
pub open spec fn is_token_char(c: char) -> bool {
    let u = c as u32;
    ||| 'a' as u32 <= u <= 'z' as u32
    ||| 'A' as u32 <= u <= 'Z' as u32
    ||| c == '!' || c == '#' || c == '$' || c == '%' || c == '&' || c == '\'' || c == '*'
    ||| c == '+' || c == '-' || c == '.' || c == '^' || c == '_' || c == '`' || c == '|' || c == '~'
}

/// The characters allowed in a header name are exactly the ASCII letters,
/// both cases, and the fifteen symbols ``!#$%&'*+-.^_`|~``.
pub proof fn law_token_chars(c: char)
    ensures
        is_token_char(c) <==> (('a' <= c && c <= 'z') || ('A' <= c && c <= 'Z') || c == '!' || c
            == '#' || c == '$' || c == '%' || c == '&' || c == '\'' || c == '*' || c == '+' || c
            == '-' || c == '.' || c == '^' || c == '_' || c == '`' || c == '|' || c == '~'),
{
}

/// Every character of `s` is allowed in a header name.
pub open spec fn all_token_chars(s: Seq<char>) -> bool {
    forall|i: int| 0 <= i < s.len() ==> is_token_char(#[trigger] s[i])
}

/// Decides whether a character is allowed in a header name.
pub fn token_char(c: char) -> (b: bool)
    ensures
        b == is_token_char(c),
{
    let u = c as u32;
    ('a' as u32 <= u && u <= 'z' as u32) || ('A' as u32 <= u && u <= 'Z' as u32) || c == '!' || c
        == '#' || c == '$' || c == '%' || c == '&' || c == '\'' || c == '*' || c == '+' || c == '-'
        || c == '.' || c == '^' || c == '_' || c == '`' || c == '|' || c == '~'
}

/// The fields after one header line, given as decoded text without its
/// `"\r\n"`: the line must hold a colon, the name before it must not end
/// with a space and, trimmed, must consist of token characters; the trimmed
/// value after the colon is recorded under the name.
pub open spec fn parse_header_line(e: Fields, line: Seq<char>) -> Result<Fields, ParseError> {
    match find_char(line, ':') {
        None => Err(ParseError::MissingColon),
        Some(j) => {
            let name = line.take(j);
            if name.len() > 0 && name.last() == ' ' {
                Err(ParseError::SpacesBeforeColon)
            } else if !all_token_chars(trim(name)) {
                Err(ParseError::InvalidHeaderName)
            } else {
                Ok(insert_field(e, lowercase(trim(name)), trim(line.skip(j + 1))))
            }
        },
    }
}

/// One step of header parsing on the bytes `data`, from the fields `e` so
/// far: the fields after the step, the number of bytes consumed, and whether
/// the blank line that ends the headers was reached.
///
/// Without a `"\r\n"` nothing is consumed. An empty line consumes its two
/// bytes and ends the headers. Otherwise the line, decoded as
/// `String::from_utf8_lossy` decodes it, is parsed by `parse_header_line`,
/// and the line's bytes with its `"\r\n"` are consumed.
pub open spec fn parse_header_bytes(e: Fields, data: Seq<u8>) -> Result<(Fields, nat, bool), ParseError> {
    match find_crlf(data) {
        None => Ok((e, 0, false)),
        Some(i) => if i == 0 {
            Ok((e, 2, true))
        } else {
            match parse_header_line(e, utf8_lossy(data.take(i))) {
                Ok(f) => Ok((f, (i + 2) as nat, false)),
                Err(x) => Err(x),
            }
        },
    }
}

/// Recording a value under a name: afterwards that name gives the value,
/// joined after `", "` to the earlier value if there was one.
pub proof fn law_lookup_after_insert(e: Fields, k: Seq<char>, v: Seq<char>)
    ensures
        lookup(insert_field(e, k, v), k) == Some(
            match lookup(e, k) {
                Some(old) => old + value_separator() + v,
                None => v,
            },
        ),
{
    lemma_key_pos(e, k);
    let p = key_pos(e, k);
    let e2 = insert_field(e, k, v);
    if p < e.len() {
        lemma_key_pos_at(e2, k, p as int);
    } else {
        assert forall|j: int| 0 <= j < e.len() implies e2[j].0 != k by {
            assert(e2[j] == e[j]);
        }
        lemma_key_pos_at(e2, k, e.len() as int);
    }
}

/// Recording a value under one name leaves every other name as it was.
pub proof fn law_lookup_other_after_insert(e: Fields, k: Seq<char>, v: Seq<char>, k2: Seq<char>)
    requires
        k2 != k,
    ensures
        lookup(insert_field(e, k, v), k2) == lookup(e, k2),
{
    lemma_key_pos(e, k);
    lemma_key_pos(e, k2);
    let e2 = insert_field(e, k, v);
    let p2 = key_pos(e, k2);
    assert forall|j: int| 0 <= j < p2 implies e2[j].0 != k2 by {
        if j < e.len() {
            assert(e2[j].0 == e[j].0 || e2[j].0 == k);
        }
    }
    if p2 < e.len() {
        assert(e2[p2 as int] == e[p2 as int]) by {
            if p2 == key_pos(e, k) {
                assert(e[p2 as int].0 == k2);
            }
        }
        lemma_key_pos_at(e2, k2, p2 as int);
    } else {
        assert forall|j: int| 0 <= j < e2.len() implies e2[j].0 != k2 by {
            if j < e.len() {
                assert(e2[j].0 == e[j].0 || e2[j].0 == k);
            }
        }
        lemma_key_pos_at(e2, k2, e2.len() as int);
    }
}

/// Recording values never makes two fields share a name.
pub proof fn law_insert_keeps_names_distinct(e: Fields, k: Seq<char>, v: Seq<char>)
    requires
        distinct_names(e),
    ensures
        distinct_names(insert_field(e, k, v)),
{
    lemma_key_pos(e, k);
    let e2 = insert_field(e, k, v);
    assert forall|i: int, j: int| 0 <= i < j < e2.len() implies e2[i].0 != e2[j].0 by {
        if j < e.len() {
            assert(e2[i].0 == e[i].0 || e2[i].0 == k);
            assert(e2[j].0 == e[j].0 || e2[j].0 == k);
            if key_pos(e, k) < e.len() {
                assert(e[key_pos(e, k) as int].0 == k);
            }
        } else {
            assert(e2[j].0 == k);
            assert(e2[i] == e[i]);
        }
    }
}

/// A header step that succeeds keeps every field that was there, and keeps
/// the names distinct.
pub proof fn law_header_step_keeps_fields(e: Fields, data: Seq<u8>, k: Seq<char>)
    requires
        parse_header_bytes(e, data) is Ok,
        lookup(e, k) is Some,
    ensures
        lookup(parse_header_bytes(e, data)->Ok_0.0, k) is Some,
        distinct_names(e) ==> distinct_names(parse_header_bytes(e, data)->Ok_0.0),
{
    match find_crlf(data) {
        None => {
            assert(parse_header_bytes(e, data)->Ok_0.0 == e);
        },
        Some(i) => {
            if i == 0 {
                assert(parse_header_bytes(e, data)->Ok_0.0 == e);
            } else {
                let line = utf8_lossy(data.take(i));
                let j = find_char(line, ':')->Some_0;
                let name = lowercase(trim(line.take(j)));
                let value = trim(line.skip(j + 1));
                assert(parse_header_bytes(e, data)->Ok_0.0 == insert_field(e, name, value));
                if k == name {
                    law_lookup_after_insert(e, name, value);
                } else {
                    law_lookup_other_after_insert(e, name, value, k);
                }
                if distinct_names(e) {
                    law_insert_keeps_names_distinct(e, name, value);
                }
            }
        },
    }
}

/// A field line `name: value` (with no carriage return in it) joins the new
/// value to the one already recorded under the name, if any, after `", "`,
/// and leaves every other name as it was; the line is consumed with its
/// `"\r\n"`, whatever bytes come after it.
pub proof fn law_repeated_field_line(
    e: Fields,
    line_bytes: Seq<u8>,
    rest: Seq<u8>,
    name: Seq<char>,
    value: Seq<char>,
    other: Seq<char>,
)
    requires
        line_bytes.len() > 0,
        forall|m: int| 0 <= m < line_bytes.len() ==> line_bytes[m] != 13,
        utf8_lossy(line_bytes) == name + seq![':', ' '] + value,
        name.len() > 0,
        all_token_chars(name),
        trim(value) == value,
        other != lowercase(name),
    ensures
        ({
            let f = insert_field(e, lowercase(name), value);
            &&& parse_header_bytes(e, line_bytes + seq![13u8, 10u8] + rest) == Ok::<
                (Fields, nat, bool),
                ParseError,
            >((f, line_bytes.len() + 2, false))
            &&& lookup(f, lowercase(name)) == Some(
                match lookup(e, lowercase(name)) {
                    Some(old) => old + value_separator() + value,
                    None => value,
                },
            )
            &&& lookup(f, other) == lookup(e, other)
        }),
{
    let data = line_bytes + seq![13u8, 10u8] + rest;
    lemma_find_crlf_after_line(line_bytes, rest);
    assert(data.take(line_bytes.len() as int) =~= line_bytes);
    let line = name + seq![':', ' '] + value;
    assert forall|m: int| 0 <= m < name.len() implies name[m] != ':' by {
        assert(is_token_char(name[m]));
    }
    lemma_find_char_bounds(line, ':');
    assert(line[name.len() as int] == ':');
    assert(find_char(line, ':') == Some(name.len() as int)) by {
        if let Some(j) = find_char(line, ':') {
            if j < name.len() {
                assert(line[j] == name[j]);
            }
        }
    }
    assert(line.take(name.len() as int) =~= name);
    assert(name.last() != ' ') by {
        assert(is_token_char(name[name.len() - 1]));
    }
    assert(trim_start(name) == name) by {
        assert(is_token_char(name[0]));
    }
    assert(trim_end(name) == name) by {
        assert(is_token_char(name.last()));
    }
    let rest = line.skip(name.len() + 1int);
    assert(rest =~= seq![' '] + value);
    assert(rest.drop_first() =~= value);
    assert(is_white_space(' '));
    assert(trim_start(rest) == trim_start(value));
    law_lookup_after_insert(e, lowercase(name), value);
    law_lookup_other_after_insert(e, lowercase(name), value, other);
}

/// The same law for a field line sent as the UTF-8 encoding of
/// `name: value`: the count is the length of that encoding plus the two
/// bytes of `"\r\n"`, which for ASCII text is `name.len() + value.len() + 4`.
/// The decoding it assumes of the line, that valid UTF-8 decodes to exactly
/// its characters, is what `Headers::parse` states of every line it reads.
pub proof fn law_field_line_as_utf8(
    e: Fields,
    name: Seq<char>,
    value: Seq<char>,
    rest: Seq<u8>,
    other: Seq<char>,
)
    requires
        name.len() > 0,
        all_token_chars(name),
        trim(value) == value,
        forall|m: int| 0 <= m < value.len() ==> value[m] != '\r',
        other != lowercase(name),
        utf8_lossy(encode_utf8(name + seq![':', ' '] + value)) == name + seq![':', ' '] + value,
    ensures
        ({
            let line = encode_utf8(name + seq![':', ' '] + value);
            let f = insert_field(e, lowercase(name), value);
            &&& parse_header_bytes(e, line + seq![13u8, 10u8] + rest) == Ok::<
                (Fields, nat, bool),
                ParseError,
            >((f, line.len() + 2, false))
            &&& is_ascii_chars(name + seq![':', ' '] + value) ==> line.len() + 2 == name.len()
                + value.len() + 4
            &&& lookup(f, lowercase(name)) == Some(
                match lookup(e, lowercase(name)) {
                    Some(old) => old + value_separator() + value,
                    None => value,
                },
            )
            &&& lookup(f, other) == lookup(e, other)
        }),
{
    let text = name + seq![':', ' '] + value;
    assert forall|m: int| 0 <= m < text.len() implies text[m] != '\r' by {
        if m < name.len() {
            assert(is_token_char(name[m]));
        }
    }
    lemma_encoding_without_cr(text);
    let line = encode_utf8(text);
    assert(line.len() > 0) by {
        if line.len() == 0 {
            encode_utf8_decode_utf8(text);
            assert(line =~= Seq::<u8>::empty());
            assert(decode_utf8(Seq::<u8>::empty()) =~= Seq::<char>::empty());
        }
    }
    law_repeated_field_line(e, line, rest, name, value, other);
    if is_ascii_chars(text) {
        is_ascii_chars_encode_utf8(text);
    }
}

impl Default for Headers {
    fn default() -> (h: Self)
        ensures
            h@ == Seq::<(Seq<char>, Seq<char>)>::empty(),
    {
        Self::new()
    }
}

impl Headers {
    /// An empty collection.
    pub fn new() -> (h: Self)
        ensures
            h@ == Seq::<(Seq<char>, Seq<char>)>::empty(),
    {
        Headers { inner: Vec::new() }
    }

    /// The position of the first field whose stored name equals `k`.
    fn position(&self, k: &String) -> (r: Option<usize>)
        ensures
            r matches Some(i) ==> i == key_pos(self@, k@) && i < self@.len(),
            r is None ==> key_pos(self@, k@) == self@.len(),
    {
        let mut i: usize = 0;
        while i < self.inner.len()
            invariant
                i <= self@.len(),
                self@.len() == self.inner@.len(),
                forall|j: int| 0 <= j < i ==> self@[j].0 != k@,
            decreases self.inner@.len() - i,
        {
            if self.inner[i].0 == *k {
                proof {
                    lemma_key_pos_at(self@, k@, i as int);
                }
                return Some(i);
            }
            i = i + 1;
        }
        proof {
            lemma_key_pos_at(self@, k@, i as int);
        }
        None
    }

    /// The value of the field named `key`, compared without regard to case.
    pub fn get(&self, key: &str) -> (r: Option<&String>)
        ensures
            match r {
                Some(v) => lookup(self@, lowercase(key@)) == Some(v@),
                None => lookup(self@, lowercase(key@)) is None,
            },
            is_ascii_chars(key@) ==> lowercase(key@) == ascii_lowercase(key@),
    {
        let k = to_lowercase(key);
        match self.position(&k) {
            Some(i) => Some(&self.inner[i].1),
            None => None,
        }
    }

    /// Records `value` under the name `key`, compared without regard to case:
    /// a repeated name has the new value joined to the old one with `", "`.
    pub fn insert(&mut self, key: String, value: String)
        ensures
            final(self)@ == insert_field(old(self)@, lowercase(key@), value@),
            distinct_names(old(self)@) ==> distinct_names(final(self)@),
            is_ascii_chars(key@) ==> lowercase(key@) == ascii_lowercase(key@),
    {
        proof {
            if distinct_names(self@) {
                law_insert_keeps_names_distinct(self@, lowercase(key@), value@);
            }
        }
        let k = to_lowercase(key.as_str());
        match self.position(&k) {
            Some(i) => {
                let mut joined = self.inner[i].1.clone();
                let sep = ", ";
                proof {
                    reveal_strlit(", ");
                }
                assert(sep@ =~= value_separator());
                joined.append(sep);
                joined.append(value.as_str());
                assert(joined@ == old(self)@[i as int].1 + value_separator() + value@);
                self.inner.set(i, (k, joined));
                assert(self@ =~= insert_field(old(self)@, lowercase(key@), value@));
            },
            None => {
                self.inner.push((k, value));
                assert(self@ =~= insert_field(old(self)@, lowercase(key@), value@));
            },
        }
    }

    /// Parses at most one header line from the start of `data`. Returns the
    /// number of bytes consumed and whether the blank line that ends the
    /// headers was reached; a parsed field is recorded with `insert`. On an
    /// error the fields are unchanged.
    pub fn parse(&mut self, data: &[u8]) -> (r: Result<(usize, bool), ParseError>)
        ensures
            match parse_header_bytes(old(self)@, data@) {
                Ok((e, n, done)) => r matches Ok((m, d)) && m == n && d == done && final(self)@
                    == e,
                Err(err) => r == Err::<(usize, bool), ParseError>(err) && final(self)@ == old(self)@,
            },
            r matches Ok((n, _)) ==> n <= data@.len(),
            distinct_names(old(self)@) ==> distinct_names(final(self)@),
            forall|i: int|
                find_crlf(data@) == Some(i) && i > 0 && valid_utf8(#[trigger] data@.take(i))
                    ==> utf8_lossy(data@.take(i)) == decode_utf8(data@.take(i)),
    {
        let data_len = data.len();
        let i = match find_crlf_in(data) {
            None => {
                return Ok((0, false));
            },
            Some(i) => i,
        };
        proof {
            lemma_find_crlf_bounds(data@);
        }
        assert(i + 2 <= data_len);
        if i == 0 {
            return Ok((2, true));
        }
        let line_bytes = vstd::slice::slice_subrange(data, 0, i);
        assert(line_bytes@ =~= data@.take(i as int));
        let line = decode_lossy(line_bytes);
        let line_len = line.len();
        let j = match find_char_in(&line, ':') {
            None => {
                return Err(ParseError::MissingColon);
            },
            Some(j) => j,
        };
        proof {
            lemma_find_char_bounds(line@, ':');
        }
        assert(j < line_len);
        let name = sub_vec(&line, 0, j);
        assert(name@ =~= line@.take(j as int));
        if j > 0 && line[j - 1] == ' ' {
            return Err(ParseError::SpacesBeforeColon);
        }
        let (a, b) = trim_bounds(&name);
        assert(!(name@.len() > 0 && name@.last() == ' '));
        let mut k = a;
        let mut valid = true;
        while k < b
            invariant
                a <= k <= b <= name@.len(),
                trim(name@) == name@.subrange(a as int, b as int),
                valid ==> forall|m: int| a <= m < k ==> is_token_char(#[trigger] name@[m]),
                !valid ==> !all_token_chars(trim(name@)),
            decreases b - k,
        {
            if !token_char(name[k]) {
                assert(trim(name@)[k - a] == name@[k as int]);
                assert(!is_token_char(trim(name@)[k - a]));
                valid = false;
            }
            k = k + 1;
        }
        if !valid {
            return Err(ParseError::InvalidHeaderName);
        }
        let key_chars = sub_vec(&name, a, b);
        assert(key_chars@ =~= trim(name@));
        assert(all_token_chars(trim(name@))) by {
            assert forall|m: int| 0 <= m < trim(name@).len() implies is_token_char(
                #[trigger] trim(name@)[m],
            ) by {
                assert(trim(name@)[m] == name@[m + a]);
            }
        }
        let key = string_from_chars(key_chars.as_slice());
        let rest = sub_vec(&line, j + 1, line.len());
        assert(rest@ =~= line@.skip(j + 1));
        let (c, d) = trim_bounds(&rest);
        let value_chars = sub_vec(&rest, c, d);
        let value = string_from_chars(value_chars.as_slice());
        self.insert(key, value);
        Ok((i + 2, false))
    }
}

} // verus!
