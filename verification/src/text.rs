//! Character-level text operations used by the HTTP parser: Unicode
//! whitespace, trimming, searching and splitting, each with its meaning
//! written as a spec function over `Seq<char>`.

use vstd::prelude::*;
use vstd::utf8::*;

verus! {

/// The Unicode `White_Space` property (PropList.txt), which is what
/// `char::is_whitespace` tests.
pub open spec fn is_white_space(c: char) -> bool {
    let u = c as u32;
    ||| 0x09 <= u <= 0x0d
    ||| u == 0x20
    ||| u == 0x85
    ||| u == 0xa0
    ||| u == 0x1680
    ||| 0x2000 <= u <= 0x200a
    ||| u == 0x2028
    ||| u == 0x2029
    ||| u == 0x202f
    ||| u == 0x205f
    ||| u == 0x3000
}

/// Decides the Unicode `White_Space` property of a character.
pub fn is_whitespace(c: char) -> (b: bool)
    ensures
        b == is_white_space(c),
{
    let u = c as u32;
    (0x09 <= u && u <= 0x0d) || u == 0x20 || u == 0x85 || u == 0xa0 || u == 0x1680 || (0x2000
        <= u && u <= 0x200a) || u == 0x2028 || u == 0x2029 || u == 0x202f || u == 0x205f || u
        == 0x3000
}

/// `s` with its leading whitespace removed.
pub open spec fn trim_start(s: Seq<char>) -> Seq<char>
    decreases s.len(),
{
    if s.len() > 0 && is_white_space(s[0]) {
        trim_start(s.drop_first())
    } else {
        s
    }
}

/// `s` with its trailing whitespace removed.
pub open spec fn trim_end(s: Seq<char>) -> Seq<char>
    decreases s.len(),
{
    if s.len() > 0 && is_white_space(s.last()) {
        trim_end(s.drop_last())
    } else {
        s
    }
}

/// `s` with leading and trailing whitespace removed, as `str::trim` does.
pub open spec fn trim(s: Seq<char>) -> Seq<char> {
    trim_end(trim_start(s))
}

/// What `trim_start` leaves starts with no whitespace.
proof fn lemma_trim_start_shape(s: Seq<char>)
    ensures
        trim_start(s).len() > 0 ==> !is_white_space(trim_start(s)[0]),
    decreases s.len(),
{
    if s.len() > 0 && is_white_space(s[0]) {
        lemma_trim_start_shape(s.drop_first());
    }
}

/// What `trim_end` leaves is a prefix of its input that ends with no
/// whitespace.
proof fn lemma_trim_end_shape(s: Seq<char>)
    ensures
        trim_end(s).len() <= s.len(),
        trim_end(s) == s.take(trim_end(s).len() as int),
        trim_end(s).len() > 0 ==> !is_white_space(trim_end(s).last()),
    decreases s.len(),
{
    if s.len() > 0 && is_white_space(s.last()) {
        lemma_trim_end_shape(s.drop_last());
        let t = trim_end(s.drop_last());
        assert(s.drop_last().take(t.len() as int) =~= s.take(t.len() as int));
    } else {
        assert(s.take(s.len() as int) =~= s);
    }
}

/// Trimming twice is trimming once.
pub proof fn law_trim_idempotent(s: Seq<char>)
    ensures
        trim(trim(s)) == trim(s),
{
    let u = trim_start(s);
    let t = trim_end(u);
    lemma_trim_start_shape(s);
    lemma_trim_end_shape(u);
    if t.len() > 0 {
        assert(t[0] == u[0]);
    }
    assert(trim_start(t) == t);
    lemma_trim_end_shape(t);
    assert(trim_end(t) == t);
}

proof fn lemma_trim_start_skip(s: Seq<char>, i: int)
    requires
        0 <= i < s.len(),
        is_white_space(s[i]),
    ensures
        trim_start(s.skip(i)) == trim_start(s.skip(i + 1)),
{
    assert(s.skip(i).drop_first() =~= s.skip(i + 1));
}

proof fn lemma_trim_end_take(s: Seq<char>, j: int)
    requires
        0 < j <= s.len(),
        is_white_space(s[j - 1]),
    ensures
        trim_end(s.take(j)) == trim_end(s.take(j - 1)),
{
    assert(s.take(j).drop_last() =~= s.take(j - 1));
}

/// The bounds `(a, b)` of `trim(s)` within `s`.
pub fn trim_bounds(s: &Vec<char>) -> (r: (usize, usize))
    ensures
        r.0 <= r.1 <= s@.len(),
        trim(s@) == s@.subrange(r.0 as int, r.1 as int),
{
    let mut a: usize = 0;
    assert(s@.skip(0) =~= s@);
    while a < s.len() && is_whitespace(s[a])
        invariant
            a <= s@.len(),
            trim_start(s@) == trim_start(s@.skip(a as int)),
        decreases s@.len() - a,
    {
        proof {
            lemma_trim_start_skip(s@, a as int);
        }
        a = a + 1;
    }
    let ghost t = s@.skip(a as int);
    assert(trim_start(t) == t) by {
        if t.len() > 0 {
            assert(t[0] == s@[a as int]);
        }
    }
    let mut b: usize = s.len();
    assert(t.take(t.len() as int) =~= t);
    while b > a && is_whitespace(s[b - 1])
        invariant
            a <= b <= s@.len(),
            t == s@.skip(a as int),
            trim_end(t) == trim_end(t.take(b - a)),
        decreases b,
    {
        proof {
            assert(t[b - a - 1] == s@[b - 1]);
            lemma_trim_end_take(t, (b - a) as int);
        }
        b = b - 1;
    }
    let ghost u = t.take(b - a);
    assert(trim_end(u) == u) by {
        if u.len() > 0 {
            assert(u.last() == s@[b - 1]);
        }
    }
    assert(u =~= s@.subrange(a as int, b as int));
    (a, b)
}


/// The first index at which the bytes `s` hold `"\r\n"` (13, 10).
pub open spec fn find_crlf(s: Seq<u8>) -> Option<int>
    decreases s.len(),
{
    if s.len() < 2 {
        None
    } else if s[0] == 13 && s[1] == 10 {
        Some(0)
    } else {
        match find_crlf(s.drop_first()) {
            Some(i) => Some(i + 1),
            None => None,
        }
    }
}

/// The first index at which `s` holds `c`.
pub open spec fn find_char(s: Seq<char>, c: char) -> Option<int>
    decreases s.len(),
{
    if s.len() == 0 {
        None
    } else if s[0] == c {
        Some(0)
    } else {
        match find_char(s.drop_first(), c) {
            Some(i) => Some(i + 1),
            None => None,
        }
    }
}

/// Shifts a found index by `k`.
pub open spec fn shifted(o: Option<int>, k: int) -> Option<int> {
    match o {
        Some(i) => Some(i + k),
        None => None,
    }
}

/// A found `"\r\n"` lies inside the bytes.
pub proof fn lemma_find_crlf_bounds(s: Seq<u8>)
    ensures
        find_crlf(s) matches Some(i) ==> 0 <= i && i + 1 < s.len() && s[i] == 13 && s[i + 1]
            == 10,
    decreases s.len(),
{
    if s.len() >= 2 && !(s[0] == 13 && s[1] == 10) {
        lemma_find_crlf_bounds(s.drop_first());
    }
}

/// A `"\r\n"` found in some bytes is still the first one when more bytes
/// follow them.
pub proof fn lemma_find_crlf_prefix(d: Seq<u8>, u: Seq<u8>)
    ensures
        find_crlf(d) matches Some(i) ==> find_crlf(d + u) == Some(i),
    decreases d.len(),
{
    if d.len() >= 2 {
        assert((d + u)[0] == d[0] && (d + u)[1] == d[1]);
        if !(d[0] == 13 && d[1] == 10) {
            assert((d + u).drop_first() =~= d.drop_first() + u);
            lemma_find_crlf_prefix(d.drop_first(), u);
        }
    }
}

/// In a line without a carriage return followed by `"\r\n"`, the first
/// `"\r\n"` is the one that ends the line.
pub proof fn lemma_find_crlf_after_line(line: Seq<u8>, rest: Seq<u8>)
    requires
        forall|m: int| 0 <= m < line.len() ==> line[m] != 13,
    ensures
        find_crlf(line + seq![13u8, 10u8] + rest) == Some(line.len() as int),
    decreases line.len(),
{
    let s = line + seq![13u8, 10u8] + rest;
    if line.len() == 0 {
        assert(s[0] == 13 && s[1] == 10);
    } else {
        assert(s[0] == line[0]);
        assert(s.drop_first() =~= line.drop_first() + seq![13u8, 10u8] + rest);
        lemma_find_crlf_after_line(line.drop_first(), rest);
    }
}

/// The UTF-8 encoding of a scalar other than a carriage return holds no
/// carriage-return byte: a one-byte encoding is the scalar itself, and every
/// byte of a longer one has its high bit set.
proof fn lemma_scalar_encoding_without_cr(v: u32)
    requires
        is_scalar(v),
        v != 13,
    ensures
        forall|m: int| 0 <= m < encode_scalar(v).len() ==> encode_scalar(v)[m] != 13,
{
    let b1 = ((v & 0x7F) as u8);
    assert(v <= 0x7F && v != 13 ==> (v & 0x7F) as u8 != 13u8) by (bit_vector);
    let lead2 = ((v >> 6) & 0x1F) as u8;
    let lead3 = ((v >> 12) & 0x0F) as u8;
    let lead4 = ((v >> 18) & 0x7) as u8;
    let c1 = (v & 0x3F) as u8;
    let c2 = ((v >> 6) & 0x3F) as u8;
    let c3 = ((v >> 12) & 0x3F) as u8;
    assert(0xC0u8 | lead2 != 13u8) by (bit_vector);
    assert(0xE0u8 | lead3 != 13u8) by (bit_vector);
    assert(0xF0u8 | lead4 != 13u8) by (bit_vector);
    assert(0x80u8 | c1 != 13u8) by (bit_vector);
    assert(0x80u8 | c2 != 13u8) by (bit_vector);
    assert(0x80u8 | c3 != 13u8) by (bit_vector);
}

/// The UTF-8 encoding of text without a carriage return holds no
/// carriage-return byte.
pub proof fn lemma_encoding_without_cr(chars: Seq<char>)
    requires
        forall|m: int| 0 <= m < chars.len() ==> chars[m] != '\r',
    ensures
        forall|m: int| 0 <= m < encode_utf8(chars).len() ==> encode_utf8(chars)[m] != 13,
    decreases chars.len(),
{
    if chars.len() > 0 {
        let v = chars[0] as u32;
        char_is_scalar(chars[0]);
        char_u32_cast(chars[0], v);
        assert(v != 13) by {
            if v == 13 {
                char_u32_cast('\r', 13);
            }
        }
        lemma_scalar_encoding_without_cr(v);
        lemma_encoding_without_cr(chars.drop_first());
        let e = encode_utf8(chars);
        let head = encode_scalar(v);
        let tail = encode_utf8(chars.drop_first());
        assert(e == head + tail);
        assert forall|m: int| 0 <= m < e.len() implies e[m] != 13 by {
            if m < head.len() {
                assert(e[m] == head[m]);
            } else {
                assert(e[m] == tail[m - head.len()]);
            }
        }
    }
}

/// A found character lies inside the sequence, and none comes before it.
pub proof fn lemma_find_char_bounds(s: Seq<char>, c: char)
    ensures
        find_char(s, c) matches Some(i) ==> 0 <= i < s.len() && s[i] == c && (forall|j: int|
            0 <= j < i ==> s[j] != c),
        find_char(s, c) is None ==> forall|j: int| 0 <= j < s.len() ==> s[j] != c,
    decreases s.len(),
{
    if s.len() > 0 && s[0] != c {
        lemma_find_char_bounds(s.drop_first(), c);
        let t = s.drop_first();
        assert forall|j: int| 1 <= j < s.len() implies s[j] == t[j - 1] by {}
    }
}

/// Finds the first `"\r\n"` in the bytes `s`, as `str::split_once("\r\n")`
/// finds it in their text.
pub fn find_crlf_in(s: &[u8]) -> (r: Option<usize>)
    ensures
        r matches Some(i) ==> find_crlf(s@) == Some(i as int),
        r is None ==> find_crlf(s@) is None,
{
    let mut i: usize = 0;
    assert(s@.skip(0) =~= s@);
    while s.len() - i >= 2
        invariant
            i <= s@.len(),
            find_crlf(s@) == shifted(find_crlf(s@.skip(i as int)), i as int),
        decreases s@.len() - i,
    {
        if s[i] == 13 && s[i + 1] == 10 {
            return Some(i);
        }
        assert(s@.skip(i as int).drop_first() =~= s@.skip(i + 1));
        i = i + 1;
    }
    None
}

/// Finds the first occurrence of `c` in `s` at or after `start`.
pub fn find_char_from(s: &Vec<char>, c: char, start: usize) -> (r: Option<usize>)
    requires
        start <= s@.len(),
    ensures
        shifted(find_char(s@.skip(start as int), c), start as int) == match r {
            Some(i) => Some(i as int),
            None => None::<int>,
        },
{
    let mut i: usize = start;
    while i < s.len()
        invariant
            start <= i <= s@.len(),
            shifted(find_char(s@.skip(start as int), c), start as int) == shifted(
                find_char(s@.skip(i as int), c),
                i as int,
            ),
        decreases s@.len() - i,
    {
        if s[i] == c {
            return Some(i);
        }
        assert(s@.skip(i as int).drop_first() =~= s@.skip(i + 1));
        i = i + 1;
    }
    None
}

/// Finds the first occurrence of `c` in `s`.
pub fn find_char_in(s: &Vec<char>, c: char) -> (r: Option<usize>)
    ensures
        r matches Some(i) ==> find_char(s@, c) == Some(i as int),
        r is None ==> find_char(s@, c) is None,
{
    assert(s@.skip(0) =~= s@);
    find_char_from(s, c, 0)
}

/// The pieces of `s` between occurrences of `c`, as `str::split` yields them
/// for a one-character pattern.
pub open spec fn split_on(s: Seq<char>, c: char) -> Seq<Seq<char>>
    decreases s.len(),
{
    proof {
        lemma_find_char_bounds(s, c);
    }
    match find_char(s, c) {
        Some(i) => seq![s.take(i)] + split_on(s.skip(i + 1), c),
        None => seq![s],
    }
}

/// Splits `s` at every occurrence of `c`.
pub fn split_at_char(s: &Vec<char>, c: char) -> (r: Vec<Vec<char>>)
    ensures
        views(r@) == split_on(s@, c),
{
    let mut r: Vec<Vec<char>> = Vec::new();
    let mut i: usize = 0;
    assert(s@.skip(0) =~= s@);
    loop
        invariant
            i <= s@.len(),
            split_on(s@, c) == views(r@) + split_on(s@.skip(i as int), c),
        decreases s@.len() - i,
    {
        let ghost t = s@.skip(i as int);
        let ghost before = views(r@);
        proof {
            lemma_find_char_bounds(t, c);
        }
        match find_char_from(s, c, i) {
            Some(j) => {
                assert(find_char(t, c) == Some(j - i));
                assert(j < s@.len());
                assert(j < s.len());
                let w = sub_vec(s, i, j);
                r.push(w);
                assert(views(r@) =~= before + seq![w@]);
                assert(t.take(j - i) =~= w@);
                assert(t.skip(j - i + 1) =~= s@.skip(j + 1));
                assert(split_on(s@, c) =~= views(r@) + split_on(s@.skip(j + 1), c));
                i = j + 1;
            },
            None => {
                let w = sub_vec(s, i, s.len());
                r.push(w);
                assert(views(r@) =~= before + seq![w@]);
                assert(t =~= w@);
                assert(split_on(s@, c) =~= views(r@));
                return r;
            },
        }
    }
}

/// Copies `s[a..b]` into a new vector.
pub fn sub_vec<T: Copy>(s: &Vec<T>, a: usize, b: usize) -> (r: Vec<T>)
    requires
        a <= b <= s@.len(),
    ensures
        r@ == s@.subrange(a as int, b as int),
{
    let mut r: Vec<T> = Vec::new();
    let mut i = a;
    while i < b
        invariant
            a <= i <= b <= s@.len(),
            r@ == s@.subrange(a as int, i as int),
        decreases b - i,
    {
        r.push(s[i]);
        assert(r@ =~= s@.subrange(a as int, i + 1));
        i = i + 1;
    }
    r
}

/// Whether two character sequences are equal.
pub fn chars_eq(a: &[char], b: &[char]) -> (r: bool)
    ensures
        r == (a@ == b@),
{
    if a.len() != b.len() {
        return false;
    }
    let mut i: usize = 0;
    while i < a.len()
        invariant
            a@.len() == b@.len(),
            i <= a@.len(),
            forall|j: int| 0 <= j < i ==> a@[j] == b@[j],
        decreases a@.len() - i,
    {
        if a[i] != b[i] {
            return false;
        }
        i = i + 1;
    }
    assert(a@ =~= b@);
    true
}


/// The length of the run of non-whitespace characters that starts `s`.
pub open spec fn word_len(s: Seq<char>) -> nat
    decreases s.len(),
{
    if s.len() == 0 || is_white_space(s[0]) {
        0
    } else {
        1 + word_len(s.drop_first())
    }
}

/// A word never reaches past the end of the sequence.
pub proof fn lemma_word_len_bound(s: Seq<char>)
    ensures
        word_len(s) <= s.len(),
        s.len() > 0 && !is_white_space(s[0]) ==> word_len(s) >= 1,
    decreases s.len(),
{
    if s.len() > 0 && !is_white_space(s[0]) {
        lemma_word_len_bound(s.drop_first());
    }
}

/// The whitespace-separated words of `s`, as `str::split_whitespace` yields them.
pub open spec fn words(s: Seq<char>) -> Seq<Seq<char>>
    decreases s.len(),
{
    if s.len() == 0 {
        seq![]
    } else if is_white_space(s[0]) {
        words(s.drop_first())
    } else {
        proof {
            lemma_word_len_bound(s);
        }
        seq![s.take(word_len(s) as int)] + words(s.skip(word_len(s) as int))
    }
}

/// The views of a vector of character vectors.
pub open spec fn views(v: Seq<Vec<char>>) -> Seq<Seq<char>> {
    v.map_values(|w: Vec<char>| w@)
}

/// Splits `s` into its whitespace-separated words.
pub fn split_words(s: &Vec<char>) -> (r: Vec<Vec<char>>)
    ensures
        views(r@) == words(s@),
{
    let mut r: Vec<Vec<char>> = Vec::new();
    let mut i: usize = 0;
    assert(s@.skip(0) =~= s@);
    while i < s.len()
        invariant
            i <= s@.len(),
            words(s@) == views(r@) + words(s@.skip(i as int)),
        decreases s@.len() - i,
    {
        let ghost t = s@.skip(i as int);
        if is_whitespace(s[i]) {
            assert(t.drop_first() =~= s@.skip(i + 1));
            i = i + 1;
        } else {
            let mut j = i;
            assert(s@.skip(j as int) =~= t);
            while j < s.len() && !is_whitespace(s[j])
                invariant
                    i <= j <= s@.len(),
                    t == s@.skip(i as int),
                    word_len(t) == (j - i) + word_len(s@.skip(j as int)),
                decreases s@.len() - j,
            {
                assert(s@.skip(j as int).drop_first() =~= s@.skip(j + 1));
                j = j + 1;
            }
            let w = sub_vec(s, i, j);
            proof {
                lemma_word_len_bound(t);
                assert(word_len(t) == j - i);
                assert(t.take(j - i) =~= w@);
                assert(t.skip(j - i) =~= s@.skip(j as int));
            }
            let ghost before = views(r@);
            r.push(w);
            assert(views(r@) =~= before + seq![w@]);
            assert(words(s@) =~= views(r@) + words(s@.skip(j as int)));
            i = j;
        }
    }
    assert(s@.skip(i as int) =~= Seq::<char>::empty());
    assert(views(r@) + Seq::<Seq<char>>::empty() =~= views(r@));
    r
}


/// An ASCII decimal digit.
pub open spec fn is_digit(c: char) -> bool {
    '0' as u32 <= c as u32 <= '9' as u32
}

/// The value of an ASCII decimal digit.
pub open spec fn digit_value(c: char) -> nat {
    (c as u32 - '0' as u32) as nat
}

/// The value of a sequence of decimal digits, most significant first.
pub open spec fn digits_value(s: Seq<char>) -> nat
    decreases s.len(),
{
    if s.len() == 0 {
        0
    } else {
        digits_value(s.drop_last()) * 10 + digit_value(s.last())
    }
}

/// Every character of `s` is a decimal digit.
pub open spec fn all_digits(s: Seq<char>) -> bool {
    forall|i: int| 0 <= i < s.len() ==> is_digit(#[trigger] s[i])
}

/// `s` without one leading `'+'`, if it has one.
pub open spec fn unsigned_digits(s: Seq<char>) -> Seq<char> {
    if s.len() > 0 && s[0] == '+' {
        s.drop_first()
    } else {
        s
    }
}

/// What `s.parse::<usize>().ok()` gives: an optional `'+'` followed by at
/// least one decimal digit, whose value fits in `usize`.
pub open spec fn parse_usize(s: Seq<char>) -> Option<usize> {
    let d = unsigned_digits(s);
    if d.len() > 0 && all_digits(d) && digits_value(d) <= usize::MAX {
        Some(digits_value(d) as usize)
    } else {
        None
    }
}

proof fn lemma_digits_value_prefix(s: Seq<char>, k: int)
    requires
        0 <= k <= s.len(),
        all_digits(s),
    ensures
        digits_value(s.take(k)) <= digits_value(s),
    decreases s.len(),
{
    if k < s.len() {
        assert(s.drop_last().take(k) =~= s.take(k));
        lemma_digits_value_prefix(s.drop_last(), k);
    } else {
        assert(s.take(k) =~= s);
    }
}

/// Parses a decimal `usize` with an optional leading `'+'`.
pub fn parse_usize_chars(s: &Vec<char>) -> (r: Option<usize>)
    ensures
        r == parse_usize(s@),
{
    let mut i: usize = 0;
    if s.len() > 0 && s[0] == '+' {
        i = 1;
    }
    let ghost d = unsigned_digits(s@);
    assert(d =~= s@.skip(i as int));
    if i == s.len() {
        return None;
    }
    let mut acc: usize = 0;
    let mut k: usize = i;
    while k < s.len()
        invariant
            i <= k <= s@.len(),
            d == s@.skip(i as int),
            d == unsigned_digits(s@),
            d.len() > 0,
            all_digits(d.take(k - i)),
            acc == digits_value(d.take(k - i)),
        decreases s@.len() - k,
    {
        let c = s[k];
        let ghost pre = d.take(k - i);
        let ghost next = d.take(k - i + 1);
        assert(next.drop_last() =~= pre);
        assert(next.last() == c);
        if !((c as u32) >= ('0' as u32) && (c as u32) <= ('9' as u32)) {
            assert(!is_digit(d[k - i]));
            assert(!all_digits(d));
            return None;
        }
        let dv = (c as u32 - '0' as u32) as usize;
        assert(is_digit(next.last()));
        assert(digits_value(next) == acc * 10 + dv);
        let m = acc.checked_mul(10);
        match m {
            Some(m) => {
                match m.checked_add(dv) {
                    Some(v) => {
                        acc = v;
                    },
                    None => {
                        proof {
                            if all_digits(d) {
                                lemma_digits_value_prefix(d, k - i + 1);
                            }
                        }
                        return None;
                    },
                }
            },
            None => {
                proof {
                    if all_digits(d) {
                        lemma_digits_value_prefix(d, k - i + 1);
                    }
                }
                return None;
            },
        }
        k = k + 1;
    }
    assert(d.take(k - i) =~= d);
    Some(acc)
}

/// The decimal digit character for `d < 10`.
pub open spec fn digit_char(d: nat) -> char {
    ('0' as u32 + d) as char
}

/// The decimal representation of `n`, as `usize::to_string` writes it.
pub open spec fn decimal(n: nat) -> Seq<char>
    decreases n,
{
    if n < 10 {
        seq![digit_char(n)]
    } else {
        decimal(n / 10) + seq![digit_char(n % 10)]
    }
}

/// Appends the decimal representation of `n` to `out`.
pub fn push_decimal(n: usize, out: &mut Vec<char>)
    ensures
        final(out)@ == old(out)@ + decimal(n as nat),
    decreases n,
{
    if n >= 10 {
        push_decimal(n / 10, out);
    }
    let d = (n % 10) as u8;
    out.push((48u8 + d) as char);
}

proof fn lemma_decimal_digits(n: nat)
    ensures
        decimal(n).len() > 0,
        all_digits(decimal(n)),
        digits_value(decimal(n)) == n,
    decreases n,
{
    let s = decimal(n);
    if n < 10 {
        assert(digit_value(digit_char(n)) == n);
        assert(s.drop_last() =~= Seq::<char>::empty());
        assert(digits_value(s.drop_last()) == 0);
        assert(digits_value(s) == digits_value(s.drop_last()) * 10 + digit_value(s.last()));
    } else {
        lemma_decimal_digits(n / 10);
        assert(s.drop_last() =~= decimal(n / 10));
        assert(s.last() == digit_char(n % 10));
        assert(digit_value(digit_char(n % 10)) == n % 10);
        assert((n / 10) * 10 + n % 10 == n) by (nonlinear_arith);
        assert(digits_value(s) == digits_value(s.drop_last()) * 10 + digit_value(s.last()));
        assert forall|i: int| 0 <= i < s.len() implies is_digit(#[trigger] s[i]) by {
            if i < s.len() - 1 {
                assert(s[i] == decimal(n / 10)[i]);
            }
        }
    }
}

/// What `usize::to_string` writes, `str::parse::<usize>` reads back: a
/// number written as a `Content-Length` value is read as the same number.
pub proof fn law_decimal_parse_roundtrip(n: usize)
    ensures
        parse_usize(decimal(n as nat)) == Some(n),
{
    lemma_decimal_digits(n as nat);
    let s = decimal(n as nat);
    assert(is_digit(s[0]));
    assert(unsigned_digits(s) == s);
}

/// The uppercase hexadecimal digit character for `d < 16`.
pub open spec fn hex_upper_digit(d: nat) -> char {
    if d < 10 {
        ('0' as u32 + d) as char
    } else {
        ('A' as u32 + d - 10) as char
    }
}

/// The lowercase hexadecimal digit character for `d < 16`.
pub open spec fn hex_lower_digit(d: nat) -> char {
    if d < 10 {
        ('0' as u32 + d) as char
    } else {
        ('a' as u32 + d - 10) as char
    }
}

/// The uppercase hexadecimal representation of `n`, as `{:X}` writes it.
pub open spec fn hex_upper(n: nat) -> Seq<char>
    decreases n,
{
    if n < 16 {
        seq![hex_upper_digit(n)]
    } else {
        hex_upper(n / 16) + seq![hex_upper_digit(n % 16)]
    }
}

/// The value of a hexadecimal digit character: `0`..`9` and `A`..`F` (or
/// `a`..`f`) stand for 0 to 15; any other character has none.
pub open spec fn hex_digit_value(c: char) -> Option<nat> {
    if '0' <= c && c <= '9' {
        Some((c as u32 - '0' as u32) as nat)
    } else if 'A' <= c && c <= 'F' {
        Some((c as u32 - 'A' as u32 + 10) as nat)
    } else if 'a' <= c && c <= 'f' {
        Some((c as u32 - 'a' as u32 + 10) as nat)
    } else {
        None
    }
}

/// The number that the hexadecimal digits `s` denote, the most significant
/// first; `None` if some character is not a hexadecimal digit.
pub open spec fn hex_digits_value(s: Seq<char>) -> Option<nat>
    decreases s.len(),
{
    if s.len() == 0 {
        Some(0)
    } else {
        match (hex_digits_value(s.drop_last()), hex_digit_value(s.last())) {
            (Some(h), Some(d)) => Some(h * 16 + d),
            _ => None,
        }
    }
}

/// Each uppercase hexadecimal digit character has its digit's value.
proof fn lemma_hex_upper_digit_value(d: nat)
    requires
        d < 16,
    ensures
        hex_digit_value(hex_upper_digit(d)) == Some(d),
        !('a' <= hex_upper_digit(d) && hex_upper_digit(d) <= 'z'),
        d > 0 ==> hex_upper_digit(d) != '0',
{
    let c = hex_upper_digit(d);
    if d < 10 {
        let u = ('0' as u32 + d) as u32;
        assert(48 <= u <= 57);
        assert(c == u as char);
        assert(c as u32 == u);
    } else {
        let u = ('A' as u32 + d - 10) as u32;
        assert(65 <= u <= 70);
        assert(c == u as char);
        assert(c as u32 == u);
    }
}

/// The uppercase hexadecimal text of `n` denotes `n`: read back digit by
/// digit it gives `n`, it is never empty, it has no leading zero (save `0`
/// itself), and its letters are uppercase.
pub proof fn law_hex_upper_denotes(n: nat)
    ensures
        hex_digits_value(hex_upper(n)) == Some(n),
        hex_upper(n).len() > 0,
        n > 0 ==> hex_upper(n)[0] != '0',
        forall|i: int| 0 <= i < hex_upper(n).len() ==> !('a' <= #[trigger] hex_upper(n)[i] && hex_upper(n)[i] <= 'z'),
    decreases n,
{
    let s = hex_upper(n);
    lemma_hex_upper_digit_value(n % 16);
    if n < 16 {
        assert(n % 16 == n);
        assert(s.drop_last() =~= Seq::<char>::empty());
        assert(s.last() == hex_upper_digit(n));
        assert(hex_digits_value(s.drop_last()) == Some(0nat));
        assert(hex_digits_value(s) == Some(0 * 16 + n));
    } else {
        law_hex_upper_denotes(n / 16);
        let q = hex_upper(n / 16);
        assert(s.drop_last() =~= q);
        assert(s.last() == hex_upper_digit(n % 16));
        assert((n / 16) * 16 + n % 16 == n) by (nonlinear_arith);
        assert(hex_digits_value(s) == Some((n / 16) * 16 + n % 16));
        assert(s[0] == q[0]);
        assert forall|i: int| 0 <= i < s.len() implies !('a' <= #[trigger] s[i] && s[i] <= 'z') by {
            if i < q.len() {
                assert(s[i] == q[i]);
            }
        }
    }
}

/// Appends the uppercase hexadecimal representation of `n` to `out`.
pub fn push_hex_upper(n: usize, out: &mut Vec<char>)
    ensures
        final(out)@ == old(out)@ + hex_upper(n as nat),
    decreases n,
{
    if n >= 16 {
        push_hex_upper(n / 16, out);
    }
    let d = (n % 16) as u8;
    if d < 10 {
        out.push((48u8 + d) as char);
    } else {
        out.push((65u8 + d - 10) as char);
    }
}

/// The two lowercase hexadecimal digits of a byte, as `{:02x}` writes them.
pub open spec fn hex_byte(b: u8) -> Seq<char> {
    seq![hex_lower_digit((b / 16) as nat), hex_lower_digit((b % 16) as nat)]
}

/// The lowercase hexadecimal rendering of a byte string, two digits per byte.
pub open spec fn hex_string(bytes: Seq<u8>) -> Seq<char>
    decreases bytes.len(),
{
    if bytes.len() == 0 {
        seq![]
    } else {
        hex_string(bytes.drop_last()) + hex_byte(bytes.last())
    }
}

/// Renders a byte string as lowercase hexadecimal, two digits per byte.
pub fn to_hex_string(bytes: &Vec<u8>) -> (r: Vec<char>)
    ensures
        r@ == hex_string(bytes@),
{
    let mut r: Vec<char> = Vec::new();
    let mut i: usize = 0;
    while i < bytes.len()
        invariant
            i <= bytes@.len(),
            r@ == hex_string(bytes@.take(i as int)),
        decreases bytes@.len() - i,
    {
        let b = bytes[i];
        let hi = b / 16;
        let lo = b % 16;
        if hi < 10 {
            r.push((48u8 + hi) as char);
        } else {
            r.push((97u8 + hi - 10) as char);
        }
        if lo < 10 {
            r.push((48u8 + lo) as char);
        } else {
            r.push((97u8 + lo - 10) as char);
        }
        assert(bytes@.take(i + 1).drop_last() =~= bytes@.take(i as int));
        assert(r@ =~= hex_string(bytes@.take(i + 1)));
        i = i + 1;
    }
    assert(bytes@.take(i as int) =~= bytes@);
    r
}


/// The characters of `s`.
pub fn string_chars(s: &String) -> (r: Vec<char>)
    ensures
        r@ == s@,
{
    let mut r: Vec<char> = Vec::new();
    for c in it: s.as_str().chars()
        invariant
            r@ == it.seq().take(it.index() as int),
    {
        r.push(c);
        assert(r@ =~= it.seq().take(it.index() + 1));
    }
    r
}


/// Appends `c` to `s`: a call of `String::push`, which std documents as
/// appending the given char to the end of the string.
#[verifier::external_body]
fn push_char(s: &mut String, c: char)
    ensures
        final(s)@ == old(s)@.push(c),
{
    s.push(c);
}

/// A string holding exactly the characters of `cs`.
pub fn string_from_chars(cs: &[char]) -> (s: String)
    ensures
        s@ == cs@,
{
    let mut s = String::new();
    let mut i: usize = 0;
    while i < cs.len()
        invariant
            i <= cs@.len(),
            s@ == cs@.take(i as int),
        decreases cs@.len() - i,
    {
        push_char(&mut s, cs[i]);
        assert(s@ =~= cs@.take(i + 1));
        i = i + 1;
    }
    assert(cs@.take(i as int) =~= cs@);
    s
}

/// What `String::from_utf8_lossy` makes of a byte string: its characters,
/// with each invalid UTF-8 sequence replaced by U+FFFD.
pub uninterp spec fn utf8_lossy(bytes: Seq<u8>) -> Seq<char>;

/// The characters of `String::from_utf8_lossy(data)`. The contract names the
/// result `utf8_lossy(data)`; of its content it states only what std
/// documents: valid UTF-8 decodes to exactly its characters. How invalid
/// sequences are replaced is left unstated.
#[verifier::external_body]
pub fn decode_lossy(data: &[u8]) -> (cs: Vec<char>)
    ensures
        cs@ == utf8_lossy(data@),
        valid_utf8(data@) ==> cs@ == decode_utf8(data@),
{
    String::from_utf8_lossy(data).chars().collect()
}

/// The lowercase form of a string as `str::to_lowercase` computes it from the
/// Unicode case tables.
pub uninterp spec fn lowercase(s: Seq<char>) -> Seq<char>;

/// The ASCII lowercase form of a character: `A`..`Z` become `a`..`z`,
/// every other character stays.
pub open spec fn ascii_lower_char(c: char) -> char {
    if 'A' as u32 <= c as u32 <= 'Z' as u32 {
        (c as u32 + 32) as char
    } else {
        c
    }
}

/// The ASCII lowercase form of a text.
pub open spec fn ascii_lowercase(s: Seq<char>) -> Seq<char> {
    s.map_values(|c: char| ascii_lower_char(c))
}

/// A call of `str::to_lowercase`. Its result is named `lowercase(s)`. Of the
/// Unicode mapping behind it the contract states only the ASCII part, which
/// the Unicode case tables fix and std's documentation of the ASCII case
/// functions repeats: on ASCII text, `A`..`Z` become `a`..`z` and every other
/// character stays. Other characters are not stated.
#[verifier::external_body]
pub fn to_lowercase(s: &str) -> (r: String)
    ensures
        r@ == lowercase(s@),
        is_ascii_chars(s@) ==> r@ == ascii_lowercase(s@),
{
    s.to_lowercase()
}


} // verus!
