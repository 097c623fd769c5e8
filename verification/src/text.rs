//! Text as sequences of characters: the small string vocabulary the rest of the library
//! states its contracts in, and the executable forms that meet it.
use vstd::multiset::Multiset;
use vstd::prelude::*;
use vstd::string::StringSliceAdditionalSpecFns;

verus! {

broadcast use vstd::seq_lib::group_seq_properties;

// ---------------------------------------------------------------------------------------
// Moving between `str`/`String` and character vectors
// ---------------------------------------------------------------------------------------

/// The characters of `s`, in order.
pub fn chars_of(s: &str) -> (chars: Vec<char>)
    ensures
        chars@ == s@,
{
    let mut chars: Vec<char> = Vec::new();
    for c in iter: s.chars()
        invariant
            iter.seq() == s@,
            chars@ == iter.seq().take(iter.index() as int),
    {
        chars.push(c);
    }
    chars
}

/// Gathers characters into a `String` (std's `FromIterator<&char>` for `String`).
#[verifier::external_body]
pub fn string_of(chars: &[char]) -> (s: String)
    ensures
        s@ == chars@,
{
    chars.iter().collect()
}

/// What std's `str::to_lowercase` makes of a text: the full Unicode lowercase mapping.
pub uninterp spec fn unicode_lowercase(s: Seq<char>) -> Seq<char>;

/// Whether every character of a text is ASCII.
pub open spec fn is_ascii_text(s: Seq<char>) -> bool {
    forall|i: int| 0 <= i < s.len() ==> (#[trigger] s[i] as u32) < 128
}

/// std's `str::to_lowercase`. Its result is named, not stated: the Unicode tables it
/// follows are not written out here. What std documents of ASCII is stated: on an ASCII
/// text it lowercases the letters `A` to `Z` and keeps every other character.
#[verifier::external_body]
pub fn to_lowercase(s: &str) -> (lower: String)
    ensures
        lower@ == unicode_lowercase(s@),
        is_ascii_text(s@) ==> lower@ == ascii_lowercase(s@),
{
    s.to_lowercase()
}

/// What std's `String::from_utf8_lossy` makes of bytes: valid UTF-8 decodes as itself,
/// anything else has its bad sequences replaced.
pub uninterp spec fn lossy_utf8(bytes: Seq<u8>) -> Seq<char>;

/// std's `String::from_utf8_lossy`. Valid UTF-8 is decoded exactly; what replaces an
/// invalid sequence is named rather than stated.
#[verifier::external_body]
pub fn from_utf8_lossy(bytes: &[u8]) -> (text: String)
    ensures
        text@ == lossy_utf8(bytes@),
        vstd::utf8::valid_utf8(bytes@) ==> text@ == vstd::utf8::decode_utf8(bytes@),
{
    String::from_utf8_lossy(bytes).into_owned()
}

/// std's `String::from_utf8`: the decoded text when the bytes are valid UTF-8, `None`
/// otherwise.
#[verifier::external_body]
pub fn from_utf8(bytes: Vec<u8>) -> (text: Option<String>)
    ensures
        text is Some <==> vstd::utf8::valid_utf8(bytes@),
        text matches Some(t) ==> t@ == vstd::utf8::decode_utf8(bytes@),
{
    String::from_utf8(bytes).ok()
}

/// The UTF-8 bytes of a text.
pub fn bytes_of(s: &str) -> (bytes: Vec<u8>)
    ensures
        bytes@ == s.spec_bytes(),
{
    s.as_bytes_vec()
}

// ---------------------------------------------------------------------------------------
// Whitespace and case
// ---------------------------------------------------------------------------------------

/// std's `char::is_whitespace`: the Unicode `White_Space` property.
pub open spec fn is_whitespace(c: char) -> bool {
    ||| c == '\t' || c == '\n' || c == '\x0B' || c == '\x0C' || c == '\r' || c == ' '
    ||| c == '\u{85}' || c == '\u{A0}' || c == '\u{1680}'
    ||| ('\u{2000}' <= c && c <= '\u{200A}')
    ||| c == '\u{2028}' || c == '\u{2029}' || c == '\u{202F}' || c == '\u{205F}'
    ||| c == '\u{3000}'
}

pub fn char_is_whitespace(c: char) -> (r: bool)
    ensures
        r == is_whitespace(c),
{
    c == '\t' || c == '\n' || c == '\x0B' || c == '\x0C' || c == '\r' || c == ' ' || c
        == '\u{85}' || c == '\u{A0}' || c == '\u{1680}' || ('\u{2000}' <= c && c <= '\u{200A}')
        || c == '\u{2028}' || c == '\u{2029}' || c == '\u{202F}' || c == '\u{205F}' || c
        == '\u{3000}'
}

/// Leading whitespace removed, as std's `str::trim_start`.
pub open spec fn trim_start(s: Seq<char>) -> Seq<char>
    decreases s.len(),
{
    if s.len() > 0 && is_whitespace(s[0]) {
        trim_start(s.drop_first())
    } else {
        s
    }
}

/// Trailing whitespace removed, as std's `str::trim_end`.
pub open spec fn trim_end(s: Seq<char>) -> Seq<char>
    decreases s.len(),
{
    if s.len() > 0 && is_whitespace(s.last()) {
        trim_end(s.drop_last())
    } else {
        s
    }
}

/// std's `str::trim`.
pub open spec fn trim(s: Seq<char>) -> Seq<char> {
    trim_end(trim_start(s))
}

proof fn lemma_trim_start_skip(s: Seq<char>, i: int)
    requires
        0 <= i <= s.len(),
        forall|j: int| 0 <= j < i ==> is_whitespace(#[trigger] s[j]),
    ensures
        trim_start(s) == trim_start(s.skip(i)),
    decreases i,
{
    if i > 0 {
        assert(s.skip(1) == s.drop_first());
        lemma_trim_start_skip(s.drop_first(), i - 1);
        assert(s.drop_first().skip(i - 1) == s.skip(i));
    } else {
        assert(s.skip(0) == s);
    }
}

proof fn lemma_trim_end_take(s: Seq<char>, i: int)
    requires
        0 <= i <= s.len(),
        forall|j: int| i <= j < s.len() ==> is_whitespace(#[trigger] s[j]),
    ensures
        trim_end(s) == trim_end(s.take(i)),
    decreases s.len() - i,
{
    if i < s.len() {
        assert(s.take(s.len() - 1) == s.drop_last());
        lemma_trim_end_take(s.drop_last(), i);
        assert(s.drop_last().take(i) == s.take(i));
    } else {
        assert(s.take(s.len() as int) == s);
    }
}

/// The characters of `s` with surrounding whitespace removed.
pub fn trimmed(s: &[char]) -> (r: Vec<char>)
    ensures
        r@ == trim(s@),
{
    let mut start: usize = 0;
    while start < s.len() && char_is_whitespace(s[start])
        invariant
            start <= s.len(),
            forall|j: int| 0 <= j < start ==> is_whitespace(#[trigger] s@[j]),
        decreases s.len() - start,
    {
        start = start + 1;
    }
    proof {
        lemma_trim_start_skip(s@, start as int);
    }
    let ghost rest = s@.skip(start as int);
    assert(start == s.len() || !is_whitespace(rest[0]));
    assert(trim_start(rest) == rest);
    let mut end: usize = s.len();
    while end > start && char_is_whitespace(s[end - 1])
        invariant
            start <= end <= s.len(),
            forall|j: int| end <= j < s.len() ==> is_whitespace(#[trigger] s@[j]),
        decreases end - start,
    {
        end = end - 1;
    }
    let ghost kept = s@.subrange(start as int, end as int);
    proof {
        lemma_trim_end_take(rest, end - start);
        assert(rest.take(end - start) == kept);
        assert(end == start || !is_whitespace(kept.last()));
    }
    let mut r: Vec<char> = Vec::new();
    let mut i = start;
    while i < end
        invariant
            start <= i <= end <= s.len(),
            r@ == s@.subrange(start as int, i as int),
        decreases end - i,
    {
        r.push(s[i]);
        i = i + 1;
    }
    r
}

/// std's `char::to_ascii_lowercase`.
pub open spec fn ascii_lower(c: char) -> char {
    if 'A' <= c && c <= 'Z' {
        ((c as u32) + 32) as char
    } else {
        c
    }
}

/// std's `str::to_ascii_lowercase`.
pub open spec fn ascii_lowercase(s: Seq<char>) -> Seq<char> {
    s.map_values(|c: char| ascii_lower(c))
}

pub fn lower_ascii_char(c: char) -> (r: char)
    ensures
        r == ascii_lower(c),
{
    if 'A' <= c && c <= 'Z' {
        let code = (c as u8) + 32;
        code as char
    } else {
        c
    }
}

pub fn to_ascii_lowercase(s: &[char]) -> (r: Vec<char>)
    ensures
        r@ == ascii_lowercase(s@),
{
    let mut r: Vec<char> = Vec::new();
    for i in 0..s.len()
        invariant
            r@ == ascii_lowercase(s@.take(i as int)),
    {
        r.push(lower_ascii_char(s[i]));
        assert(ascii_lowercase(s@.take(i + 1)) == ascii_lowercase(s@.take(i as int)).push(
            ascii_lower(s@[i as int]),
        ));
    }
    assert(s@.take(s.len() as int) == s@);
    r
}

// ---------------------------------------------------------------------------------------
// Searching
// ---------------------------------------------------------------------------------------

pub fn starts_with(s: &[char], prefix: &[char]) -> (r: bool)
    ensures
        r == prefix@.is_prefix_of(s@),
{
    if prefix.len() > s.len() {
        return false;
    }
    for i in 0..prefix.len()
        invariant
            prefix.len() <= s.len(),
            forall|j: int| 0 <= j < i ==> prefix@[j] == s@[j],
    {
        if prefix[i] != s[i] {
            return false;
        }
    }
    true
}

pub fn ends_with(s: &[char], suffix: &[char]) -> (r: bool)
    ensures
        r == suffix@.is_suffix_of(s@),
{
    if suffix.len() > s.len() {
        return false;
    }
    let offset = s.len() - suffix.len();
    for i in 0..suffix.len()
        invariant
            offset + suffix.len() == s.len(),
            forall|j: int| 0 <= j < i ==> suffix@[j] == s@[offset + j],
    {
        if suffix[i] != s[offset + i] {
            return false;
        }
    }
    true
}

/// The index of the first `c` in `s`, or -1.
pub open spec fn first_index(s: Seq<char>, c: char) -> int
    decreases s.len(),
{
    if s.len() == 0 {
        -1
    } else if first_index(s.drop_last(), c) >= 0 {
        first_index(s.drop_last(), c)
    } else if s.last() == c {
        s.len() - 1
    } else {
        -1
    }
}

/// The index of the last `c` in `s`, or -1.
pub open spec fn last_index(s: Seq<char>, c: char) -> int
    decreases s.len(),
{
    if s.len() == 0 {
        -1
    } else if s.last() == c {
        s.len() - 1
    } else {
        last_index(s.drop_last(), c)
    }
}

pub proof fn lemma_first_index(s: Seq<char>, c: char)
    ensures
        -1 <= first_index(s, c) < s.len(),
        first_index(s, c) == -1 <==> !s.contains(c),
        first_index(s, c) >= 0 ==> s[first_index(s, c)] == c,
        forall|j: int| 0 <= j < first_index(s, c) ==> s[j] != c,
    decreases s.len(),
{
    if s.len() > 0 {
        lemma_first_index(s.drop_last(), c);
        assert forall|j: int| 0 <= j < first_index(s, c) implies s[j] != c by {
            assert(s.drop_last()[j] == s[j]);
            if first_index(s.drop_last(), c) < 0 {
                assert(!s.drop_last().contains(c));
            }
        }
        if first_index(s.drop_last(), c) < 0 && s.last() != c {
            assert forall|j: int| 0 <= j < s.len() implies s[j] != c by {
                if j < s.len() - 1 {
                    assert(s.drop_last()[j] == s[j]);
                }
            }
        }
        if s.drop_last().contains(c) {
            let j = choose|j: int| 0 <= j < s.drop_last().len() && s.drop_last()[j] == c;
            assert(s[j] == c);
        }
    }
}

pub proof fn lemma_last_index(s: Seq<char>, c: char)
    ensures
        -1 <= last_index(s, c) < s.len(),
        last_index(s, c) == -1 <==> !s.contains(c),
        last_index(s, c) >= 0 ==> s[last_index(s, c)] == c,
        forall|j: int| last_index(s, c) < j < s.len() ==> s[j] != c,
    decreases s.len(),
{
    if s.len() > 0 {
        lemma_last_index(s.drop_last(), c);
        assert forall|j: int| last_index(s, c) < j < s.len() implies s[j] != c by {
            if j < s.len() - 1 {
                assert(s.drop_last()[j] == s[j]);
                if last_index(s.drop_last(), c) < 0 {
                    assert(!s.drop_last().contains(c));
                }
            }
        }
        if s.last() != c {
            if s.contains(c) {
                let j = choose|j: int| 0 <= j < s.len() && s[j] == c;
                assert(s.drop_last()[j] == c);
            }
        }
    }
}

/// Everything before the first `c` and everything after it, as std's `str::split_once`.
pub open spec fn split_once(s: Seq<char>, c: char) -> Option<(Seq<char>, Seq<char>)> {
    let i = first_index(s, c);
    if i < 0 {
        None
    } else {
        Some((s.take(i), s.skip(i + 1)))
    }
}

/// Everything before the last `c` and everything after it, as std's `str::rsplit_once`.
pub open spec fn rsplit_once(s: Seq<char>, c: char) -> Option<(Seq<char>, Seq<char>)> {
    let i = last_index(s, c);
    if i < 0 {
        None
    } else {
        Some((s.take(i), s.skip(i + 1)))
    }
}

/// Where the first `c` stands.
pub fn find_char(s: &[char], c: char) -> (r: Option<usize>)
    ensures
        match r {
            Some(i) => i as int == first_index(s@, c),
            None => first_index(s@, c) == -1,
        },
{
    proof {
        lemma_first_index(s@, c);
    }
    for i in 0..s.len()
        invariant
            -1 <= first_index(s@, c) < s@.len(),
            forall|j: int| 0 <= j < first_index(s@, c) ==> s@[j] != c,
            first_index(s@, c) >= 0 ==> s@[first_index(s@, c)] == c,
            first_index(s@, c) == -1 || first_index(s@, c) >= i,
            first_index(s@, c) == -1 <==> !s@.contains(c),
    {
        if s[i] == c {
            return Some(i);
        }
    }
    None
}

/// Where the last `c` stands.
pub fn rfind_char(s: &[char], c: char) -> (r: Option<usize>)
    ensures
        match r {
            Some(i) => i as int == last_index(s@, c),
            None => last_index(s@, c) == -1,
        },
{
    proof {
        lemma_last_index(s@, c);
    }
    let mut i = s.len();
    while i > 0
        invariant
            i <= s.len(),
            -1 <= last_index(s@, c) < s@.len(),
            forall|j: int| last_index(s@, c) < j < s@.len() ==> s@[j] != c,
            last_index(s@, c) >= 0 ==> s@[last_index(s@, c)] == c,
            last_index(s@, c) < i,
            last_index(s@, c) == -1 <==> !s@.contains(c),
        decreases i,
    {
        if s[i - 1] == c {
            return Some(i - 1);
        }
        i = i - 1;
    }
    None
}

/// The characters of `s` from `start` up to `end`.
pub fn slice(s: &[char], start: usize, end: usize) -> (r: Vec<char>)
    requires
        start <= end <= s.len(),
    ensures
        r@ == s@.subrange(start as int, end as int),
{
    let mut r: Vec<char> = Vec::new();
    let mut i = start;
    while i < end
        invariant
            start <= i <= end <= s.len(),
            r@ == s@.subrange(start as int, i as int),
        decreases end - i,
    {
        r.push(s[i]);
        i = i + 1;
    }
    r
}

pub fn split_once_at(s: &[char], c: char) -> (r: Option<(Vec<char>, Vec<char>)>)
    ensures
        match r {
            Some((a, b)) => split_once(s@, c) == Some((a@, b@)),
            None => split_once(s@, c) is None,
        },
{
    proof {
        lemma_first_index(s@, c);
    }
    match find_char(s, c) {
        Some(i) => {
            let n = s.len();
            assert(i < n);
            Some((slice(s, 0, i), slice(s, i + 1, n)))
        },
        None => None,
    }
}

pub fn rsplit_once_at(s: &[char], c: char) -> (r: Option<(Vec<char>, Vec<char>)>)
    ensures
        match r {
            Some((a, b)) => rsplit_once(s@, c) == Some((a@, b@)),
            None => rsplit_once(s@, c) is None,
        },
{
    proof {
        lemma_last_index(s@, c);
    }
    match rfind_char(s, c) {
        Some(i) => {
            let n = s.len();
            assert(i < n);
            Some((slice(s, 0, i), slice(s, i + 1, n)))
        },
        None => None,
    }
}

/// The pieces between occurrences of `c`, as std's `str::split`: there is always at
/// least one, and `c` itself is in none of them.
pub open spec fn split(s: Seq<char>, c: char) -> Seq<Seq<char>>
    decreases s.len(),
{
    if s.len() == 0 {
        seq![Seq::<char>::empty()]
    } else {
        let rest = split(s.drop_last(), c);
        if s.last() == c {
            rest.push(Seq::<char>::empty())
        } else {
            rest.update(rest.len() - 1, rest.last().push(s.last()))
        }
    }
}

pub proof fn lemma_split_len(s: Seq<char>, c: char)
    ensures
        split(s, c).len() >= 1,
    decreases s.len(),
{
    if s.len() > 0 {
        lemma_split_len(s.drop_last(), c);
    }
}

pub fn split_at_char(s: &[char], c: char) -> (pieces: Vec<Vec<char>>)
    ensures
        pieces@.len() == split(s@, c).len(),
        forall|i: int| 0 <= i < pieces@.len() ==> #[trigger] pieces@[i]@ == split(s@, c)[i],
{
    let mut pieces: Vec<Vec<char>> = Vec::new();
    let mut current: Vec<char> = Vec::new();
    for i in 0..s.len()
        invariant
            pieces@.len() + 1 == split(s@.take(i as int), c).len(),
            forall|k: int|
                0 <= k < pieces@.len() ==> #[trigger] pieces@[k]@ == split(s@.take(i as int), c)[k],
            current@ == split(s@.take(i as int), c).last(),
    {
        proof {
            lemma_split_len(s@.take(i as int), c);
            assert(s@.take(i + 1).drop_last() == s@.take(i as int));
        }
        if s[i] == c {
            pieces.push(current);
            current = Vec::new();
        } else {
            current.push(s[i]);
        }
    }
    proof {
        lemma_split_len(s@, c);
        assert(s@.take(s.len() as int) == s@);
    }
    pieces.push(current);
    pieces
}

/// Whether `needle` occurs in `s` at `at`.
pub open spec fn occurs_at(s: Seq<char>, needle: Seq<char>, at: int) -> bool {
    0 <= at && at + needle.len() <= s.len() && s.subrange(at, at + needle.len()) == needle
}

/// std's `str::contains` with a text pattern.
pub open spec fn contains_text(s: Seq<char>, needle: Seq<char>) -> bool {
    exists|at: int| occurs_at(s, needle, at)
}

pub fn occurs_here(s: &[char], needle: &[char], at: usize) -> (r: bool)
    ensures
        r == occurs_at(s@, needle@, at as int),
{
    if needle.len() > s.len() || at > s.len() - needle.len() {
        return false;
    }
    for j in 0..needle.len()
        invariant
            at + needle.len() <= s.len(),
            forall|k: int| 0 <= k < j ==> needle@[k] == s@[at + k],
    {
        if needle[j] != s[at + j] {
            assert(s@.subrange(at as int, at + needle.len())[j as int] != needle@[j as int]);
            return false;
        }
    }
    assert(s@.subrange(at as int, at + needle.len()) == needle@);
    true
}

pub fn contains(s: &[char], needle: &[char]) -> (r: bool)
    ensures
        r == contains_text(s@, needle@),
{
    if needle.len() > s.len() {
        return false;
    }
    let last = s.len() - needle.len();
    let mut at: usize = 0;
    loop
        invariant
            last + needle.len() == s.len(),
            at <= last,
            forall|k: int| 0 <= k < at ==> !occurs_at(s@, needle@, k),
        decreases last - at,
    {
        if occurs_here(s, needle, at) {
            return true;
        }
        if at == last {
            assert forall|k: int| !occurs_at(s@, needle@, k) by {
                if 0 <= k && k + needle@.len() <= s@.len() {
                    assert(k <= at);
                }
            }
            return false;
        }
        at = at + 1;
    }
}

// ---------------------------------------------------------------------------------------
// Numbers
// ---------------------------------------------------------------------------------------

pub open spec fn is_digit(c: char) -> bool {
    '0' <= c && c <= '9'
}

pub open spec fn digit_value(c: char) -> nat {
    (c as nat - '0' as nat) as nat
}

pub open spec fn all_digits(s: Seq<char>) -> bool {
    forall|i: int| 0 <= i < s.len() ==> is_digit(#[trigger] s[i])
}

/// The number a run of decimal digits spells.
pub open spec fn digits_value(s: Seq<char>) -> nat
    decreases s.len(),
{
    if s.len() == 0 {
        0
    } else {
        digits_value(s.drop_last()) * 10 + digit_value(s.last())
    }
}

/// The digits after an optional leading `+`, as std's `FromStr` for unsigned integers
/// reads them: `None` when there are none, or something else is among them, or the value
/// passes `max`.
pub open spec fn parse_unsigned(s: Seq<char>, max: nat) -> Option<nat> {
    let digits = if s.len() > 0 && s[0] == '+' {
        s.drop_first()
    } else {
        s
    };
    if digits.len() > 0 && all_digits(digits) && digits_value(digits) <= max {
        Some(digits_value(digits))
    } else {
        None
    }
}

/// std's `FromStr` for `i64`: an optional sign, then digits, within range.
pub open spec fn parse_i64(s: Seq<char>) -> Option<int> {
    if s.len() > 0 && s[0] == '-' {
        let digits = s.drop_first();
        if digits.len() > 0 && all_digits(digits) && digits_value(digits) <= 0x8000_0000_0000_0000 {
            Some(-(digits_value(digits) as int))
        } else {
            None
        }
    } else {
        match parse_unsigned(s, 0x7fff_ffff_ffff_ffff) {
            Some(v) => Some(v as int),
            None => None,
        }
    }
}

proof fn lemma_digits_value_grows(s: Seq<char>, i: int)
    requires
        0 <= i <= s.len(),
    ensures
        digits_value(s.take(i)) <= digits_value(s),
    decreases s.len() - i,
{
    if i < s.len() {
        lemma_digits_value_grows(s.drop_last(), i);
        assert(s.drop_last().take(i) == s.take(i));
    } else {
        assert(s.take(i) == s);
    }
}

proof fn lemma_step_exceeds(value: u64, digit: u64, max: u64)
    requires
        digit <= 9,
        digit > max || value > (max - digit) / 10,
    ensures
        value * 10 + digit > max,
{
    if digit <= max {
        assert(value * 10 + digit > max) by (nonlinear_arith)
            requires
                value > (max - digit) / 10,
                digit <= max,
        ;
    }
}

proof fn lemma_step_within(value: u64, digit: u64, max: u64)
    requires
        digit <= max,
        value <= (max - digit) / 10,
    ensures
        value * 10 + digit <= max,
{
    assert(value * 10 + digit <= max) by (nonlinear_arith)
        requires
            value <= (max - digit) / 10,
            digit <= max,
    ;
}

/// The value of a run of digits, or `None` when there are no digits, something other than
/// a digit is among them, or the value passes `max`.
proof fn lemma_digits_step(d: Seq<char>, k: int)
    requires
        0 <= k < d.len(),
    ensures
        digits_value(d.take(k + 1)) == digits_value(d.take(k)) * 10 + digit_value(d[k]),
{
    assert(d.take(k + 1).drop_last() == d.take(k));
}

pub fn digits_up_to(s: &[char], start: usize, max: u64) -> (r: Option<u64>)
    requires
        start <= s.len(),
    ensures
        ({
            let d = s@.skip(start as int);
            match r {
                Some(v) => d.len() > 0 && all_digits(d) && digits_value(d) <= max && v
                    == digits_value(d),
                None => !(d.len() > 0 && all_digits(d) && digits_value(d) <= max),
            }
        }),
{
    let ghost d = s@.skip(start as int);
    if start == s.len() {
        return None;
    }
    let mut value: u64 = 0;
    let mut i = start;
    while i < s.len()
        invariant
            start <= i <= s.len(),
            d == s@.skip(start as int),
            forall|k: int| 0 <= k < i - start ==> is_digit(#[trigger] d[k]),
            value as nat == digits_value(d.take(i - start)),
            value <= max,
        decreases s.len() - i,
    {
        let c = s[i];
        assert(d[i - start] == c);
        if !('0' <= c && c <= '9') {
            assert(!is_digit(d[i - start]));
            return None;
        }
        let digit = (c as u32 - '0' as u32) as u64;
        proof {
            lemma_digits_step(d, i - start);
        }
        if digit > max || value > (max - digit) / 10 {
            proof {
                lemma_step_exceeds(value, digit, max);
                lemma_digits_value_grows(d, i - start + 1);
            }
            return None;
        }
        proof {
            lemma_step_within(value, digit, max);
        }
        value = value * 10 + digit;
        i = i + 1;
    }
    proof {
        assert(d.take(s.len() - start) == d);
    }
    Some(value)
}

/// std's `str::parse::<u64>()`, with the largest accepted value lowered to `max` (the
/// narrower unsigned types).
pub fn parse_unsigned_up_to(s: &[char], max: u64) -> (r: Option<u64>)
    ensures
        match r {
            Some(v) => parse_unsigned(s@, max as nat) == Some(v as nat),
            None => parse_unsigned(s@, max as nat) is None,
        },
{
    if s.len() > 0 && s[0] == '+' {
        proof {
            assert(s@.skip(1) == s@.drop_first());
        }
        digits_up_to(s, 1, max)
    } else {
        proof {
            assert(s@.skip(0) == s@);
        }
        digits_up_to(s, 0, max)
    }
}

/// std's `str::parse::<usize>()`.
pub fn parse_usize(s: &[char]) -> (r: Option<usize>)
    ensures
        match r {
            Some(v) => parse_unsigned(s@, usize::MAX as nat) == Some(v as nat),
            None => parse_unsigned(s@, usize::MAX as nat) is None,
        },
{
    match parse_unsigned_up_to(s, usize::MAX as u64) {
        Some(v) => Some(v as usize),
        None => None,
    }
}

/// std's `str::parse::<u32>()`.
pub fn parse_u32(s: &[char]) -> (r: Option<u32>)
    ensures
        match r {
            Some(v) => parse_unsigned(s@, u32::MAX as nat) == Some(v as nat),
            None => parse_unsigned(s@, u32::MAX as nat) is None,
        },
{
    match parse_unsigned_up_to(s, u32::MAX as u64) {
        Some(v) => Some(v as u32),
        None => None,
    }
}

/// std's `str::parse::<i64>()`.
pub fn parse_i64_text(s: &[char]) -> (r: Option<i64>)
    ensures
        match r {
            Some(v) => parse_i64(s@) == Some(v as int),
            None => parse_i64(s@) is None,
        },
{
    if s.len() > 0 && s[0] == '-' {
        proof {
            assert(s@.skip(1) == s@.drop_first());
        }
        match digits_up_to(s, 1, 0x8000_0000_0000_0000u64) {
            Some(v) => {
                if v == 0x8000_0000_0000_0000u64 {
                    Some(i64::MIN)
                } else {
                    Some(-(v as i64))
                }
            },
            None => None,
        }
    } else {
        match parse_unsigned_up_to(s, 0x7fff_ffff_ffff_ffffu64) {
            Some(v) => Some(v as i64),
            None => None,
        }
    }
}

pub open spec fn digit_char(d: nat) -> char
    recommends
        d < 10,
{
    ((d + '0' as nat) as u32) as char
}

/// The decimal digits of `n`, as `Display` writes an unsigned integer.
pub open spec fn decimal(n: nat) -> Seq<char>
    decreases n,
{
    if n < 10 {
        seq![digit_char(n)]
    } else {
        decimal(n / 10).push(digit_char(n % 10))
    }
}

/// As `Display` writes a signed integer.
pub open spec fn signed_decimal(n: int) -> Seq<char> {
    if n < 0 {
        seq!['-'] + decimal((-n) as nat)
    } else {
        decimal(n as nat)
    }
}

pub fn digit_of(d: u64) -> (c: char)
    requires
        d < 10,
    ensures
        c == digit_char(d as nat),
{
    let code = d as u8 + 48u8;
    code as char
}

pub fn decimal_of(n: u64) -> (r: Vec<char>)
    ensures
        r@ == decimal(n as nat),
    decreases n,
{
    if n < 10 {
        let mut r: Vec<char> = Vec::new();
        r.push(digit_of(n));
        r
    } else {
        let mut r = decimal_of(n / 10);
        r.push(digit_of(n % 10));
        r
    }
}

pub fn signed_decimal_of(n: i64) -> (r: Vec<char>)
    ensures
        r@ == signed_decimal(n as int),
{
    if n < 0 {
        let magnitude: u64 = if n == i64::MIN {
            0x8000_0000_0000_0000u64
        } else {
            (-n) as u64
        };
        let mut r: Vec<char> = Vec::new();
        r.push('-');
        let digits = decimal_of(magnitude);
        let mut i: usize = 0;
        while i < digits.len()
            invariant
                i <= digits.len(),
                r@ == seq!['-'] + digits@.take(i as int),
            decreases digits.len() - i,
        {
            r.push(digits[i]);
            i = i + 1;
            assert(digits@.take(i as int) == digits@.take(i - 1).push(digits@[i - 1]));
        }
        assert(digits@.take(digits.len() as int) == digits@);
        r
    } else {
        decimal_of(n as u64)
    }
}

/// Appends `more` to `s`.
pub fn append(s: &mut Vec<char>, more: &[char])
    ensures
        final(s)@ == old(s)@ + more@,
{
    let ghost start = s@;
    for i in 0..more.len()
        invariant
            s@ == start + more@.take(i as int),
    {
        s.push(more[i]);
        assert(more@.take(i + 1) == more@.take(i as int).push(more@[i as int]));
    }
    assert(more@.take(more.len() as int) == more@);
}

/// Whether two texts are the same characters.
pub fn same(a: &[char], b: &[char]) -> (r: bool)
    ensures
        r == (a@ == b@),
{
    if a.len() != b.len() {
        return false;
    }
    for i in 0..a.len()
        invariant
            a.len() == b.len(),
            forall|j: int| 0 <= j < i ==> a@[j] == b@[j],
    {
        if a[i] != b[i] {
            return false;
        }
    }
    assert(a@ == b@);
    true
}

/// Whether two strings are the same characters.
pub fn same_string(a: &String, b: &String) -> (r: bool)
    ensures
        r == (a@ == b@),
{
    let x = chars_of(a.as_str());
    let y = chars_of(b.as_str());
    same(&x, &y)
}

// ---------------------------------------------------------------------------------------
// NUL-separated records
// ---------------------------------------------------------------------------------------

/// Scans bytes for NUL-separated records: the records finished so far, each a nonempty run
/// of bytes, and the run still open at the end.
pub open spec fn nul_scan(bytes: Seq<u8>) -> (Seq<Seq<u8>>, Seq<u8>)
    decreases bytes.len(),
{
    if bytes.len() == 0 {
        (Seq::empty(), Seq::empty())
    } else {
        let (done, open) = nul_scan(bytes.drop_last());
        if bytes.last() == 0 {
            (if open.len() > 0 {
                done.push(open)
            } else {
                done
            }, Seq::empty())
        } else {
            (done, open.push(bytes.last()))
        }
    }
}

/// The nonempty pieces of `bytes` between NULs, in order: a split at every NUL with the
/// empty pieces left out.
pub open spec fn nul_records(bytes: Seq<u8>) -> Seq<Seq<u8>> {
    let (done, open) = nul_scan(bytes);
    if open.len() > 0 {
        done.push(open)
    } else {
        done
    }
}

pub open spec fn byte_views(records: Seq<Vec<u8>>) -> Seq<Seq<u8>> {
    records.map_values(|r: Vec<u8>| r@)
}

/// The nonempty NUL-separated records of `bytes`.
pub fn nul_records_of(bytes: &[u8]) -> (records: Vec<Vec<u8>>)
    ensures
        byte_views(records@) == nul_records(bytes@),
{
    let mut done: Vec<Vec<u8>> = Vec::new();
    let mut open: Vec<u8> = Vec::new();
    for i in 0..bytes.len()
        invariant
            (byte_views(done@), open@) == nul_scan(bytes@.take(i as int)),
    {
        assert(bytes@.take(i + 1).drop_last() == bytes@.take(i as int));
        if bytes[i] == 0 {
            if open.len() > 0 {
                let ghost before = done@;
                done.push(open);
                assert(byte_views(done@) == byte_views(before).push(open@));
            }
            open = Vec::new();
        } else {
            open.push(bytes[i]);
        }
    }
    assert(bytes@.take(bytes.len() as int) == bytes@);
    if open.len() > 0 {
        let ghost before = done@;
        done.push(open);
        assert(byte_views(done@) == byte_views(before).push(open@));
    }
    done
}

/// The texts of `names` with every repeat of an earlier one left out.
pub open spec fn distinct(names: Seq<Seq<char>>) -> Seq<Seq<char>>
    decreases names.len(),
{
    if names.len() == 0 {
        Seq::empty()
    } else {
        let kept = distinct(names.drop_last());
        if kept.contains(names.last()) {
            kept
        } else {
            kept.push(names.last())
        }
    }
}

pub proof fn lemma_distinct(names: Seq<Seq<char>>)
    ensures
        distinct(names).no_duplicates(),
        distinct(names).to_set() == names.to_set(),
    decreases names.len(),
{
    if names.len() > 0 {
        let rest = names.drop_last();
        lemma_distinct(rest);
        let kept = distinct(rest);
        assert(names == rest.push(names.last()));
        assert forall|x: Seq<char>| names.contains(x) <==> (rest.contains(x) || x == names.last()) by {
            if names.contains(x) {
                let k = choose|k: int| 0 <= k < names.len() && names[k] == x;
                if k < rest.len() {
                    assert(rest[k] == x);
                }
            }
            if rest.contains(x) {
                let k = choose|k: int| 0 <= k < rest.len() && rest[k] == x;
                assert(names[k] == x);
            }
        }
        assert forall|x: Seq<char>| distinct(names).contains(x) <==> (kept.contains(x) || x == names.last()) by {
            if !kept.contains(names.last()) {
                let pushed = kept.push(names.last());
                if pushed.contains(x) {
                    let k = choose|k: int| 0 <= k < pushed.len() && pushed[k] == x;
                    if k < kept.len() {
                        assert(kept[k] == x);
                    }
                }
                if kept.contains(x) {
                    let k = choose|k: int| 0 <= k < kept.len() && kept[k] == x;
                    assert(pushed[k] == x);
                }
                assert(pushed[kept.len() as int] == names.last());
            }
        }
        assert forall|x: Seq<char>| kept.contains(x) == rest.contains(x) by {
            assert(kept.to_set().contains(x) == rest.to_set().contains(x));
        }
        assert(distinct(names).to_set() =~= names.to_set());
    } else {
        assert(distinct(names).to_set() =~= names.to_set());
    }
}

/// The texts of some strings.
pub open spec fn texts(strings: Seq<String>) -> Seq<Seq<char>> {
    strings.map_values(|s: String| s@)
}

/// Whether `names` holds a string of the same characters as `name`.
pub fn holds(names: &Vec<String>, name: &String) -> (r: bool)
    ensures
        r == texts(names@).contains(name@),
{
    for i in 0..names.len()
        invariant
            forall|j: int| 0 <= j < i ==> names@[j]@ != name@,
    {
        if names[i] == *name {
            assert(texts(names@)[i as int] == name@);
            return true;
        }
    }
    assert forall|j: int| 0 <= j < texts(names@).len() implies texts(names@)[j] != name@ by {
        assert(texts(names@)[j] == names@[j]@);
    }
    false
}

/// `s` without the leading `prefix`, as std's `str::strip_prefix`.
pub open spec fn without_prefix(s: Seq<char>, prefix: Seq<char>) -> Option<Seq<char>> {
    if prefix.is_prefix_of(s) {
        Some(s.skip(prefix.len() as int))
    } else {
        None
    }
}

pub fn strip_prefix(s: &[char], prefix: &[char]) -> (r: Option<Vec<char>>)
    ensures
        match r {
            Some(rest) => without_prefix(s@, prefix@) == Some(rest@),
            None => without_prefix(s@, prefix@) is None,
        },
{
    if starts_with(s, prefix) {
        let rest = slice(s, prefix.len(), s.len());
        assert(rest@ == s@.skip(prefix.len() as int));
        Some(rest)
    } else {
        None
    }
}

// ---------------------------------------------------------------------------------------
// Order
// ---------------------------------------------------------------------------------------

/// How std orders strings: by the first character that differs, a proper prefix first.
pub open spec fn text_less(a: Seq<char>, b: Seq<char>) -> bool
    decreases a.len(),
{
    if a.len() == 0 {
        b.len() > 0
    } else if b.len() == 0 {
        false
    } else if a[0] != b[0] {
        a[0] < b[0]
    } else {
        text_less(a.drop_first(), b.drop_first())
    }
}

pub proof fn lemma_text_less_order(a: Seq<char>, b: Seq<char>, c: Seq<char>)
    ensures
        !text_less(a, a),
        a == b || text_less(a, b) || text_less(b, a),
        text_less(a, b) ==> !text_less(b, a),
        text_less(a, b) && text_less(b, c) ==> text_less(a, c),
    decreases a.len(),
{
    if a.len() > 0 {
        lemma_text_less_order(a.drop_first(), a.drop_first(), c.drop_first());
    }
    if a.len() > 0 && b.len() > 0 && a[0] == b[0] {
        lemma_text_less_order(a.drop_first(), b.drop_first(), c.drop_first());
        if a.drop_first() == b.drop_first() {
            assert(a == seq![a[0]] + a.drop_first());
            assert(b == seq![b[0]] + b.drop_first());
        }
    }
    if a.len() > 0 && b.len() > 0 && c.len() > 0 && a[0] == b[0] && b[0] == c[0] {
        lemma_text_less_order(a.drop_first(), b.drop_first(), c.drop_first());
    }
}

/// Whether `a` comes before `b` in std's order of strings.
pub fn less_text(a: &[char], b: &[char]) -> (r: bool)
    ensures
        r == text_less(a@, b@),
{
    let mut i: usize = 0;
    assert(a@.skip(0) =~= a@);
    assert(b@.skip(0) =~= b@);
    while i < a.len() && i < b.len()
        invariant
            i <= a.len(),
            i <= b.len(),
            text_less(a@, b@) == text_less(a@.skip(i as int), b@.skip(i as int)),
        decreases a.len() - i,
    {
        assert(a@.skip(i as int).drop_first() =~= a@.skip(i + 1));
        assert(b@.skip(i as int).drop_first() =~= b@.skip(i + 1));
        if a[i] != b[i] {
            return a[i] < b[i];
        }
        i = i + 1;
    }
    i < b.len()
}

/// std's order of strings, ties included.
pub open spec fn text_le(a: Seq<char>, b: Seq<char>) -> bool {
    !text_less(b, a)
}

pub proof fn lemma_text_le_total()
    ensures
        vstd::relations::total_ordering(|a: Seq<char>, b: Seq<char>| text_le(a, b)),
{
    let leq = |a: Seq<char>, b: Seq<char>| text_le(a, b);
    assert forall|x: Seq<char>| #[trigger] leq(x, x) by {
        lemma_text_less_order(x, x, x);
    }
    assert forall|x: Seq<char>, y: Seq<char>| #[trigger] leq(x, y) && #[trigger] leq(y, x) implies x
        == y by {
        lemma_text_less_order(x, y, x);
    }
    assert forall|x: Seq<char>, y: Seq<char>, z: Seq<char>| #[trigger] leq(x, y) && #[trigger] leq(
        y,
        z,
    ) implies leq(x, z) by {
        lemma_text_less_order(x, y, z);
        lemma_text_less_order(z, y, x);
        lemma_text_less_order(y, x, z);
        lemma_text_less_order(z, x, y);
        lemma_text_less_order(x, z, y);
        lemma_text_less_order(y, z, x);
    }
    assert forall|x: Seq<char>, y: Seq<char>| #[trigger] leq(x, y) || #[trigger] leq(y, x) by {
        lemma_text_less_order(x, y, x);
    }
}

/// Some texts in std's order of strings.
pub open spec fn in_text_order(names: Seq<Seq<char>>) -> Seq<Seq<char>> {
    names.sort_by(|a: Seq<char>, b: Seq<char>| text_le(a, b))
}

/// Puts strings in std's order.
pub fn sort_texts(names: Vec<String>) -> (sorted: Vec<String>)
    ensures
        texts(sorted@) == in_text_order(texts(names@)),
{
    broadcast use vstd::multiset::group_multiset_axioms, vstd::seq_lib::group_to_multiset_ensures;

    let ghost leq = |a: Seq<char>, b: Seq<char>| text_le(a, b);
    let ghost all = texts(names@);
    let mut rest = names;
    let mut sorted: Vec<String> = Vec::new();
    assert(texts(sorted@).to_multiset() =~= Multiset::empty());
    assert(texts(rest@) == all);
    while rest.len() > 0
        invariant
            texts(sorted@).to_multiset().add(texts(rest@).to_multiset()) == all.to_multiset(),
            forall|i: int, j: int|
                0 <= i < j < sorted@.len() ==> text_le(sorted@[i]@, sorted@[j]@),
        decreases rest.len(),
    {
        let ghost before_rest = texts(rest@);
        let name = rest.remove(0);
        proof {
            assert(texts(rest@) =~= before_rest.remove(0));
            vstd::seq_lib::to_multiset_remove(before_rest, 0);
            vstd::seq_lib::to_multiset_contains(before_rest, name@);
            assert(before_rest[0] == name@);
        }
        let key = chars_of(name.as_str());
        let mut p: usize = 0;
        while p < sorted.len() && !less_text(&key, &chars_of(sorted[p].as_str()))
            invariant
                p <= sorted.len(),
                key@ == name@,
                forall|i: int| 0 <= i < p ==> !text_less(name@, #[trigger] sorted@[i]@),
            decreases sorted.len() - p,
        {
            p = p + 1;
        }
        let ghost before = sorted@;
        sorted.insert(p, name);
        proof {
            assert(texts(sorted@) =~= texts(before).insert(p as int, name@));
            vstd::seq_lib::to_multiset_insert(texts(before), p as int, name@);
            assert(texts(sorted@).to_multiset().add(texts(rest@).to_multiset()) =~= all.to_multiset());
            assert forall|i: int, j: int| 0 <= i < j < sorted@.len() implies text_le(
                sorted@[i]@,
                sorted@[j]@,
            ) by {
                if i < p && j == p {
                    lemma_text_less_order(name@, before[i]@, before[i]@);
                } else if i == p && j > p {
                    let later = before[j - 1]@;
                    let first = before[p as int]@;
                    lemma_text_less_order(name@, first, later);
                    lemma_text_less_order(first, later, later);
                    lemma_text_less_order(later, name@, name@);
                    if p < j - 1 {
                        assert(text_le(first, later));
                    }
                } else if i < p && j > p {
                    assert(sorted@[i] == before[i] && sorted@[j] == before[j - 1]);
                } else if j < p {
                    assert(sorted@[i] == before[i] && sorted@[j] == before[j]);
                } else {
                    assert(sorted@[i] == before[i - 1] && sorted@[j] == before[j - 1]);
                }
            }
        }
    }
    proof {
        assert(texts(rest@).to_multiset() =~= Multiset::empty());
        lemma_text_le_total();
        all.lemma_sort_by_ensures(leq);
        assert(vstd::relations::sorted_by(texts(sorted@), leq));
        assert(texts(sorted@).to_multiset() =~= all.to_multiset());
        assert(texts(sorted@).to_multiset() =~= all.sort_by(leq).to_multiset());
        vstd::seq_lib::lemma_sorted_unique(texts(sorted@), all.sort_by(leq), leq);
    }
    sorted
}

} // verus!
