//! Avatars: where an author's picture is published, and the mark drawn in its place,
//! derived from the identity alone so that an author always produces the same one.
use crate::text::{
    bytes_of, chars_of, ends_with, split, split_at_char, split_once, split_once_at, string_of,
    to_lowercase, trim, trimmed, unicode_lowercase, ascii_lower, ascii_lowercase, first_index,
    is_ascii_text,
};
use vstd::prelude::*;

verus! {

/// The side of a fetched avatar, in pixels.
pub const SIZE: u32 = 64;

/// The generated mark is a square of this many cells a side.
pub const GRID: usize = 5;

/// Who wrote a commit, as git records it.
pub struct Identity {
    pub name: String,
    pub email: String,
}

/// The mark drawn when there is no remote avatar, or before one has been fetched.
#[derive(Clone, Copy)]
pub struct Generated {
    pub colour: [u8; 3],
    pub cells: [bool; 25],
}

/// What SHA-256 makes of some bytes.
pub uninterp spec fn sha256_digest(bytes: Seq<u8>) -> Seq<u8>;

/// sha2's `Sha256::digest`: the SHA-256 digest of `bytes`, whose value is named rather than
/// stated.
#[verifier::external_body]
fn sha256(bytes: &[u8]) -> (digest: [u8; 32])
    ensures
        digest@ == sha256_digest(bytes@),
{
    <sha2::Sha256 as sha2::Digest>::digest(bytes).into()
}

/// The bytes an identity's fingerprint is the digest of: the trimmed name, a zero byte, and
/// the trimmed, lowercased address.
pub open spec fn fingerprint_input(name: Seq<char>, email: Seq<char>) -> Seq<u8> {
    vstd::utf8::encode_utf8(trim(name)) + seq![0u8] + vstd::utf8::encode_utf8(
        unicode_lowercase(trim(email)),
    )
}

/// The address as gravatar hashes it: trimmed and lowercased.
pub open spec fn normal_address(email: Seq<char>) -> Seq<char> {
    unicode_lowercase(trim(email))
}

/// The GitHub user id in a `<id>+<login>@users.noreply.github.com` address: the part of
/// the local part before any `+`, when it is all ASCII digits.
pub open spec fn github_id_of(email: Seq<char>) -> Option<Seq<char>> {
    if !"@users.noreply.github.com"@.is_suffix_of(normal_address(email)) {
        None
    } else {
        let local = split(trim(email), '@')[0];
        let id = match split_once(local, '+') {
            Some((id, _)) => id,
            None => local,
        };
        if ascii_digits(id) {
            Some(id)
        } else {
            None
        }
    }
}

/// Whether every character is an ASCII digit.
pub open spec fn ascii_digits(s: Seq<char>) -> bool {
    forall|i: int| 0 <= i < s.len() ==> '0' <= #[trigger] s[i] && s[i] <= '9'
}

pub open spec fn hex_digit(d: int) -> char {
    if d < 10 {
        (48 + d) as char
    } else {
        (87 + d) as char
    }
}

/// Bytes as lowercase hexadecimal, two digits each.
pub open spec fn hex_text(bytes: Seq<u8>) -> Seq<char>
    decreases bytes.len(),
{
    if bytes.len() == 0 {
        Seq::empty()
    } else {
        hex_text(bytes.drop_last()) + seq![
            hex_digit(bytes.last() as int / 16),
            hex_digit(bytes.last() as int % 16),
        ]
    }
}

/// Where an author's avatar is published: GitHub's, when the address is one GitHub hands
/// out, else the gravatar of the address, asked to answer 404 rather than with a
/// placeholder when there is none.
pub open spec fn remote_url_text(email: Seq<char>) -> Seq<char> {
    match github_id_of(email) {
        Some(id) => "https://avatars.githubusercontent.com/u/"@ + id + "?s=64"@,
        None => "https://gravatar.com/avatar/"@ + hex_text(
            sha256_digest(vstd::utf8::encode_utf8(normal_address(email))),
        ) + "?s=64&d=404"@,
    }
}

/// Outside GitHub's addresses the avatar URL is the gravatar of the trimmed, lowercased
/// address alone: two such addresses that trim and lowercase alike share it.
pub proof fn lemma_gravatar_url_of_normal_address(a: Seq<char>, b: Seq<char>)
    requires
        github_id_of(a) is None,
        github_id_of(b) is None,
        normal_address(a) == normal_address(b),
    ensures
        remote_url_text(a) == remote_url_text(b),
{
}

/// The GitHub user id in a trimmed, lowercased `<id>+<login>@users.noreply.github.com`
/// address: the part of the local part before any `+`, when it is all ASCII digits.
pub open spec fn github_id_in(address: Seq<char>) -> Option<Seq<char>> {
    if !"@users.noreply.github.com"@.is_suffix_of(address) {
        None
    } else {
        let local = split(address, '@')[0];
        let id = match split_once(local, '+') {
            Some((id, _)) => id,
            None => local,
        };
        if ascii_digits(id) {
            Some(id)
        } else {
            None
        }
    }
}

/// The avatar URL of a trimmed, lowercased address.
pub open spec fn url_of_normal(address: Seq<char>) -> Seq<char> {
    match github_id_in(address) {
        Some(id) => "https://avatars.githubusercontent.com/u/"@ + id + "?s=64"@,
        None => "https://gravatar.com/avatar/"@ + hex_text(
            sha256_digest(vstd::utf8::encode_utf8(address)),
        ) + "?s=64&d=404"@,
    }
}

/// The URL of an address is that of its trimmed, lowercased form: two addresses that trim
/// and lowercase alike share it, whatever the names beside them.
pub proof fn lemma_url_of_normal(a: Seq<char>, b: Seq<char>)
    requires
        ascii_lowercase(trim(a)) == ascii_lowercase(trim(b)),
    ensures
        url_of_normal(ascii_lowercase(trim(a))) == url_of_normal(ascii_lowercase(trim(b))),
{
}

proof fn lemma_lower_keeps(c: char, x: char)
    requires
        c == '@' || c == '+',
    ensures
        (ascii_lower(x) == c) == (x == c),
{
}

proof fn lemma_first_index_lower(s: Seq<char>, c: char)
    requires
        c == '@' || c == '+',
    ensures
        first_index(ascii_lowercase(s), c) == first_index(s, c),
    decreases s.len(),
{
    if s.len() > 0 {
        assert(ascii_lowercase(s).drop_last() =~= ascii_lowercase(s.drop_last()));
        lemma_first_index_lower(s.drop_last(), c);
        lemma_lower_keeps(c, s.last());
    }
}

proof fn lemma_split_lower(s: Seq<char>, c: char)
    requires
        c == '@' || c == '+',
    ensures
        split(ascii_lowercase(s), c) == split(s, c).map_values(|p: Seq<char>| ascii_lowercase(p)),
    decreases s.len(),
{
    let lowered = |p: Seq<char>| ascii_lowercase(p);
    if s.len() == 0 {
        assert(ascii_lowercase(s) =~= Seq::<char>::empty());
        assert(ascii_lowercase(Seq::<char>::empty()) =~= Seq::<char>::empty());
        assert(split(s, c).map_values(lowered) =~= split(ascii_lowercase(s), c));
    } else {
        let l = ascii_lowercase(s);
        assert(l.drop_last() =~= ascii_lowercase(s.drop_last()));
        lemma_split_lower(s.drop_last(), c);
        lemma_lower_keeps(c, s.last());
        crate::text::lemma_split_len(s.drop_last(), c);
        let rest = split(s.drop_last(), c);
        if s.last() == c {
            assert(ascii_lowercase(Seq::<char>::empty()) =~= Seq::<char>::empty());
            assert(split(s, c).map_values(lowered) =~= rest.map_values(lowered).push(
                Seq::<char>::empty(),
            ));
        } else {
            assert(ascii_lowercase(rest.last().push(s.last())) =~= ascii_lowercase(rest.last()).push(
                ascii_lower(s.last()),
            ));
            assert(split(s, c).map_values(lowered) =~= rest.map_values(lowered).update(
                rest.len() - 1,
                ascii_lowercase(rest.last()).push(l.last()),
            ));
        }
    }
}

proof fn lemma_digits_lower(s: Seq<char>)
    ensures
        ascii_digits(ascii_lowercase(s)) == ascii_digits(s),
        ascii_digits(s) ==> ascii_lowercase(s) == s,
{
    let lower = ascii_lowercase(s);
    if ascii_digits(s) {
        assert forall|i: int| 0 <= i < lower.len() implies '0' <= #[trigger] lower[i] && lower[i]
            <= '9' by {
            assert('0' <= s[i] && s[i] <= '9');
        }
        assert(lower =~= s);
    }
    if ascii_digits(lower) {
        assert forall|i: int| 0 <= i < s.len() implies '0' <= #[trigger] s[i] && s[i] <= '9' by {
            assert('0' <= lower[i] && lower[i] <= '9');
        }
    }
}

/// An address whose lowercasing lowercases only its ASCII letters has the GitHub id, and the
/// avatar URL, of its trimmed, lowercased form.
proof fn lemma_github_id_lowered(email: Seq<char>)
    requires
        normal_address(email) == ascii_lowercase(trim(email)),
    ensures
        github_id_of(email) == github_id_in(ascii_lowercase(trim(email))),
        remote_url_text(email) == url_of_normal(ascii_lowercase(trim(email))),
{
    let t = trim(email);
    let l = ascii_lowercase(t);
    lemma_split_lower(t, '@');
    crate::text::lemma_split_len(t, '@');
    let local = split(t, '@')[0];
    assert(split(l, '@')[0] == ascii_lowercase(local));
    lemma_first_index_lower(local, '+');
    crate::text::lemma_first_index(local, '+');
    let i = first_index(local, '+');
    let id = match split_once(local, '+') {
        Some((id, _)) => id,
        None => local,
    };
    let lowered_id = match split_once(ascii_lowercase(local), '+') {
        Some((id, _)) => id,
        None => ascii_lowercase(local),
    };
    if i >= 0 {
        assert(ascii_lowercase(local).take(i) =~= ascii_lowercase(local.take(i)));
    }
    assert(lowered_id == ascii_lowercase(id));
    lemma_digits_lower(id);
}

fn hex_digit_of(d: u8) -> (c: char)
    requires
        d < 16,
    ensures
        c == hex_digit(d as int),
{
    if d < 10 {
        (48u8 + d) as char
    } else {
        (87u8 + d) as char
    }
}

/// Bytes as lowercase hexadecimal.
pub fn hex(bytes: &[u8]) -> (text: String)
    ensures
        text@ == hex_text(bytes@),
{
    let mut chars: Vec<char> = Vec::new();
    for i in 0..bytes.len()
        invariant
            chars@ == hex_text(bytes@.take(i as int)),
    {
        assert(bytes@.take(i + 1).drop_last() == bytes@.take(i as int));
        chars.push(hex_digit_of(bytes[i] / 16));
        chars.push(hex_digit_of(bytes[i] % 16));
    }
    assert(bytes@.take(bytes.len() as int) == bytes@);
    string_of(&chars)
}

impl Identity {
    /// The SHA-256 digest of the trimmed name, a zero byte and the trimmed, lowercased
    /// address.
    pub fn fingerprint(&self) -> (digest: [u8; 32])
        ensures
            digest@ == sha256_digest(fingerprint_input(self.name@, self.email@)),
    {
        let name = string_of(&trimmed(&chars_of(self.name.as_str())));
        let email = to_lowercase(string_of(&trimmed(&chars_of(self.email.as_str()))).as_str());
        let mut input = bytes_of(name.as_str());
        input.push(0);
        let ghost first = input@;
        let mut rest = bytes_of(email.as_str());
        let ghost second = rest@;
        input.append(&mut rest);
        assert(input@ == first + second);
        assert(input@ =~= fingerprint_input(self.name@, self.email@));
        sha256(&input)
    }

    /// The numeric user id in a GitHub no-reply address, which is enough to build an avatar
    /// address without asking GitHub anything.
    pub fn github_id(&self) -> (id: Option<String>)
        ensures
            match id {
                Some(id) => github_id_of(self.email@) == Some(id@),
                None => github_id_of(self.email@) is None,
            },
            is_ascii_text(trim(self.email@)) ==> normal_address(self.email@) == ascii_lowercase(
                trim(self.email@),
            ),
    {
        let email = trimmed(&chars_of(self.email.as_str()));
        let lower = chars_of(to_lowercase(string_of(&email).as_str()).as_str());
        if !ends_with(&lower, &chars_of("@users.noreply.github.com")) {
            return None;
        }
        let pieces = split_at_char(&email, '@');
        proof {
            crate::text::lemma_split_len(email@, '@');
        }
        assert(pieces@[0]@ == split(email@, '@')[0]);
        let local = &pieces[0];
        let id = match split_once_at(local, '+') {
            Some((id, _)) => id,
            None => copy_chars(local),
        };
        let ghost spec_local = split(trim(self.email@), '@')[0];
        let ghost spec_id = match split_once(spec_local, '+') {
            Some((id, _)) => id,
            None => spec_local,
        };
        assert(lower@ == normal_address(self.email@));
        assert(id@ == spec_id);
        for i in 0..id.len()
            invariant
                id@ == spec_id,
                "@users.noreply.github.com"@.is_suffix_of(normal_address(self.email@)),
                is_ascii_text(trim(self.email@)) ==> normal_address(self.email@) == ascii_lowercase(
                    trim(self.email@),
                ),
                spec_id == match split_once(split(trim(self.email@), '@')[0], '+') {
                    Some((id, _)) => id,
                    None => split(trim(self.email@), '@')[0],
                },
                forall|j: int| 0 <= j < i ==> '0' <= #[trigger] id@[j] && id@[j] <= '9',
        {
            if !('0' <= id[i] && id[i] <= '9') {
                assert(!('0' <= spec_id[i as int] && spec_id[i as int] <= '9'));
                assert(github_id_of(self.email@) is None);
                return None;
            }
        }
        Some(string_of(&id))
    }

    /// Where this author's avatar is published.
    pub fn remote_url(&self) -> (url: String)
        ensures
            url@ == remote_url_text(self.email@),
            is_ascii_text(trim(self.email@)) ==> url@ == url_of_normal(
                ascii_lowercase(trim(self.email@)),
            ),
    {
        let found = self.github_id();
        proof {
            if is_ascii_text(trim(self.email@)) {
                lemma_github_id_lowered(self.email@);
            }
        }
        match found {
            Some(id) => {
                let mut text = chars_of("https://avatars.githubusercontent.com/u/");
                text.append(&mut chars_of(id.as_str()));
                text.append(&mut chars_of("?s=64"));
                string_of(&text)
            },
            None => {
                let email = to_lowercase(string_of(&trimmed(&chars_of(self.email.as_str()))).as_str());
                let digest = sha256(&bytes_of(email.as_str()));
                let mut text = chars_of("https://gravatar.com/avatar/");
                text.append(&mut chars_of(hex(&digest).as_str()));
                text.append(&mut chars_of("?s=64&d=404"));
                string_of(&text)
            },
        }
    }

    /// The name of this author's avatar in the cache: the fingerprint in hexadecimal.
    pub fn cache_file_name(&self) -> (name: String)
        ensures
            name@ == hex_text(sha256_digest(fingerprint_input(self.name@, self.email@)))
                + ".square.png"@,
    {
        let mut text = chars_of(hex(&self.fingerprint()).as_str());
        text.append(&mut chars_of(".square.png"));
        string_of(&text)
    }
}

fn copy_chars(s: &Vec<char>) -> (copy: Vec<char>)
    ensures
        copy@ == s@,
{
    let mut copy: Vec<char> = Vec::new();
    for i in 0..s.len()
        invariant
            copy@ == s@.take(i as int),
    {
        copy.push(s[i]);
        assert(s@.take(i + 1) == s@.take(i as int).push(s@[i as int]));
    }
    assert(s@.take(s.len() as int) == s@);
    copy
}

/// Whether cell `i` of the mark is set: the cells of a row mirror about its middle column,
/// and each of the first three columns is set by the low bit of its own byte of the
/// fingerprint.
pub open spec fn cell_of(fingerprint: Seq<u8>, i: int) -> bool {
    let row = i / 5;
    let column = i % 5;
    let source = if column <= 2 {
        column
    } else {
        4 - column
    };
    fingerprint[row * 5 + source] % 2 == 1
}

/// The mark's colour for the first byte of the fingerprint. Saturation and lightness are
/// fixed at 0.55, so every mark reads at the same weight against either theme and only the
/// hue, `byte / 255` of the way round the circle, varies. The chroma is then 0.495 and the
/// offset 0.3025; scaled to a byte and truncated, the strongest channel is 203, the weakest
/// 77, and the middle one `(0.495 * t / 85 + 0.3025) * 255` truncated, where `t` is how far
/// the hue is from the nearest sector edge in 85ths of a sector.
pub open spec fn colour_of(byte: int) -> Seq<u8> {
    let sector = (2 * byte) / 85;
    let within = (2 * byte) % 170;
    let t = if within >= 85 {
        170 - within
    } else {
        within
    };
    let middle = (((198 * t + 10285) * 3) / 400) as u8;
    let high = 203u8;
    let low = 77u8;
    if sector == 0 {
        seq![high, middle, low]
    } else if sector == 1 {
        seq![middle, high, low]
    } else if sector == 2 {
        seq![low, high, middle]
    } else if sector == 3 {
        seq![low, middle, high]
    } else if sector == 4 {
        seq![middle, low, high]
    } else {
        seq![high, low, middle]
    }
}

pub fn colour_from(fingerprint: &[u8; 32]) -> (colour: [u8; 3])
    ensures
        colour@ == colour_of(fingerprint@[0] as int),
{
    let byte = fingerprint[0] as u32;
    let sector = (2 * byte) / 85;
    let within = (2 * byte) % 170;
    let t = if within >= 85 {
        170 - within
    } else {
        within
    };
    let middle = (((198 * t + 10285) * 3) / 400) as u8;
    let colour = if sector == 0 {
        [203u8, middle, 77u8]
    } else if sector == 1 {
        [middle, 203u8, 77u8]
    } else if sector == 2 {
        [77u8, 203u8, middle]
    } else if sector == 3 {
        [77u8, middle, 203u8]
    } else if sector == 4 {
        [middle, 77u8, 203u8]
    } else {
        [203u8, 77u8, middle]
    };
    assert(colour@ =~= colour_of(fingerprint@[0] as int));
    colour
}

/// Whether cell `column` of `row` and its mirror image are both as the fingerprint sets them.
pub open spec fn pair_set(cells: Seq<bool>, fingerprint: Seq<u8>, row: int, column: int) -> bool {
    &&& cells[5 * row + column] == cell_of(fingerprint, 5 * row + column)
    &&& cells[5 * row + 4 - column] == cell_of(fingerprint, 5 * row + 4 - column)
}

/// The mark an identity generates: its cells and colour come from the identity's
/// fingerprint alone.
pub fn generated(identity: &Identity) -> (mark: Generated)
    ensures
        forall|i: int|
            0 <= i < 25 ==> mark.cells@[i] == cell_of(
                sha256_digest(fingerprint_input(identity.name@, identity.email@)),
                i,
            ),
        mark.colour@ == colour_of(
            sha256_digest(fingerprint_input(identity.name@, identity.email@))[0] as int,
        ),
{
    let fingerprint = identity.fingerprint();
    let mut cells = [false; 25];
    for row in 0..5usize
        invariant
            forall|i: int| 0 <= i < 5 * row ==> cells@[i] == cell_of(fingerprint@, i),
    {
        for column in 0..3usize
            invariant
                row < 5,
                forall|i: int| 0 <= i < 5 * row ==> cells@[i] == cell_of(fingerprint@, i),
                forall|c: int| 0 <= c < column ==> #[trigger] pair_set(cells@, fingerprint@, row as int, c),
        {
            let byte: u8 = fingerprint[row * 5 + column];
            assert(byte & 1 == byte % 2) by (bit_vector);
            let set = byte & 1 == 1;
            let ghost before = cells@;
            cells[row * 5 + column] = set;
            cells[row * 5 + (4 - column)] = set;
            assert(cells@ == before.update(5 * row + column, set).update(5 * row + 4 - column, set));
            assert((5 * row + column) / 5 == row && (5 * row + column) % 5 == column) by (
            nonlinear_arith)
                requires
                    column < 3,
            ;
            assert((5 * row + 4 - column) / 5 == row && (5 * row + 4 - column) % 5 == 4 - column)
                by (nonlinear_arith)
                requires
                    column < 3,
            ;
            assert(pair_set(cells@, fingerprint@, row as int, column as int));
            assert forall|c: int| 0 <= c < column + 1 implies #[trigger] pair_set(
                cells@,
                fingerprint@,
                row as int,
                c,
            ) by {
                if c < column {
                    assert(pair_set(before, fingerprint@, row as int, c));
                }
            }
            assert forall|i: int| 0 <= i < 5 * row implies cells@[i] == cell_of(fingerprint@, i) by {
                assert(before[i] == cell_of(fingerprint@, i));
            }
        }
        assert forall|i: int| 0 <= i < 5 * (row + 1) implies cells@[i] == cell_of(
            fingerprint@,
            i,
        ) by {
            if i >= 5 * row {
                let c = i - 5 * row;
                if c < 3 {
                    assert(pair_set(cells@, fingerprint@, row as int, c));
                } else {
                    assert(pair_set(cells@, fingerprint@, row as int, 4 - c));
                }
            }
        }
    }
    Generated { colour: colour_from(&fingerprint), cells }
}

/// Every row of a generated mark reads the same from either side.
pub proof fn lemma_generated_mirrored(fingerprint: Seq<u8>, row: int, column: int)
    requires
        0 <= row < 5,
        0 <= column < 5,
    ensures
        cell_of(fingerprint, 5 * row + column) == cell_of(fingerprint, 5 * row + (4 - column)),
{
    assert((5 * row + column) / 5 == row && (5 * row + column) % 5 == column) by (nonlinear_arith)
        requires
            0 <= column < 5,
    ;
    assert((5 * row + (4 - column)) / 5 == row && (5 * row + (4 - column)) % 5 == 4 - column)
        by (nonlinear_arith)
        requires
            0 <= column < 5,
    ;
}

/// The directory avatars are cached under: `$XDG_CACHE_HOME` when it is set, else
/// `.cache` in the home directory, else `.cache` where the program runs.
pub open spec fn cache_root(cache_home: Option<Seq<char>>, home: Option<Seq<char>>) -> Seq<char> {
    match cache_home {
        Some(c) => c,
        None => match home {
            Some(h) => crate::config::path_join(h, ".cache"@),
            None => ".cache"@,
        },
    }
}

/// Where an author's avatar is cached, given the values of `XDG_CACHE_HOME` and `HOME`:
/// `gitgui/avatars` under the cache directory, named by the author's fingerprint.
pub fn cache_path(identity: &Identity, cache_home: Option<&str>, home: Option<&str>) -> (path: String)
    ensures
        path@ == crate::config::path_join(
            crate::config::path_join(
                crate::config::path_join(
                    cache_root(crate::config::option_text(cache_home), crate::config::option_text(home)),
                    "gitgui"@,
                ),
                "avatars"@,
            ),
            hex_text(sha256_digest(fingerprint_input(identity.name@, identity.email@)))
                + ".square.png"@,
        ),
{
    let root = match cache_home {
        Some(c) => c.to_owned(),
        None => match home {
            Some(h) => crate::config::join(h, ".cache"),
            None => ".cache".to_owned(),
        },
    };
    let directory = crate::config::join(crate::config::join(root.as_str(), "gitgui").as_str(), "avatars");
    crate::config::join(directory.as_str(), identity.cache_file_name().as_str())
}

/// The cached avatar at `path`, when there is a file there (`present`).
pub fn cached(path: String, present: bool) -> (found: Option<String>)
    ensures
        found == if present {
            Some(path)
        } else {
            None::<String>
        },
{
    if present {
        Some(path)
    } else {
        None
    }
}

#[verifier::external_type_specification]
#[verifier::external_body]
pub struct ExDynamicImage(image::DynamicImage);

/// Whether image's format guessing and decoding take these bytes.
pub uninterp spec fn decodes(bytes: Seq<u8>) -> bool;

/// The width and height, in pixels, of the picture image decodes from these bytes.
pub uninterp spec fn decoded_size(bytes: Seq<u8>) -> (u32, u32);

/// The RGBA bytes image makes when it scales the picture decoded from `bytes`, cut to
/// `region` (corner, width and height) where there is one, to `side` pixels square.
pub uninterp spec fn scaled_rgba(bytes: Seq<u8>, region: Option<(u32, u32, u32, u32)>, side: u32) -> Seq<u8>;

/// A decoded picture, with where it came from: the bytes it was decoded from and the part
/// of that picture it was cut to, if it was. Only the wrappers of image below make one.
struct Picture {
    image: image::DynamicImage,
    source: Ghost<Seq<u8>>,
    region: Ghost<Option<(u32, u32, u32, u32)>>,
}

/// image's `load_from_memory`: the picture the bytes hold, its format guessed from them, or
/// the decoder's error in words. Whether it succeeds depends on the bytes alone.
#[verifier::external_body]
fn decode(bytes: &[u8]) -> (picture: Result<Picture, String>)
    ensures
        picture is Ok <==> decodes(bytes@),
        picture matches Ok(p) ==> p.source@ == bytes@ && p.region@ is None,
{
    match image::load_from_memory(bytes) {
        Ok(image) => Ok(Picture { image, source: Ghost(bytes@), region: Ghost(None) }),
        Err(error) => Err(error.to_string()),
    }
}

/// image's `DynamicImage::width` and `height`: the picture's size in pixels.
#[verifier::external_body]
fn picture_size(picture: &Picture) -> (size: (u32, u32))
    ensures
        picture.region@ is None ==> size == decoded_size(picture.source@),
{
    (picture.image.width(), picture.image.height())
}

/// image's `DynamicImage::crop_imm`: the part of the picture `width` by `height` pixels from
/// `x`, `y` on.
#[verifier::external_body]
fn crop(picture: &Picture, x: u32, y: u32, width: u32, height: u32) -> (part: Picture)
    requires
        picture.region@ is None,
    ensures
        part.source@ == picture.source@,
        part.region@ == Some((x, y, width, height)),
{
    Picture {
        image: picture.image.crop_imm(x, y, width, height),
        source: Ghost(picture.source@),
        region: Ghost(Some((x, y, width, height))),
    }
}

/// image's `DynamicImage::resize_exact` with its Lanczos filter, to `side` pixels square, the
/// result as RGBA bytes (`to_rgba8`, `into_raw`): four bytes a pixel, row by row.
#[verifier::external_body]
fn resized_rgba(picture: &Picture, side: u32) -> (pixels: Vec<u8>)
    requires
        side <= 0xffff,
    ensures
        pixels@ == scaled_rgba(picture.source@, picture.region@, side),
        pixels@.len() == 4 * side * side,
{
    picture.image.resize_exact(side, side, image::imageops::FilterType::Lanczos3).to_rgba8().into_raw()
}

/// The largest square a picture `width` by `height` holds, centred: its corner and its side.
pub open spec fn centred_square_of(width: int, height: int) -> (int, int, int) {
    let side = if width < height {
        width
    } else {
        height
    };
    ((width - side) / 2, (height - side) / 2, side)
}

pub fn centred_square(width: u32, height: u32) -> (square: (u32, u32, u32))
    ensures
        (square.0 as int, square.1 as int, square.2 as int) == centred_square_of(
            width as int,
            height as int,
        ),
{
    let side = if width < height {
        width
    } else {
        height
    };
    ((width - side) / 2, (height - side) / 2, side)
}

/// The part of a picture `size` pixels across that the avatar keeps: its largest centred
/// square.
pub open spec fn kept_region(size: (u32, u32)) -> Option<(u32, u32, u32, u32)> {
    let (x, y, side) = centred_square_of(size.0 as int, size.1 as int);
    Some((x as u32, y as u32, side as u32, side as u32))
}

/// A fetched picture as the avatar cache keeps it: the largest centred square of it, scaled
/// to [`SIZE`] pixels a side, as RGBA bytes; or why the bytes are not a picture.
pub fn portrait(bytes: &[u8]) -> (pixels: Result<Vec<u8>, String>)
    ensures
        pixels is Ok <==> decodes(bytes@),
        pixels matches Ok(p) ==> p@ == scaled_rgba(bytes@, kept_region(decoded_size(bytes@)), SIZE)
            && p@.len() == 4 * SIZE * SIZE,
{
    let picture = match decode(bytes) {
        Ok(p) => p,
        Err(error) => return Err(error),
    };
    let (width, height) = picture_size(&picture);
    let (x, y, side) = centred_square(width, height);
    let square = crop(&picture, x, y, side, side);
    Ok(resized_rgba(&square, SIZE))
}

} // verus!
