use vstd::prelude::*;
use wana_kana::ConvertJapanese;

verus! {

/// The character sequences held by a list of strings.
pub open spec fn views(v: Seq<String>) -> Seq<Seq<char>> {
    v.map_values(|s: String| s@)
}

/// `needle` occurs in `hay` as a run of consecutive characters.
pub open spec fn is_substring(hay: Seq<char>, needle: Seq<char>) -> bool {
    exists|i: int|
        0 <= i && i + needle.len() <= hay.len() && #[trigger] hay.subrange(i, i + needle.len())
            == needle
}

/// `hay` begins with `prefix`.
pub open spec fn is_prefix(hay: Seq<char>, prefix: Seq<char>) -> bool {
    prefix.len() <= hay.len() && hay.subrange(0, prefix.len() as int) == prefix
}

/// Every character is an ASCII letter.
pub open spec fn all_ascii_alphabetic(s: Seq<char>) -> bool {
    forall|i: int|
        0 <= i < s.len() ==> {
            let c = #[trigger] s[i] as u32;
            (65 <= c <= 90) || (97 <= c <= 122)
        }
}

/// Every character is ASCII.
pub open spec fn all_ascii(s: Seq<char>) -> bool {
    forall|i: int| 0 <= i < s.len() ==> (#[trigger] s[i] as u32) < 128
}

/// The lowercase form of a text, as std's Unicode case mapping gives it.
pub uninterp spec fn lower_of(s: Seq<char>) -> Seq<char>;

/// The hiragana reading of an ASCII text, as wana_kana transliterates it.
pub uninterp spec fn hiragana_of(s: Seq<char>) -> Seq<char>;

/// A character with an ASCII capital letter turned into its small letter.
pub open spec fn ascii_lower_char(c: char) -> char {
    if 65 <= c as u32 <= 90 {
        ((c as u32) + 32) as char
    } else {
        c
    }
}

/// A text with its ASCII capital letters turned into small letters.
pub open spec fn ascii_lower(s: Seq<char>) -> Seq<char> {
    s.map_values(|c: char| ascii_lower_char(c))
}

/// The phonetic form of a text: the hiragana reading of its lowercase form for
/// an ASCII text; any other text is taken to be in its native script already.
pub open spec fn phonetic(s: Seq<char>) -> Seq<char> {
    if all_ascii(s) {
        hiragana_of(ascii_lower(s))
    } else {
        s
    }
}

/// Relies on `str::contains` with a `&str` pattern: true exactly when the
/// pattern occurs in the text (a match of UTF-8 bytes is a match of characters).
#[verifier::external_body]
pub(crate) fn str_contains(hay: &str, needle: &str) -> (r: bool)
    ensures
        r == is_substring(hay@, needle@),
{
    hay.contains(needle)
}

/// Relies on `str::starts_with` with a `&str` pattern: true exactly when the
/// text begins with the pattern.
#[verifier::external_body]
pub(crate) fn str_starts_with(hay: &str, prefix: &str) -> (r: bool)
    ensures
        r == is_prefix(hay@, prefix@),
{
    hay.starts_with(prefix)
}

/// Relies on `str::to_lowercase`: its result depends on the characters alone.
#[verifier::external_body]
pub(crate) fn to_lowercase(s: &str) -> (r: String)
    ensures
        r@ == lower_of(s@),
{
    s.to_lowercase()
}

/// Relies on std's `str::to_ascii_lowercase`: ASCII letters 'A' to 'Z' become
/// 'a' to 'z', and every other character is unchanged.
#[verifier::external_body]
pub(crate) fn to_ascii_lowercase(s: &str) -> (r: String)
    ensures
        r@ == ascii_lower(s@),
{
    s.to_ascii_lowercase()
}

/// Relies on wana_kana's `ConvertJapanese::to_hiragana` for `&str`: romaji
/// becomes hiragana, and the result depends on the characters alone. Only ASCII
/// text is handed to it.
#[verifier::external_body]
pub(crate) fn to_hiragana(s: &str) -> (r: String)
    requires
        all_ascii(s@),
    ensures
        r@ == hiragana_of(s@),
{
    s.to_hiragana()
}

/// Lowering ASCII capitals keeps a text ASCII.
pub proof fn lemma_ascii_lower_ascii(s: Seq<char>)
    requires
        all_ascii(s),
    ensures
        all_ascii(ascii_lower(s)),
{
    assert forall|i: int| 0 <= i < ascii_lower(s).len() implies (#[trigger] ascii_lower(s)[i] as u32)
        < 128 by {
        assert(ascii_lower(s)[i] == ascii_lower_char(s[i]));
        assert((s[i] as u32) < 128);
    }
}

/// The phonetic form of `s`.
pub fn phonetic_form(s: &str) -> (r: String)
    ensures
        r@ == phonetic(s@),
{
    if is_all_ascii(s) {
        let lower = to_ascii_lowercase(s);
        proof {
            lemma_ascii_lower_ascii(s@);
        }
        to_hiragana(lower.as_str())
    } else {
        s.to_owned()
    }
}

/// Whether every character of `s` is an ASCII letter.
pub fn is_ascii_alphabetic(s: &str) -> (r: bool)
    ensures
        r == all_ascii_alphabetic(s@),
{
    let n = s.unicode_len();
    let mut i: usize = 0;
    while i < n
        invariant
            n == s@.len(),
            i <= n,
            all_ascii_alphabetic(s@.subrange(0, i as int)),
        decreases n - i,
    {
        let c = s.get_char(i) as u32;
        if !((65 <= c && c <= 90) || (97 <= c && c <= 122)) {
            assert(!all_ascii_alphabetic(s@)) by {
                assert(s@[i as int] as u32 == c);
            }
            return false;
        }
        proof {
            assert forall|j: int| 0 <= j < i + 1 implies {
                let d = #[trigger] s@.subrange(0, i + 1)[j] as u32;
                (65 <= d <= 90) || (97 <= d <= 122)
            } by {
                if j < i {
                    assert(s@.subrange(0, i + 1)[j] == s@.subrange(0, i as int)[j]);
                }
            }
        }
        i = i + 1;
    }
    assert(s@.subrange(0, n as int) =~= s@);
    true
}

/// Whether every character of `s` is ASCII.
pub fn is_all_ascii(s: &str) -> (r: bool)
    ensures
        r == all_ascii(s@),
{
    let n = s.unicode_len();
    let mut i: usize = 0;
    while i < n
        invariant
            n == s@.len(),
            i <= n,
            forall|j: int| 0 <= j < i ==> (#[trigger] s@[j] as u32) < 128,
        decreases n - i,
    {
        if s.get_char(i) as u32 >= 128 {
            return false;
        }
        i = i + 1;
    }
    true
}

/// Whether two strings hold the same characters.
pub fn same_text(a: &String, b: &String) -> (r: bool)
    ensures
        r == (a@ == b@),
{
    a.eq(b)
}

} // verus!
