//! Unicode text primitives: the calls into `unicode-segmentation` and into
//! std's Unicode tables, and small verified string helpers.

use unicode_segmentation::UnicodeSegmentation;
use vstd::prelude::*;
use vstd::string::*;
use vstd::utf8::*;

verus! {

/// Number of bytes in the UTF-8 encoding of `s`.
pub open spec fn utf8_len(s: Seq<char>) -> nat {
    encode_utf8(s).len()
}

/// The value `str::len` reports for a string with these characters.
pub open spec fn byte_len(s: Seq<char>) -> usize {
    utf8_len(s) as usize
}

/// The characters of each string slice in `v`.
pub open spec fn str_views(v: Seq<&str>) -> Seq<Seq<char>> {
    v.map_values(|g: &str| g@)
}

/// The characters of each string in `v`.
pub open spec fn string_views(v: Seq<String>) -> Seq<Seq<char>> {
    v.map_values(|s: String| s@)
}

/// Whether the string `needle` is one of `haystack`.
pub fn contains_string(haystack: &Vec<String>, needle: &String) -> (res: bool)
    ensures
        res == string_views(haystack@).contains(needle@),
{
    let mut i: usize = 0;
    while i < haystack.len()
        invariant
            i <= haystack.len(),
            forall|j: int| 0 <= j < i ==> (#[trigger] haystack@[j])@ != needle@,
        decreases haystack.len() - i,
    {
        if haystack[i] == *needle {
            assert(string_views(haystack@)[i as int] == needle@);
            return true;
        }
        i += 1;
    }
    assert forall|j: int| 0 <= j < haystack@.len() implies #[trigger] string_views(haystack@)[j]
        != needle@ by {
        assert(string_views(haystack@)[j] == haystack@[j]@);
    }
    false
}

/// The extended grapheme clusters of `s`, as `unicode-segmentation` splits it.
pub uninterp spec fn spec_graphemes(s: Seq<char>) -> Seq<Seq<char>>;

/// Whether `c` is alphabetic or numeric by the Unicode tables of std.
pub uninterp spec fn spec_is_alphanumeric(c: char) -> bool;

/// The lowercase mapping of `s` by the Unicode tables of std.
pub uninterp spec fn spec_to_lowercase(s: Seq<char>) -> Seq<char>;

/// The text that std decodes from `bytes`, replacing invalid UTF-8.
pub uninterp spec fn spec_utf8_lossy(bytes: Seq<u8>) -> Seq<char>;

/// Splits `s` into its extended grapheme clusters with
/// `UnicodeSegmentation::graphemes(s, true)` from `unicode-segmentation`.
///
/// Trusted: the clusters are what the crate computes, named
/// `spec_graphemes`. The crate's iterator hands out consecutive slices
/// `&s[start..next]` between successive boundaries, so each cluster is
/// non-empty and together they spell out `s`.
#[verifier::external_body]
pub fn grapheme_clusters<'a>(s: &'a str) -> (res: Vec<&'a str>)
    ensures
        str_views(res@) == spec_graphemes(s@),
        str_views(res@).flatten() == s@,
        forall|i: int| 0 <= i < res@.len() ==> (#[trigger] res@[i])@.len() > 0,
{
    s.graphemes(true).collect()
}

/// `char::is_alphanumeric` from std.
///
/// Trusted: the answer is std's Unicode property lookup, named
/// `spec_is_alphanumeric`; nothing more is claimed of it.
#[verifier::external_body]
fn char_is_alphanumeric(c: char) -> (res: bool)
    ensures
        res == spec_is_alphanumeric(c),
{
    c.is_alphanumeric()
}

/// `str::to_lowercase` from std.
///
/// Trusted: the result is std's Unicode lowercase mapping of `s`, named
/// `spec_to_lowercase`; nothing more is claimed of it.
#[verifier::external_body]
pub fn to_lowercase(s: &str) -> (res: String)
    ensures
        res@ == spec_to_lowercase(s@),
{
    s.to_lowercase()
}

/// `String::from_utf8_lossy` from std, taken as an owned `String`.
///
/// Trusted: the result is std's decoding of `bytes`, named
/// `spec_utf8_lossy`. std documents that valid UTF-8 decodes as is and that
/// each invalid sequence becomes one U+FFFD, so no more characters come out
/// than bytes went in; like every allocation the string holds at most
/// `isize::MAX` bytes.
#[verifier::external_body]
pub fn utf8_lossy(bytes: &[u8]) -> (res: String)
    ensures
        res@ == spec_utf8_lossy(bytes@),
        valid_utf8(bytes@) ==> res@ == decode_utf8(bytes@),
        res@.len() <= bytes@.len(),
        utf8_len(res@) <= isize::MAX,
{
    String::from_utf8_lossy(bytes).into_owned()
}

/// A character that may stand in a word: alphanumeric, or an underscore.
pub open spec fn is_word_char(c: char) -> bool {
    spec_is_alphanumeric(c) || c == '_'
}

/// A grapheme cluster is a word constituent when any of its characters is.
pub open spec fn is_word_cluster(g: Seq<char>) -> bool {
    exists|i: int| 0 <= i < g.len() && is_word_char(#[trigger] g[i])
}

/// Check whether a grapheme cluster is a "word" constituent: it contains at
/// least one alphanumeric character or underscore.
pub fn is_word_grapheme(g: &str) -> (res: bool)
    ensures
        res == is_word_cluster(g@),
{
    let n = g.unicode_len();
    let mut i: usize = 0;
    while i < n
        invariant
            n == g@.len(),
            i <= n,
            forall|j: int| 0 <= j < i ==> !is_word_char(#[trigger] g@[j]),
        decreases n - i,
    {
        let c = g.get_char(i);
        if char_is_alphanumeric(c) || c == '_' {
            assert(is_word_char(g@[i as int]));
            return true;
        }
        i += 1;
    }
    false
}

/// `s.starts_with(prefix)`: the characters of `prefix` begin `s`.
pub fn starts_with(s: &str, prefix: &str) -> (res: bool)
    ensures
        res == prefix@.is_prefix_of(s@),
{
    let n = s.unicode_len();
    let m = prefix.unicode_len();
    if m > n {
        return false;
    }
    let mut i: usize = 0;
    while i < m
        invariant
            n == s@.len(),
            m == prefix@.len(),
            m <= n,
            i <= m,
            forall|j: int| 0 <= j < i ==> s@[j] == prefix@[j],
        decreases m - i,
    {
        if s.get_char(i) != prefix.get_char(i) {
            assert(s@.subrange(0, m as int)[i as int] != prefix@[i as int]);
            return false;
        }
        i += 1;
    }
    assert(prefix@ =~= s@.subrange(0, m as int));
    true
}

/// The UTF-8 length of a concatenation is the sum of the lengths.
pub proof fn lemma_utf8_len_concat(a: Seq<char>, b: Seq<char>)
    ensures
        utf8_len(a + b) == utf8_len(a) + utf8_len(b),
    decreases a.len(),
{
    if a.len() == 0 {
        assert(a + b =~= b);
    } else {
        assert((a + b).drop_first() =~= a.drop_first() + b);
        lemma_utf8_len_concat(a.drop_first(), b);
    }
}

/// Every character takes at least one byte.
pub proof fn lemma_utf8_len_ge_len(s: Seq<char>)
    ensures
        utf8_len(s) >= s.len(),
    decreases s.len(),
{
    if s.len() > 0 {
        lemma_utf8_len_ge_len(s.drop_first());
    }
}

} // verus!
