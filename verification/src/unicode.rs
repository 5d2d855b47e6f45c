//! Unicode properties of characters and texts.

use crate::number::ascii_lower_all;
use crate::text::lower_ascii;
use unicode_normalization::UnicodeNormalization;
use vstd::prelude::*;
use vstd::utf8::is_ascii_chars;

verus! {

/// Whether `c` has the Unicode property `White_Space`.
pub open spec fn is_space(c: char) -> bool {
    let n = c as u32;
    ||| 0x09 <= n <= 0x0d
    ||| n == 0x20
    ||| n == 0x85
    ||| n == 0xa0
    ||| n == 0x1680
    ||| 0x2000 <= n <= 0x200a
    ||| n == 0x2028
    ||| n == 0x2029
    ||| n == 0x202f
    ||| n == 0x205f
    ||| n == 0x3000
}

/// Whether `c` has the Unicode property `White_Space`.
pub fn is_space_char(c: char) -> (r: bool)
    ensures
        r == is_space(c),
{
    let n: u32 = c as u32;
    (0x09 <= n && n <= 0x0d) || n == 0x20 || n == 0x85 || n == 0xa0 || n == 0x1680 || (0x2000 <= n
        && n <= 0x200a) || n == 0x2028 || n == 0x2029 || n == 0x202f || n == 0x205f || n == 0x3000
}

/// What `str::to_lowercase` makes of a text.
pub uninterp spec fn lowercase(s: Seq<char>) -> Seq<char>;

/// Calls `str::to_lowercase`.
///
/// The result depends on the text alone. Of an ASCII text, every capital letter becomes its small
/// letter and the rest stays.
#[verifier::external_body]
fn to_lowercase(s: &str) -> (r: String)
    ensures
        r@ == lowercase(s@),
        is_ascii_chars(s@) ==> r@ == ascii_lower_all(s@),
{
    s.to_lowercase()
}

/// A text in lower case: every capital ASCII letter becomes its small letter, and what is left that is
/// not ASCII becomes what `str::to_lowercase` makes of it. The case of ASCII letters thus never matters.
pub open spec fn lowered(s: Seq<char>) -> Seq<char> {
    let t = ascii_lower_all(s);
    if is_ascii_chars(t) {
        t
    } else {
        lowercase(t)
    }
}

/// A text in lower case.
pub(crate) fn lower_text(s: &str) -> (r: String)
    ensures
        r@ == lowered(s@),
{
    let t = lower_ascii(s);
    assert(ascii_lower_all(t@) =~= t@);
    to_lowercase(t.as_str())
}

/// What NFKC normalization makes of a text.
pub uninterp spec fn nfkc(s: Seq<char>) -> Seq<char>;

/// Calls `UnicodeNormalization::nfkc` and collects the characters.
///
/// The result depends on the text alone, and an ASCII text stays as it is.
#[verifier::external_body]
pub(crate) fn to_nfkc(s: &str) -> (r: String)
    ensures
        r@ == nfkc(s@),
        is_ascii_chars(s@) ==> r@ == s@,
{
    s.nfkc().collect()
}

/// Whether `char::is_alphanumeric` holds of a character.
pub uninterp spec fn alphanumeric(c: char) -> bool;

/// Calls `char::is_alphanumeric`.
///
/// Among the ASCII characters it holds of the letters and the digits only.
#[verifier::external_body]
pub(crate) fn is_alphanumeric(c: char) -> (r: bool)
    ensures
        r == alphanumeric(c),
        c as u32 <= 0x7f ==> r == ('0' <= c <= '9' || 'a' <= c <= 'z' || 'A' <= c <= 'Z'),
{
    c.is_alphanumeric()
}

} // verus!
