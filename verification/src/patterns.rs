//! The patterns by which file names are read.
//!
//! Patterns are matched by the `regex` crate. What a match is of each of them is stated over the
//! characters of the text.

use crate::decimal::is_digit;
use crate::text::{leading, lemma_leading};
use crate::unicode::is_space;
use vstd::prelude::*;

verus! {

/// A digit.
pub const DIGIT: &'static str = r"\d";

/// A word character.
pub const WORD: &'static str = r"\w";

/// A word for a volume, with a number.
pub const VOLUME_NUMBER: &'static str = r"(?i)\b(vol|volume|v)\s*\d+";

/// A word for a chapter, with a number.
pub const CHAPTER_NUMBER: &'static str = r"(?i)\b(ch|chapter)\s*\d+";

/// A word for an episode, with a number.
pub const EPISODE_NUMBER: &'static str = r"(?i)\b(ep|episode)\s*\d+";

/// A number with a fraction.
pub const DECIMAL_NUMBER: &'static str = r"\d+\.\d+";

/// A number, with or without a fraction.
pub const ANY_NUMBER: &'static str = r"\d+(?:\.\d+)?";

/// A number without a fraction that stands by itself.
pub const WHOLE_NUMBER: &'static str = r"\b\d+\b";

/// A word for a volume.
pub const VOLUME_WORD: &'static str = r"(?i)\b(vol(?:ume)?)\b";

/// A word for a chapter.
pub const CHAPTER_WORD: &'static str = r"(?i)\b(ch(?:apter)?|ch\.)\b";

/// A number as it counts for the order of file names.
pub const SORT_NUMBER: &'static str = r"(\d+\.\d+|\d+)";

/// At least two white-space characters in a row.
pub const SPACES: &'static str = r"\s{2,}";

/// At least two dashes in a row.
pub const DASHES: &'static str = r"[-\u2013\u2014]{2,}";

/// A character that a file name cannot hold.
pub const UNSAFE: &'static str = r#"[<>:"/\\|?*]"#;

/// A line break or a tab.
pub const CONTROLS: &'static str = r"[\n\r\t]";

/// Whether a text holds a match of a pattern.
pub uninterp spec fn regex_is_match(pattern: Seq<char>, text: Seq<char>) -> bool;

/// Whether `c` is a digit in the sense of `\d`: one of the ten among the ASCII characters, and what
/// the pattern takes for a digit beyond them.
pub open spec fn is_pattern_digit(c: char) -> bool {
    if c as u32 <= 0x7f {
        is_digit(c)
    } else {
        regex_is_match(DIGIT@, seq![c])
    }
}

/// Whether `c` is a word character in the sense of `\w`: a letter, a digit or an underscore among the
/// ASCII characters, and what the pattern takes for a word character beyond them.
pub open spec fn is_pattern_word(c: char) -> bool {
    if c as u32 <= 0x7f {
        is_digit(c) || 'a' <= c <= 'z' || 'A' <= c <= 'Z' || c == '_'
    } else {
        regex_is_match(WORD@, seq![c])
    }
}

/// Whether a word character stands at position `i`.
pub open spec fn word_at(s: Seq<char>, i: int) -> bool {
    0 <= i < s.len() && is_pattern_word(s[i])
}

/// Whether a word starts or ends at position `i`.
pub open spec fn boundary(s: Seq<char>, i: int) -> bool {
    word_at(s, i - 1) != word_at(s, i)
}

/// The small ASCII letter that `c` stands for when the case of letters does not matter.
pub open spec fn folded(c: char) -> char {
    if 'A' <= c <= 'Z' {
        (c as int + 32) as char
    } else if c == '\u{17f}' {
        's'
    } else if c == '\u{212a}' {
        'k'
    } else {
        c
    }
}

/// Whether `word` stands at position `i`, whatever the case of its letters.
pub open spec fn keyword_at(s: Seq<char>, i: int, word: Seq<char>) -> bool {
    &&& 0 <= i
    &&& i + word.len() <= s.len()
    &&& forall|j: int| 0 <= j < word.len() ==> folded(#[trigger] s[i + j]) == word[j]
}

/// Whether a digit follows position `i`, with nothing but white space before it.
pub open spec fn number_follows(s: Seq<char>, i: int) -> bool {
    exists|j: int|
        #![trigger s[j]]
        i <= j < s.len() && is_pattern_digit(s[j]) && forall|k: int|
            i <= k < j ==> is_space(#[trigger] s[k])
}

/// Whether one of `words` starts at the start of a word, with a number behind it.
pub open spec fn has_numbered_word(s: Seq<char>, words: Seq<Seq<char>>) -> bool {
    exists|i: int, w: int| #[trigger]
        keyword_at(s, i, words[w]) && 0 <= w < words.len() && boundary(s, i) && number_follows(
            s,
            i + words[w].len(),
        )
}

/// Whether one of `words` stands in the text as a word of its own.
pub open spec fn has_word(s: Seq<char>, words: Seq<Seq<char>>) -> bool {
    exists|i: int, w: int| #[trigger]
        keyword_at(s, i, words[w]) && 0 <= w < words.len() && boundary(s, i) && boundary(
            s,
            i + words[w].len(),
        )
}

/// Whether a digit, a point and a digit stand in a row.
pub open spec fn has_decimal(s: Seq<char>) -> bool {
    exists|i: int|
        1 <= i < s.len() - 1 && #[trigger] s[i] == '.' && is_pattern_digit(s[i - 1])
            && is_pattern_digit(s[i + 1])
}

/// Whether a digit stands in the text.
pub open spec fn has_digit(s: Seq<char>) -> bool {
    exists|i: int| 0 <= i < s.len() && is_pattern_digit(#[trigger] s[i])
}

/// Where the row of digits around or behind position `i` ends.
pub open spec fn run_end(s: Seq<char>, i: int) -> int
    decreases s.len() - i,
{
    if 0 <= i < s.len() && is_pattern_digit(s[i]) {
        run_end(s, i + 1)
    } else {
        i
    }
}

/// Where the number that starts at position `i` ends: behind its digits, or behind its fraction where
/// it has one.
pub open spec fn number_end(s: Seq<char>, i: int) -> int {
    let whole = run_end(s, i);
    if whole + 1 < s.len() && s[whole] == '.' && is_pattern_digit(s[whole + 1]) {
        run_end(s, whole + 1)
    } else {
        whole
    }
}

/// Where the first digit stands at or behind position `i`; the length of the text where none does.
pub open spec fn next_digit(s: Seq<char>, i: int) -> int
    decreases s.len() - i,
{
    if i >= s.len() {
        s.len() as int
    } else if is_pattern_digit(s[i]) {
        i
    } else {
        next_digit(s, i + 1)
    }
}

/// Whether a row of digits starts at position `i` that no word character touches.
pub open spec fn whole_number_at(s: Seq<char>, i: int) -> bool {
    is_pattern_digit(s[i]) && boundary(s, i) && boundary(s, run_end(s, i))
}

/// Where the first number that stands by itself starts at or behind position `i`; the length of the
/// text where there is none.
pub open spec fn next_whole_number(s: Seq<char>, i: int) -> int
    decreases s.len() - i,
{
    if i >= s.len() {
        s.len() as int
    } else if whole_number_at(s, i) {
        i
    } else {
        next_whole_number(s, i + 1)
    }
}

/// A text, cut before and behind a match.
pub type Cut = (Seq<char>, Seq<char>, Seq<char>);

/// `s`, cut at two positions.
pub open spec fn cut(s: Seq<char>, i: int, j: int) -> Cut {
    (s.take(i), s.subrange(i, j), s.skip(j))
}

/// The first number of a text, with what stands before and behind it.
pub open spec fn first_number(s: Seq<char>) -> Option<Cut> {
    let i = next_digit(s, 0);
    if i < s.len() {
        Some(cut(s, i, number_end(s, i)))
    } else {
        None
    }
}

/// The first number of a text that stands by itself, with what stands before and behind it.
pub open spec fn first_whole_number(s: Seq<char>) -> Option<Cut> {
    let i = next_whole_number(s, 0);
    if i < s.len() {
        Some(cut(s, i, run_end(s, i)))
    } else {
        None
    }
}

/// `s` without the characters of which `p` holds.
pub open spec fn without(s: Seq<char>, p: spec_fn(char) -> bool) -> Seq<char> {
    s.filter(|c: char| !p(c))
}

/// `s` with `mark` in place of each row of two or more characters of which `p` holds.
pub open spec fn collapsed(s: Seq<char>, p: spec_fn(char) -> bool, mark: char) -> Seq<char>
    decreases s.len(),
{
    if s.len() == 0 {
        Seq::empty()
    } else if leading(s, p) >= 2 {
        proof {
            lemma_leading(s, p);
        }
        seq![mark] + collapsed(s.skip(leading(s, p) as int), p, mark)
    } else {
        seq![s[0]] + collapsed(s.skip(1), p, mark)
    }
}

/// Whether a file name cannot hold `c`.
pub open spec fn is_unsafe(c: char) -> bool {
    c == '<' || c == '>' || c == ':' || c == '"' || c == '/' || c == '\\' || c == '|' || c == '?'
        || c == '*'
}

/// Whether `c` is a line break or a tab.
pub open spec fn is_control(c: char) -> bool {
    c == '\n' || c == '\r' || c == '\t'
}

/// Whether `c` is a hyphen, an en dash or an em dash.
pub open spec fn is_dash(c: char) -> bool {
    c == '-' || c == '\u{2013}' || c == '\u{2014}'
}

/// The words that [`VOLUME_NUMBER`] looks for.
pub open spec fn volume_words() -> Seq<Seq<char>> {
    seq!["vol"@, "volume"@, "v"@]
}

/// The words that [`CHAPTER_NUMBER`] looks for.
pub open spec fn chapter_words() -> Seq<Seq<char>> {
    seq!["ch"@, "chapter"@]
}

/// The words that [`EPISODE_NUMBER`] looks for.
pub open spec fn episode_words() -> Seq<Seq<char>> {
    seq!["ep"@, "episode"@]
}

/// Calls `Regex::is_match` on one of the patterns.
///
/// The result depends on the pattern and the text alone. Of each pattern that the library looks for,
/// the contract says what a match is: words are found whatever their case, `\b` is a place where a
/// word starts or ends, `\s` is white space.
#[verifier::external_body]
pub(crate) fn is_match(pattern: &str, text: &str) -> (r: bool)
    requires
        pattern@ == DIGIT@ || pattern@ == WORD@ || pattern@ == VOLUME_NUMBER@ || pattern@
            == CHAPTER_NUMBER@ || pattern@ == EPISODE_NUMBER@ || pattern@ == DECIMAL_NUMBER@
            || pattern@ == ANY_NUMBER@ || pattern@ == VOLUME_WORD@ || pattern@ == CHAPTER_WORD@,
    ensures
        r == regex_is_match(pattern@, text@),
        pattern@ == VOLUME_NUMBER@ ==> r == has_numbered_word(text@, volume_words()),
        pattern@ == CHAPTER_NUMBER@ ==> r == has_numbered_word(text@, chapter_words()),
        pattern@ == EPISODE_NUMBER@ ==> r == has_numbered_word(text@, episode_words()),
        pattern@ == DECIMAL_NUMBER@ ==> r == has_decimal(text@),
        pattern@ == ANY_NUMBER@ ==> r == has_digit(text@),
        pattern@ == VOLUME_WORD@ ==> r == has_word(text@, seq!["vol"@, "volume"@]),
        pattern@ == CHAPTER_WORD@ ==> r == has_word(text@, seq!["ch"@, "chapter"@, "ch."@]),
{
    regex::Regex::new(pattern).unwrap().is_match(text)
}

/// Calls `Regex::find` on one of the patterns for numbers, and cuts the text before and behind the
/// match that it returns, which is the leftmost one.
#[verifier::external_body]
pub(crate) fn find(pattern: &str, text: &str) -> (r: Option<(String, String, String)>)
    requires
        pattern@ == ANY_NUMBER@ || pattern@ == SORT_NUMBER@ || pattern@ == WHOLE_NUMBER@,
    ensures
        pattern@ == ANY_NUMBER@ || pattern@ == SORT_NUMBER@ ==> r.deep_view() == first_number(text@),
        pattern@ == WHOLE_NUMBER@ ==> r.deep_view() == first_whole_number(text@),
{
    let m = regex::Regex::new(pattern).unwrap().find(text)?;
    Some((text[..m.start()].to_string(), m.as_str().to_string(), text[m.end()..].to_string()))
}

/// Calls `Regex::replace_all` on one of the patterns for what a file name should not hold.
///
/// Unsafe characters and control characters are taken out. Rows of white space or dashes are replaced
/// by one blank or one hyphen.
#[verifier::external_body]
pub(crate) fn replace_all(pattern: &str, text: &str, replacement: &str) -> (r: String)
    requires
        (pattern@ == UNSAFE@ || pattern@ == CONTROLS@) && replacement@ == ""@ || pattern@ == SPACES@
            && replacement@ == " "@ || pattern@ == DASHES@ && replacement@ == "-"@,
    ensures
        pattern@ == UNSAFE@ && replacement@ == ""@ ==> r@ == without(
            text@,
            |c: char| is_unsafe(c),
        ),
        pattern@ == CONTROLS@ && replacement@ == ""@ ==> r@ == without(
            text@,
            |c: char| is_control(c),
        ),
        pattern@ == SPACES@ && replacement@ == " "@ ==> r@ == collapsed(
            text@,
            |c: char| is_space(c),
            ' ',
        ),
        pattern@ == DASHES@ && replacement@ == "-"@ ==> r@ == collapsed(
            text@,
            |c: char| is_dash(c),
            '-',
        ),
{
    regex::Regex::new(pattern).unwrap().replace_all(text, replacement).to_string()
}

} // verus!
