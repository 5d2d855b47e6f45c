//! What a file name says, and how file names are made.

use crate::decimal::{
    all_digits,
    decimal_text,
    digits_value,
    is_digit,
    lemma_decimal_text,
    lemma_zero_padded_value,
    pad_with_zeros,
    zero_padded,
};
use crate::natural::{relation, Relation};
use crate::number::{
    ascii_lower,
    ascii_lower_all,
    fixed_point,
    fixed_text,
    half_even,
    lemma_tenths_are_exact,
    lemma_tenths_are_read,
    lemma_units_increase,
    lemma_whole_number_is_exact,
    number_of,
    number_text,
    parse_number,
    units,
    Number,
    INFINITE,
};
use crate::order::{
    is_stable_order,
    lemma_row_relation,
    lemma_text_relation,
    precedes,
    row_order,
    row_relation,
    sort_by_row,
    text_relation,
};
use crate::patterns::{
    boundary,
    collapsed,
    find,
    first_number,
    first_whole_number,
    folded,
    has_decimal,
    has_digit,
    has_numbered_word,
    has_word,
    is_control,
    is_dash,
    is_match,
    is_pattern_digit,
    is_pattern_word,
    is_unsafe,
    keyword_at,
    next_digit,
    next_whole_number,
    number_end,
    number_follows,
    replace_all,
    run_end,
    chapter_words,
    episode_words,
    volume_words,
    whole_number_at,
    without,
    word_at,
    ANY_NUMBER,
    CHAPTER_NUMBER,
    CHAPTER_WORD,
    CONTROLS,
    DASHES,
    DECIMAL_NUMBER,
    EPISODE_NUMBER,
    SORT_NUMBER,
    SPACES,
    UNSAFE,
    VOLUME_NUMBER,
    VOLUME_WORD,
    WHOLE_NUMBER,
};
use crate::text::{
    chars_of,
    contains,
    contains_text,
    leading,
    lemma_leading,
    lemma_trailing,
    lemma_trailing_is,
    lemma_trimmed_is,
    occurs_at,
    only,
    same,
    trim,
    trim_end,
    trimmed,
    trimmed_end,
};
use crate::unicode::{is_space, lower_text, lowered, nfkc, to_nfkc};
use vstd::arithmetic::div_mod::{lemma_div_is_ordered, lemma_fundamental_div_mod};
use vstd::arithmetic::power::{lemma_pow_adds, lemma_pow_positive, pow};
use vstd::arithmetic::power2::{lemma_pow2_pos, pow2};
use vstd::prelude::*;
use vstd::utf8::is_ascii_chars;

verus! {

/// What a name, also given in lower case, says of the kind of a file: without a digit nothing, else what
/// a word with a number says, and where there is none, that it is a chapter.
pub open spec fn kind_of(name: Seq<char>, lower: Seq<char>) -> Seq<char> {
    if !has_digit(name) {
        "unknown"@
    } else if has_numbered_word(lower, volume_words()) {
        "volume"@
    } else if has_numbered_word(lower, chapter_words()) {
        "chapter"@
    } else if has_numbered_word(lower, episode_words()) {
        "episode"@
    } else {
        "chapter"@
    }
}

/// The kind of the file that a name, also given in lower case, belongs to.
pub fn kind_of_lowercase(name: &str, lower: &str) -> (r: &'static str)
    ensures
        r@ == kind_of(name@, lower@),
{
    if !is_match(ANY_NUMBER, name) {
        return "unknown";
    }
    if is_match(VOLUME_NUMBER, lower) {
        return "volume";
    }
    if is_match(CHAPTER_NUMBER, lower) {
        return "chapter";
    }
    if is_match(EPISODE_NUMBER, lower) {
        return "episode";
    }
    "chapter"
}

/// The kind of a file: `volume`, `chapter`, `episode` or `unknown`.
pub fn detect_file_type(filename: &str) -> (r: &'static str)
    ensures
        r@ == kind_of(filename@, lowered(filename@)),
{
    let lower = lower_text(filename);
    kind_of_lowercase(filename, lower.as_str())
}

/// Whether a number with a fraction stands in a file name.
pub fn is_decimal_file(filename: &str) -> (r: bool)
    ensures
        r == has_decimal(filename@),
{
    is_match(DECIMAL_NUMBER, filename)
}

/// The word that titles of a file start with.
pub open spec fn prefix_of(filename: Seq<char>, mode: Seq<char>, custom: Seq<char>) -> Seq<char> {
    if mode == "custom"@ {
        if custom.len() == 0 {
            "Episode"@
        } else {
            custom
        }
    } else if mode == "episode"@ {
        "Episode"@
    } else if mode == "chapter"@ {
        "Chapter"@
    } else if mode == "volume"@ {
        "Volume"@
    } else if has_word(filename, seq!["vol"@, "volume"@]) {
        "Volume"@
    } else if has_word(filename, seq!["ch"@, "chapter"@, "ch."@]) {
        "Chapter"@
    } else {
        "Episode"@
    }
}

/// The word that titles of a file start with, by mode: a custom word, a fixed one, or the one that
/// the file name suggests.
pub fn get_prefix(filename: &str, mode: &str, custom: &str) -> (r: String)
    ensures
        r@ == prefix_of(filename@, mode@, custom@),
{
    if same(mode, "custom") {
        if custom.is_empty() {
            String::from_str("Episode")
        } else {
            String::from_str(custom)
        }
    } else if same(mode, "episode") {
        String::from_str("Episode")
    } else if same(mode, "chapter") {
        String::from_str("Chapter")
    } else if same(mode, "volume") {
        String::from_str("Volume")
    } else if is_match(VOLUME_WORD, filename) {
        String::from_str("Volume")
    } else if is_match(CHAPTER_WORD, filename) {
        String::from_str("Chapter")
    } else {
        String::from_str("Episode")
    }
}

/// Whether a lower-case prefix names a chapter or a volume.
pub open spec fn names_chapter_or_volume(p: Seq<char>) -> bool {
    contains_text(p, "chapter"@) || contains_text(p, "ch."@) || contains_text(p, "volume"@)
        || contains_text(p, "vol."@)
}

/// What stands between a prefix, given in lower case, and a title.
pub open spec fn separator_of(p: Seq<char>, use_custom: bool, custom_sep: Seq<char>) -> Seq<char> {
    if use_custom && custom_sep.len() > 0 {
        " "@ + custom_sep + " "@
    } else if names_chapter_or_volume(p) {
        ": "@
    } else {
        " - "@
    }
}

/// What stands between a prefix, given in lower case, and a title.
pub fn separator_for_lowercase(p: &str, use_custom: bool, custom_sep: &str) -> (r: String)
    ensures
        r@ == separator_of(p@, use_custom, custom_sep@),
{
    if use_custom && !custom_sep.is_empty() {
        let mut out = String::from_str(" ");
        out.append(custom_sep);
        out.append(" ");
        out
    } else if contains(p, "chapter") || contains(p, "ch.") || contains(p, "volume") || contains(
        p,
        "vol.",
    ) {
        String::from_str(": ")
    } else {
        String::from_str(" - ")
    }
}

/// What stands between a prefix and a title.
pub fn get_separator(prefix: &str, use_custom: bool, custom_sep: &str) -> (r: String)
    ensures
        r@ == separator_of(lowered(prefix@), use_custom, custom_sep@),
{
    let p = lower_text(prefix);
    separator_for_lowercase(p.as_str(), use_custom, custom_sep)
}

/// Whether a file name cannot hold the separator.
pub fn is_sep_invalid_for_filename(sep: &str) -> (r: bool)
    ensures
        r == exists|i: int| 0 <= i < sep@.len() && is_unsafe(#[trigger] sep@[i]),
{
    let v = chars_of(sep);
    let mut i: usize = 0;
    while i < v.len()
        invariant
            v@ == sep@,
            i <= v@.len(),
            forall|j: int| 0 <= j < i ==> !is_unsafe(#[trigger] sep@[j]),
        decreases v@.len() - i,
    {
        let c: char = v[i];
        if c == ':' || c == '/' || c == '\\' || c == '|' || c == '?' || c == '*' || c == '<' || c
            == '>' || c == '"' {
            assert(is_unsafe(sep@[i as int]));
            return true;
        }
        i = i + 1;
    }
    false
}

/// The character that stands for `c` where `c` is an angle bracket or a double quote.
pub open spec fn softened(c: char) -> char {
    if c == '<' {
        '('
    } else if c == '>' {
        ')'
    } else if c == '"' {
        '\''
    } else {
        c
    }
}

/// A file name that holds nothing unsafe, made from a normalized name.
pub open spec fn safe_name(s: Seq<char>) -> Seq<char> {
    let soft = s.map_values(|c: char| softened(c));
    let plain = without(without(soft, |c: char| is_unsafe(c)), |c: char| is_control(c));
    let spaced = collapsed(plain, |c: char| is_space(c), ' ');
    let dashed = collapsed(spaced, |c: char| is_dash(c), '-');
    trimmed_end(trimmed(dashed), '.')
}

/// A file name that holds nothing unsafe, made from a normalized name.
pub fn safe_from_normalized(name: &str) -> (r: String)
    ensures
        r@ == safe_name(name@),
{
    let v = chars_of(name);
    let mut soft = String::new();
    let mut i: usize = 0;
    let ghost goal = name@.map_values(|c: char| softened(c));
    while i < v.len()
        invariant
            v@ == name@,
            i <= v@.len(),
            goal == name@.map_values(|c: char| softened(c)),
            soft@ == goal.take(i as int),
        decreases v@.len() - i,
    {
        let c: char = v[i];
        soft.push(
            if c == '<' {
                '('
            } else if c == '>' {
                ')'
            } else if c == '"' {
                '\''
            } else {
                c
            },
        );
        assert(goal.take(i + 1) =~= goal.take(i as int).push(goal[i as int]));
        i = i + 1;
    }
    assert(goal.take(v@.len() as int) =~= goal);
    let n = replace_all(UNSAFE, soft.as_str(), "");
    let n = replace_all(CONTROLS, n.as_str(), "");
    let n = replace_all(SPACES, n.as_str(), " ");
    let n = replace_all(DASHES, n.as_str(), "-");
    let n = trim(n.as_str());
    trim_end(n.as_str(), '.')
}

/// A file name that holds nothing unsafe.
pub fn sanitize_filename(name: &str) -> (r: String)
    ensures
        r@ == safe_name(nfkc(name@)),
        is_ascii_chars(name@) ==> r@ == safe_name(name@),
{
    let n = to_nfkc(name);
    safe_from_normalized(n.as_str())
}

/// The number that a row of digits with an optional fraction counts as.
pub open spec fn counted(digits: Seq<char>) -> Number {
    match number_of(digits) {
        Some(n) => n,
        None => Number::Real { negative: false, ordinal: 0 },
    }
}

/// The part of a sort key that stands for a number: fixed point with six places, at least twenty
/// characters wide.
pub open spec fn number_key(digits: Seq<char>) -> Seq<char> {
    "0"@ + zero_padded(number_text(counted(digits), 6), 20)
}

/// The part of a sort key that stands for a text between numbers.
pub open spec fn word_key(s: Seq<char>) -> Seq<char> {
    "1"@ + lowered(s)
}

/// The part of a sort key that stands for a text before a number, if there is any text.
pub open spec fn word_keys(s: Seq<char>) -> Seq<Seq<char>> {
    if s.len() > 0 {
        seq![word_key(s)]
    } else {
        Seq::empty()
    }
}

proof fn lemma_next_digit(s: Seq<char>, i: int)
    requires
        0 <= i <= s.len(),
    ensures
        i <= next_digit(s, i) <= s.len(),
        next_digit(s, i) < s.len() ==> is_pattern_digit(s[next_digit(s, i)]),
    decreases s.len() - i,
{
    if i < s.len() && !is_pattern_digit(s[i]) {
        lemma_next_digit(s, i + 1);
    }
}

proof fn lemma_run_end(s: Seq<char>, i: int)
    requires
        0 <= i <= s.len(),
    ensures
        i <= run_end(s, i) <= s.len(),
        i < s.len() && is_pattern_digit(s[i]) ==> i < run_end(s, i),
    decreases s.len() - i,
{
    if i < s.len() && is_pattern_digit(s[i]) {
        lemma_run_end(s, i + 1);
    }
}

/// The first number of a text starts with a digit, and the three parts make up the text.
pub proof fn lemma_first_number(s: Seq<char>)
    ensures
        match first_number(s) {
            Some((before, number, after)) => before + number + after == s && number.len() > 0
                && after.len() < s.len() && is_pattern_digit(number[0]),
            None => true,
        },
{
    lemma_next_digit(s, 0);
    let i = next_digit(s, 0);
    if i < s.len() {
        lemma_run_end(s, i);
        let w = run_end(s, i);
        if w + 1 < s.len() {
            lemma_run_end(s, w + 1);
        }
        let j = number_end(s, i);
        assert(s.take(i) + s.subrange(i, j) + s.skip(j) =~= s);
    }
}

/// The key by which file names are sorted: texts in lower case and numbers by value, in turn.
pub open spec fn sort_key(s: Seq<char>) -> Seq<Seq<char>>
    decreases s.len(),
{
    match first_number(s) {
        Some((before, number, after)) => {
            proof {
                lemma_first_number(s);
            }
            word_keys(before) + seq![number_key(number)] + sort_key(after)
        },
        None => word_keys(s),
    }
}

/// The part of a sort key that stands for a number.
pub fn key_of_number(digits: &str) -> (r: String)
    ensures
        r@ == number_key(digits@),
{
    let n: Number = match parse_number(digits) {
        Some(n) => n,
        None => Number::Real { negative: false, ordinal: 0 },
    };
    let text = n.to_text(6);
    let padded = pad_with_zeros(text.as_str(), 20);
    let mut out = String::from_str("0");
    out.append(padded.as_str());
    out
}

/// Appends the part of a sort key that stands for a text, if there is any text.
fn push_word_key(out: &mut Vec<String>, s: &str)
    ensures
        final(out).deep_view() == old(out).deep_view() + word_keys(s@),
{
    if !s.is_empty() {
        let lower = lower_text(s);
        let mut key = String::from_str("1");
        key.append(lower.as_str());
        out.push(key);
        assert(out.deep_view() =~= old(out).deep_view() + word_keys(s@));
    } else {
        assert(out.deep_view() =~= old(out).deep_view() + word_keys(s@));
    }
}

/// The key by which file names are sorted.
pub fn natural_sort_key(s: &str) -> (r: Vec<String>)
    ensures
        r.deep_view() == sort_key(s@),
{
    let mut out: Vec<String> = Vec::new();
    let mut rest = String::from_str(s);
    assert(out.deep_view() + sort_key(rest@) =~= sort_key(s@));
    loop
        invariant
            out.deep_view() + sort_key(rest@) == sort_key(s@),
        decreases rest@.len(),
    {
        let ghost head = out.deep_view();
        match find(SORT_NUMBER, rest.as_str()) {
            Some((before, number, after)) => {
                proof {
                    lemma_first_number(rest@);
                }
                push_word_key(&mut out, before.as_str());
                let key = key_of_number(number.as_str());
                out.push(key);
                assert(out.deep_view() =~= head + word_keys(before@) + seq![number_key(number@)]);
                assert(out.deep_view() + sort_key(after@) =~= head + (word_keys(before@) + seq![
                    number_key(number@),
                ] + sort_key(after@)));
                rest = after;
            },
            None => {
                push_word_key(&mut out, rest.as_str());
                return out;
            },
        }
    }
}

/// The sort keys of some file names.
pub open spec fn sort_keys(names: Seq<Seq<char>>) -> Seq<Seq<Seq<char>>> {
    names.map_values(|s: Seq<char>| sort_key(s))
}

/// The positions of `names`, sorted by their sort keys with equals in place.
pub fn natural_order(names: &Vec<String>) -> (r: Vec<usize>)
    ensures
        is_stable_order(r@, names@.len(), row_order(sort_keys(names.deep_view()))),
{
    let mut keys: Vec<Vec<String>> = Vec::new();
    let n: usize = names.len();
    for i in 0..n
        invariant
            n == names@.len(),
            keys@.len() == i,
            forall|k: int|
                0 <= k < i ==> (#[trigger] keys@[k]).deep_view() == sort_key(names@[k]@),
    {
        keys.push(natural_sort_key(names[i].as_str()));
    }
    assert(keys.deep_view() =~= sort_keys(names.deep_view()));
    sort_by_row(&keys)
}

/// How many bytes the first number that stands by itself takes in a name; nothing where there is none.
pub open spec fn digits_width(name: Seq<char>) -> Option<usize> {
    match first_whole_number(name) {
        Some((_, number, _)) => Some(vstd::utf8::encode_utf8(number).len() as usize),
        None => None,
    }
}

/// The larger of two widths, as far as they are known.
pub open spec fn wider(a: Option<usize>, b: Option<usize>) -> Option<usize> {
    match (a, b) {
        (Some(x), Some(y)) => Some(
            if x >= y {
                x
            } else {
                y
            },
        ),
        (Some(x), None) => Some(x),
        (None, y) => y,
    }
}

/// The width of the widest number that stands by itself in one of `names`.
pub open spec fn widest(names: Seq<Seq<char>>) -> Option<usize>
    decreases names.len(),
{
    if names.len() == 0 {
        None
    } else {
        wider(widest(names.drop_last()), digits_width(names.last()))
    }
}

/// The width to which numbers are padded so that they line up with those in `files`.
pub fn detect_padding(files: &Vec<String>) -> (r: Option<usize>)
    ensures
        r == widest(files.deep_view()),
{
    let mut best: Option<usize> = None;
    let n: usize = files.len();
    let ghost names = files.deep_view();
    for i in 0..n
        invariant
            n == files@.len(),
            names == files.deep_view(),
            best == widest(names.take(i as int)),
    {
        let width: Option<usize> = match find(WHOLE_NUMBER, files[i].as_str()) {
            Some((_, number, _)) => Some(number.as_str().len()),
            None => None,
        };
        proof {
            assert(names.take(i + 1).drop_last() =~= names.take(i as int));
            assert(names.take(i + 1).last() == files@[i as int]@);
        }
        best = match (best, width) {
            (Some(x), Some(y)) => Some(
                if x >= y {
                    x
                } else {
                    y
                },
            ),
            (Some(x), None) => Some(x),
            (None, y) => y,
        };
    }
    assert(names.take(n as int) =~= names);
    best
}

/// Whether no two characters of which `p` holds stand side by side.
pub open spec fn no_pair(s: Seq<char>, p: spec_fn(char) -> bool) -> bool {
    forall|i: int, j: int|
        0 <= i < s.len() && j == i + 1 && j < s.len() ==> !(p(#[trigger] s[i]) && p(#[trigger] s[j]))
}

/// Whether `p` holds of no character.
pub open spec fn has_none(s: Seq<char>, p: spec_fn(char) -> bool) -> bool {
    forall|i: int| 0 <= i < s.len() ==> !p(#[trigger] s[i])
}

proof fn lemma_collapsed_first(s: Seq<char>, p: spec_fn(char) -> bool, mark: char)
    ensures
        s.len() == 0 <==> collapsed(s, p, mark).len() == 0,
        s.len() > 0 ==> collapsed(s, p, mark)[0] == s[0] || (collapsed(s, p, mark)[0] == mark && p(
            s[0],
        )),
{
}

proof fn lemma_collapsed_no_pair(s: Seq<char>, p: spec_fn(char) -> bool, mark: char)
    requires
        p(mark),
    ensures
        no_pair(collapsed(s, p, mark), p),
    decreases s.len(),
{
    if s.len() > 0 {
        lemma_leading(s, p);
        let k = if leading(s, p) >= 2 {
            leading(s, p) as int
        } else {
            1
        };
        let rest = s.skip(k);
        lemma_collapsed_no_pair(rest, p, mark);
        lemma_collapsed_first(rest, p, mark);
        let c = collapsed(s, p, mark);
        let d = collapsed(rest, p, mark);
        assert forall|h: int, i: int| 0 <= h < c.len() && i == h + 1 && i < c.len() implies !(p(
            #[trigger] c[h],
        ) && p(#[trigger] c[i])) by {
            assert(c[i] == d[i - 1]);
            if i == 1 {
                if leading(s, p) == 0 {
                    assert(c[0] == s[0]);
                } else {
                    assert(rest[0] == s[k]);
                    assert(!p(s[k]));
                }
            } else {
                assert(c[i - 1] == d[i - 2]);
                assert(!(p(d[i - 2]) && p(d[i - 1])));
            }
        }
    }
}

proof fn lemma_collapsed_keeps_no_pair(
    s: Seq<char>,
    p: spec_fn(char) -> bool,
    mark: char,
    q: spec_fn(char) -> bool,
)
    requires
        no_pair(s, q),
        !q(mark),
    ensures
        no_pair(collapsed(s, p, mark), q),
    decreases s.len(),
{
    if s.len() > 0 {
        lemma_leading(s, p);
        let k = if leading(s, p) >= 2 {
            leading(s, p) as int
        } else {
            1
        };
        let rest = s.skip(k);
        assert(no_pair(rest, q)) by {
            assert forall|h: int, i: int|
                0 <= h < rest.len() && i == h + 1 && i < rest.len() implies !(q(#[trigger] rest[h])
                && q(#[trigger] rest[i])) by {
                assert(rest[i] == s[i + k] && rest[h] == s[h + k]);
            }
        }
        lemma_collapsed_keeps_no_pair(rest, p, mark, q);
        lemma_collapsed_first(rest, p, mark);
        let c = collapsed(s, p, mark);
        let d = collapsed(rest, p, mark);
        assert forall|h: int, i: int| 0 <= h < c.len() && i == h + 1 && i < c.len() implies !(q(
            #[trigger] c[h],
        ) && q(#[trigger] c[i])) by {
            assert(c[i] == d[i - 1]);
            if i == 1 {
                if leading(s, p) < 2 {
                    assert(c[0] == s[0]);
                    assert(rest[0] == s[1]);
                }
            } else {
                assert(c[i - 1] == d[i - 2]);
                assert(!(q(d[i - 2]) && q(d[i - 1])));
            }
        }
    }
}

proof fn lemma_collapsed_has_none(
    s: Seq<char>,
    p: spec_fn(char) -> bool,
    mark: char,
    q: spec_fn(char) -> bool,
)
    requires
        has_none(s, q),
        !q(mark),
    ensures
        has_none(collapsed(s, p, mark), q),
    decreases s.len(),
{
    if s.len() > 0 {
        lemma_leading(s, p);
        let k = if leading(s, p) >= 2 {
            leading(s, p) as int
        } else {
            1
        };
        let rest = s.skip(k);
        assert(has_none(rest, q)) by {
            assert forall|i: int| 0 <= i < rest.len() implies !q(#[trigger] rest[i]) by {
                assert(rest[i] == s[i + k]);
            }
        }
        lemma_collapsed_has_none(rest, p, mark, q);
        let c = collapsed(s, p, mark);
        let d = collapsed(rest, p, mark);
        assert forall|i: int| 0 <= i < c.len() implies !q(#[trigger] c[i]) by {
            if i == 0 {
                assert(c[0] == mark || c[0] == s[0]);
            } else {
                assert(c[i] == d[i - 1]);
            }
        }
    }
}

/// A safe file name holds no unsafe and no control characters, no two white-space characters or
/// dashes in a row, does not start with white space and does not end with a point.
pub proof fn lemma_safe_name(s: Seq<char>)
    ensures
        has_none(safe_name(s), |c: char| is_unsafe(c)),
        has_none(safe_name(s), |c: char| is_control(c)),
        no_pair(safe_name(s), |c: char| is_space(c)),
        no_pair(safe_name(s), |c: char| is_dash(c)),
        safe_name(s).len() > 0 ==> !is_space(safe_name(s)[0]) && safe_name(s).last() != '.',
{
    let unsafe_char = |c: char| is_unsafe(c);
    let control = |c: char| is_control(c);
    let space = |c: char| is_space(c);
    let dash = |c: char| is_dash(c);
    let soft = s.map_values(|c: char| softened(c));
    let safe = without(soft, unsafe_char);
    let plain = without(safe, control);
    let spaced = collapsed(plain, space, ' ');
    let dashed = collapsed(spaced, dash, '-');
    broadcast use vstd::seq_lib::group_filter_ensures;

    assert(has_none(safe, unsafe_char));
    assert(has_none(plain, control));
    assert(has_none(plain, unsafe_char)) by {
        assert forall|i: int| 0 <= i < plain.len() implies !unsafe_char(#[trigger] plain[i]) by {
            assert(plain.contains(plain[i]));
            assert(safe.contains(plain[i])) by {
                lemma_filter_subset(safe, |c: char| !control(c), i);
            }
        }
    }
    lemma_collapsed_has_none(plain, space, ' ', control);
    lemma_collapsed_has_none(plain, space, ' ', unsafe_char);
    lemma_collapsed_has_none(spaced, dash, '-', control);
    lemma_collapsed_has_none(spaced, dash, '-', unsafe_char);
    lemma_collapsed_no_pair(plain, space, ' ');
    lemma_collapsed_keeps_no_pair(spaced, dash, '-', space);
    lemma_collapsed_no_pair(spaced, dash, '-');
    let a = leading(dashed, space) as int;
    lemma_leading(dashed, space);
    let front = dashed.skip(a);
    lemma_trailing(front, space);
    let t = trimmed(dashed);
    lemma_trailing(t, only('.'));
    let r = safe_name(s);
    assert forall|i: int| 0 <= i < r.len() implies #[trigger] r[i] == dashed[a + i] by {
        assert(r[i] == t[i]);
        assert(t[i] == front[i]);
    }
    assert forall|h: int, i: int| 0 <= h < r.len() && i == h + 1 && i < r.len() implies !(space(
        #[trigger] r[h],
    ) && space(#[trigger] r[i])) by {
        assert(r[h] == dashed[a + h]);
        assert(r[i] == dashed[a + i]);
    }
    assert forall|h: int, i: int| 0 <= h < r.len() && i == h + 1 && i < r.len() implies !(dash(
        #[trigger] r[h],
    ) && dash(#[trigger] r[i])) by {
        assert(r[h] == dashed[a + h]);
        assert(r[i] == dashed[a + i]);
    }
}

proof fn lemma_filter_subset(s: Seq<char>, p: spec_fn(char) -> bool, i: int)
    requires
        0 <= i < s.filter(p).len(),
    ensures
        s.contains(s.filter(p)[i]),
    decreases s.len(),
{
    reveal(Seq::filter);
    let t = s.drop_last();
    if i < t.filter(p).len() {
        lemma_filter_subset(t, p, i);
        let j = choose|j: int| 0 <= j < t.len() && t[j] == t.filter(p)[i];
        assert(s[j] == t[j]);
    } else {
        assert(s.filter(p)[i] == s.last());
        assert(s[s.len() - 1] == s.last());
    }
}

/// Texts of which the first parts are equally long compare by those, and by the rest where the first
/// parts are equal.
proof fn lemma_relation_of_parts(a: Seq<char>, b: Seq<char>, c: Seq<char>, d: Seq<char>)
    requires
        a.len() == b.len(),
    ensures
        text_relation(a + c, b + d) == if text_relation(a, b) == Relation::Same {
            text_relation(c, d)
        } else {
            text_relation(a, b)
        },
    decreases a.len(),
{
    if a.len() == 0 {
        assert(a + c =~= c);
        assert(b + d =~= d);
    } else {
        assert((a + c).skip(1) =~= a.skip(1) + c);
        assert((b + d).skip(1) =~= b.skip(1) + d);
        lemma_relation_of_parts(a.skip(1), b.skip(1), c, d);
    }
}

/// Equally long rows of digits compare as the numbers that they stand for.
pub proof fn lemma_digits_compare_by_value(a: Seq<char>, b: Seq<char>)
    requires
        all_digits(a),
        all_digits(b),
        a.len() == b.len(),
    ensures
        text_relation(a, b) == relation(digits_value(a), digits_value(b)),
    decreases a.len(),
{
    if a.len() > 0 {
        let x = a.drop_last();
        let y = b.drop_last();
        assert forall|i: int| 0 <= i < x.len() implies is_digit(#[trigger] x[i]) by {
            assert(is_digit(a[i]));
        }
        assert forall|i: int| 0 <= i < y.len() implies is_digit(#[trigger] y[i]) by {
            assert(is_digit(b[i]));
        }
        lemma_digits_compare_by_value(x, y);
        assert(is_digit(a[a.len() - 1]) && is_digit(b[b.len() - 1]));
        let p = seq![a.last()];
        let q = seq![b.last()];
        assert(a =~= x + p);
        assert(b =~= y + q);
        lemma_relation_of_parts(x, y, p, q);
        reveal_with_fuel(text_relation, 2);
    }
}

/// Rounding keeps the order.
proof fn lemma_half_even_monotone(a: nat, b: nat, d: nat)
    requires
        a <= b,
        d > 0,
    ensures
        half_even(a, d) <= half_even(b, d),
{
    lemma_div_is_ordered(a as int, b as int, d as int);
    lemma_fundamental_div_mod(a as int, d as int);
    lemma_fundamental_div_mod(b as int, d as int);
}

pub proof fn lemma_decimal_text_length(n: nat, k: nat)
    requires
        n < pow(10, k),
        k > 0,
    ensures
        decimal_text(n).len() <= k,
    decreases k,
{
    reveal(pow);
    if n >= 10 {
        if k == 1 {
            reveal_with_fuel(pow, 2);
        }
        lemma_decimal_text_length(n / 10, (k - 1) as nat);
    }
}

/// The digits of a number at six places, thirteen before the point.
spec fn thirteen_and_six(v: nat) -> Seq<char> {
    zero_padded(decimal_text(v), 19)
}

proof fn lemma_number_key_digits(n: u64)
    requires
        n < INFINITE,
        fixed_point(n as nat, 6) < pow(10, 19),
    ensures
        ({
            let d = thirteen_and_six(fixed_point(n as nat, 6));
            &&& zero_padded(number_text(Number::Real { negative: false, ordinal: n }, 6), 20)
                == d.take(13) + seq!['.'] + d.skip(13)
            &&& d.len() == 19
            &&& all_digits(d)
            &&& digits_value(d) == fixed_point(n as nat, 6)
        }),
{
    let v = fixed_point(n as nat, 6);
    let text = decimal_text(v);
    lemma_decimal_text(v);
    lemma_decimal_text_length(v, 19);
    lemma_zero_padded_value(text, 19);
    let d = thirteen_and_six(v);
    let short = zero_padded(text, 7);
    let whole = short.len() - 6;
    let fixed = fixed_text(n as nat, 6);
    reveal_strlit("");
    assert(number_text(Number::Real { negative: false, ordinal: n }, 6) =~= fixed);
    assert(fixed =~= short.take(whole) + seq!['.'] + short.skip(whole));
    assert(zero_padded(fixed, 20) =~= d.take(13) + seq!['.'] + d.skip(13));
}

/// Numbers are sorted by value, whether they are written with a fraction or without: as far as they
/// need no more than twenty characters, their keys compare as the values at six places do.
pub proof fn lemma_numbers_sort_by_value(a: u64, b: u64)
    requires
        a < INFINITE,
        b < INFINITE,
        fixed_point(a as nat, 6) < pow(10, 19),
        fixed_point(b as nat, 6) < pow(10, 19),
    ensures
        ({
            let x = zero_padded(number_text(Number::Real { negative: false, ordinal: a }, 6), 20);
            let y = zero_padded(number_text(Number::Real { negative: false, ordinal: b }, 6), 20);
            &&& text_relation(x, y) == relation(fixed_point(a as nat, 6), fixed_point(b as nat, 6))
            &&& a <= b ==> text_relation(x, y) != Relation::Above
        }),
{
    let v = fixed_point(a as nat, 6);
    let w = fixed_point(b as nat, 6);
    lemma_number_key_digits(a);
    lemma_number_key_digits(b);
    let c = thirteen_and_six(v);
    let d = thirteen_and_six(w);
    lemma_digits_compare_by_value(c, d);
    assert(c =~= c.take(13) + c.skip(13));
    assert(d =~= d.take(13) + d.skip(13));
    lemma_relation_of_parts(c.take(13), d.take(13), c.skip(13), d.skip(13));
    let point = seq!['.'];
    lemma_relation_of_parts(c.take(13) + point, d.take(13) + point, c.skip(13), d.skip(13));
    lemma_relation_of_parts(c.take(13), d.take(13), point, point);
    lemma_text_relation(point, point);
    if a < b {
        lemma_units_increase(a as nat, b as nat);
    }
    if a <= b {
        lemma_pow2_pos(1074);
        lemma_pow_positive(10, 6);
        let t = pow(10, 6) as nat;
        let m = units(a as nat);
        let n = units(b as nat);
        assert(m * t <= n * t) by (nonlinear_arith)
            requires
                m <= n,
        ;
        lemma_half_even_monotone(m * t, n * t, pow2(1074));
    }
}

// ── Laws on kinds ───────────────────────────────────────────────────────────────────────────────
/// Whether two texts differ in nothing but which digits they hold and in the case of letters.
pub open spec fn alike(s: Seq<char>, t: Seq<char>) -> bool {
    &&& s.len() == t.len()
    &&& forall|i: int|
        0 <= i < s.len() ==> {
            ||| is_digit(#[trigger] s[i]) && is_digit(t[i])
            ||| ascii_lower(s[i]) == ascii_lower(t[i])
        }
}

/// What patterns see of two characters that differ in nothing but their case, or which digit they are.
proof fn lemma_alike_chars(c: char, d: char)
    requires
        is_digit(c) && is_digit(d) || ascii_lower(c) == ascii_lower(d),
    ensures
        is_pattern_digit(c) == is_pattern_digit(d),
        is_pattern_word(c) == is_pattern_word(d),
        is_space(c) == is_space(d),
        (c == '.') == (d == '.'),
        !is_digit(folded(c)) || !is_digit(folded(d)) ==> folded(c) == folded(d),
        is_digit(folded(c)) ==> is_digit(c) && is_digit(d),
{
}

proof fn lemma_alike_words(s: Seq<char>, t: Seq<char>, words: Seq<Seq<char>>)
    requires
        alike(s, t),
        forall|w: int, j: int|
            0 <= w < words.len() && 0 <= j < words[w].len() ==> !is_digit(#[trigger] words[w][j]),
        has_numbered_word(s, words),
    ensures
        has_numbered_word(t, words),
{
    assert forall|i: int| 0 <= i < s.len() implies is_pattern_digit(#[trigger] s[i])
        == is_pattern_digit(t[i]) && is_pattern_word(s[i]) == is_pattern_word(t[i]) && is_space(
        s[i],
    ) == is_space(t[i]) by {
        lemma_alike_chars(s[i], t[i]);
    }
    let (i, w) = choose|i: int, w: int| #[trigger]
        keyword_at(s, i, words[w]) && 0 <= w < words.len() && boundary(s, i) && number_follows(
            s,
            i + words[w].len(),
        );
    let word = words[w];
    assert forall|j: int| 0 <= j < word.len() implies folded(#[trigger] t[i + j]) == word[j] by {
        assert(folded(s[i + j]) == word[j]);
        assert(!is_digit(words[w][j]));
        lemma_alike_chars(s[i + j], t[i + j]);
    }
    assert(keyword_at(t, i, words[w]));
    assert(word_at(s, i) == word_at(t, i));
    assert(word_at(s, i - 1) == word_at(t, i - 1));
    let from = i + word.len();
    let j = choose|j: int|
        #![trigger s[j]]
        from <= j < s.len() && is_pattern_digit(s[j]) && forall|k: int|
            from <= k < j ==> is_space(#[trigger] s[k]);
    assert(is_pattern_digit(t[j]));
    assert forall|k: int| from <= k < j implies is_space(#[trigger] t[k]) by {
        assert(is_space(s[k]));
    }
}

proof fn lemma_alike_digits(s: Seq<char>, t: Seq<char>)
    requires
        alike(s, t),
        has_digit(s),
    ensures
        has_digit(t),
{
    let i = choose|i: int| 0 <= i < s.len() && is_pattern_digit(#[trigger] s[i]);
    lemma_alike_chars(s[i], t[i]);
}

proof fn lemma_words_hold_no_digits()
    ensures
        forall|w: int, j: int|
            0 <= w < volume_words().len() && 0 <= j < volume_words()[w].len() ==> !is_digit(
                #[trigger] volume_words()[w][j],
            ),
        forall|w: int, j: int|
            0 <= w < chapter_words().len() && 0 <= j < chapter_words()[w].len() ==> !is_digit(
                #[trigger] chapter_words()[w][j],
            ),
        forall|w: int, j: int|
            0 <= w < episode_words().len() && 0 <= j < episode_words()[w].len() ==> !is_digit(
                #[trigger] episode_words()[w][j],
            ),
{
    reveal_strlit("vol");
    reveal_strlit("volume");
    reveal_strlit("v");
    reveal_strlit("ch");
    reveal_strlit("chapter");
    reveal_strlit("ep");
    reveal_strlit("episode");
    assert("vol"@ =~= seq!['v', 'o', 'l']);
    assert("volume"@ =~= seq!['v', 'o', 'l', 'u', 'm', 'e']);
    assert("v"@ =~= seq!['v']);
    assert("ch"@ =~= seq!['c', 'h']);
    assert("chapter"@ =~= seq!['c', 'h', 'a', 'p', 't', 'e', 'r']);
    assert("ep"@ =~= seq!['e', 'p']);
    assert("episode"@ =~= seq!['e', 'p', 'i', 's', 'o', 'd', 'e']);
}

/// What names and their lower cases say of the kind of a file depends neither on which digits they hold
/// nor on the case of letters.
pub proof fn lemma_alike_names_have_one_kind(
    x: Seq<char>,
    s: Seq<char>,
    y: Seq<char>,
    t: Seq<char>,
)
    requires
        alike(x, y),
        alike(s, t),
    ensures
        kind_of(x, s) == kind_of(y, t),
{
    lemma_words_hold_no_digits();
    assert(alike(t, s));
    assert(alike(y, x));
    if has_numbered_word(s, volume_words()) {
        lemma_alike_words(s, t, volume_words());
    }
    if has_numbered_word(t, volume_words()) {
        lemma_alike_words(t, s, volume_words());
    }
    if has_numbered_word(s, chapter_words()) {
        lemma_alike_words(s, t, chapter_words());
    }
    if has_numbered_word(t, chapter_words()) {
        lemma_alike_words(t, s, chapter_words());
    }
    if has_numbered_word(s, episode_words()) {
        lemma_alike_words(s, t, episode_words());
    }
    if has_numbered_word(t, episode_words()) {
        lemma_alike_words(t, s, episode_words());
    }
    if has_digit(x) {
        lemma_alike_digits(x, y);
    }
    if has_digit(y) {
        lemma_alike_digits(y, x);
    }
}

/// Names of ASCII characters that differ in nothing but which digits they hold and in the case of
/// letters are detected as the same kind. A word for a volume with a number decides, whatever else such
/// a name holds.
pub proof fn lemma_case_and_digits_do_not_matter(x: Seq<char>, y: Seq<char>)
    requires
        is_ascii_chars(x),
        is_ascii_chars(y),
        alike(x, y),
    ensures
        kind_of(x, lowered(x)) == kind_of(y, lowered(y)),
        kind_of(x, lowered(x)) == "volume"@ <==> has_numbered_word(x, volume_words()),
{
    assert(is_ascii_chars(ascii_lower_all(x)));
    assert(is_ascii_chars(ascii_lower_all(y)));
    assert(alike(x, lowered(x)));
    lemma_alike_names_have_one_kind(x, lowered(x), y, lowered(y));
    lemma_alike_names_have_one_kind(x, x, x, lowered(x));
    lemma_kinds(x, x);
    if has_numbered_word(x, volume_words()) {
        lemma_numbered_word_has_digit(x, volume_words());
    }
}

proof fn lemma_numbered_word_has_digit(s: Seq<char>, words: Seq<Seq<char>>)
    requires
        has_numbered_word(s, words),
    ensures
        has_digit(s),
{
    let (i, w) = choose|i: int, w: int| #[trigger]
        keyword_at(s, i, words[w]) && 0 <= w < words.len() && boundary(s, i) && number_follows(
            s,
            i + words[w].len(),
        );
    let from = i + words[w].len();
    let j = choose|j: int|
        #![trigger s[j]]
        from <= j < s.len() && is_pattern_digit(s[j]) && forall|k: int|
            from <= k < j ==> is_space(#[trigger] s[k]);
    assert(is_pattern_digit(s[j]));
}

/// The kind of any file is one of four, and it is unknown exactly where the name holds no digit. Where it
/// holds one, a word for a volume with a number in its lower case decides.
pub proof fn lemma_kinds(name: Seq<char>, lower: Seq<char>)
    ensures
        kind_of(name, lower) == "volume"@ || kind_of(name, lower) == "chapter"@ || kind_of(
            name,
            lower,
        ) == "episode"@ || kind_of(name, lower) == "unknown"@,
        kind_of(name, lower) == "unknown"@ <==> !has_digit(name),
        kind_of(name, lower) == "volume"@ <==> has_digit(name) && has_numbered_word(
            lower,
            volume_words(),
        ),
{
    reveal_strlit("volume");
    reveal_strlit("chapter");
    reveal_strlit("episode");
    reveal_strlit("unknown");
    assert("volume"@.len() != "chapter"@.len());
    assert("chapter"@[0] != "unknown"@[0]);
    assert("episode"@[0] != "unknown"@[0]);
}

// ── Laws on the order of file names ─────────────────────────────────────────────────────────────
/// The first digit is given by any digit that none precedes.
proof fn lemma_next_digit_is(s: Seq<char>, i: int, k: int)
    requires
        0 <= i <= k <= s.len(),
        forall|j: int| i <= j < k ==> !is_pattern_digit(#[trigger] s[j]),
        k < s.len() ==> is_pattern_digit(s[k]),
    ensures
        next_digit(s, i) == k,
    decreases k - i,
{
    if i < k {
        assert(!is_pattern_digit(s[i]));
        lemma_next_digit_is(s, i + 1, k);
    }
}

/// The end of a row of digits is given by any row of them that no further one follows.
proof fn lemma_run_end_is(s: Seq<char>, i: int, k: int)
    requires
        0 <= i <= k <= s.len(),
        forall|j: int| i <= j < k ==> is_pattern_digit(#[trigger] s[j]),
        k < s.len() ==> !is_pattern_digit(s[k]),
    ensures
        run_end(s, i) == k,
    decreases k - i,
{
    if i < k {
        assert(is_pattern_digit(s[i]));
        lemma_run_end_is(s, i + 1, k);
    }
}

/// Whether no number goes on behind a text: it ends neither in a digit nor in a digit and a point.
pub open spec fn ends_apart(p: Seq<char>) -> bool {
    &&& p.len() > 0 ==> !is_pattern_digit(p[p.len() - 1])
    &&& p.len() > 1 ==> !(p[p.len() - 1] == '.' && is_pattern_digit(p[p.len() - 2]))
}

/// Whether no number goes on into a text: it starts neither with a digit nor with a point and a digit.
pub open spec fn starts_apart(s: Seq<char>) -> bool {
    &&& s.len() > 0 ==> !is_pattern_digit(s[0])
    &&& s.len() > 1 ==> !(s[0] == '.' && is_pattern_digit(s[1]))
}

/// The key of a name with one whole number.
pub proof fn lemma_key_around_number(p: Seq<char>, d: Seq<char>, s: Seq<char>)
    requires
        !has_digit(p),
        !has_digit(s),
        d.len() > 0,
        all_digits(d),
    ensures
        sort_key(p + d + s) == word_keys(p) + seq![number_key(d)] + word_keys(s),
{
    let t = p + d + s;
    let i = p.len() as int;
    let k = i + d.len();
    assert forall|j: int| 0 <= j < i implies !is_pattern_digit(#[trigger] t[j]) by {
        assert(t[j] == p[j]);
    }
    assert forall|j: int| i <= j < k implies is_pattern_digit(#[trigger] t[j]) by {
        assert(t[j] == d[j - i]);
    }
    assert forall|j: int| k <= j < t.len() implies !is_pattern_digit(#[trigger] t[j]) by {
        assert(t[j] == s[j - k]);
    }
    lemma_next_digit_is(t, 0, i);
    lemma_run_end_is(t, i, k);
    assert(number_end(t, i) == k);
    assert(t.take(i) =~= p);
    assert(t.subrange(i, k) =~= d);
    assert(t.skip(k) =~= s);
    assert forall|j: int| 0 <= j < s.len() implies !is_pattern_digit(#[trigger] s[j]) by {}
    lemma_next_digit_is(s, 0, s.len() as int);
    assert(sort_key(s) == word_keys(s));
}

/// The first number of a text without digits before it.
proof fn lemma_number_between(p: Seq<char>, d: Seq<char>, s: Seq<char>)
    requires
        !has_digit(p),
        starts_apart(s),
        d.len() > 0,
        all_digits(d),
    ensures
        first_number(p + d + s) == Some((p, d, s)),
{
    let t = p + d + s;
    let i = p.len() as int;
    let k = i + d.len();
    assert forall|j: int| 0 <= j < i implies !is_pattern_digit(#[trigger] t[j]) by {
        assert(t[j] == p[j]);
    }
    assert forall|j: int| i <= j < k implies is_pattern_digit(#[trigger] t[j]) by {
        assert(t[j] == d[j - i]);
    }
    if k < t.len() {
        assert(t[k] == s[0]);
    }
    if k + 1 < t.len() {
        assert(t[k + 1] == s[1]);
    }
    lemma_next_digit_is(t, 0, i);
    lemma_run_end_is(t, i, k);
    assert(number_end(t, i) == k);
    assert(t.take(i) =~= p);
    assert(t.subrange(i, k) =~= d);
    assert(t.skip(k) =~= s);
}

/// A row of digits ends before a character that is no digit.
proof fn lemma_run_ends_before(s: Seq<char>, i: int, k: int)
    requires
        0 <= i <= k < s.len(),
        !is_pattern_digit(s[k]),
    ensures
        i <= run_end(s, i) <= k,
        !is_pattern_digit(s[run_end(s, i)]),
    decreases k - i,
{
    if i < k && is_pattern_digit(s[i]) {
        lemma_run_ends_before(s, i + 1, k);
    }
}

/// A row of digits that ends in a text ends there also where more text follows.
proof fn lemma_run_end_before(p: Seq<char>, u: Seq<char>, i: int)
    requires
        0 <= i,
        run_end(p, i) < p.len(),
    ensures
        run_end(p + u, i) == run_end(p, i),
    decreases p.len() - i,
{
    if i < p.len() {
        assert((p + u)[i] == p[i]);
        if is_pattern_digit(p[i]) {
            lemma_run_end_before(p, u, i + 1);
        }
    }
}

/// The first number of a text behind which no number goes on is the first one also where more follows.
proof fn lemma_first_number_before(p: Seq<char>, u: Seq<char>)
    requires
        has_digit(p),
        ends_apart(p),
    ensures
        first_number(p) matches Some((before, number, after)) && first_number(p + u) == Some(
            (before, number, after + u),
        ) && after.len() < p.len() && ends_apart(after),
{
    let t = p + u;
    let n = p.len() as int;
    lemma_next_digit(p, 0);
    let i = next_digit(p, 0);
    lemma_digit_is_found(p, 0);
    lemma_no_digit_before(p, 0);
    assert forall|j: int| 0 <= j < i implies !is_pattern_digit(#[trigger] t[j]) by {
        assert(t[j] == p[j]);
    }
    assert(t[i] == p[i]);
    lemma_next_digit_is(t, 0, i);
    lemma_run_ends_before(p, i, n - 1);
    lemma_run_end(p, i);
    lemma_run_is_digits(p, i);
    let w = run_end(p, i);
    lemma_run_end_before(p, u, i);
    assert(t[w] == p[w]);
    if w + 1 < n {
        assert(t[w + 1] == p[w + 1]);
        lemma_run_ends_before(p, w + 1, n - 1);
        lemma_run_end_before(p, u, w + 1);
        lemma_run_end(p, w + 1);
        lemma_run_is_digits(p, w + 1);
    } else {
        assert(is_pattern_digit(p[w - 1]));
        assert(p[w] != '.');
    }
    let k = number_end(p, i);
    assert(number_end(t, i) == k);
    assert(i < k < n);
    assert(t.take(i) =~= p.take(i));
    assert(t.subrange(i, k) =~= p.subrange(i, k));
    assert(t.skip(k) =~= p.skip(k) + u);
    let after = p.skip(k);
    assert(after[after.len() - 1] == p[n - 1]);
    if after.len() > 1 {
        assert(after[after.len() - 2] == p[n - 2]);
    }
}

/// A text with a digit has a first one.
proof fn lemma_digit_is_found(s: Seq<char>, i: int)
    requires
        0 <= i <= s.len(),
        exists|k: int| i <= k < s.len() && is_pattern_digit(#[trigger] s[k]),
    ensures
        next_digit(s, i) < s.len(),
    decreases s.len() - i,
{
    let k = choose|k: int| i <= k < s.len() && is_pattern_digit(#[trigger] s[k]);
    if !is_pattern_digit(s[i]) {
        assert(i + 1 <= k && is_pattern_digit(s[k]));
        lemma_digit_is_found(s, i + 1);
    }
}

/// No digit stands before the first one.
proof fn lemma_no_digit_before(s: Seq<char>, i: int)
    requires
        0 <= i <= s.len(),
    ensures
        forall|j: int| i <= j < next_digit(s, i) ==> !is_pattern_digit(#[trigger] s[j]),
    decreases s.len() - i,
{
    if i < s.len() && !is_pattern_digit(s[i]) {
        lemma_no_digit_before(s, i + 1);
    }
}

/// Rows with a common start compare by the rest.
proof fn lemma_row_relation_behind(x: Seq<Seq<char>>, a: Seq<Seq<char>>, b: Seq<Seq<char>>)
    ensures
        row_relation(x + a, x + b) == row_relation(a, b),
    decreases x.len(),
{
    if x.len() == 0 {
        assert(x + a =~= a);
        assert(x + b =~= b);
    } else {
        assert((x + a).skip(1) =~= x.skip(1) + a);
        assert((x + b).skip(1) =~= x.skip(1) + b);
        lemma_text_relation(x[0], x[0]);
        lemma_row_relation_behind(x.skip(1), a, b);
    }
}

/// The keys of two names that start with the numbers in which they differ, behind a text without digits.
proof fn lemma_first_numbers_sort(
    p: Seq<char>,
    a: Seq<char>,
    b: Seq<char>,
    s: Seq<char>,
)
    requires
        !has_digit(p),
        starts_apart(s),
        a.len() > 0,
        all_digits(a),
        digits_value(a) < pow(10, 13),
        b.len() > 0,
        all_digits(b),
        digits_value(b) < pow(10, 13),
    ensures
        row_relation(sort_key(p + a + s), sort_key(p + b + s)) == relation(
            digits_value(a),
            digits_value(b),
        ),
{
    let m = digits_value(a);
    let n = digits_value(b);
    lemma_number_between(p, a, s);
    lemma_number_between(p, b, s);
    assert(pow(10, 13) == 10_000_000_000_000) by {
        reveal_with_fuel(pow, 14);
    }
    assert(pow(10, 6) == 1_000_000) by {
        reveal_with_fuel(pow, 7);
    }
    assert(pow(10, 19) == pow(10, 13) * pow(10, 6)) by {
        lemma_pow_adds(10, 13, 6);
    }
    lemma_whole_number_is_exact(a);
    lemma_whole_number_is_exact(b);
    let x = counted(a)->ordinal;
    let y = counted(b)->ordinal;
    lemma_numbers_sort_by_value(x, y);
    reveal_strlit("0");
    let u = zero_padded(number_text(counted(a), 6), 20);
    let v = zero_padded(number_text(counted(b), 6), 20);
    lemma_relation_of_parts("0"@, "0"@, u, v);
    lemma_text_relation("0"@, "0"@);
    assert(text_relation(number_key(a), number_key(b)) == relation(m, n));
    let rest = sort_key(s);
    let c = seq![number_key(a)] + rest;
    let d = seq![number_key(b)] + rest;
    assert(sort_key(p + a + s) =~= word_keys(p) + c);
    assert(sort_key(p + b + s) =~= word_keys(p) + d);
    lemma_row_relation_behind(word_keys(p), c, d);
    assert(c.skip(1) =~= rest);
    assert(d.skip(1) =~= rest);
    lemma_row_relation(rest, rest);
}

/// The keys of two names that differ in a whole number only compare as the numbers do, whatever zeros
/// they are written with, and whatever numbers stand before and behind. In particular the keys are equal
/// exactly where the numbers are.
pub proof fn lemma_names_sort_by_number(
    p: Seq<char>,
    a: Seq<char>,
    b: Seq<char>,
    s: Seq<char>,
)
    requires
        ends_apart(p),
        starts_apart(s),
        a.len() > 0,
        all_digits(a),
        digits_value(a) < pow(10, 13),
        b.len() > 0,
        all_digits(b),
        digits_value(b) < pow(10, 13),
    ensures
        row_relation(sort_key(p + a + s), sort_key(p + b + s)) == relation(
            digits_value(a),
            digits_value(b),
        ),
        sort_key(p + a + s) == sort_key(p + b + s) <==> digits_value(a) == digits_value(b),
    decreases p.len(),
{
    if has_digit(p) {
        lemma_first_number_before(p, a + s);
        lemma_first_number_before(p, b + s);
        let (before, number, after) = first_number(p)->0;
        assert(p + a + s =~= p + (a + s));
        assert(p + b + s =~= p + (b + s));
        assert(after + (a + s) =~= after + a + s);
        assert(after + (b + s) =~= after + b + s);
        lemma_first_number(p + a + s);
        lemma_first_number(p + b + s);
        lemma_names_sort_by_number(after, a, b, s);
        lemma_row_relation_behind(
            word_keys(before) + seq![number_key(number)],
            sort_key(after + a + s),
            sort_key(after + b + s),
        );
    } else {
        lemma_first_numbers_sort(p, a, b, s);
    }
    lemma_row_relation(sort_key(p + a + s), sort_key(p + b + s));
}

/// Of two archives whose names differ in a whole number only, the one with the smaller number stands
/// first, wherever in the names the number stands.
pub proof fn lemma_archives_stand_by_number(
    names: Seq<Seq<char>>,
    r: Seq<usize>,
    i: int,
    j: int,
    p: Seq<char>,
    a: Seq<char>,
    b: Seq<char>,
    s: Seq<char>,
)
    requires
        is_stable_order(r, names.len(), row_order(sort_keys(names))),
        0 <= i < names.len(),
        0 <= j < names.len(),
        names[r[i] as int] == p + a + s,
        names[r[j] as int] == p + b + s,
        ends_apart(p),
        starts_apart(s),
        a.len() > 0,
        all_digits(a),
        b.len() > 0,
        all_digits(b),
        digits_value(a) < digits_value(b) < pow(10, 13),
    ensures
        i < j,
{
    lemma_names_sort_by_number(p, a, b, s);
    lemma_row_relation(sort_key(p + a + s), sort_key(p + b + s));
    let le = row_order(sort_keys(names));
    if j < i {
        assert(precedes(le, r[j] as int, r[i] as int));
    }
}

/// The capital letter of a small ASCII letter.
pub open spec fn ascii_upper(c: char) -> char {
    if 'a' <= c <= 'z' {
        (c as int - 32) as char
    } else {
        c
    }
}

/// Every character in upper case, as far as it is an ASCII letter.
pub open spec fn ascii_upper_all(s: Seq<char>) -> Seq<char> {
    s.map_values(|c: char| ascii_upper(c))
}

/// Texts in which digits and points stand at the same places hold their first number at the same place.
proof fn lemma_same_places(s: Seq<char>, t: Seq<char>, i: int)
    requires
        s.len() == t.len(),
        forall|j: int|
            0 <= j < s.len() ==> is_pattern_digit(#[trigger] s[j]) == is_pattern_digit(t[j]),
        0 <= i <= s.len(),
    ensures
        next_digit(s, i) == next_digit(t, i),
        run_end(s, i) == run_end(t, i),
    decreases s.len() - i,
{
    if i < s.len() {
        assert(is_pattern_digit(s[i]) == is_pattern_digit(t[i]));
        lemma_same_places(s, t, i + 1);
    }
}

/// A row of digits holds digits only.
proof fn lemma_run_is_digits(s: Seq<char>, i: int)
    requires
        0 <= i <= s.len(),
    ensures
        forall|j: int| i <= j < run_end(s, i) ==> is_pattern_digit(#[trigger] s[j]),
    decreases s.len() - i,
{
    if i < s.len() && is_pattern_digit(s[i]) {
        lemma_run_is_digits(s, i + 1);
    }
}

/// The part of a sort key that stands for a text does not depend on the case of ASCII letters.
proof fn lemma_word_keys_alike(s: Seq<char>, t: Seq<char>)
    requires
        ascii_lower_all(s) == ascii_lower_all(t),
    ensures
        word_keys(s) == word_keys(t),
{
    assert(ascii_lower_all(s).len() == s.len() && ascii_lower_all(t).len() == t.len());
}

/// Any two names that differ in nothing but the case of ASCII letters have one key.
pub proof fn lemma_case_keeps_sort_key(x: Seq<char>, y: Seq<char>)
    requires
        ascii_lower_all(x) == ascii_lower_all(y),
    ensures
        sort_key(x) == sort_key(y),
    decreases x.len(),
{
    assert(ascii_lower_all(x).len() == x.len() && ascii_lower_all(y).len() == y.len());
    assert forall|j: int| 0 <= j < x.len() implies ascii_lower(#[trigger] x[j]) == ascii_lower(
        y[j],
    ) by {
        assert(ascii_lower_all(x)[j] == ascii_lower(x[j]));
        assert(ascii_lower_all(y)[j] == ascii_lower(y[j]));
    }
    assert forall|j: int| 0 <= j < x.len() implies is_pattern_digit(#[trigger] x[j])
        == is_pattern_digit(y[j]) && (x[j] == '.') == (y[j] == '.') && (is_pattern_digit(x[j])
        ==> y[j] == x[j]) by {
        assert(ascii_lower(x[j]) == ascii_lower(y[j]));
    }
    lemma_same_places(x, y, 0);
    let i = next_digit(x, 0);
    lemma_next_digit(x, 0);
    if i < x.len() {
        lemma_same_places(x, y, i);
        lemma_run_end(x, i);
        lemma_run_is_digits(x, i);
        let w = run_end(x, i);
        if w + 1 < x.len() {
            lemma_same_places(x, y, w + 1);
            lemma_run_end(x, w + 1);
            lemma_run_is_digits(x, w + 1);
        }
        let k = number_end(x, i);
        assert(number_end(y, i) == k);
        assert(ascii_lower_all(x.take(i)) =~= ascii_lower_all(y.take(i)));
        assert(ascii_lower_all(x.skip(k)) =~= ascii_lower_all(y.skip(k)));
        assert(y.subrange(i, k) =~= x.subrange(i, k));
        lemma_word_keys_alike(x.take(i), y.take(i));
        lemma_first_number(x);
        lemma_case_keeps_sort_key(x.skip(k), y.skip(k));
    } else {
        lemma_word_keys_alike(x, y);
    }
}

/// Any name in upper case, as far as its letters are ASCII, is detected as the same kind and has the same
/// key.
pub proof fn lemma_upper_case_changes_nothing(x: Seq<char>)
    ensures
        kind_of(ascii_upper_all(x), lowered(ascii_upper_all(x))) == kind_of(x, lowered(x)),
        sort_key(ascii_upper_all(x)) == sort_key(x),
{
    let t = ascii_upper_all(x);
    assert(ascii_lower_all(t) =~= ascii_lower_all(x));
    assert forall|i: int| 0 <= i < t.len() implies ascii_lower(#[trigger] t[i]) == ascii_lower(
        x[i],
    ) by {}
    assert(alike(t, x));
    assert(alike(lowered(x), lowered(x)));
    lemma_alike_names_have_one_kind(t, lowered(t), x, lowered(x));
    lemma_case_keeps_sort_key(t, x);
}

/// A word for a chapter with a number decides where there is none for a volume, then one for an episode;
/// where there is a digit and none of them, the file is a chapter.
pub proof fn lemma_chapters_and_episodes(name: Seq<char>, lower: Seq<char>)
    requires
        has_digit(name),
        !has_numbered_word(lower, volume_words()),
    ensures
        has_numbered_word(lower, chapter_words()) ==> kind_of(name, lower) == "chapter"@,
        !has_numbered_word(lower, episode_words()) ==> kind_of(name, lower) == "chapter"@,
        kind_of(name, lower) == "episode"@ <==> has_numbered_word(lower, episode_words())
            && !has_numbered_word(lower, chapter_words()),
{
    reveal_strlit("chapter");
    reveal_strlit("episode");
    assert("chapter"@[0] != "episode"@[0]);
}

// ── Laws on numbers with a fraction ─────────────────────────────────────────────────────────────
/// A row of digits, and a point and one more digit where there is one.
pub open spec fn numeral(whole: Seq<char>, tenth: Option<char>) -> Seq<char> {
    match tenth {
        Some(c) => whole + "."@ + seq![c],
        None => whole,
    }
}

/// Whether these make up a numeral, of a number below a hundred thousand.
pub open spec fn is_numeral(whole: Seq<char>, tenth: Option<char>) -> bool {
    &&& whole.len() > 0
    &&& all_digits(whole)
    &&& digits_value(whole) < 100_000
    &&& tenth matches Some(c) ==> is_digit(c)
}

/// How many tenths a numeral stands for.
pub open spec fn numeral_tenths(whole: Seq<char>, tenth: Option<char>) -> nat {
    match tenth {
        Some(c) => digits_value(whole.push(c)),
        None => digits_value(whole) * 10,
    }
}

/// A numeral is written with six places as its tenths.
proof fn lemma_numeral_is_exact(whole: Seq<char>, tenth: Option<char>)
    requires
        is_numeral(whole, tenth),
    ensures
        number_of(numeral(whole, tenth)) matches Some(Number::Real { negative: false, ordinal })
            && ordinal < INFINITE && fixed_point(ordinal as nat, 6) == numeral_tenths(whole, tenth)
            * 100_000,
        numeral_tenths(whole, tenth) < 1_000_000,
{
    assert(pow(10, 6) == 1_000_000) by {
        reveal_with_fuel(pow, 7);
    }
    match tenth {
        Some(c) => {
            assert(whole.push(c).drop_last() =~= whole);
            assert(digits_value(whole.push(c)) < 1_000_000);
            lemma_tenths_are_read(whole, c);
            lemma_tenths_are_exact(digits_value(whole.push(c)));
        },
        None => {
            lemma_whole_number_is_exact(whole);
        },
    }
}

/// The first number of a text is the numeral behind a text without digits.
proof fn lemma_numeral_is_found(p: Seq<char>, whole: Seq<char>, tenth: Option<char>, s: Seq<char>)
    requires
        !has_digit(p),
        whole.len() > 0,
        all_digits(whole),
        tenth matches Some(c) ==> is_digit(c),
        starts_apart(s),
    ensures
        first_number(p + numeral(whole, tenth) + s) == Some((p, numeral(whole, tenth), s)),
{
    match tenth {
        Some(c) => {
            reveal_strlit(".");
            let d = numeral(whole, tenth);
            let t = p + d + s;
            let i = p.len() as int;
            let k = i + whole.len();
            assert forall|j: int| 0 <= j < i implies !is_pattern_digit(#[trigger] t[j]) by {
                assert(t[j] == p[j]);
            }
            assert forall|j: int| i <= j < k implies is_pattern_digit(#[trigger] t[j]) by {
                assert(t[j] == whole[j - i]);
                assert(is_digit(whole[j - i]));
            }
            assert(t[k] == '.' && t[k + 1] == c);
            if k + 2 < t.len() {
                assert(t[k + 2] == s[0]);
            }
            lemma_next_digit_is(t, 0, i);
            lemma_run_end_is(t, i, k);
            lemma_run_end_is(t, k + 1, k + 2);
            assert(t.take(i) =~= p);
            assert(t.subrange(i, k + 2) =~= d);
            assert(t.skip(k + 2) =~= s);
        },
        None => {
            lemma_number_between(p, whole, s);
        },
    }
}

/// The keys of two names that differ in a numeral only compare as its tenths do: chapter 2.5 stands behind
/// chapter 2 and before chapter 3, whatever zeros these are written with.
pub proof fn lemma_fractions_sort_by_value(
    p: Seq<char>,
    a: Seq<char>,
    x: Option<char>,
    b: Seq<char>,
    y: Option<char>,
    s: Seq<char>,
)
    requires
        ends_apart(p),
        is_numeral(a, x),
        is_numeral(b, y),
        starts_apart(s),
    ensures
        row_relation(
            sort_key(p + numeral(a, x) + s),
            sort_key(p + numeral(b, y) + s),
        ) == relation(numeral_tenths(a, x), numeral_tenths(b, y)),
    decreases p.len(),
{
    let c = numeral(a, x);
    let d = numeral(b, y);
    if has_digit(p) {
        lemma_first_number_before(p, c + s);
        lemma_first_number_before(p, d + s);
        let (before, number, after) = first_number(p)->0;
        assert(p + c + s =~= p + (c + s));
        assert(p + d + s =~= p + (d + s));
        assert(after + (c + s) =~= after + c + s);
        assert(after + (d + s) =~= after + d + s);
        lemma_first_number(p + c + s);
        lemma_first_number(p + d + s);
        lemma_fractions_sort_by_value(after, a, x, b, y, s);
        lemma_row_relation_behind(
            word_keys(before) + seq![number_key(number)],
            sort_key(after + c + s),
            sort_key(after + d + s),
        );
    } else {
        lemma_numeral_is_found(p, a, x, s);
        lemma_numeral_is_found(p, b, y, s);
        lemma_numeral_is_exact(a, x);
        lemma_numeral_is_exact(b, y);
        assert(pow(10, 19) > 1_000_000_000_000) by {
            lemma_pow_adds(10, 13, 6);
            reveal_with_fuel(pow, 14);
        }
        lemma_numbers_sort_by_value(counted(c)->ordinal, counted(d)->ordinal);
        reveal_strlit("0");
        let u = zero_padded(number_text(counted(c), 6), 20);
        let v = zero_padded(number_text(counted(d), 6), 20);
        lemma_relation_of_parts("0"@, "0"@, u, v);
        lemma_text_relation("0"@, "0"@);
        let rest = sort_key(s);
        let e = seq![number_key(c)] + rest;
        let f = seq![number_key(d)] + rest;
        assert(sort_key(p + c + s) =~= word_keys(p) + e);
        assert(sort_key(p + d + s) =~= word_keys(p) + f);
        lemma_row_relation_behind(word_keys(p), e, f);
        assert(e.skip(1) =~= rest);
        assert(f.skip(1) =~= rest);
        lemma_row_relation(rest, rest);
    }
}

/// The number that is found in a name is its first one, with its fraction where it has one.
pub proof fn lemma_number_is_found(p: Seq<char>, whole: Seq<char>, tenth: Option<char>, s: Seq<char>)
    requires
        !has_digit(p),
        whole.len() > 0,
        all_digits(whole),
        tenth matches Some(c) ==> is_digit(c),
        starts_apart(s),
    ensures
        first_number(p + numeral(whole, tenth) + s) == Some((p, numeral(whole, tenth), s)),
{
    lemma_numeral_is_found(p, whole, tenth, s);
}

// ── Laws on safe names ──────────────────────────────────────────────────────────────────────────
proof fn lemma_filter_all(s: Seq<char>, p: spec_fn(char) -> bool)
    requires
        has_none(s, p),
    ensures
        without(s, p) == s,
    decreases s.len(),
{
    reveal(Seq::filter);
    let q = |c: char| !p(c);
    if s.len() > 0 {
        let t = s.drop_last();
        assert forall|i: int| 0 <= i < t.len() implies !p(#[trigger] t[i]) by {
            assert(t[i] == s[i]);
        }
        lemma_filter_all(t, p);
        assert(!p(s[s.len() - 1]));
        assert(t.filter(q) == without(t, p));
        assert(t.push(s.last()) =~= s);
    }
}

proof fn lemma_collapsed_is(s: Seq<char>, p: spec_fn(char) -> bool, mark: char)
    requires
        no_pair(s, p),
    ensures
        collapsed(s, p, mark) == s,
    decreases s.len(),
{
    if s.len() > 0 {
        lemma_leading(s, p);
        if leading(s, p) >= 2 {
            assert(p(s[0]) && p(s[1]));
        }
        let rest = s.skip(1);
        assert forall|h: int, i: int| 0 <= h < rest.len() && i == h + 1 && i < rest.len() implies !(p(
            #[trigger] rest[h],
        ) && p(#[trigger] rest[i])) by {
            assert(rest[i] == s[i + 1] && rest[h] == s[h + 1]);
        }
        lemma_collapsed_is(rest, p, mark);
        assert(seq![s[0]] + rest =~= s);
    } else {
        assert(collapsed(s, p, mark) =~= s);
    }
}

/// What a file can be named is left alone by each step that makes a name safe.
proof fn lemma_plain_name_is_kept(s: Seq<char>)
    requires
        has_none(s, |c: char| is_unsafe(c)),
        has_none(s, |c: char| is_control(c)),
        no_pair(s, |c: char| is_space(c)),
        no_pair(s, |c: char| is_dash(c)),
    ensures
        ({
            let plain = without(without(s, |c: char| is_unsafe(c)), |c: char| is_control(c));
            let spaced = collapsed(plain, |c: char| is_space(c), ' ');
            collapsed(spaced, |c: char| is_dash(c), '-') == s
        }),
{
    lemma_filter_all(s, |c: char| is_unsafe(c));
    lemma_filter_all(s, |c: char| is_control(c));
    lemma_collapsed_is(s, |c: char| is_space(c), ' ');
    lemma_collapsed_is(s, |c: char| is_dash(c), '-');
}

proof fn lemma_ends_are_kept(s: Seq<char>)
    requires
        s.len() > 0 ==> !is_space(s[0]) && !is_space(s.last()) && s.last() != '.',
    ensures
        trimmed_end(trimmed(s), '.') == s,
{
    if s.len() > 0 {
        lemma_trimmed_is(s);
        lemma_trailing_is(s, only('.'), 0);
    }
    assert(trimmed(s) =~= s);
    assert(trimmed_end(s, '.') =~= s);
}

/// A name that a file can have is kept as it is, but that angle brackets and double quotes are softened:
/// nothing is taken out of a name that needs not be.
pub proof fn lemma_safe_name_is_kept(t: Seq<char>, s: Seq<char>)
    requires
        t.len() == s.len(),
        forall|i: int|
            0 <= i < t.len() ==> s[i] == if #[trigger] t[i] == '<' {
                '('
            } else if t[i] == '>' {
                ')'
            } else if t[i] == '"' {
                '\''
            } else {
                t[i]
            },
        has_none(s, |c: char| is_unsafe(c)),
        has_none(s, |c: char| is_control(c)),
        no_pair(s, |c: char| is_space(c)),
        no_pair(s, |c: char| is_dash(c)),
        s.len() > 0 ==> !is_space(s[0]) && !is_space(s.last()) && s.last() != '.',
    ensures
        safe_name(t) == s,
{
    let soft = t.map_values(|c: char| softened(c));
    assert(soft =~= s);
    lemma_plain_name_is_kept(s);
    lemma_ends_are_kept(s);
}

proof fn lemma_without_adds(a: Seq<char>, b: Seq<char>, p: spec_fn(char) -> bool)
    ensures
        without(a + b, p) == without(a, p) + without(b, p),
{
    Seq::filter_distributes_over_add(a, b, |c: char| !p(c));
}

proof fn lemma_without_one(c: char, p: spec_fn(char) -> bool)
    ensures
        without(seq![c], p) == if p(c) {
            Seq::<char>::empty()
        } else {
            seq![c]
        },
{
    reveal_with_fuel(Seq::filter, 2);
    let s = seq![c];
    assert(s.drop_last() =~= Seq::<char>::empty());
    if p(c) {
        assert(without(s, p) =~= Seq::<char>::empty());
    } else {
        assert(without(s, p) =~= seq![c]);
    }
}

/// What a file name cannot hold and what nothing stands for is left out, wherever it stands.
pub proof fn lemma_unsafe_is_left_out(a: Seq<char>, c: char, b: Seq<char>)
    requires
        c == ':' || c == '/' || c == '\\' || c == '|' || c == '?' || c == '*' || c == '\n' || c
            == '\r' || c == '\t',
    ensures
        safe_name(a + seq![c] + b) == safe_name(a + b),
{
    let f = |x: char| softened(x);
    let p = |c: char| is_unsafe(c);
    let q = |c: char| is_control(c);
    let x = a.map_values(f);
    let y = b.map_values(f);
    let one = seq![c];
    assert((a + one + b).map_values(f) =~= x + one + y);
    assert((a + b).map_values(f) =~= x + y);
    lemma_without_adds(x + one, y, p);
    lemma_without_adds(x, one, p);
    lemma_without_adds(x, y, p);
    lemma_without_one(c, p);
    let u = without(x, p);
    let v = without(y, p);
    let w = without(one, p);
    lemma_without_adds(u + w, v, q);
    lemma_without_adds(u, w, q);
    lemma_without_adds(u, v, q);
    lemma_without_one(c, q);
    assert(without(w, q) =~= Seq::<char>::empty()) by {
        if is_unsafe(c) {
            lemma_without_adds(w, w, q);
            assert(w + w =~= w);
            assert(without(w, q).len() == 2 * without(w, q).len());
        }
    }
    assert(without(u, q) + without(w, q) =~= without(u, q));
    assert(without(without((a + one + b).map_values(f), p), q) == without(
        without((a + b).map_values(f), p),
        q,
    ));
}

// ── Laws on padding ─────────────────────────────────────────────────────────────────────────────
/// Whether a row of digits stands by itself between two texts, and is the first one.
pub open spec fn stands_by_itself(p: Seq<char>, d: Seq<char>, s: Seq<char>) -> bool {
    &&& !has_digit(p)
    &&& d.len() > 0
    &&& all_digits(d)
    &&& p.len() > 0 ==> !is_pattern_word(p.last())
    &&& s.len() > 0 ==> !is_pattern_word(s[0])
    &&& s.len() > 0 ==> !is_pattern_digit(s[0])
}

proof fn lemma_next_whole_number_is(s: Seq<char>, i: int, k: int)
    requires
        0 <= i <= k < s.len(),
        forall|j: int| i <= j < k ==> !is_pattern_digit(#[trigger] s[j]),
        whole_number_at(s, k),
    ensures
        next_whole_number(s, i) == k,
    decreases k - i,
{
    if i < k {
        assert(!is_pattern_digit(s[i]));
        lemma_next_whole_number_is(s, i + 1, k);
    }
}

proof fn lemma_digits_width(p: Seq<char>, d: Seq<char>, s: Seq<char>)
    requires
        stands_by_itself(p, d, s),
        d.len() <= usize::MAX,
    ensures
        digits_width(p + d + s) == Some(d.len() as usize),
{
    let t = p + d + s;
    let i = p.len() as int;
    let k = i + d.len();
    assert forall|j: int| 0 <= j < i implies !is_pattern_digit(#[trigger] t[j]) by {
        assert(t[j] == p[j]);
    }
    assert forall|j: int| i <= j < k implies is_pattern_digit(#[trigger] t[j]) by {
        assert(t[j] == d[j - i]);
        assert(is_digit(d[j - i]));
    }
    if k < t.len() {
        assert(t[k] == s[0]);
    }
    lemma_run_end_is(t, i, k);
    assert(t[i] == d[0] && is_digit(d[0]));
    assert(t[k - 1] == d[d.len() - 1] && is_digit(d[d.len() - 1]));
    if i > 0 {
        assert(t[i - 1] == p.last());
    }
    assert(word_at(t, i) && !word_at(t, i - 1));
    assert(word_at(t, k - 1) && !word_at(t, k));
    assert(whole_number_at(t, i));
    lemma_next_whole_number_is(t, 0, i);
    assert(t.subrange(i, k) =~= d);
    assert forall|j: int| 0 <= j < d.len() implies 0 <= #[trigger] d[j] as u32 <= 0x7f by {
        assert(is_digit(d[j]));
    }
    assert(is_ascii_chars(d));
    vstd::utf8::is_ascii_chars_encode_utf8(d);
}

/// Numbers are filled up to the width of the longest number that the names hold, as far as it stands by
/// itself: none is longer, and one is that long. `parts` are the names, taken apart at the number.
pub proof fn lemma_padding_is_widest(
    names: Seq<Seq<char>>,
    parts: Seq<(Seq<char>, Seq<char>, Seq<char>)>,
) -> (k: int)
    requires
        names.len() > 0,
        parts.len() == names.len(),
        forall|i: int|
            0 <= i < names.len() ==> #[trigger] names[i] == parts[i].0 + parts[i].1 + parts[i].2
                && stands_by_itself(parts[i].0, parts[i].1, parts[i].2) && parts[i].1.len()
                <= usize::MAX,
    ensures
        0 <= k < names.len(),
        widest(names) == Some(parts[k].1.len() as usize),
        forall|i: int| 0 <= i < names.len() ==> (#[trigger] parts[i]).1.len() <= parts[k].1.len(),
    decreases names.len(),
{
    let n = names.len() - 1;
    assert(names[n] == parts[n].0 + parts[n].1 + parts[n].2);
    lemma_digits_width(parts[n].0, parts[n].1, parts[n].2);
    let t = names.drop_last();
    let q = parts.drop_last();
    if n == 0 {
        assert(widest(t) is None);
        assert(names.last() == names[0]);
        0
    } else {
        assert forall|i: int| 0 <= i < t.len() implies #[trigger] t[i] == q[i].0 + q[i].1 + q[i].2
            && stands_by_itself(q[i].0, q[i].1, q[i].2) && q[i].1.len() <= usize::MAX by {
            assert(names[i] == parts[i].0 + parts[i].1 + parts[i].2);
        }
        let j = lemma_padding_is_widest(t, q);
        let k = if parts[j].1.len() >= parts[n].1.len() {
            j
        } else {
            n
        };
        assert forall|i: int| 0 <= i < names.len() implies (#[trigger] parts[i]).1.len()
            <= parts[k].1.len() by {
            if i < n {
                assert(q[i] == parts[i]);
            }
        }
        assert(names.last() == names[n]);
        assert(q[j] == parts[j]);
        assert(names[j] == parts[j].0 + parts[j].1 + parts[j].2);
        assert(widest(t) == Some(parts[j].1.len() as usize));
        assert(digits_width(names.last()) == Some(parts[n].1.len() as usize));
        assert(widest(names) == wider(widest(t), digits_width(names.last())));
        k
    }
}

/// Names without a digit make no difference to the width.
pub proof fn lemma_names_without_digits_do_not_count(names: Seq<Seq<char>>, name: Seq<char>)
    requires
        !has_digit(name),
    ensures
        widest(names.push(name)) == widest(names),
{
    assert(names.push(name).drop_last() =~= names);
    lemma_no_whole_number(name, 0);
}

proof fn lemma_no_whole_number(s: Seq<char>, i: int)
    requires
        0 <= i <= s.len(),
        !has_digit(s),
    ensures
        next_whole_number(s, i) == s.len(),
    decreases s.len() - i,
{
    if i < s.len() {
        assert(!is_pattern_digit(s[i]));
        lemma_no_whole_number(s, i + 1);
    }
}

// ── Laws on prefixes and separators ─────────────────────────────────────────────────────────────
/// Whether a text is a word of its own between two others.
pub open spec fn is_apart(a: Seq<char>, b: Seq<char>) -> bool {
    &&& a.len() > 0 ==> !is_pattern_word(a.last())
    &&& b.len() > 0 ==> !is_pattern_word(b[0])
}

proof fn lemma_word_is_found(
    a: Seq<char>,
    w: Seq<char>,
    b: Seq<char>,
    words: Seq<Seq<char>>,
    k: int,
)
    requires
        is_apart(a, b),
        0 <= k < words.len(),
        w.len() > 0,
        forall|i: int| 0 <= i < w.len() ==> is_pattern_word(#[trigger] w[i]),
        ascii_lower_all(w) == words[k],
        forall|i: int| 0 <= i < w.len() ==> (#[trigger] w[i]) as u32 <= 0x7f,
    ensures
        has_word(a + w + b, words),
{
    let s = a + w + b;
    let i = a.len() as int;
    assert(ascii_lower_all(w).len() == w.len());
    assert forall|j: int| 0 <= j < words[k].len() implies folded(#[trigger] s[i + j]) == words[k][j] by {
        assert(s[i + j] == w[j]);
        assert(ascii_lower_all(w)[j] == ascii_lower(w[j]));
        assert(w[j] as u32 <= 0x7f);
    }
    assert(keyword_at(s, i, words[k]));
    let e = i + w.len();
    assert(s[i] == w[0] && s[e - 1] == w[w.len() - 1]);
    if i > 0 {
        assert(s[i - 1] == a.last());
    }
    if e < s.len() {
        assert(s[e] == b[0]);
    }
    assert(boundary(s, i));
    assert(boundary(s, e));
}

/// Whether a mode names no prefix, so that the file name suggests one.
pub open spec fn is_automatic(mode: Seq<char>) -> bool {
    mode != "custom"@ && mode != "episode"@ && mode != "chapter"@ && mode != "volume"@
}

/// A word for a volume in a file name, in whatever case, makes it the prefix `Volume`, whatever else stands
/// there.
pub proof fn lemma_volume_word_decides(
    a: Seq<char>,
    w: Seq<char>,
    b: Seq<char>,
    mode: Seq<char>,
    custom: Seq<char>,
)
    requires
        is_automatic(mode),
        is_apart(a, b),
        is_ascii_chars(w),
        ascii_lower_all(w) == "vol"@ || ascii_lower_all(w) == "volume"@,
    ensures
        prefix_of(a + w + b, mode, custom) == "Volume"@,
{
    reveal_strlit("vol");
    reveal_strlit("volume");
    let words = seq!["vol"@, "volume"@];
    let k: int = if ascii_lower_all(w) == "vol"@ {
        0
    } else {
        1
    };
    assert(ascii_lower_all(w).len() == w.len());
    assert forall|i: int| 0 <= i < w.len() implies is_pattern_word(#[trigger] w[i]) && w[i] as u32
        <= 0x7f by {
        assert(ascii_lower_all(w)[i] == ascii_lower(w[i]));
        assert('a' <= words[k][i] <= 'z');
    }
    assert(words[k] == ascii_lower_all(w));
    lemma_word_is_found(a, w, b, words, k);
}

/// A word for a chapter in a file name, in whatever case, makes it the prefix `Chapter` where no word for a
/// volume stands there. Where neither does, the prefix is `Episode`.
pub proof fn lemma_chapter_word_decides(
    a: Seq<char>,
    w: Seq<char>,
    b: Seq<char>,
    name: Seq<char>,
    mode: Seq<char>,
    custom: Seq<char>,
)
    requires
        is_automatic(mode),
        is_apart(a, b),
        is_ascii_chars(w),
        ascii_lower_all(w) == "ch"@ || ascii_lower_all(w) == "chapter"@,
        !has_word(a + w + b, seq!["vol"@, "volume"@]),
        !has_word(name, seq!["vol"@, "volume"@]),
        !has_word(name, seq!["ch"@, "chapter"@, "ch."@]),
    ensures
        prefix_of(a + w + b, mode, custom) == "Chapter"@,
        prefix_of(name, mode, custom) == "Episode"@,
{
    reveal_strlit("ch");
    reveal_strlit("chapter");
    let words = seq!["ch"@, "chapter"@, "ch."@];
    let k: int = if ascii_lower_all(w) == "ch"@ {
        0
    } else {
        1
    };
    assert(ascii_lower_all(w).len() == w.len());
    assert forall|i: int| 0 <= i < w.len() implies is_pattern_word(#[trigger] w[i]) && w[i] as u32
        <= 0x7f by {
        assert(ascii_lower_all(w)[i] == ascii_lower(w[i]));
        assert('a' <= words[k][i] <= 'z');
    }
    assert(words[k] == ascii_lower_all(w));
    lemma_word_is_found(a, w, b, words, k);
}

/// A prefix that is fixed is the same for every file, and so is one of the user's own, which is `Episode`
/// where it is empty.
pub proof fn lemma_prefix_is_fixed(x: Seq<char>, y: Seq<char>, custom: Seq<char>)
    ensures
        prefix_of(x, "episode"@, custom) == "Episode"@,
        prefix_of(x, "chapter"@, custom) == "Chapter"@,
        prefix_of(x, "volume"@, custom) == "Volume"@,
        custom.len() > 0 ==> prefix_of(x, "custom"@, custom) == custom,
        prefix_of(x, "custom"@, Seq::empty()) == prefix_of(y, "episode"@, custom),
{
    reveal_strlit("episode");
    reveal_strlit("chapter");
    reveal_strlit("volume");
    reveal_strlit("custom");
    assert("episode"@[0] != "chapter"@[0]);
    assert("volume"@[0] != "custom"@[0]);
    assert("episode"@.len() != "custom"@.len() && "chapter"@.len() != "custom"@.len());
    assert("episode"@.len() != "volume"@.len() && "chapter"@.len() != "volume"@.len());
}

/// A colon stands behind a prefix that names a chapter or a volume, wherever in the prefix the word stands,
/// and a dash between blanks behind any other; a separator of one's own stands between blanks instead.
pub proof fn lemma_separators(a: Seq<char>, w: Seq<char>, b: Seq<char>, p: Seq<char>, own: Seq<char>)
    requires
        w == "chapter"@ || w == "volume"@ || w == "ch."@ || w == "vol."@,
        forall|i: int|
            !occurs_at(p, i, "chapter"@) && !occurs_at(p, i, "volume"@) && !occurs_at(p, i, "ch."@)
                && !#[trigger] occurs_at(p, i, "vol."@),
    ensures
        separator_of(a + w + b, false, own) == ": "@,
        separator_of(a + w + b, true, Seq::empty()) == ": "@,
        separator_of(p, false, own) == " - "@,
        separator_of(p, true, Seq::empty()) == " - "@,
        own.len() > 0 ==> separator_of(p, true, own) == " "@ + own + " "@,
        own.len() > 0 ==> separator_of(a + w + b, true, own) == " "@ + own + " "@,
{
    let s = a + w + b;
    let i = a.len() as int;
    assert(s.subrange(i, i + w.len()) =~= w);
    assert(occurs_at(s, i, w));
    assert(contains_text(s, w));
    assert(!names_chapter_or_volume(p)) by {
        if contains_text(p, "chapter"@) {
            let k = choose|k: int| occurs_at(p, k, "chapter"@);
            assert(!occurs_at(p, k, "vol."@));
        }
        if contains_text(p, "volume"@) {
            let k = choose|k: int| occurs_at(p, k, "volume"@);
            assert(!occurs_at(p, k, "vol."@));
        }
        if contains_text(p, "ch."@) {
            let k = choose|k: int| occurs_at(p, k, "ch."@);
            assert(!occurs_at(p, k, "vol."@));
        }
    }
}

} // verus!
