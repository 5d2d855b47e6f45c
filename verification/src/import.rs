//! Taking metadata over from Python and JSON files.

use crate::decimal::{decimal_text, text_of_u64};
use crate::json::{
    is_json,
    json_elements,
    json_is_valid,
    json_members,
    json_string,
    read_elements,
    read_members,
    read_string,
};
use crate::number::ascii_lower_all;
use crate::rules::Row;
use crate::schema::{field_of, field_spec, lemma_fields_are_capitalized};
use crate::state::{AppConfig, ComicMode};
use crate::tags::{inserted, lemma_lookup_inserted, lookup, set_pair, Pair, TagMap};
use crate::text::{
    cat2,
    chars_of,
    contains_text,
    find_first,
    find_from,
    find_last,
    find_part,
    first_index,
    has_prefix,
    lacks,
    last_index,
    leading,
    lemma_first_place,
    lemma_leading,
    lemma_places_of_char,
    lemma_replaced,
    lemma_trailing,
    lemma_trimmed_is,
    lines_of,
    occurs_at,
    only,
    replace,
    replaced,
    same,
    same_ignoring_case,
    shorten,
    shortened,
    split_lines,
    starts_with,
    text_between,
    trailing,
    trim,
    trim_start,
    trimmed,
    trimmed_start,
};
use crate::unicode::{is_space, lower_text, lowered};
use vstd::prelude::*;

verus! {

// ── Python files ────────────────────────────────────────────────────────────────────────────────
/// The key and the value on a line of a dictionary: both in double quotes, with a colon and a blank
/// between them. The value ends at the last quote of the line.
pub open spec fn dict_entry(line: Seq<char>) -> Option<Pair> {
    match find_from(line, "\": \""@, 0) {
        Some(i) => {
            let rest = line.skip(i + 4);
            match last_index(rest, '"') {
                Some(e) => Some(
                    (
                        trimmed_start(trimmed(line.take(i)), '"'),
                        replaced(replaced(rest.take(e), "\\n"@, "\n"@), "\\\""@, "\""@),
                    ),
                ),
                None => None,
            }
        },
        None => None,
    }
}

/// One entry, or none.
pub open spec fn one_or_none(entry: Option<Pair>) -> Seq<Pair> {
    match entry {
        Some(p) => seq![p],
        None => Seq::empty(),
    }
}

/// The entries of the dictionary `CONSTANT_METADATA`, given the lines of a file and whether the
/// dictionary has started.
pub open spec fn dict_entries(lines: Seq<Seq<char>>, inside: bool) -> Seq<Pair>
    decreases lines.len(),
{
    if lines.len() == 0 {
        Seq::empty()
    } else {
        let line = trimmed(lines[0]);
        let rest = lines.skip(1);
        if !inside {
            dict_entries(rest, starts_with(line, "CONSTANT_METADATA"@) && line.contains('{'))
        } else if line == "}"@ || line == "},"@ {
            Seq::empty()
        } else {
            one_or_none(dict_entry(line)) + dict_entries(rest, true)
        }
    }
}

/// The key and the value on a line of a dictionary.
fn read_entry(line: &str) -> (r: Option<(String, String)>)
    ensures
        r.deep_view() == dict_entry(line@),
{
    let v = chars_of(line);
    proof {
        reveal_strlit("\": \"");
        reveal_strlit("\\n");
        reveal_strlit("\\\"");
    }
    match find_part(&v, "\": \"", 0) {
        Some(i) => {
            let n: usize = v.len();
            let head = text_between(&v, 0, i);
            assert(head@ =~= line@.take(i as int));
            let head = trim(head.as_str());
            let key = trim_start(head.as_str(), '"');
            let rest = text_between(&v, i + 4, n);
            assert(rest@ =~= line@.skip(i + 4));
            let w = chars_of(rest.as_str());
            match find_last(&w, '"') {
                Some(e) => {
                    let value = text_between(&w, 0, e);
                    assert(value@ =~= rest@.take(e as int));
                    let value = replace(value.as_str(), "\\n", "\n");
                    let value = replace(value.as_str(), "\\\"", "\"");
                    Some((key, value))
                },
                None => None,
            }
        },
        None => None,
    }
}

/// Whether `mark` stands in `text`.
fn has_char(text: &str, mark: char) -> (r: bool)
    ensures
        r == text@.contains(mark),
{
    let v = chars_of(text);
    let mut i: usize = 0;
    while i < v.len()
        invariant
            v@ == text@,
            i <= v@.len(),
            forall|k: int| 0 <= k < i ==> #[trigger] v@[k] != mark,
        decreases v@.len() - i,
    {
        if v[i] == mark {
            assert(text@[i as int] == mark);
            return true;
        }
        i = i + 1;
    }
    false
}

/// The entries of the dictionary `CONSTANT_METADATA`.
fn read_dict(lines: &Vec<String>) -> (r: Vec<(String, String)>)
    ensures
        r.deep_view() == dict_entries(lines.deep_view(), false),
{
    let ghost all = lines.deep_view();
    let mut out: Vec<(String, String)> = Vec::new();
    let mut inside: bool = false;
    let mut i: usize = 0;
    assert(all.skip(0) =~= all);
    assert(out.deep_view() + dict_entries(all, false) =~= dict_entries(all, false));
    while i < lines.len()
        invariant
            all == lines.deep_view(),
            i <= lines@.len(),
            out.deep_view() + dict_entries(all.skip(i as int), inside) == dict_entries(all, false),
        decreases lines@.len() - i,
    {
        let ghost rest = all.skip(i as int);
        let ghost head = out.deep_view();
        assert(rest[0] == lines@[i as int]@);
        assert(rest.skip(1) =~= all.skip(i + 1));
        let line = trim(lines[i].as_str());
        if !inside {
            inside = has_prefix(line.as_str(), "CONSTANT_METADATA") && has_char(line.as_str(), '{');
        } else {
            if same(line.as_str(), "}") || same(line.as_str(), "},") {
                assert(out.deep_view() + Seq::<Pair>::empty() =~= out.deep_view());
                return out;
            }
            match read_entry(line.as_str()) {
                Some(pair) => {
                    let ghost p = pair.deep_view();
                    out.push(pair);
                    assert(out.deep_view() =~= head.push(p));
                    assert(out.deep_view() + dict_entries(rest.skip(1), true) =~= head + (seq![p]
                        + dict_entries(rest.skip(1), true)));
                },
                None => {
                    assert(Seq::<Pair>::empty() + dict_entries(rest.skip(1), true)
                        =~= dict_entries(rest.skip(1), true));
                },
            }
        }
        i = i + 1;
    }
    assert(all.skip(i as int) =~= Seq::<Seq<char>>::empty());
    assert(out.deep_view() + Seq::<Pair>::empty() =~= out.deep_view());
    out
}

/// The summary in a Python file: a text in triple quotes, or else one in double quotes. Nothing where
/// there is none or it is empty.
pub open spec fn python_summary(data: Seq<char>) -> Option<Seq<char>> {
    match find_from(data, "SUMMARY = \"\"\""@, 0) {
        Some(i) => {
            let after = data.skip(i + 13);
            match find_from(after, "\"\"\""@, 0) {
                Some(e) => {
                    let s = trimmed(after.take(e));
                    if s.len() > 0 {
                        Some(s)
                    } else {
                        None
                    }
                },
                None => None,
            }
        },
        None => match find_from(data, "SUMMARY = \""@, 0) {
            Some(i) => {
                let after = data.skip(i + 11);
                match first_index(after, '"') {
                    Some(e) => {
                        let s = replaced(after.take(e), "\\n"@, "\n"@);
                        if s.len() > 0 {
                            Some(s)
                        } else {
                            None
                        }
                    },
                    None => None,
                }
            },
            None => None,
        },
    }
}

/// The summary in a Python file.
fn read_python_summary(data: &str) -> (r: Option<String>)
    ensures
        r.deep_view() == python_summary(data@),
{
    proof {
        reveal_strlit("SUMMARY = \"\"\"");
        reveal_strlit("SUMMARY = \"");
        reveal_strlit("\"\"\"");
        reveal_strlit("\\n");
    }
    let v = chars_of(data);
    let n: usize = v.len();
    let s: String = match find_part(&v, "SUMMARY = \"\"\"", 0) {
        Some(i) => {
            let after = text_between(&v, i + 13, n);
            assert(after@ =~= data@.skip(i + 13));
            let w = chars_of(after.as_str());
            match find_part(&w, "\"\"\"", 0) {
                Some(e) => {
                    let inner = text_between(&w, 0, e);
                    assert(inner@ =~= after@.take(e as int));
                    trim(inner.as_str())
                },
                None => return None,
            }
        },
        None => match find_part(&v, "SUMMARY = \"", 0) {
            Some(i) => {
                let after = text_between(&v, i + 11, n);
                assert(after@ =~= data@.skip(i + 11));
                let w = chars_of(after.as_str());
                match find_first(&w, '"') {
                    Some(e) => {
                        let inner = text_between(&w, 0, e);
                        assert(inner@ =~= after@.take(e as int));
                        replace(inner.as_str(), "\\n", "\n")
                    },
                    None => return None,
                }
            },
            None => return None,
        },
    };
    if s.as_str().is_empty() {
        None
    } else {
        Some(s)
    }
}

/// The last field of a tuple, where there is one.
pub open spec fn last_field(current: Seq<char>) -> Row {
    if trimmed(current).len() > 0 {
        seq![trimmed(current)]
    } else {
        Seq::empty()
    }
}

/// The fields in the rest `s` of a tuple, of which the first has started with `current`.
///
/// Commas divide the fields, but not between double quotes, which are left out. Between quotes a
/// backslash stands before `n` for a line feed, before a quote and before a backslash.
pub open spec fn fields_from(s: Seq<char>, current: Seq<char>, quoted: bool) -> Row
    decreases s.len(),
{
    if s.len() == 0 {
        last_field(current)
    } else if quoted {
        if s[0] == '\\' && s.len() > 1 && s[1] == 'n' {
            fields_from(s.skip(2), current.push('\n'), true)
        } else if s[0] == '\\' && s.len() > 1 && (s[1] == '"' || s[1] == '\\') {
            fields_from(s.skip(2), current.push(s[1]), true)
        } else if s[0] == '"' {
            fields_from(s.skip(1), current, false)
        } else {
            fields_from(s.skip(1), current.push(s[0]), true)
        }
    } else if s[0] == '"' {
        fields_from(s.skip(1), current, true)
    } else if s[0] == ',' {
        seq![trimmed(current)] + fields_from(s.skip(1), Seq::empty(), false)
    } else {
        fields_from(s.skip(1), current.push(s[0]), false)
    }
}

/// The fields of a tuple, given what stands between its parentheses.
pub fn parse_py_tuple_fields(inner: &str) -> (r: Vec<String>)
    ensures
        r.deep_view() == fields_from(inner@, Seq::empty(), false),
{
    let v = chars_of(inner);
    let n: usize = v.len();
    let mut fields: Vec<String> = Vec::new();
    let mut current = String::new();
    let mut quoted: bool = false;
    let mut i: usize = 0;
    assert(v@.skip(0) =~= v@);
    assert(fields.deep_view() + fields_from(v@, Seq::empty(), false) =~= fields_from(
        v@,
        Seq::empty(),
        false,
    ));
    while i < n
        invariant
            v@ == inner@,
            n == v@.len(),
            i <= n,
            fields.deep_view() + fields_from(v@.skip(i as int), current@, quoted) == fields_from(
                inner@,
                Seq::empty(),
                false,
            ),
        decreases n - i,
    {
        let ghost rest = v@.skip(i as int);
        assert(rest[0] == v@[i as int]);
        assert(i + 1 < n ==> rest[1] == v@[i + 1]);
        assert(rest.skip(1) =~= v@.skip(i + 1));
        assert(i + 1 < n ==> rest.skip(2) =~= v@.skip(i + 2));
        let c: char = v[i];
        if quoted {
            if c == '\\' && i + 1 < n && v[i + 1] == 'n' {
                current.push('\n');
                i = i + 2;
            } else if c == '\\' && i + 1 < n && (v[i + 1] == '"' || v[i + 1] == '\\') {
                current.push(v[i + 1]);
                i = i + 2;
            } else if c == '"' {
                quoted = false;
                i = i + 1;
            } else {
                current.push(c);
                i = i + 1;
            }
        } else if c == '"' {
            quoted = true;
            i = i + 1;
        } else if c == ',' {
            let ghost head = fields.deep_view();
            let field = trim(current.as_str());
            let ghost f = field@;
            fields.push(field);
            assert(fields.deep_view() =~= head.push(f));
            assert(fields.deep_view() + fields_from(rest.skip(1), Seq::empty(), false) =~= head + (
            seq![f] + fields_from(rest.skip(1), Seq::empty(), false)));
            current = String::new();
            i = i + 1;
        } else {
            current.push(c);
            i = i + 1;
        }
    }
    assert(v@.skip(n as int) =~= Seq::<char>::empty());
    let ghost head = fields.deep_view();
    let last = trim(current.as_str());
    if !last.as_str().is_empty() {
        fields.push(last);
        assert(fields.deep_view() =~= head + last_field(current@));
    } else {
        assert(fields.deep_view() =~= head + last_field(current@));
    }
    fields
}

/// The fields of the tuple on a line; none where there is no tuple.
pub open spec fn line_fields(line: Seq<char>) -> Row {
    match (first_index(line, '('), last_index(line, ')')) {
        (Some(open), Some(close)) => if close <= open {
            Seq::empty()
        } else {
            fields_from(line.subrange(open + 1, close), Seq::empty(), false)
        },
        _ => Seq::empty(),
    }
}

/// One row, or none where it is empty.
pub open spec fn row_or_none(row: Row) -> Seq<Row> {
    if row.len() > 0 {
        seq![row]
    } else {
        Seq::empty()
    }
}

/// The tuples on the lines of a list, up to the line that starts with a closing bracket. Empty lines
/// and comments are passed over.
pub open spec fn tuple_rows(lines: Seq<Seq<char>>) -> Seq<Row>
    decreases lines.len(),
{
    if lines.len() == 0 {
        Seq::empty()
    } else {
        let line = trimmed(lines[0]);
        if starts_with(line, "]"@) {
            Seq::empty()
        } else if line.len() == 0 || starts_with(line, "#"@) {
            tuple_rows(lines.skip(1))
        } else {
            row_or_none(line_fields(line)) + tuple_rows(lines.skip(1))
        }
    }
}

/// The tuples of the list that follows `marker`.
pub open spec fn tuple_block(data: Seq<char>, marker: Seq<char>) -> Seq<Row> {
    match find_from(data, marker, 0) {
        Some(start) => match first_index(data.skip(start), '[') {
            Some(bracket) => tuple_rows(lines_of(data.skip(start + bracket + 1))),
            None => Seq::empty(),
        },
        None => Seq::empty(),
    }
}

/// The fields of the tuple on a line.
fn read_line_fields(line: &str) -> (r: Vec<String>)
    ensures
        r.deep_view() == line_fields(line@),
{
    let v = chars_of(line);
    let none: Vec<String> = Vec::new();
    assert(none.deep_view() =~= Seq::<Seq<char>>::empty());
    let first: Option<usize> = find_first(&v, '(');
    let last: Option<usize> = find_last(&v, ')');
    match (first, last) {
        (Some(open), Some(close)) => {
            if close <= open {
                none
            } else {
                let inner = text_between(&v, open + 1, close);
                parse_py_tuple_fields(inner.as_str())
            }
        },
        _ => none,
    }
}

/// The tuples of the list that follows `marker`.
pub fn parse_py_tuple_block(data: &str, marker: &str) -> (r: Vec<Vec<String>>)
    ensures
        r.deep_view() == tuple_block(data@, marker@),
{
    let mut rows: Vec<Vec<String>> = Vec::new();
    assert(rows.deep_view() =~= Seq::<Row>::empty());
    let v = chars_of(data);
    let n: usize = v.len();
    let start: usize = match find_part(&v, marker, 0) {
        Some(i) => i,
        None => return rows,
    };
    let after = text_between(&v, start, n);
    assert(after@ =~= data@.skip(start as int));
    let w = chars_of(after.as_str());
    let bracket: usize = match find_first(&w, '[') {
        Some(i) => i,
        None => return rows,
    };
    let body = text_between(&v, start + bracket + 1, n);
    assert(body@ =~= data@.skip(start + bracket + 1));
    let lines = split_lines(body.as_str());
    let ghost all = lines.deep_view();
    let mut i: usize = 0;
    proof {
        reveal_strlit("]");
        reveal_strlit("#");
        assert(all.skip(0) =~= all);
        assert(rows.deep_view() + tuple_rows(all) =~= tuple_rows(all));
    }
    while i < lines.len()
        invariant
            all == lines.deep_view(),
            tuple_block(data@, marker@) == tuple_rows(all),
            i <= lines@.len(),
            rows.deep_view() + tuple_rows(all.skip(i as int)) == tuple_rows(all),
        decreases lines@.len() - i,
    {
        let ghost rest = all.skip(i as int);
        let ghost head = rows.deep_view();
        assert(rest[0] == lines@[i as int]@);
        assert(rest.skip(1) =~= all.skip(i + 1));
        let line = trim(lines[i].as_str());
        if has_prefix(line.as_str(), "]") {
            assert(head + Seq::<Row>::empty() =~= head);
            return rows;
        }
        if !line.as_str().is_empty() && !has_prefix(line.as_str(), "#") {
            let fields = read_line_fields(line.as_str());
            let ghost row = fields.deep_view();
            if fields.len() > 0 {
                rows.push(fields);
                assert(rows.deep_view() =~= head.push(row));
                assert(rows.deep_view() + tuple_rows(rest.skip(1)) =~= head + (seq![row]
                    + tuple_rows(rest.skip(1))));
            } else {
                assert(Seq::<Row>::empty() + tuple_rows(rest.skip(1)) =~= tuple_rows(rest.skip(1)));
            }
        }
        i = i + 1;
    }
    assert(all.skip(i as int) =~= Seq::<Seq<char>>::empty());
    assert(rows.deep_view() + Seq::<Row>::empty() =~= rows.deep_view());
    rows
}

/// The tags and values in a Python file: those of its dictionary, and its summary.
pub open spec fn python_pairs(data: Seq<char>) -> Seq<Pair> {
    dict_entries(lines_of(data), false) + match python_summary(data) {
        Some(s) => seq![("Summary"@, s)],
        None => Seq::empty(),
    }
}

/// The tags and values in a Python file.
pub fn read_python(data: &str) -> (r: Vec<(String, String)>)
    ensures
        r.deep_view() == python_pairs(data@),
{
    let lines = split_lines(data);
    let mut pairs = read_dict(&lines);
    let ghost head = pairs.deep_view();
    match read_python_summary(data) {
        Some(s) => {
            let ghost p = ("Summary"@, s@);
            pairs.push((String::from_str("Summary"), s));
            assert(pairs.deep_view() =~= head + seq![p]);
        },
        None => {
            assert(pairs.deep_view() =~= head + Seq::<Pair>::empty());
        },
    }
    pairs
}

// ── Fields ──────────────────────────────────────────────────────────────────────────────────────
/// The tag that an older name, given in lower case, stands for, and whether it is a rating on a scale
/// up to 10.
pub open spec fn alias_of(lower: Seq<char>) -> Option<(Seq<char>, bool)> {
    if lower == "series"@ {
        Some(("Series"@, false))
    } else if lower == "writer"@ {
        Some(("Writer"@, false))
    } else if lower == "penciller"@ {
        Some(("Penciller"@, false))
    } else if lower == "publisher"@ {
        Some(("Publisher"@, false))
    } else if lower == "language"@ {
        Some(("LanguageISO"@, false))
    } else if lower == "alt_series"@ {
        Some(("AlternateSeries"@, false))
    } else if lower == "web"@ {
        Some(("Web"@, false))
    } else if lower == "genre"@ {
        Some(("Genre"@, false))
    } else if lower == "count"@ {
        Some(("Count"@, false))
    } else if lower == "year"@ {
        Some(("Year"@, false))
    } else if lower == "month"@ {
        Some(("Month"@, false))
    } else if lower == "day"@ {
        Some(("Day"@, false))
    } else if lower == "rating"@ {
        Some(("CommunityRating"@, true))
    } else {
        None
    }
}

/// The tag that an older name, given in lower case, stands for.
pub fn alias_for_lowercase(lower: &str) -> (r: Option<(&'static str, bool)>)
    ensures
        r.deep_view() == alias_of(lower@),
{
    if same(lower, "series") {
        Some(("Series", false))
    } else if same(lower, "writer") {
        Some(("Writer", false))
    } else if same(lower, "penciller") {
        Some(("Penciller", false))
    } else if same(lower, "publisher") {
        Some(("Publisher", false))
    } else if same(lower, "language") {
        Some(("LanguageISO", false))
    } else if same(lower, "alt_series") {
        Some(("AlternateSeries", false))
    } else if same(lower, "web") {
        Some(("Web", false))
    } else if same(lower, "genre") {
        Some(("Genre", false))
    } else if same(lower, "count") {
        Some(("Count", false))
    } else if same(lower, "year") {
        Some(("Year", false))
    } else if same(lower, "month") {
        Some(("Month", false))
    } else if same(lower, "day") {
        Some(("Day", false))
    } else if same(lower, "rating") {
        Some(("CommunityRating", true))
    } else {
        None
    }
}

/// The tag that an older name stands for, and whether it is a rating on a scale up to 10.
pub fn legacy_field_alias(key: &str) -> (r: Option<(&'static str, bool)>)
    ensures
        r.deep_view() == alias_of(lowered(key@)),
{
    let lower = lower_text(key);
    alias_for_lowercase(lower.as_str())
}

/// The tag that a name, also given in lower case, stands for: itself where it is a tag, else the tag
/// that it is an older name of.
pub open spec fn tag_named(key: Seq<char>, lower: Seq<char>) -> Option<(Seq<char>, bool)> {
    match field_of(key) {
        Some(f) => Some((f.tag@, false)),
        None => alias_of(lower),
    }
}

/// The tag that a name, also given in lower case, stands for.
fn resolve(key: &str, lower: &str) -> (r: Option<(&'static str, bool)>)
    ensures
        r.deep_view() == tag_named(key@, lower@),
{
    match field_spec(key) {
        Some(f) => Some((f.tag, false)),
        None => alias_for_lowercase(lower),
    }
}

/// Whether a name is that of the summary.
pub open spec fn is_summary(key: Seq<char>) -> bool {
    ascii_lower_all(key) == ascii_lower_all("Summary"@)
}

/// The label of a tag.
pub open spec fn label_of(tag: Seq<char>) -> Seq<char> {
    match field_of(tag) {
        Some(f) => f.label@,
        None => tag,
    }
}

/// The label of a tag.
pub fn field_label(tag: &str) -> (r: String)
    ensures
        r@ == label_of(tag@),
{
    match field_spec(tag) {
        Some(f) => String::from_str(f.label),
        None => String::from_str(tag),
    }
}

/// What an import changes: the constant metadata, the summary, whether ratings go up to 10, and what
/// is reported.
pub struct Taken {
    pub fields: Seq<Pair>,
    pub summary: Seq<char>,
    pub ten_scale: bool,
    pub items: Seq<Pair>,
}

/// What an import has changed so far.
pub open spec fn taken(cfg: AppConfig, items: Seq<Pair>) -> Taken {
    Taken {
        fields: cfg.metadata_fields.deep_view(),
        summary: cfg.summary@,
        ten_scale: cfg.community_rating_10_scale,
        items,
    }
}

/// Whether nothing but what an import changes differs.
pub open spec fn fields_differ_only(a: AppConfig, b: AppConfig) -> bool {
    b == (AppConfig {
        metadata_fields: b.metadata_fields,
        summary: b.summary,
        community_rating_10_scale: b.community_rating_10_scale,
        ..a
    })
}

/// An import with one more name and value. The name is also given in lower case.
pub open spec fn with_pair(t: Taken, key: Seq<char>, lower: Seq<char>, value: Seq<char>) -> Taken {
    if is_summary(key) {
        Taken { summary: value, items: t.items.push(("Summary"@, shortened(value))), ..t }
    } else {
        match tag_named(key, lower) {
            Some((tag, rating)) => Taken {
                fields: inserted(t.fields, tag, value),
                ten_scale: t.ten_scale || rating,
                items: t.items.push((label_of(tag), shortened(value))),
                ..t
            },
            None => t,
        }
    }
}

/// An import with some more names and values.
pub open spec fn with_pairs(t: Taken, pairs: Seq<Pair>) -> Taken
    decreases pairs.len(),
{
    if pairs.len() == 0 {
        t
    } else {
        let (key, value) = pairs.last();
        with_pair(with_pairs(t, pairs.drop_last()), key, lowered(key), value)
    }
}

/// Sets the value of a tag of the constant metadata.
pub fn set_metadata_field(cfg: &mut AppConfig, tag: &str, val: String)
    ensures
        final(cfg).metadata_fields.deep_view() == inserted(
            old(cfg).metadata_fields.deep_view(),
            tag@,
            val@,
        ),
        *final(cfg) == (AppConfig { metadata_fields: final(cfg).metadata_fields, ..*old(cfg) }),
{
    set_pair(&mut cfg.metadata_fields, String::from_str(tag), val);
}

/// Appends to what is reported.
fn push_item(items: &mut Vec<(String, String)>, name: String, value: String)
    ensures
        final(items).deep_view() == old(items).deep_view().push((name@, value@)),
{
    let ghost p = (name@, value@);
    items.push((name, value));
    assert(items.deep_view() =~= old(items).deep_view().push(p));
}

/// Takes one name and value over. The name is also given in lower case.
pub fn apply_pair(
    cfg: &mut AppConfig,
    items: &mut Vec<(String, String)>,
    key: &str,
    lower: &str,
    value: &str,
)
    ensures
        taken(*final(cfg), final(items).deep_view()) == with_pair(
            taken(*old(cfg), old(items).deep_view()),
            key@,
            lower@,
            value@,
        ),
        fields_differ_only(*old(cfg), *final(cfg)),
{
    let shown = shorten(value);
    if same_ignoring_case(key, "Summary") {
        cfg.summary = String::from_str(value);
        push_item(items, String::from_str("Summary"), shown);
    } else {
        match resolve(key, lower) {
            Some((tag, rating)) => {
                if rating {
                    cfg.community_rating_10_scale = true;
                }
                set_metadata_field(cfg, tag, String::from_str(value));
                push_item(items, field_label(tag), shown);
            },
            None => {},
        }
    }
}

/// Takes names and values over.
fn apply_pairs(cfg: &mut AppConfig, items: &mut Vec<(String, String)>, pairs: &Vec<(String, String)>)
    ensures
        taken(*final(cfg), final(items).deep_view()) == with_pairs(
            taken(*old(cfg), old(items).deep_view()),
            pairs.deep_view(),
        ),
        fields_differ_only(*old(cfg), *final(cfg)),
{
    let ghost all = pairs.deep_view();
    let ghost start = taken(*cfg, items.deep_view());
    let ghost before = *cfg;
    let n: usize = pairs.len();
    let mut i: usize = 0;
    assert(all.take(0) =~= Seq::<Pair>::empty());
    while i < n
        invariant
            n == pairs@.len(),
            all == pairs.deep_view(),
            i <= n,
            taken(*cfg, items.deep_view()) == with_pairs(start, all.take(i as int)),
            fields_differ_only(before, *cfg),
        decreases n - i,
    {
        proof {
            assert(all.take(i + 1).drop_last() =~= all.take(i as int));
            assert(all.take(i + 1).last() == (pairs@[i as int].0@, pairs@[i as int].1@));
        }
        let lower = lower_text(pairs[i].0.as_str());
        apply_pair(cfg, items, pairs[i].0.as_str(), lower.as_str(), pairs[i].1.as_str());
        i = i + 1;
    }
    assert(all.take(n as int) =~= all);
}

// ── Rules and settings ──────────────────────────────────────────────────────────────────────────
/// One item, or none.
pub open spec fn item_if(wanted: bool, name: Seq<char>, value: Seq<char>) -> Seq<Pair> {
    if wanted {
        seq![(name, value)]
    } else {
        Seq::empty()
    }
}

/// How many rules were taken over.
pub open spec fn rule_count(rules: Seq<Row>) -> Seq<char> {
    decimal_text(rules.len()) + " rule(s)"@
}

/// What is reported of rules that were taken over.
pub open spec fn rule_items(volume: Seq<Row>, date: Seq<Row>, summary: Seq<Row>) -> Seq<Pair> {
    item_if(volume.len() > 0, "Volume Rules"@, rule_count(volume)) + item_if(
        date.len() > 0,
        "Date Rules"@,
        rule_count(date),
    ) + item_if(summary.len() > 0, "Summary Rules"@, rule_count(summary))
}

/// The new rules, or the old ones where there are no new ones.
pub open spec fn rules_or(new: Seq<Row>, old_rules: Seq<Row>) -> Seq<Row> {
    if new.len() > 0 {
        new
    } else {
        old_rules
    }
}

/// The new text, or the old one where the new one is blank.
pub open spec fn text_or(new: Seq<char>, old_text: Seq<char>) -> Seq<char> {
    if trimmed(new).len() > 0 {
        new
    } else {
        old_text
    }
}

/// Appends to what is reported where it is wanted.
fn push_item_if(items: &mut Vec<(String, String)>, wanted: bool, name: &str, value: String)
    ensures
        final(items).deep_view() == old(items).deep_view() + item_if(wanted, name@, value@),
{
    if wanted {
        push_item(items, String::from_str(name), value);
        assert(items.deep_view() =~= old(items).deep_view() + item_if(wanted, name@, value@));
    } else {
        assert(items.deep_view() =~= old(items).deep_view() + Seq::<Pair>::empty());
    }
}

fn count_of(rules: &Vec<Vec<String>>) -> (r: String)
    ensures
        r@ == rule_count(rules.deep_view()),
{
    let n = text_of_u64(rules.len() as u64);
    cat2(n.as_str(), " rule(s)")
}

/// Takes rules over, as far as there are any.
fn take_rules(
    cfg: &mut AppConfig,
    items: &mut Vec<(String, String)>,
    volume: Vec<Vec<String>>,
    date: Vec<Vec<String>>,
    summary: Vec<Vec<String>>,
)
    ensures
        final(cfg).volume_rules.deep_view() == rules_or(
            volume.deep_view(),
            old(cfg).volume_rules.deep_view(),
        ),
        final(cfg).date_rules.deep_view() == rules_or(
            date.deep_view(),
            old(cfg).date_rules.deep_view(),
        ),
        final(cfg).summ_rules.deep_view() == rules_or(
            summary.deep_view(),
            old(cfg).summ_rules.deep_view(),
        ),
        *final(cfg) == (AppConfig {
            volume_rules: final(cfg).volume_rules,
            date_rules: final(cfg).date_rules,
            summ_rules: final(cfg).summ_rules,
            ..*old(cfg)
        }),
        final(items).deep_view() == old(items).deep_view() + rule_items(
            volume.deep_view(),
            date.deep_view(),
            summary.deep_view(),
        ),
{
    push_item_if(items, volume.len() > 0, "Volume Rules", count_of(&volume));
    push_item_if(items, date.len() > 0, "Date Rules", count_of(&date));
    push_item_if(items, summary.len() > 0, "Summary Rules", count_of(&summary));
    assert(items.deep_view() =~= old(items).deep_view() + rule_items(
        volume.deep_view(),
        date.deep_view(),
        summary.deep_view(),
    ));
    if volume.len() > 0 {
        cfg.volume_rules = volume;
    }
    if date.len() > 0 {
        cfg.date_rules = date;
    }
    if summary.len() > 0 {
        cfg.summ_rules = summary;
    }
}

/// What is reported of paths that were taken over.
pub open spec fn path_items(folder: Seq<char>, titles: Seq<char>, dates: Seq<char>) -> Seq<Pair> {
    item_if(trimmed(folder).len() > 0, "CBZ Folder"@, folder) + item_if(
        trimmed(titles).len() > 0,
        "Titles JSON"@,
        titles,
    ) + item_if(trimmed(dates).len() > 0, "Episode Dates JSON"@, dates)
}

fn is_blank(text: &str) -> (r: bool)
    ensures
        r == (trimmed(text@).len() == 0),
{
    let t = trim(text);
    t.as_str().is_empty()
}

/// Takes paths over, as far as they are not blank.
fn take_paths(
    cfg: &mut AppConfig,
    items: &mut Vec<(String, String)>,
    folder: &str,
    titles: &str,
    dates: &str,
)
    ensures
        final(cfg).folder@ == text_or(folder@, old(cfg).folder@),
        final(cfg).titles_json@ == text_or(titles@, old(cfg).titles_json@),
        final(cfg).date_json@ == text_or(dates@, old(cfg).date_json@),
        *final(cfg) == (AppConfig {
            folder: final(cfg).folder,
            titles_json: final(cfg).titles_json,
            date_json: final(cfg).date_json,
            ..*old(cfg)
        }),
        final(items).deep_view() == old(items).deep_view() + path_items(folder@, titles@, dates@),
{
    push_item_if(items, !is_blank(folder), "CBZ Folder", String::from_str(folder));
    push_item_if(items, !is_blank(titles), "Titles JSON", String::from_str(titles));
    push_item_if(items, !is_blank(dates), "Episode Dates JSON", String::from_str(dates));
    assert(items.deep_view() =~= old(items).deep_view() + path_items(folder@, titles@, dates@));
    if !is_blank(folder) {
        cfg.folder = String::from_str(folder);
    }
    if !is_blank(titles) {
        cfg.titles_json = String::from_str(titles);
    }
    if !is_blank(dates) {
        cfg.date_json = String::from_str(dates);
    }
}

/// Takes over what a Python file holds, and tells what that was.
pub fn import_python(cfg: &mut AppConfig, data: &str) -> (r: Vec<(String, String)>)
    ensures
        ({
            let volume = tuple_block(data@, "VOLUME_RULES"@);
            let date = tuple_block(data@, "DATE_RULES"@);
            let summary = tuple_block(data@, "VOLUME_SUMMARY_RULES"@);
            &&& final(cfg).volume_rules.deep_view() == rules_or(
                volume,
                old(cfg).volume_rules.deep_view(),
            )
            &&& final(cfg).date_rules.deep_view() == rules_or(date, old(cfg).date_rules.deep_view())
            &&& final(cfg).summ_rules.deep_view() == rules_or(
                summary,
                old(cfg).summ_rules.deep_view(),
            )
            &&& taken(*final(cfg), r.deep_view()) == with_pairs(
                taken(*old(cfg), rule_items(volume, date, summary)),
                python_pairs(data@),
            )
        }),
        *final(cfg) == (AppConfig {
            metadata_fields: final(cfg).metadata_fields,
            summary: final(cfg).summary,
            community_rating_10_scale: final(cfg).community_rating_10_scale,
            volume_rules: final(cfg).volume_rules,
            date_rules: final(cfg).date_rules,
            summ_rules: final(cfg).summ_rules,
            ..*old(cfg)
        }),
{
    let pairs = read_python(data);
    let volume = parse_py_tuple_block(data, "VOLUME_RULES");
    let date = parse_py_tuple_block(data, "DATE_RULES");
    let summary = parse_py_tuple_block(data, "VOLUME_SUMMARY_RULES");
    let mut items: Vec<(String, String)> = Vec::new();
    let ghost found = rule_items(volume.deep_view(), date.deep_view(), summary.deep_view());
    take_rules(cfg, &mut items, volume, date, summary);
    assert(items.deep_view() =~= found);
    apply_pairs(cfg, &mut items, &pairs);
    items
}

// ── JSON files ──────────────────────────────────────────────────────────────────────────────────
/// What a JSON file is taken for.
#[derive(Clone, Copy, Debug, PartialEq, Eq, Structural)]
pub enum JsonKind {
    /// No JSON at all.
    Invalid,
    /// JSON, but no object.
    NoObject,
    /// A whole configuration.
    Config,
    /// Names and values.
    Fields,
}

/// What a JSON file is taken for, given whether it is JSON and its members where it is an object.
pub open spec fn json_kind_of(valid: bool, members: Option<Seq<Pair>>) -> JsonKind {
    if !valid {
        JsonKind::Invalid
    } else {
        match members {
            None => JsonKind::NoObject,
            Some(m) => if lookup(m, "folder"@) is Some || lookup(m, "prefix_mode"@) is Some {
                JsonKind::Config
            } else {
                JsonKind::Fields
            },
        }
    }
}

/// What a JSON file is taken for, given whether it is JSON and its members where it is an object.
pub fn classify_json(valid: bool, members: &Option<TagMap>) -> (r: JsonKind)
    ensures
        r == json_kind_of(
            valid,
            match members {
                Some(m) => Some(m@),
                None => None,
            },
        ),
{
    if !valid {
        return JsonKind::Invalid;
    }
    match members {
        None => JsonKind::NoObject,
        Some(m) => if m.contains_key("folder") || m.contains_key("prefix_mode") {
            JsonKind::Config
        } else {
            JsonKind::Fields
        },
    }
}

/// The members of a JSON object as a map.
fn member_map(data: &str) -> (r: Option<TagMap>)
    ensures
        match r {
            Some(m) => json_members(data@) == Some(m@) && m.is_valid(),
            None => json_members(data@) is None,
        },
{
    match read_members(data) {
        Some(entries) => Some(TagMap { entries }),
        None => None,
    }
}

/// What a JSON file is taken for.
pub fn json_kind(data: &str) -> (r: JsonKind)
    ensures
        r == json_kind_of(json_is_valid(data@), json_members(data@)),
{
    let members = member_map(data);
    classify_json(is_json(data), &members)
}

/// What a file to take metadata from is taken for.
#[derive(Clone, Copy, Debug, PartialEq, Eq, Structural)]
pub enum ImportKind {
    Python,
    Json(JsonKind),
}

/// What a file to take metadata from is taken for, given its extension in lower case and what kind of
/// JSON it holds: with the extension `py` it is Python, whatever it holds.
pub open spec fn import_kind_of(extension: Seq<char>, json: JsonKind) -> ImportKind {
    if extension == "py"@ {
        ImportKind::Python
    } else {
        ImportKind::Json(json)
    }
}

/// What a file to take metadata from is taken for, by its extension and by what it holds.
pub fn import_kind(extension: &str, data: &str) -> (r: ImportKind)
    ensures
        r == import_kind_of(
            lowered(extension@),
            json_kind_of(json_is_valid(data@), json_members(data@)),
        ),
{
    let lower = lower_text(extension);
    if same(lower.as_str(), "py") {
        ImportKind::Python
    } else {
        ImportKind::Json(json_kind(data))
    }
}

/// The members that are strings.
pub open spec fn string_members(members: Seq<Pair>) -> Seq<Pair>
    decreases members.len(),
{
    if members.len() == 0 {
        Seq::empty()
    } else {
        let (key, value) = members.last();
        string_members(members.drop_last()) + match json_string(value) {
            Some(s) => seq![(key, s)],
            None => Seq::empty(),
        }
    }
}

/// The members that are strings.
fn read_string_members(members: &TagMap) -> (r: Vec<(String, String)>)
    ensures
        r.deep_view() == string_members(members@),
{
    let ghost all = members@;
    let mut out: Vec<(String, String)> = Vec::new();
    let n: usize = members.entries.len();
    let mut i: usize = 0;
    assert(all.take(0) =~= Seq::<Pair>::empty());
    assert(out.deep_view() =~= Seq::<Pair>::empty());
    while i < n
        invariant
            n == members.entries@.len(),
            all == members@,
            i <= n,
            out.deep_view() == string_members(all.take(i as int)),
        decreases n - i,
    {
        let ghost head = out.deep_view();
        proof {
            assert(all.take(i + 1).drop_last() =~= all.take(i as int));
            assert(all.take(i + 1).last() == (
                members.entries@[i as int].0@,
                members.entries@[i as int].1@,
            ));
        }
        match read_string(members.entries[i].1.as_str()) {
            Some(s) => {
                let ghost p = (members.entries@[i as int].0@, s@);
                out.push((members.entries[i].0.clone(), s));
                assert(out.deep_view() =~= head + seq![p]);
            },
            None => {
                assert(out.deep_view() =~= head + Seq::<Pair>::empty());
            },
        }
        i = i + 1;
    }
    assert(all.take(n as int) =~= all);
    out
}

/// A string where there is one.
pub open spec fn string_at(members: Seq<Pair>, key: Seq<char>) -> Option<Seq<char>> {
    match lookup(members, key) {
        Some(v) => json_string(v),
        None => None,
    }
}

/// Both texts, where there are both.
pub open spec fn both(a: Option<Seq<char>>, b: Option<Seq<char>>) -> Option<Pair> {
    match (a, b) {
        (Some(x), Some(y)) => Some((x, y)),
        _ => None,
    }
}

/// The tag and the value of a custom field: an array of two strings, an object with the strings `tag`
/// and `value`, or an object with one string.
pub open spec fn custom_field(entry: Seq<char>) -> Option<Pair> {
    match json_elements(entry) {
        Some(a) => if a.len() == 2 {
            both(json_string(a[0]), json_string(a[1]))
        } else {
            None
        },
        None => match json_members(entry) {
            Some(o) => match both(string_at(o, "tag"@), string_at(o, "value"@)) {
                Some(p) => Some(p),
                None => if o.len() == 1 {
                    both(Some(o[0].0), json_string(o[0].1))
                } else {
                    None
                },
            },
            None => None,
        },
    }
}

fn read_string_at(members: &TagMap, key: &str) -> (r: Option<String>)
    ensures
        r.deep_view() == string_at(members@, key@),
{
    match members.get(key) {
        Some(v) => read_string(v.as_str()),
        None => None,
    }
}

fn read_both(a: Option<String>, b: Option<String>) -> (r: Option<(String, String)>)
    ensures
        r.deep_view() == both(a.deep_view(), b.deep_view()),
{
    match (a, b) {
        (Some(x), Some(y)) => Some((x, y)),
        _ => None,
    }
}

/// The tag and the value of a custom field.
fn read_custom_field(entry: &str) -> (r: Option<(String, String)>)
    ensures
        r.deep_view() == custom_field(entry@),
{
    match read_elements(entry) {
        Some(a) => if a.len() == 2 {
            assert(a.deep_view()[0] == a@[0]@ && a.deep_view()[1] == a@[1]@);
            read_both(read_string(a[0].as_str()), read_string(a[1].as_str()))
        } else {
            None
        },
        None => match member_map(entry) {
            Some(o) => match read_both(read_string_at(&o, "tag"), read_string_at(&o, "value")) {
                Some(p) => Some(p),
                None => if o.entries.len() == 1 {
                    assert(o@[0] == (o.entries@[0].0@, o.entries@[0].1@));
                    read_both(
                        Some(o.entries[0].0.clone()),
                        read_string(o.entries[0].1.as_str()),
                    )
                } else {
                    None
                },
            },
            None => None,
        },
    }
}

/// An import with some more custom fields, and how many of them are in another form.
pub open spec fn with_custom_fields(t: Taken, entries: Seq<Seq<char>>) -> (Taken, nat)
    decreases entries.len(),
{
    if entries.len() == 0 {
        (t, 0)
    } else {
        let (before, unknown) = with_custom_fields(t, entries.drop_last());
        match custom_field(entries.last()) {
            Some((tag, value)) => (
                Taken {
                    fields: inserted(before.fields, tag, value),
                    items: before.items.push((tag, shortened(value))),
                    ..before
                },
                unknown,
            ),
            None => (before, unknown + 1),
        }
    }
}

/// What is reported of custom fields in another form.
pub open spec fn unknown_item(unknown: nat) -> Seq<Pair> {
    item_if(
        unknown > 0,
        "Custom Fields"@,
        decimal_text(unknown) + if unknown == 1 {
            " entry in an unrecognised format -- check manually"@
        } else {
            " entries in an unrecognised format -- check manually"@
        },
    )
}

/// An import with the custom fields of a configuration, where there are any.
pub open spec fn with_custom(t: Taken, members: Seq<Pair>) -> Taken {
    match lookup(members, "custom_fields"@) {
        Some(text) => match json_elements(text) {
            Some(entries) => {
                let (after, unknown) = with_custom_fields(t, entries);
                Taken { items: after.items + unknown_item(unknown), ..after }
            },
            None => t,
        },
        None => t,
    }
}

/// Takes the custom fields of a configuration over.
fn take_custom(cfg: &mut AppConfig, items: &mut Vec<(String, String)>, members: &TagMap)
    ensures
        taken(*final(cfg), final(items).deep_view()) == with_custom(
            taken(*old(cfg), old(items).deep_view()),
            members@,
        ),
        fields_differ_only(*old(cfg), *final(cfg)),
{
    let entries = match members.get("custom_fields") {
        Some(text) => match read_elements(text.as_str()) {
            Some(entries) => entries,
            None => return ,
        },
        None => return ,
    };
    let ghost all = entries.deep_view();
    let ghost start = taken(*cfg, items.deep_view());
    let ghost before = *cfg;
    let n: usize = entries.len();
    let mut unknown: usize = 0;
    let mut i: usize = 0;
    assert(all.take(0) =~= Seq::<Seq<char>>::empty());
    while i < n
        invariant
            n == entries@.len(),
            all == entries.deep_view(),
            i <= n,
            unknown <= i,
            (taken(*cfg, items.deep_view()), unknown as nat) == with_custom_fields(
                start,
                all.take(i as int),
            ),
            fields_differ_only(before, *cfg),
        decreases n - i,
    {
        proof {
            assert(all.take(i + 1).drop_last() =~= all.take(i as int));
            assert(all.take(i + 1).last() == entries@[i as int]@);
        }
        match read_custom_field(entries[i].as_str()) {
            Some((tag, value)) => {
                let shown = shorten(value.as_str());
                set_metadata_field(cfg, tag.as_str(), value);
                push_item(items, tag, shown);
            },
            None => {
                unknown = unknown + 1;
            },
        }
        i = i + 1;
    }
    assert(all.take(n as int) =~= all);
    let count = text_of_u64(unknown as u64);
    let note = cat2(
        count.as_str(),
        if unknown == 1 {
            " entry in an unrecognised format -- check manually"
        } else {
            " entries in an unrecognised format -- check manually"
        },
    );
    push_item_if(items, unknown > 0, "Custom Fields", note);
}

/// The members of a JSON object, none where it is no object.
pub open spec fn members_or_none(data: Seq<char>) -> Seq<Pair> {
    match json_members(data) {
        Some(m) => m,
        None => Seq::empty(),
    }
}

/// Takes over the names and values that a JSON file holds, and tells what that was.
pub fn import_fields(cfg: &mut AppConfig, data: &str) -> (r: Vec<(String, String)>)
    ensures
        taken(*final(cfg), r.deep_view()) == with_pairs(
            taken(*old(cfg), Seq::empty()),
            string_members(members_or_none(data@)),
        ),
        fields_differ_only(*old(cfg), *final(cfg)),
{
    let members = match member_map(data) {
        Some(m) => m,
        None => TagMap::new(),
    };
    let pairs = read_string_members(&members);
    let mut items: Vec<(String, String)> = Vec::new();
    assert(items.deep_view() =~= Seq::<Pair>::empty());
    apply_pairs(cfg, &mut items, &pairs);
    items
}

/// The rules of a configuration under a name, none where it does not hold the name.
pub open spec fn rows_held(members: Seq<Pair>, key: Seq<char>, rows: Seq<Row>) -> Seq<Row> {
    if lookup(members, key) is Some {
        rows
    } else {
        Seq::empty()
    }
}

/// The text of a configuration under a name, none where it does not hold the name.
pub open spec fn text_held(members: Seq<Pair>, key: Seq<char>, text: Seq<char>) -> Seq<char> {
    if lookup(members, key) is Some {
        text
    } else {
        Seq::empty()
    }
}

/// A setting of a configuration under a name, or the old one where it does not hold the name.
pub open spec fn held_or<T>(members: Seq<Pair>, key: Seq<char>, new: T, old_value: T) -> T {
    if lookup(members, key) is Some {
        new
    } else {
        old_value
    }
}

/// How a switch is shown.
pub open spec fn switch_text(on: bool) -> Seq<char> {
    if on {
        "on"@
    } else {
        "off"@
    }
}

/// How a kind of comic is shown.
pub open spec fn mode_text(mode: ComicMode) -> Seq<char> {
    match mode {
        ComicMode::Manga => "Manga"@,
        ComicMode::Manhwa => "Manhwa / Manhua"@,
    }
}

/// Whether a configuration has the mode of another one, as far as the other one holds it, and its own
/// one else.
pub open spec fn mode_taken(
    before: AppConfig,
    incoming: AppConfig,
    members: Seq<Pair>,
    after: AppConfig,
) -> bool {
    &&& after.mode == held_or(members, "mode"@, incoming.mode, before.mode)
    &&& after.use_vol == held_or(members, "use_vol"@, incoming.use_vol, before.use_vol)
    &&& after.use_vol_date == held_or(
        members,
        "use_vol_date"@,
        incoming.use_vol_date,
        before.use_vol_date,
    )
    &&& after.use_vol_summ == held_or(
        members,
        "use_vol_summ"@,
        incoming.use_vol_summ,
        before.use_vol_summ,
    )
}

/// Whether a configuration has the prefix and separator of another one, as far as the other one holds
/// them, and its own ones else.
pub open spec fn prefix_taken(
    before: AppConfig,
    incoming: AppConfig,
    members: Seq<Pair>,
    after: AppConfig,
) -> bool {
    &&& after.prefix_mode == held_or(
        members,
        "prefix_mode"@,
        incoming.prefix_mode,
        before.prefix_mode,
    )
    &&& after.custom_pfx@ == text_or(
        text_held(members, "custom_pfx"@, incoming.custom_pfx@),
        before.custom_pfx@,
    )
    &&& after.csep_on == held_or(members, "csep_on"@, incoming.csep_on, before.csep_on)
    &&& after.csep@ == text_or(text_held(members, "csep"@, incoming.csep@), before.csep@)
}

/// Whether a configuration has the rules of another one, as far as the other one holds any, and its own
/// ones else.
pub open spec fn rules_taken(
    before: AppConfig,
    incoming: AppConfig,
    members: Seq<Pair>,
    after: AppConfig,
) -> bool {
    &&& after.volume_rules.deep_view() == rules_or(
        rows_held(members, "volume_rules"@, incoming.volume_rules.deep_view()),
        before.volume_rules.deep_view(),
    )
    &&& after.date_rules.deep_view() == rules_or(
        rows_held(members, "date_rules"@, incoming.date_rules.deep_view()),
        before.date_rules.deep_view(),
    )
    &&& after.summ_rules.deep_view() == rules_or(
        rows_held(members, "summ_rules"@, incoming.summ_rules.deep_view()),
        before.summ_rules.deep_view(),
    )
}

/// Whether a configuration has the paths of another one, as far as the other one holds any, and its own
/// ones else.
pub open spec fn paths_taken(
    before: AppConfig,
    incoming: AppConfig,
    members: Seq<Pair>,
    after: AppConfig,
) -> bool {
    &&& after.folder@ == text_or(text_held(members, "folder"@, incoming.folder@), before.folder@)
    &&& after.titles_json@ == text_or(
        text_held(members, "titles_json"@, incoming.titles_json@),
        before.titles_json@,
    )
    &&& after.date_json@ == text_or(
        text_held(members, "date_json"@, incoming.date_json@),
        before.date_json@,
    )
}

/// What is reported of the mode, prefix and separator that were taken over.
pub open spec fn setting_items(incoming: AppConfig, members: Seq<Pair>) -> Seq<Pair> {
    let prefix = text_held(members, "custom_pfx"@, incoming.custom_pfx@);
    let separator = text_held(members, "csep"@, incoming.csep@);
    item_if(lookup(members, "mode"@) is Some, "Mode"@, mode_text(incoming.mode)) + item_if(
        lookup(members, "use_vol"@) is Some,
        "Volume Number"@,
        switch_text(incoming.use_vol),
    ) + item_if(
        lookup(members, "use_vol_date"@) is Some,
        "Volume Dates"@,
        switch_text(incoming.use_vol_date),
    ) + item_if(
        lookup(members, "use_vol_summ"@) is Some,
        "Volume Summaries"@,
        switch_text(incoming.use_vol_summ),
    ) + item_if(
        lookup(members, "prefix_mode"@) is Some,
        "Number Prefix"@,
        incoming.prefix_mode.name(),
    ) + item_if(trimmed(prefix).len() > 0, "Custom Prefix"@, prefix) + item_if(
        lookup(members, "csep_on"@) is Some,
        "Override Separator"@,
        switch_text(incoming.csep_on),
    ) + item_if(trimmed(separator).len() > 0, "Separator"@, separator)
}

/// What is reported of the rules, paths and settings of a configuration that were taken over.
pub open spec fn config_items(incoming: AppConfig, members: Seq<Pair>) -> Seq<Pair> {
    rule_items(
        rows_held(members, "volume_rules"@, incoming.volume_rules.deep_view()),
        rows_held(members, "date_rules"@, incoming.date_rules.deep_view()),
        rows_held(members, "summ_rules"@, incoming.summ_rules.deep_view()),
    ) + path_items(
        text_held(members, "folder"@, incoming.folder@),
        text_held(members, "titles_json"@, incoming.titles_json@),
        text_held(members, "date_json"@, incoming.date_json@),
    ) + setting_items(incoming, members)
}

fn show_switch(on: bool) -> (r: String)
    ensures
        r@ == switch_text(on),
{
    String::from_str(if on { "on" } else { "off" })
}

fn show_mode(mode: ComicMode) -> (r: String)
    ensures
        r@ == mode_text(mode),
{
    String::from_str(
        match mode {
            ComicMode::Manga => "Manga",
            ComicMode::Manhwa => "Manhwa / Manhua",
        },
    )
}

/// The rules of a configuration under a name.
fn rows_under(members: &TagMap, key: &str, rows: &Vec<Vec<String>>) -> (r: Vec<Vec<String>>)
    ensures
        r.deep_view() == rows_held(members@, key@, rows.deep_view()),
{
    if members.contains_key(key) {
        copy_rows(rows)
    } else {
        let none: Vec<Vec<String>> = Vec::new();
        assert(none.deep_view() =~= Seq::<Row>::empty());
        none
    }
}

/// The text of a configuration under a name.
fn text_under<'a>(members: &TagMap, key: &str, text: &'a str) -> (r: &'a str)
    ensures
        r@ == text_held(members@, key@, text@),
{
    if members.contains_key(key) {
        text
    } else {
        proof {
            reveal_strlit("");
            assert(""@ =~= Seq::<char>::empty());
        }
        ""
    }
}

/// What is reported of the mode, prefix and separator of a configuration.
fn report_settings(members: &TagMap, incoming: &AppConfig) -> (r: Vec<(String, String)>)
    ensures
        r.deep_view() == setting_items(*incoming, members@),
{
    let prefix = text_under(members, "custom_pfx", incoming.custom_pfx.as_str());
    let separator = text_under(members, "csep", incoming.csep.as_str());
    let has_mode = members.contains_key("mode");
    let mut items: Vec<(String, String)> = Vec::new();
    push_item_if(&mut items, has_mode, "Mode", show_mode(incoming.mode));
    assert(items.deep_view() =~= item_if(has_mode, "Mode"@, mode_text(incoming.mode)));
    let has_vol = members.contains_key("use_vol");
    push_item_if(&mut items, has_vol, "Volume Number", show_switch(incoming.use_vol));
    let has_date = members.contains_key("use_vol_date");
    push_item_if(&mut items, has_date, "Volume Dates", show_switch(incoming.use_vol_date));
    let has_summ = members.contains_key("use_vol_summ");
    push_item_if(&mut items, has_summ, "Volume Summaries", show_switch(incoming.use_vol_summ));
    let has_prefix = members.contains_key("prefix_mode");
    let shown = String::from_str(incoming.prefix_mode.as_str());
    push_item_if(&mut items, has_prefix, "Number Prefix", shown);
    push_item_if(&mut items, !is_blank(prefix), "Custom Prefix", String::from_str(prefix));
    let has_csep = members.contains_key("csep_on");
    push_item_if(&mut items, has_csep, "Override Separator", show_switch(incoming.csep_on));
    push_item_if(&mut items, !is_blank(separator), "Separator", String::from_str(separator));
    items
}

/// A setting of a configuration under a name, or the old one.
fn setting_under<T: Copy>(members: &TagMap, key: &str, new: T, old_value: T) -> (r: T)
    ensures
        r == held_or(members@, key@, new, old_value),
{
    if members.contains_key(key) {
        new
    } else {
        old_value
    }
}

/// A text, or the old one where it is blank.
fn text_or_old(new: &str, old_text: &String) -> (r: String)
    ensures
        r@ == text_or(new@, old_text@),
{
    if is_blank(new) {
        old_text.clone()
    } else {
        String::from_str(new)
    }
}

/// Takes the mode of a configuration over, as far as it holds it.
fn take_mode(cfg: &mut AppConfig, members: &TagMap, incoming: &AppConfig)
    ensures
        final(cfg).mode == held_or(members@, "mode"@, incoming.mode, old(cfg).mode),
        final(cfg).use_vol == held_or(members@, "use_vol"@, incoming.use_vol, old(cfg).use_vol),
        final(cfg).use_vol_date == held_or(
            members@,
            "use_vol_date"@,
            incoming.use_vol_date,
            old(cfg).use_vol_date,
        ),
        final(cfg).use_vol_summ == held_or(
            members@,
            "use_vol_summ"@,
            incoming.use_vol_summ,
            old(cfg).use_vol_summ,
        ),
        *final(cfg) == (AppConfig {
            mode: final(cfg).mode,
            use_vol: final(cfg).use_vol,
            use_vol_date: final(cfg).use_vol_date,
            use_vol_summ: final(cfg).use_vol_summ,
            ..*old(cfg)
        }),
{
    let mode = setting_under(members, "mode", incoming.mode, cfg.mode);
    let numbers = setting_under(members, "use_vol", incoming.use_vol, cfg.use_vol);
    let dates = setting_under(members, "use_vol_date", incoming.use_vol_date, cfg.use_vol_date);
    let summaries = setting_under(members, "use_vol_summ", incoming.use_vol_summ, cfg.use_vol_summ);
    cfg.mode = mode;
    cfg.use_vol = numbers;
    cfg.use_vol_date = dates;
    cfg.use_vol_summ = summaries;
}

/// Takes the prefix and separator of a configuration over, as far as it holds them.
fn take_prefix(cfg: &mut AppConfig, members: &TagMap, incoming: &AppConfig)
    ensures
        prefix_taken(*old(cfg), *incoming, members@, *final(cfg)),
        *final(cfg) == (AppConfig {
            prefix_mode: final(cfg).prefix_mode,
            custom_pfx: final(cfg).custom_pfx,
            csep_on: final(cfg).csep_on,
            csep: final(cfg).csep,
            ..*old(cfg)
        }),
{
    let prefix = text_under(members, "custom_pfx", incoming.custom_pfx.as_str());
    let separator = text_under(members, "csep", incoming.csep.as_str());
    let mode = setting_under(members, "prefix_mode", incoming.prefix_mode, cfg.prefix_mode);
    cfg.prefix_mode = mode;
    cfg.custom_pfx = text_or_old(prefix, &cfg.custom_pfx);
    cfg.csep_on = setting_under(members, "csep_on", incoming.csep_on, cfg.csep_on);
    cfg.csep = text_or_old(separator, &cfg.csep);
}

/// Takes over what a configuration holds, given as JSON and as it was read, and tells what that was.
///
/// Rules, paths, mode, prefix and separator replace those that are there, as far as the JSON holds their
/// names and there is anything in them. The other settings stay.
pub fn import_config(cfg: &mut AppConfig, data: &str, incoming: &AppConfig) -> (r: Vec<
    (String, String),
>)
    ensures
        rules_taken(*old(cfg), *incoming, members_or_none(data@), *final(cfg)),
        paths_taken(*old(cfg), *incoming, members_or_none(data@), *final(cfg)),
        mode_taken(*old(cfg), *incoming, members_or_none(data@), *final(cfg)),
        prefix_taken(*old(cfg), *incoming, members_or_none(data@), *final(cfg)),
        taken(*final(cfg), r.deep_view()) == with_pairs(
            with_custom(
                taken(
                    *old(cfg),
                    config_items(*incoming, members_or_none(data@)),
                ),
                members_or_none(data@),
            ),
            string_members(members_or_none(data@)),
        ),
        *final(cfg) == (AppConfig {
            metadata_fields: final(cfg).metadata_fields,
            summary: final(cfg).summary,
            community_rating_10_scale: final(cfg).community_rating_10_scale,
            volume_rules: final(cfg).volume_rules,
            date_rules: final(cfg).date_rules,
            summ_rules: final(cfg).summ_rules,
            folder: final(cfg).folder,
            titles_json: final(cfg).titles_json,
            date_json: final(cfg).date_json,
            mode: final(cfg).mode,
            use_vol: final(cfg).use_vol,
            use_vol_date: final(cfg).use_vol_date,
            use_vol_summ: final(cfg).use_vol_summ,
            prefix_mode: final(cfg).prefix_mode,
            custom_pfx: final(cfg).custom_pfx,
            csep_on: final(cfg).csep_on,
            csep: final(cfg).csep,
            ..*old(cfg)
        }),
{
    let members = match member_map(data) {
        Some(m) => m,
        None => TagMap::new(),
    };
    let pairs = read_string_members(&members);
    let mut items: Vec<(String, String)> = Vec::new();
    assert(items.deep_view() =~= Seq::<Pair>::empty());
    take_rules(
        cfg,
        &mut items,
        rows_under(&members, "volume_rules", &incoming.volume_rules),
        rows_under(&members, "date_rules", &incoming.date_rules),
        rows_under(&members, "summ_rules", &incoming.summ_rules),
    );
    take_paths(
        cfg,
        &mut items,
        text_under(&members, "folder", incoming.folder.as_str()),
        text_under(&members, "titles_json", incoming.titles_json.as_str()),
        text_under(&members, "date_json", incoming.date_json.as_str()),
    );
    take_mode(cfg, &members, incoming);
    take_prefix(cfg, &members, incoming);
    let mut settings = report_settings(&members, incoming);
    let ghost before = items.deep_view();
    let ghost last = settings.deep_view();
    items.append(&mut settings);
    assert(items.deep_view() =~= before + last);
    assert(items.deep_view() =~= config_items(*incoming, members@));
    take_custom(cfg, &mut items, &members);
    apply_pairs(cfg, &mut items, &pairs);
    items
}

/// The same texts in another row.
pub fn copy_row(row: &Vec<String>) -> (r: Vec<String>)
    ensures
        r.deep_view() == row.deep_view(),
{
    let mut out: Vec<String> = Vec::new();
    let n: usize = row.len();
    for i in 0..n
        invariant
            n == row@.len(),
            out@.len() == i,
            forall|k: int| 0 <= k < i ==> (#[trigger] out@[k])@ == row@[k]@,
    {
        out.push(row[i].clone());
    }
    assert(out.deep_view() =~= row.deep_view());
    out
}

/// The same rows in another list.
pub fn copy_rows(rows: &Vec<Vec<String>>) -> (r: Vec<Vec<String>>)
    ensures
        r.deep_view() == rows.deep_view(),
{
    let mut out: Vec<Vec<String>> = Vec::new();
    let n: usize = rows.len();
    for i in 0..n
        invariant
            n == rows@.len(),
            out@.len() == i,
            forall|k: int|
                0 <= k < i ==> (#[trigger] out@[k]).deep_view() == rows@[k].deep_view(),
    {
        out.push(copy_row(&rows[i]));
    }
    assert(out.deep_view() =~= rows.deep_view());
    out
}

// ── Older configurations ────────────────────────────────────────────────────────────────────────
/// The constant metadata, and whether ratings go up to 10, with one more name and value of an older
/// configuration. The name is also given in lower case.
pub open spec fn with_older_field(
    fields: Seq<Pair>,
    ten_scale: bool,
    key: Seq<char>,
    lower: Seq<char>,
    value: Seq<char>,
) -> (Seq<Pair>, bool) {
    if is_summary(key) {
        (fields, ten_scale)
    } else {
        match tag_named(key, lower) {
            Some((tag, rating)) => (inserted(fields, tag, value), ten_scale || rating),
            None => (fields, ten_scale),
        }
    }
}

/// The constant metadata, and whether ratings go up to 10, with the names and values of an older
/// configuration.
pub open spec fn with_older_fields(
    fields: Seq<Pair>,
    ten_scale: bool,
    pairs: Seq<Pair>,
) -> (Seq<Pair>, bool)
    decreases pairs.len(),
{
    if pairs.len() == 0 {
        (fields, ten_scale)
    } else {
        let (before, flag) = with_older_fields(fields, ten_scale, pairs.drop_last());
        let (key, value) = pairs.last();
        with_older_field(before, flag, key, lowered(key), value)
    }
}

/// Takes over one name and value of an older configuration. The name is also given in lower case.
pub fn migrate_field(cfg: &mut AppConfig, key: &str, lower: &str, value: &str)
    ensures
        (final(cfg).metadata_fields.deep_view(), final(cfg).community_rating_10_scale)
            == with_older_field(
            old(cfg).metadata_fields.deep_view(),
            old(cfg).community_rating_10_scale,
            key@,
            lower@,
            value@,
        ),
        *final(cfg) == (AppConfig {
            metadata_fields: final(cfg).metadata_fields,
            community_rating_10_scale: final(cfg).community_rating_10_scale,
            ..*old(cfg)
        }),
{
    if !same_ignoring_case(key, "Summary") {
        match resolve(key, lower) {
            Some((tag, rating)) => {
                if rating {
                    cfg.community_rating_10_scale = true;
                }
                set_metadata_field(cfg, tag, String::from_str(value));
            },
            None => {},
        }
    }
}

/// Takes over what an older configuration holds as names and values of its own.
pub fn migrate_config(cfg: &mut AppConfig, data: &str)
    ensures
        (final(cfg).metadata_fields.deep_view(), final(cfg).community_rating_10_scale)
            == with_older_fields(
            old(cfg).metadata_fields.deep_view(),
            old(cfg).community_rating_10_scale,
            string_members(members_or_none(data@)),
        ),
        *final(cfg) == (AppConfig {
            metadata_fields: final(cfg).metadata_fields,
            community_rating_10_scale: final(cfg).community_rating_10_scale,
            ..*old(cfg)
        }),
{
    let members = match member_map(data) {
        Some(m) => m,
        None => TagMap::new(),
    };
    let pairs = read_string_members(&members);
    let ghost all = pairs.deep_view();
    let ghost before = *cfg;
    let n: usize = pairs.len();
    let mut i: usize = 0;
    assert(all.take(0) =~= Seq::<Pair>::empty());
    while i < n
        invariant
            n == pairs@.len(),
            all == pairs.deep_view(),
            i <= n,
            (cfg.metadata_fields.deep_view(), cfg.community_rating_10_scale) == with_older_fields(
                before.metadata_fields.deep_view(),
                before.community_rating_10_scale,
                all.take(i as int),
            ),
            *cfg == (AppConfig {
                metadata_fields: cfg.metadata_fields,
                community_rating_10_scale: cfg.community_rating_10_scale,
                ..before
            }),
        decreases n - i,
    {
        proof {
            assert(all.take(i + 1).drop_last() =~= all.take(i as int));
            assert(all.take(i + 1).last() == (pairs@[i as int].0@, pairs@[i as int].1@));
        }
        let lower = lower_text(pairs[i].0.as_str());
        migrate_field(cfg, pairs[i].0.as_str(), lower.as_str(), pairs[i].1.as_str());
        i = i + 1;
    }
    assert(all.take(n as int) =~= all);
}

// ── Laws ────────────────────────────────────────────────────────────────────────────────────────
/// Whether a name stands for a given tag.
pub open spec fn names_tag(key: Seq<char>, tag: Seq<char>) -> bool {
    &&& !is_summary(key)
    &&& tag_named(key, lowered(key)) matches Some((t, _))
    &&& t == tag
}

/// Whether a name of a configuration is one that an older configuration has for a tag.
pub open spec fn is_older_name(key: Seq<char>) -> bool {
    !is_summary(key) && tag_named(key, lowered(key)) is Some
}

/// A configuration without older names is left as it is.
pub proof fn lemma_current_configuration_stays(
    fields: Seq<Pair>,
    ten_scale: bool,
    pairs: Seq<Pair>,
)
    requires
        forall|i: int| 0 <= i < pairs.len() ==> !is_older_name((#[trigger] pairs[i]).0),
    ensures
        with_older_fields(fields, ten_scale, pairs) == (fields, ten_scale),
    decreases pairs.len(),
{
    if pairs.len() > 0 {
        let front = pairs.drop_last();
        assert forall|i: int| 0 <= i < front.len() implies !is_older_name((#[trigger] front[i]).0) by {
            assert(front[i] == pairs[i]);
        }
        lemma_current_configuration_stays(fields, ten_scale, front);
        assert(!is_older_name(pairs[pairs.len() - 1].0));
    }
}

/// The names under which a configuration holds texts.
pub open spec fn setting_names() -> Seq<Seq<char>> {
    seq![
        "folder"@,
        "ch_json"@,
        "vol_json"@,
        "titles_json"@,
        "date_json"@,
        "output_path"@,
        "mode"@,
        "prefix_mode"@,
        "custom_pfx"@,
        "post_finale"@,
        "csep"@,
        "summary"@,
    ]
}

/// Whether a text holds small ASCII letters and underscores only.
spec fn is_plain(s: Seq<char>) -> bool {
    forall|i: int| 0 <= i < s.len() ==> 'a' <= #[trigger] s[i] <= 'z' || s[i] == '_'
}

/// A text in small letters is its own lower case, and names no tag of the schema.
proof fn lemma_plain_name(s: Seq<char>)
    requires
        is_plain(s),
    ensures
        lowered(s) == s,
        field_of(s) is None,
{
    assert(ascii_lower_all(s) =~= s);
    if field_of(s) is Some {
        lemma_fields_are_capitalized(s);
    }
}

/// None of the names under which a configuration holds texts is an older name.
pub proof fn lemma_settings_are_no_older_names()
    ensures
        forall|i: int|
            0 <= i < setting_names().len() ==> !is_older_name(#[trigger] setting_names()[i]),
{
    reveal_strlit("series");
    reveal_strlit("writer");
    reveal_strlit("penciller");
    reveal_strlit("publisher");
    reveal_strlit("language");
    reveal_strlit("alt_series");
    reveal_strlit("web");
    reveal_strlit("genre");
    reveal_strlit("count");
    reveal_strlit("year");
    reveal_strlit("month");
    reveal_strlit("day");
    reveal_strlit("rating");
    reveal_strlit("Summary");
    reveal_strlit("folder");
    assert("folder"@ =~= seq!['f', 'o', 'l', 'd', 'e', 'r']);
    lemma_plain_name("folder"@);
    assert(alias_of("folder"@) is None);
    reveal_strlit("ch_json");
    assert("ch_json"@ =~= seq!['c', 'h', '_', 'j', 's', 'o', 'n']);
    lemma_plain_name("ch_json"@);
    assert(alias_of("ch_json"@) is None);
    reveal_strlit("vol_json");
    assert("vol_json"@ =~= seq!['v', 'o', 'l', '_', 'j', 's', 'o', 'n']);
    lemma_plain_name("vol_json"@);
    assert(alias_of("vol_json"@) is None);
    reveal_strlit("titles_json");
    assert("titles_json"@ =~= seq!['t', 'i', 't', 'l', 'e', 's', '_', 'j', 's', 'o', 'n']);
    lemma_plain_name("titles_json"@);
    assert(alias_of("titles_json"@) is None);
    reveal_strlit("date_json");
    assert("date_json"@ =~= seq!['d', 'a', 't', 'e', '_', 'j', 's', 'o', 'n']);
    lemma_plain_name("date_json"@);
    assert(alias_of("date_json"@) is None);
    reveal_strlit("output_path");
    assert("output_path"@ =~= seq!['o', 'u', 't', 'p', 'u', 't', '_', 'p', 'a', 't', 'h']);
    lemma_plain_name("output_path"@);
    assert(alias_of("output_path"@) is None);
    reveal_strlit("mode");
    assert("mode"@ =~= seq!['m', 'o', 'd', 'e']);
    lemma_plain_name("mode"@);
    assert(alias_of("mode"@) is None);
    reveal_strlit("prefix_mode");
    assert("prefix_mode"@ =~= seq!['p', 'r', 'e', 'f', 'i', 'x', '_', 'm', 'o', 'd', 'e']);
    lemma_plain_name("prefix_mode"@);
    assert(alias_of("prefix_mode"@) is None);
    reveal_strlit("custom_pfx");
    assert("custom_pfx"@ =~= seq!['c', 'u', 's', 't', 'o', 'm', '_', 'p', 'f', 'x']);
    lemma_plain_name("custom_pfx"@);
    assert(alias_of("custom_pfx"@) is None);
    reveal_strlit("post_finale");
    assert("post_finale"@ =~= seq!['p', 'o', 's', 't', '_', 'f', 'i', 'n', 'a', 'l', 'e']);
    lemma_plain_name("post_finale"@);
    assert(alias_of("post_finale"@) is None);
    reveal_strlit("csep");
    assert("csep"@ =~= seq!['c', 's', 'e', 'p']);
    lemma_plain_name("csep"@);
    assert(alias_of("csep"@) is None);
    reveal_strlit("summary");
    assert("summary"@ =~= seq!['s', 'u', 'm', 'm', 'a', 'r', 'y']);
    assert(ascii_lower_all("summary"@) =~= ascii_lower_all("Summary"@));
    let names = setting_names();
    assert(!is_older_name(names[0]));
    assert(!is_older_name(names[1]));
    assert(!is_older_name(names[2]));
    assert(!is_older_name(names[3]));
    assert(!is_older_name(names[4]));
    assert(!is_older_name(names[5]));
    assert(!is_older_name(names[6]));
    assert(!is_older_name(names[7]));
    assert(!is_older_name(names[8]));
    assert(!is_older_name(names[9]));
    assert(!is_older_name(names[10]));
    assert(!is_older_name(names[11]));
}

/// Importing a configuration replaces nothing that it does not hold: where a name is missing, the rules,
/// path or setting under it stays, whatever was read for it.
pub proof fn lemma_import_keeps_what_is_not_held(
    before: AppConfig,
    incoming: AppConfig,
    members: Seq<Pair>,
    after: AppConfig,
)
    requires
        rules_taken(before, incoming, members, after),
        paths_taken(before, incoming, members, after),
        mode_taken(before, incoming, members, after),
        prefix_taken(before, incoming, members, after),
    ensures
        lookup(members, "volume_rules"@) is None ==> after.volume_rules.deep_view()
            == before.volume_rules.deep_view(),
        lookup(members, "date_rules"@) is None ==> after.date_rules.deep_view()
            == before.date_rules.deep_view(),
        lookup(members, "summ_rules"@) is None ==> after.summ_rules.deep_view()
            == before.summ_rules.deep_view(),
        lookup(members, "folder"@) is None ==> after.folder@ == before.folder@,
        lookup(members, "titles_json"@) is None ==> after.titles_json@ == before.titles_json@,
        lookup(members, "date_json"@) is None ==> after.date_json@ == before.date_json@,
        lookup(members, "mode"@) is None ==> after.mode == before.mode,
        lookup(members, "use_vol"@) is None ==> after.use_vol == before.use_vol,
        lookup(members, "use_vol_date"@) is None ==> after.use_vol_date == before.use_vol_date,
        lookup(members, "use_vol_summ"@) is None ==> after.use_vol_summ == before.use_vol_summ,
        lookup(members, "prefix_mode"@) is None ==> after.prefix_mode == before.prefix_mode,
        lookup(members, "custom_pfx"@) is None ==> after.custom_pfx@ == before.custom_pfx@,
        lookup(members, "csep_on"@) is None ==> after.csep_on == before.csep_on,
        lookup(members, "csep"@) is None ==> after.csep@ == before.csep@,
{
}

/// An import leaves every field alone that the file does not hold.
pub proof fn lemma_import_keeps_other_fields(t: Taken, pairs: Seq<Pair>, tag: Seq<char>)
    requires
        forall|i: int| 0 <= i < pairs.len() ==> !names_tag(#[trigger] pairs[i].0, tag),
    ensures
        lookup(with_pairs(t, pairs).fields, tag) == lookup(t.fields, tag),
    decreases pairs.len(),
{
    if pairs.len() > 0 {
        let front = pairs.drop_last();
        let (key, value) = pairs.last();
        assert forall|i: int| 0 <= i < front.len() implies !names_tag(#[trigger] front[i].0, tag) by {
            assert(front[i] == pairs[i]);
        }
        lemma_import_keeps_other_fields(t, front, tag);
        assert(!names_tag(pairs[pairs.len() - 1].0, tag));
        match tag_named(key, lowered(key)) {
            Some((other, _)) => {
                if !is_summary(key) {
                    lemma_lookup_inserted(with_pairs(t, front).fields, other, value, tag);
                }
            },
            None => {},
        }
    }
}

/// An import leaves the summary alone where the file does not hold one.
pub proof fn lemma_import_keeps_summary(t: Taken, pairs: Seq<Pair>)
    requires
        forall|i: int| 0 <= i < pairs.len() ==> !is_summary(#[trigger] pairs[i].0),
    ensures
        with_pairs(t, pairs).summary == t.summary,
    decreases pairs.len(),
{
    if pairs.len() > 0 {
        let front = pairs.drop_last();
        assert forall|i: int| 0 <= i < front.len() implies !is_summary(#[trigger] front[i].0) by {
            assert(front[i] == pairs[i]);
        }
        lemma_import_keeps_summary(t, front);
        assert(!is_summary(pairs[pairs.len() - 1].0));
    }
}

/// The value that a file last gives for a tag is what the field holds after the import.
pub proof fn lemma_import_takes_last_value(t: Taken, pairs: Seq<Pair>, tag: Seq<char>, k: int)
    requires
        0 <= k < pairs.len(),
        names_tag(pairs[k].0, tag),
        forall|i: int| k < i < pairs.len() ==> !names_tag(#[trigger] pairs[i].0, tag),
    ensures
        lookup(with_pairs(t, pairs).fields, tag) == Some(pairs[k].1),
    decreases pairs.len(),
{
    let front = pairs.drop_last();
    let (key, value) = pairs.last();
    if k == pairs.len() - 1 {
        lemma_lookup_inserted(with_pairs(t, front).fields, tag, value, tag);
    } else {
        assert(front[k] == pairs[k]);
        assert forall|i: int| k < i < front.len() implies !names_tag(#[trigger] front[i].0, tag) by {
            assert(front[i] == pairs[i]);
        }
        lemma_import_takes_last_value(t, front, tag, k);
        assert(!names_tag(pairs[pairs.len() - 1].0, tag));
        match tag_named(key, lowered(key)) {
            Some((other, _)) => {
                if !is_summary(key) {
                    lemma_lookup_inserted(with_pairs(t, front).fields, other, value, tag);
                }
            },
            None => {},
        }
    }
}

/// How a character is written between quotes.
pub open spec fn quoted_char(c: char) -> Seq<char> {
    if c == '\n' {
        seq!['\\', 'n']
    } else if c == '"' || c == '\\' {
        seq!['\\', c]
    } else {
        seq![c]
    }
}

/// How a text is written between quotes.
pub open spec fn quoted_text(s: Seq<char>) -> Seq<char>
    decreases s.len(),
{
    if s.len() == 0 {
        Seq::empty()
    } else {
        quoted_char(s[0]) + quoted_text(s.skip(1))
    }
}

/// How the fields of a tuple are written.
pub open spec fn tuple_text(row: Row) -> Seq<char>
    decreases row.len(),
{
    if row.len() == 0 {
        Seq::empty()
    } else if row.len() == 1 {
        seq!['"'] + quoted_text(row[0]) + seq!['"']
    } else {
        seq!['"'] + quoted_text(row[0]) + seq!['"', ',', ' '] + tuple_text(row.skip(1))
    }
}

proof fn lemma_quoted_text(s: Seq<char>, rest: Seq<char>, current: Seq<char>)
    ensures
        fields_from(quoted_text(s) + seq!['"'] + rest, current, true) == fields_from(
            rest,
            current + s,
            false,
        ),
    decreases s.len(),
{
    let w = quoted_text(s) + seq!['"'] + rest;
    if s.len() == 0 {
        assert(w =~= seq!['"'] + rest);
        assert(w.skip(1) =~= rest);
        assert(current + s =~= current);
    } else {
        let t = s.skip(1);
        let v = quoted_text(t) + seq!['"'] + rest;
        lemma_quoted_text(t, rest, current.push(s[0]));
        assert(current.push(s[0]) + t =~= current + s);
        assert(w =~= quoted_char(s[0]) + v);
        if s[0] == '\n' || s[0] == '"' || s[0] == '\\' {
            assert(w[0] == '\\' && w[1] == quoted_char(s[0])[1]);
            assert(w.skip(2) =~= v);
        } else {
            assert(w[0] == s[0]);
            assert(w.skip(1) =~= v);
        }
    }
}

/// A text that has no blanks at its ends is found behind a blank.
proof fn lemma_trimmed_behind_blank(s: Seq<char>)
    requires
        trimmed(s) == s,
    ensures
        trimmed(seq![' '] + s) == s,
{
    let p = |c: char| is_space(c);
    let t = seq![' '] + s;
    lemma_leading(s, p);
    let front = s.skip(leading(s, p) as int);
    lemma_trailing(front, p);
    assert(leading(s, p) == 0 && trailing(front, p) == 0);
    assert(front =~= s);
    assert(t.skip(1) =~= s);
    assert(is_space(' '));
    assert(leading(t, p) == 1);
    assert(s.take(s.len() as int) =~= s);
}

/// The fields of a tuple are read as they were, where they have no blanks at their ends and the last
/// one is not empty.
pub proof fn lemma_tuple_is_read(row: Row)
    requires
        row.len() > 0,
        row.last().len() > 0,
        forall|i: int| 0 <= i < row.len() ==> trimmed(#[trigger] row[i]) == row[i],
    ensures
        fields_from(tuple_text(row), Seq::empty(), false) == row,
{
    lemma_tuple_from(row, Seq::empty());
}

proof fn lemma_tuple_from(row: Row, blank: Seq<char>)
    requires
        row.len() > 0,
        row.last().len() > 0,
        forall|i: int| 0 <= i < row.len() ==> trimmed(#[trigger] row[i]) == row[i],
        blank == Seq::<char>::empty() || blank == seq![' '],
    ensures
        fields_from(tuple_text(row), blank, false) == row,
    decreases row.len(),
{
    let w = tuple_text(row);
    let first = row[0];
    assert(trimmed(blank + first) == first) by {
        if blank == seq![' '] {
            lemma_trimmed_behind_blank(first);
        } else {
            assert(blank + first =~= first);
        }
    }
    let rest = if row.len() == 1 {
        Seq::<char>::empty()
    } else {
        seq![',', ' '] + tuple_text(row.skip(1))
    };
    assert(w =~= seq!['"'] + (quoted_text(first) + seq!['"'] + rest));
    assert(w.skip(1) =~= quoted_text(first) + seq!['"'] + rest);
    lemma_quoted_text(first, rest, blank);
    if row.len() == 1 {
        assert(fields_from(w, blank, false) =~= row);
    } else {
        let tail = row.skip(1);
        assert forall|i: int| 0 <= i < tail.len() implies trimmed(#[trigger] tail[i]) == tail[i] by {
            assert(tail[i] == row[i + 1]);
        }
        assert(tail.last() == row.last());
        lemma_tuple_from(tail, seq![' ']);
        let behind = seq![' '] + tuple_text(tail);
        assert(rest.skip(1) =~= behind);
        assert(behind.skip(1) =~= tuple_text(tail));
        assert(Seq::<char>::empty().push(' ') =~= seq![' ']);
        assert(fields_from(behind, Seq::empty(), false) == fields_from(
            tuple_text(tail),
            seq![' '],
            false,
        ));
        assert(seq![first] + tail =~= row);
    }
}

// ── Laws on Python files ────────────────────────────────────────────────────────────────────────
/// The fields of a tuple are those between its first and its last parenthesis.
pub proof fn lemma_tuple_line(p: Seq<char>, inner: Seq<char>, q: Seq<char>)
    requires
        lacks(p, '('),
        lacks(q, ')'),
    ensures
        line_fields(p + seq!['('] + inner + seq![')'] + q) == fields_from(inner, Seq::empty(), false),
{
    let line = p + seq!['('] + inner + seq![')'] + q;
    assert(line =~= p + seq!['('] + (inner + seq![')'] + q));
    lemma_places_of_char(p, '(', inner + seq![')'] + q);
    lemma_places_of_char(p + seq!['('] + inner, ')', q);
    let open = p.len() as int;
    let close = open + 1 + inner.len();
    assert(line.subrange(open + 1, close) =~= inner);
}

/// The rules of a list are read as they were, in their order, up to the closing bracket and no further.
pub proof fn lemma_list_is_read(
    lines: Seq<Seq<char>>,
    rows: Seq<Row>,
    close: Seq<char>,
    tail: Seq<Seq<char>>,
)
    requires
        lines.len() == rows.len(),
        forall|i: int|
            0 <= i < lines.len() ==> {
                &&& trimmed(#[trigger] lines[i]) == seq!['('] + tuple_text(rows[i]) + seq![')', ',']
                &&& rows[i].len() > 0
                &&& rows[i].last().len() > 0
                &&& forall|j: int|
                    0 <= j < rows[i].len() ==> trimmed(#[trigger] rows[i][j]) == rows[i][j]
            },
        trimmed(close).len() > 0,
        trimmed(close)[0] == ']',
    ensures
        tuple_rows(lines + seq![close] + tail) == rows,
    decreases lines.len(),
{
    reveal_strlit("]");
    reveal_strlit("#");
    let all = lines + seq![close] + tail;
    let line = trimmed(all[0]);
    if lines.len() == 0 {
        assert(line.subrange(0, 1) =~= "]"@);
        assert(rows =~= Seq::<Row>::empty());
    } else {
        assert(all[0] == lines[0]);
        assert(line[0] == '(');
        assert(line.subrange(0, 1)[0] == '(');
        assert(!starts_with(line, "]"@) && !starts_with(line, "#"@));
        let inner = tuple_text(rows[0]);
        assert(line =~= Seq::<char>::empty() + seq!['('] + inner + seq![')'] + seq![',']);
        lemma_tuple_line(Seq::empty(), inner, seq![',']);
        lemma_tuple_is_read(rows[0]);
        let rest = lines.skip(1);
        assert(all.skip(1) =~= rest + seq![close] + tail);
        assert forall|i: int| 0 <= i < rest.len() implies {
            &&& trimmed(#[trigger] rest[i]) == seq!['('] + tuple_text(rows.skip(1)[i]) + seq![')', ',']
            &&& rows.skip(1)[i].len() > 0
            &&& rows.skip(1)[i].last().len() > 0
            &&& forall|j: int|
                0 <= j < rows.skip(1)[i].len() ==> trimmed(#[trigger] rows.skip(1)[i][j])
                    == rows.skip(1)[i][j]
        } by {
            assert(rest[i] == lines[i + 1]);
        }
        lemma_list_is_read(rest, rows.skip(1), close, tail);
        assert(seq![rows[0]] + rows.skip(1) =~= rows);
    }
}

/// Blank lines and comments make no difference to the rules of a list.
pub proof fn lemma_comments_are_passed_over(comment: Seq<char>, lines: Seq<Seq<char>>)
    requires
        trimmed(comment).len() > 0 ==> trimmed(comment)[0] == '#',
    ensures
        tuple_rows(seq![comment] + lines) == tuple_rows(lines),
{
    reveal_strlit("]");
    reveal_strlit("#");
    let line = trimmed(comment);
    assert((seq![comment] + lines).skip(1) =~= lines);
    assert((seq![comment] + lines)[0] == comment);
    if line.len() > 0 {
        assert(line.subrange(0, 1) =~= "#"@);
        assert(line.subrange(0, 1)[0] != "]"@[0]);
        assert(!starts_with(line, "]"@));
    }
}

/// A line of a dictionary is read as the key and the value between the quotes.
pub proof fn lemma_dictionary_line(key: Seq<char>, value: Seq<char>, q: Seq<char>)
    requires
        key.len() > 0,
        key[0] != ':',
        !is_space(key.last()),
        lacks(key, '"'),
        lacks(value, '"'),
        lacks(value, '\\'),
        lacks(q, '"'),
    ensures
        dict_entry(seq!['"'] + key + "\": \""@ + value + seq!['"'] + q) == Some((key, value)),
{
    let mark = "\": \""@;
    let head = seq!['"'] + key;
    let rest = value + seq!['"'] + q;
    let line = seq!['"'] + key + mark + value + seq!['"'] + q;
    assert(mark.len() == 4 && mark[0] == '"' && mark[1] == ':') by {
        reveal_strlit("\": \"");
    }
    assert(line =~= head + mark + rest);
    lemma_key_ends(key, mark, rest);
    lemma_first_place(head, mark, rest);
    lemma_key_is_bare(key);
    lemma_places_of_char(value, '"', q);
    assert(rest.take(value.len() as int) =~= value);
    assert(replaced(value, "\\n"@, "\n"@) == value) by {
        reveal_strlit("\\n");
        lemma_escapes_are_absent(value, "\\n"@);
        lemma_replaced(Seq::empty(), "\\n"@, value, "\n"@);
    }
    assert(replaced(value, "\\\""@, "\""@) == value) by {
        reveal_strlit("\\\"");
        lemma_escapes_are_absent(value, "\\\""@);
        lemma_replaced(Seq::empty(), "\\\""@, value, "\""@);
    }
}

/// The mark behind a key does not stand before the end of the key.
proof fn lemma_key_ends(key: Seq<char>, mark: Seq<char>, rest: Seq<char>)
    requires
        key.len() > 0,
        key[0] != ':',
        lacks(key, '"'),
        mark.len() > 1,
        mark[0] == '"',
        mark[1] == ':',
    ensures
        forall|i: int|
            0 <= i < key.len() + 1 ==> !#[trigger] occurs_at(seq!['"'] + key + mark + rest, i, mark),
{
    let line = seq!['"'] + key + mark + rest;
    assert forall|i: int| 0 <= i < key.len() + 1 implies !#[trigger] occurs_at(line, i, mark) by {
        if occurs_at(line, i, mark) {
            let cut = line.subrange(i, i + mark.len());
            assert(cut[0] == line[i] && cut[1] == line[i + 1]);
            if i == 0 {
                assert(line[1] == key[0]);
            } else {
                assert(line[i] == key[i - 1]);
            }
        }
    }
}

/// A key is what is left behind the quote before it.
proof fn lemma_key_is_bare(key: Seq<char>)
    requires
        key.len() > 0,
        !is_space(key.last()),
        lacks(key, '"'),
    ensures
        trimmed_start(trimmed(seq!['"'] + key), '"') == key,
{
    let head = seq!['"'] + key;
    assert(head.last() == key.last());
    lemma_trimmed_is(head);
    assert(head.skip(1) =~= key);
    assert(key[0] != '"');
    assert(leading(key, only('"')) == 0);
    assert(leading(head, only('"')) == 1);
    assert(trimmed_start(head, '"') =~= key);
}

proof fn lemma_escapes_are_absent(s: Seq<char>, part: Seq<char>)
    requires
        lacks(s, '\\'),
        part.len() > 0,
        part[0] == '\\',
    ensures
        !contains_text(s, part),
{
    if contains_text(s, part) {
        let i = choose|i: int| occurs_at(s, i, part);
        assert(s.subrange(i, i + part.len())[0] == s[i]);
    }
}

/// The entries of the dictionary are read in their order, from the line that opens it up to the brace that
/// closes it, and no further.
pub proof fn lemma_dictionary_is_read(
    lines: Seq<Seq<char>>,
    pairs: Seq<Pair>,
    close: Seq<char>,
    tail: Seq<Seq<char>>,
)
    requires
        lines.len() == pairs.len(),
        forall|i: int|
            0 <= i < lines.len() ==> {
                let (key, value) = pairs[i];
                &&& trimmed(#[trigger] lines[i]) == seq!['"'] + key + "\": \""@ + value + seq!['"']
                    + seq![',']
                &&& key.len() > 0
                &&& key[0] != ':'
                &&& !is_space(key.last())
                &&& lacks(key, '"')
                &&& lacks(value, '"')
                &&& lacks(value, '\\')
            },
        trimmed(close) == "}"@,
    ensures
        dict_entries(lines + seq![close] + tail, true) == pairs,
    decreases lines.len(),
{
    reveal_strlit("}");
    reveal_strlit("},");
    let all = lines + seq![close] + tail;
    if lines.len() == 0 {
        assert(all[0] == close);
        assert(pairs =~= Seq::<Pair>::empty());
    } else {
        assert(all[0] == lines[0]);
        let (key, value) = pairs[0];
        let line = trimmed(all[0]);
        assert(line[0] == '"');
        lemma_dictionary_line(key, value, seq![',']);
        let rest = lines.skip(1);
        assert(all.skip(1) =~= rest + seq![close] + tail);
        assert forall|i: int| 0 <= i < rest.len() implies {
            let (key, value) = pairs.skip(1)[i];
            &&& trimmed(#[trigger] rest[i]) == seq!['"'] + key + "\": \""@ + value + seq!['"'] + seq![
                ',',
            ]
            &&& key.len() > 0
            &&& key[0] != ':'
            &&& !is_space(key.last())
            &&& lacks(key, '"')
            &&& lacks(value, '"')
            &&& lacks(value, '\\')
        } by {
            assert(rest[i] == lines[i + 1]);
        }
        lemma_dictionary_is_read(rest, pairs.skip(1), close, tail);
        assert(one_or_none(dict_entry(line)) + pairs.skip(1) =~= pairs);
    }
}

/// Only the line that opens the dictionary starts it: what stands before it is passed over.
pub proof fn lemma_dictionary_starts(line: Seq<char>, lines: Seq<Seq<char>>)
    ensures
        starts_with(trimmed(line), "CONSTANT_METADATA"@) && trimmed(line).contains('{')
            ==> dict_entries(seq![line] + lines, false) == dict_entries(lines, true),
        !starts_with(trimmed(line), "CONSTANT_METADATA"@) ==> dict_entries(seq![line] + lines, false)
            == dict_entries(lines, false),
        dict_entries(Seq::empty(), true).len() == 0,
{
    assert((seq![line] + lines).skip(1) =~= lines);
}

/// The summary of a Python file is what stands between the triple quotes, without blanks at its ends.
pub proof fn lemma_long_summary_is_read(a: Seq<char>, s: Seq<char>, b: Seq<char>)
    requires
        lacks(s, '"'),
        trimmed(s).len() > 0,
        forall|i: int|
            0 <= i < a.len() ==> !#[trigger] occurs_at(
                a + "SUMMARY = \"\"\""@ + (s + "\"\"\""@ + b),
                i,
                "SUMMARY = \"\"\""@,
            ),
    ensures
        python_summary(a + "SUMMARY = \"\"\""@ + (s + "\"\"\""@ + b)) == Some(trimmed(s)),
{
    let mark = "SUMMARY = \"\"\""@;
    let end = "\"\"\""@;
    assert(mark.len() == 13 && end.len() == 3 && end[0] == '"') by {
        reveal_strlit("SUMMARY = \"\"\"");
        reveal_strlit("\"\"\"");
    }
    lemma_first_place(a, mark, s + end + b);
    lemma_first_place(s, end, b);
}

// ── Laws on names and configurations ────────────────────────────────────────────────────────────
/// No two older names stand for the same tag, and only the rating is one on a scale up to 10.
pub proof fn lemma_older_names(
    x: Seq<char>,
    y: Seq<char>,
    t: Seq<char>,
    u: Seq<char>,
    ten: bool,
    other: bool,
)
    requires
        alias_of(x) == Some((t, ten)),
        alias_of(y) == Some((u, other)),
    ensures
        ten <==> t == "CommunityRating"@,
        t == u ==> x == y,
{
    reveal_strlit("Series");
    reveal_strlit("Writer");
    reveal_strlit("Penciller");
    reveal_strlit("Publisher");
    reveal_strlit("LanguageISO");
    reveal_strlit("AlternateSeries");
    reveal_strlit("Web");
    reveal_strlit("Genre");
    reveal_strlit("Count");
    reveal_strlit("Year");
    reveal_strlit("Month");
    reveal_strlit("Day");
    reveal_strlit("CommunityRating");
    assert("Series"@[0] == 'S' && "Writer"@[1] == 'r' && "Penciller"@[1] == 'e' && "Publisher"@[1]
        == 'u' && "LanguageISO"@[0] == 'L' && "AlternateSeries"@[0] == 'A' && "Web"@[1] == 'e'
        && "Genre"@[0] == 'G' && "Count"@.len() == 5 && "Year"@[0] == 'Y' && "Month"@[0] == 'M'
        && "Day"@[0] == 'D' && "CommunityRating"@.len() == 15);
    assert("Writer"@[0] == 'W' && "Penciller"@[0] == 'P' && "Publisher"@[0] == 'P' && "Web"@[0] == 'W'
        && "Count"@[0] == 'C' && "CommunityRating"@[0] == 'C');
}

/// An older configuration gives the same fields when it is loaded as when it is imported.
pub proof fn lemma_loading_gives_what_importing_does(t: Taken, pairs: Seq<Pair>)
    ensures
        with_older_fields(t.fields, t.ten_scale, pairs) == (
            with_pairs(t, pairs).fields,
            with_pairs(t, pairs).ten_scale,
        ),
    decreases pairs.len(),
{
    if pairs.len() > 0 {
        lemma_loading_gives_what_importing_does(t, pairs.drop_last());
    }
}

/// The last summary that a file gives is the summary after the import.
pub proof fn lemma_import_takes_last_summary(t: Taken, pairs: Seq<Pair>, k: int)
    requires
        0 <= k < pairs.len(),
        is_summary(pairs[k].0),
        forall|i: int| k < i < pairs.len() ==> !is_summary(#[trigger] pairs[i].0),
    ensures
        with_pairs(t, pairs).summary == pairs[k].1,
    decreases pairs.len(),
{
    let front = pairs.drop_last();
    if k < pairs.len() - 1 {
        assert(front[k] == pairs[k]);
        assert forall|i: int| k < i < front.len() implies !is_summary(#[trigger] front[i].0) by {
            assert(front[i] == pairs[i]);
        }
        lemma_import_takes_last_summary(t, front, k);
        assert(!is_summary(pairs[pairs.len() - 1].0));
    }
}

/// Ratings go up to 10 after an import exactly where they did before or the file gives a rating under its
/// older name.
pub proof fn lemma_older_rating_sets_scale(t: Taken, pairs: Seq<Pair>)
    ensures
        with_pairs(t, pairs).ten_scale <==> t.ten_scale || exists|i: int|
            0 <= i < pairs.len() && is_older_rating(#[trigger] pairs[i].0),
    decreases pairs.len(),
{
    if pairs.len() > 0 {
        let front = pairs.drop_last();
        let n = pairs.len() - 1;
        lemma_older_rating_sets_scale(t, front);
        lemma_rating_name(pairs[n].0);
        if exists|i: int| 0 <= i < front.len() && is_older_rating(#[trigger] front[i].0) {
            let i = choose|i: int| 0 <= i < front.len() && is_older_rating(#[trigger] front[i].0);
            assert(is_older_rating(pairs[i].0));
        }
        if exists|i: int| 0 <= i < pairs.len() && is_older_rating(#[trigger] pairs[i].0) {
            let i = choose|i: int| 0 <= i < pairs.len() && is_older_rating(#[trigger] pairs[i].0);
            if i < n {
                assert(is_older_rating(front[i].0));
            }
        }
    }
}

/// Whether a name is the older one of the rating, in whatever case.
pub open spec fn is_older_rating(key: Seq<char>) -> bool {
    !is_summary(key) && field_of(key) is None && lowered(key) == "rating"@
}

proof fn lemma_rating_name(key: Seq<char>)
    ensures
        is_older_rating(key) <==> !is_summary(key) && (tag_named(key, lowered(key)) matches Some((_, ten))
            && ten),
{
    reveal_strlit("series");
    reveal_strlit("writer");
    reveal_strlit("penciller");
    reveal_strlit("publisher");
    reveal_strlit("language");
    reveal_strlit("alt_series");
    reveal_strlit("web");
    reveal_strlit("genre");
    reveal_strlit("count");
    reveal_strlit("year");
    reveal_strlit("month");
    reveal_strlit("day");
    reveal_strlit("rating");
    let r = "rating"@;
    assert(r.len() == 6 && r[0] == 'r');
    assert("series"@[0] == 's' && "writer"@[0] == 'w' && "penciller"@.len() == 9 && "publisher"@.len()
        == 9 && "language"@.len() == 8 && "alt_series"@.len() == 10 && "web"@.len() == 3
        && "genre"@.len() == 5 && "count"@.len() == 5 && "year"@.len() == 4 && "month"@.len() == 5
        && "day"@.len() == 3);
}

/// Importing a configuration takes over what it holds: rules as far as there are any, paths as far as they
/// are not blank, and every setting.
pub proof fn lemma_import_takes_what_is_held(
    before: AppConfig,
    incoming: AppConfig,
    members: Seq<Pair>,
    after: AppConfig,
)
    requires
        rules_taken(before, incoming, members, after),
        paths_taken(before, incoming, members, after),
        mode_taken(before, incoming, members, after),
    ensures
        lookup(members, "volume_rules"@) is Some && incoming.volume_rules.deep_view().len() > 0
            ==> after.volume_rules.deep_view() == incoming.volume_rules.deep_view(),
        lookup(members, "date_rules"@) is Some && incoming.date_rules.deep_view().len() > 0
            ==> after.date_rules.deep_view() == incoming.date_rules.deep_view(),
        lookup(members, "summ_rules"@) is Some && incoming.summ_rules.deep_view().len() > 0
            ==> after.summ_rules.deep_view() == incoming.summ_rules.deep_view(),
        incoming.volume_rules.deep_view().len() == 0 ==> after.volume_rules.deep_view()
            == before.volume_rules.deep_view(),
        lookup(members, "folder"@) is Some && trimmed(incoming.folder@).len() > 0 ==> after.folder@
            == incoming.folder@,
        trimmed(incoming.folder@).len() == 0 ==> after.folder@ == before.folder@,
        lookup(members, "titles_json"@) is Some && trimmed(incoming.titles_json@).len() > 0
            ==> after.titles_json@ == incoming.titles_json@,
        lookup(members, "date_json"@) is Some && trimmed(incoming.date_json@).len() > 0
            ==> after.date_json@ == incoming.date_json@,
        lookup(members, "mode"@) is Some ==> after.mode == incoming.mode,
        lookup(members, "use_vol"@) is Some ==> after.use_vol == incoming.use_vol,
        lookup(members, "use_vol_date"@) is Some ==> after.use_vol_date == incoming.use_vol_date,
        lookup(members, "use_vol_summ"@) is Some ==> after.use_vol_summ == incoming.use_vol_summ,
{
}

} // verus!
