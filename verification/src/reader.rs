//! Reading `ComicInfo.xml`.

use crate::import::one_or_none;
use crate::tags::Pair;
use crate::text::{
    cat3,
    chars_of,
    find_from,
    find_part,
    first_index,
    leading,
    lemma_find_from,
    lemma_leading_is,
    occurs_at,
    stands_at,
    text_between,
    trimmed,
};
use crate::unicode::{is_space, is_space_char};
use crate::xml::{
    arranged,
    document,
    element,
    elements,
    escaped,
    escaped_char,
    lemma_arranged,
    is_left_out,
    lemma_escaped_front,
    lemma_escaped_holds_no_markup,
};
use vstd::prelude::*;

verus! {

/// The character that is written at the start of `s`, and how long it is written.
pub open spec fn written_char(s: Seq<char>) -> (char, nat) {
    if occurs_at(s, 0, "&amp;"@) {
        ('&', 5)
    } else if occurs_at(s, 0, "&lt;"@) {
        ('<', 4)
    } else if occurs_at(s, 0, "&gt;"@) {
        ('>', 4)
    } else if occurs_at(s, 0, "&quot;"@) {
        ('"', 6)
    } else if occurs_at(s, 0, "&apos;"@) {
        ('\'', 6)
    } else {
        (s[0], 1)
    }
}

/// The text that is written in XML as `s`. What is no known reference stands for itself.
pub open spec fn unescaped(s: Seq<char>) -> Seq<char>
    decreases s.len(),
{
    if s.len() == 0 {
        Seq::empty()
    } else {
        let (c, n) = written_char(s);
        proof {
            reveal_strlit("&amp;");
            reveal_strlit("&lt;");
            reveal_strlit("&gt;");
            reveal_strlit("&quot;");
            reveal_strlit("&apos;");
        }
        seq![c] + unescaped(s.skip(n as int))
    }
}

/// The character that is written at position `i`, and how long it is written.
fn read_char(v: &Vec<char>, i: usize) -> (r: (char, usize))
    requires
        i < v@.len(),
    ensures
        (r.0, r.1 as nat) == written_char(v@.skip(i as int)),
        0 < r.1 <= v@.len() - i,
{
    let ghost s = v@.skip(i as int);
    proof {
        reveal_strlit("&amp;");
        reveal_strlit("&lt;");
        reveal_strlit("&gt;");
        reveal_strlit("&quot;");
        reveal_strlit("&apos;");
    }
    if reads(v, i, "&amp;") {
        ('&', 5)
    } else if reads(v, i, "&lt;") {
        ('<', 4)
    } else if reads(v, i, "&gt;") {
        ('>', 4)
    } else if reads(v, i, "&quot;") {
        ('"', 6)
    } else if reads(v, i, "&apos;") {
        ('\'', 6)
    } else {
        (v[i], 1)
    }
}

/// Whether `part` stands at position `i`.
fn reads(v: &Vec<char>, i: usize, part: &str) -> (r: bool)
    requires
        i <= v@.len(),
    ensures
        r == occurs_at(v@.skip(i as int), 0, part@),
        r == occurs_at(v@, i as int, part@),
{
    let w = chars_of(part);
    let n: usize = v.len();
    proof {
        let m = part@.len();
        if i + m <= n {
            assert(v@.skip(i as int).subrange(0, m as int) =~= v@.subrange(i as int, i + m));
        }
    }
    stands_at(v, i, &w)
}

/// The text that is written in XML between two positions.
fn unescape_between(v: &Vec<char>, from: usize, to: usize) -> (r: String)
    requires
        from <= to <= v@.len(),
    ensures
        r@ == unescaped(v@.subrange(from as int, to as int)),
{
    let inner = chars_of(text_between(v, from, to).as_str());
    let ghost s = inner@;
    let n: usize = inner.len();
    let mut out = String::new();
    let mut i: usize = 0;
    assert(s.skip(0) =~= s);
    assert(out@ + unescaped(s) =~= unescaped(s));
    while i < n
        invariant
            n == inner@.len(),
            s == inner@,
            i <= n,
            out@ + unescaped(s.skip(i as int)) == unescaped(s),
        decreases n - i,
    {
        let (c, k) = read_char(&inner, i);
        let ghost before = out@;
        out.push(c);
        proof {
            let rest = s.skip(i as int);
            assert(rest.skip(k as int) =~= s.skip(i + k));
            assert(before.push(c) + unescaped(s.skip(i + k)) =~= before + (seq![c] + unescaped(
                s.skip(i + k),
            )));
        }
        i = i + k;
    }
    assert(out@ + unescaped(s.skip(n as int)) =~= out@);
    out
}

/// The text that is written in XML as `s`.
pub fn unescape_xml(s: &str) -> (r: String)
    ensures
        r@ == unescaped(s@),
{
    let v = chars_of(s);
    assert(v@.subrange(0, v@.len() as int) =~= s@);
    unescape_between(&v, 0, v.len())
}

/// Whether a character ends the name of an element.
pub open spec fn ends_name(c: char) -> bool {
    is_space(c) || c == '/'
}

/// The name in a start tag.
pub open spec fn name_in(head: Seq<char>) -> Seq<char> {
    head.take(leading(head, |c: char| !ends_name(c)) as int)
}

/// What ends an element with a given name.
pub open spec fn end_tag(name: Seq<char>) -> Seq<char> {
    "</"@ + name + ">"@
}

/// The element with a given name whose text stands between two positions. An element that holds others
/// has no text.
pub open spec fn text_element(s: Seq<char>, name: Seq<char>, from: int, to: int) -> Option<Pair> {
    let inner = s.subrange(from, to);
    if first_index(inner, '<') is Some {
        None
    } else {
        Some((name, unescaped(inner)))
    }
}

/// The element that starts at position `k`, where there is one, and where reading goes on; nothing at
/// the end of what is read.
pub open spec fn piece_at(s: Seq<char>, k: int) -> Option<(Option<Pair>, int)> {
    if k + 1 >= s.len() || s[k + 1] == '/' {
        None
    } else if occurs_at(s, k, "<!--"@) {
        match find_from(s, "-->"@, k + 4) {
            Some(j) => Some((None, j + 3)),
            None => None,
        }
    } else {
        match find_from(s, ">"@, k + 1) {
            Some(j) => {
                let name = name_in(s.subrange(k + 1, j));
                if s[k + 1] == '!' || s[k + 1] == '?' {
                    Some((None, j + 1))
                } else if s[j - 1] == '/' {
                    Some((Some((name, Seq::empty())), j + 1))
                } else {
                    match find_from(s, end_tag(name), j + 1) {
                        Some(c) => Some(
                            (text_element(s, name, j + 1, c), c + end_tag(name).len()),
                        ),
                        None => None,
                    }
                }
            },
            None => None,
        }
    }
}

/// Reading goes on behind where it was.
pub proof fn lemma_piece_advances(s: Seq<char>, k: int)
    requires
        0 <= k,
    ensures
        piece_at(s, k) matches Some((_, next)) ==> k < next <= s.len(),
{
    reveal_strlit("<!--");
    reveal_strlit("-->");
    reveal_strlit(">");
    lemma_find_from(s, "-->"@, k + 4);
    lemma_find_from(s, ">"@, k + 1);
    match find_from(s, ">"@, k + 1) {
        Some(j) => {
            let name = name_in(s.subrange(k + 1, j));
            lemma_find_from(s, end_tag(name), j + 1);
        },
        None => {},
    }
}

/// The elements from position `i` on.
pub open spec fn element_list(s: Seq<char>, i: int) -> Seq<Pair>
    decreases s.len() - i,
{
    if i < 0 {
        Seq::empty()
    } else {
        match find_from(s, "<"@, i) {
            Some(k) => match piece_at(s, k) {
                Some((entry, next)) => {
                    proof {
                        reveal_strlit("<");
                        lemma_find_from(s, "<"@, i);
                        lemma_piece_advances(s, k);
                    }
                    one_or_none(entry) + element_list(s, next)
                },
                None => Seq::empty(),
            },
            None => Seq::empty(),
        }
    }
}

/// The tags of a document with their values; nothing where it is no document with metadata.
pub open spec fn document_tags(s: Seq<char>) -> Option<Seq<Pair>> {
    match find_from(s, "<ComicInfo"@, 0) {
        Some(k) => match find_from(s, ">"@, k + 10) {
            Some(j) => Some(
                if s[j - 1] == '/' {
                    Seq::empty()
                } else {
                    element_list(s, j + 1)
                },
            ),
            None => None,
        },
        None => None,
    }
}

/// The name in the start tag between two positions.
fn read_name(v: &Vec<char>, from: usize, to: usize) -> (r: String)
    requires
        from <= to <= v@.len(),
    ensures
        r@ == name_in(v@.subrange(from as int, to as int)),
{
    let ghost head = v@.subrange(from as int, to as int);
    let mut i: usize = from;
    while i < to && !(is_space_char(v[i]) || v[i] == '/')
        invariant
            from <= i <= to <= v@.len(),
            head == v@.subrange(from as int, to as int),
            forall|k: int| 0 <= k < i - from ==> !ends_name(#[trigger] head[k]),
        decreases to - i,
    {
        i = i + 1;
    }
    proof {
        let p = |c: char| !ends_name(c);
        lemma_leading_is(head, p, (i - from) as nat);
        assert(head.take(i - from) =~= v@.subrange(from as int, i as int));
    }
    text_between(v, from, i)
}

/// Whether `mark` stands between two positions.
fn holds(v: &Vec<char>, mark: char, from: usize, to: usize) -> (r: bool)
    requires
        from <= to <= v@.len(),
    ensures
        r == (first_index(v@.subrange(from as int, to as int), mark) is Some),
{
    let inner = chars_of(text_between(v, from, to).as_str());
    match crate::text::find_first(&inner, mark) {
        Some(_) => true,
        None => false,
    }
}

/// The element that starts at position `k`, and where reading goes on.
fn read_piece(v: &Vec<char>, k: usize) -> (r: Option<(Option<(String, String)>, usize)>)
    requires
        k < v@.len(),
    ensures
        match (r, piece_at(v@, k as int)) {
            (Some(x), Some(y)) => x.0.deep_view() == y.0 && x.1 == y.1,
            (None, None) => true,
            _ => false,
        },
{
    let n: usize = v.len();
    proof {
        reveal_strlit("<!--");
        reveal_strlit("-->");
        reveal_strlit(">");
    }
    if k + 1 >= n || v[k + 1] == '/' {
        return None;
    }
    if reads(v, k, "<!--") {
        return match find_part(v, "-->", k + 4) {
            Some(j) => Some((None, j + 3)),
            None => None,
        };
    }
    match find_part(v, ">", k + 1) {
        Some(j) => {
            let name = read_name(v, k + 1, j);
            if v[k + 1] == '!' || v[k + 1] == '?' {
                Some((None, j + 1))
            } else if v[j - 1] == '/' {
                let entry = (name, String::from_str(""));
                proof {
                    reveal_strlit("");
                    assert(entry.1@ =~= Seq::<char>::empty());
                }
                Some((Some(entry), j + 1))
            } else {
                let close = cat3("</", name.as_str(), ">");
                match find_part(v, close.as_str(), j + 1) {
                    Some(c) => {
                        let w = chars_of(close.as_str());
                        let next: usize = c + w.len();
                        if holds(v, '<', j + 1, c) {
                            Some((None, next))
                        } else {
                            Some((Some((name, unescape_between(v, j + 1, c))), next))
                        }
                    },
                    None => None,
                }
            }
        },
        None => None,
    }
}

/// The tags of a document with their values; nothing where it is no document with metadata.
pub fn read_comic_info(text: &str) -> (r: Option<Vec<(String, String)>>)
    ensures
        r.deep_view() == document_tags(text@),
{
    proof {
        reveal_strlit("<ComicInfo");
        reveal_strlit(">");
        reveal_strlit("<");
    }
    let v = chars_of(text);
    let n: usize = v.len();
    let root: usize = match find_part(&v, "<ComicInfo", 0) {
        Some(k) => k,
        None => {
            return None;
        },
    };
    let start: usize = match find_part(&v, ">", root + 10) {
        Some(j) => j,
        None => {
            return None;
        },
    };
    let mut out: Vec<(String, String)> = Vec::new();
    if v[start - 1] == '/' {
        assert(out.deep_view() =~= Seq::<Pair>::empty());
        return Some(out);
    }
    let ghost all = element_list(v@, start + 1);
    let mut i: usize = start + 1;
    assert(out.deep_view() + all =~= all);
    loop
        invariant
            i <= v@.len(),
            out.deep_view() + element_list(v@, i as int) == all,
        ensures
            out.deep_view() == all,
        decreases v@.len() - i,
    {
        let ghost before = out.deep_view();
        proof {
            reveal_strlit("<");
            lemma_find_from(v@, "<"@, i as int);
        }
        match find_part(&v, "<", i) {
            Some(k) => {
                proof {
                    lemma_piece_advances(v@, k as int);
                }
                match read_piece(&v, k) {
                    Some((entry, next)) => {
                        let ghost e = entry.deep_view();
                        match entry {
                            Some(pair) => {
                                out.push(pair);
                            },
                            None => {},
                        }
                        proof {
                            assert(out.deep_view() =~= before + one_or_none(e));
                            assert(before + (one_or_none(e) + element_list(v@, next as int))
                                =~= out.deep_view() + element_list(v@, next as int));
                        }
                        i = next;
                    },
                    None => {
                        assert(before + Seq::<Pair>::empty() =~= before);
                        break ;
                    },
                }
            },
            None => {
                assert(before + Seq::<Pair>::empty() =~= before);
                break ;
            },
        }
    }
    Some(out)
}

// ── What is written can be read ─────────────────────────────────────────────────────────────────
/// A text that is written in XML is read as it was.
pub proof fn lemma_unescaped_escaped(s: Seq<char>)
    ensures
        unescaped(escaped(s)) == s,
    decreases s.len(),
{
    reveal_strlit("&amp;");
    reveal_strlit("&lt;");
    reveal_strlit("&gt;");
    reveal_strlit("&quot;");
    reveal_strlit("&apos;");
    if s.len() > 0 {
        let e = escaped_char(s[0]);
        let rest = escaped(s.skip(1));
        let w = escaped(s);
        lemma_escaped_front(s);
        assert(w == e + rest);
        assert(w.subrange(0, e.len() as int) =~= e);
        assert(w[0] == e[0]);
        if s[0] == '&' || s[0] == '<' || s[0] == '>' || s[0] == '"' || s[0] == '\'' {
            assert(w[1] == e[1] && w[2] == e[2]);
            if w.len() >= 5 {
                assert(w.subrange(0, 5)[1] == w[1]);
            }
            if w.len() >= 4 {
                assert(w.subrange(0, 4)[1] == w[1]);
            }
            if w.len() >= 6 {
                assert(w.subrange(0, 6)[1] == w[1]);
            }
            assert(written_char(w) == (s[0], e.len()));
        } else {
            assert(!occurs_at(w, 0, "&amp;"@)) by {
                if w.len() >= 5 {
                    assert(w.subrange(0, 5)[0] == w[0]);
                }
            }
            assert(!occurs_at(w, 0, "&lt;"@) && !occurs_at(w, 0, "&gt;"@)) by {
                if w.len() >= 4 {
                    assert(w.subrange(0, 4)[0] == w[0]);
                }
            }
            assert(!occurs_at(w, 0, "&quot;"@) && !occurs_at(w, 0, "&apos;"@)) by {
                if w.len() >= 6 {
                    assert(w.subrange(0, 6)[0] == w[0]);
                }
            }
        }
        assert(w.skip(e.len() as int) =~= rest);
        lemma_unescaped_escaped(s.skip(1));
        assert(seq![s[0]] + s.skip(1) =~= s);
    } else {
        assert(escaped(s) =~= Seq::<char>::empty());
        assert(unescaped(escaped(s)) =~= s);
    }
}

/// Whether a tag can be the name of an element.
pub open spec fn is_name(tag: Seq<char>) -> bool {
    &&& tag.len() > 0
    &&& tag[0] != '!'
    &&& tag[0] != '?'
    &&& forall|i: int|
        0 <= i < tag.len() ==> !ends_name(#[trigger] tag[i]) && tag[i] != '<' && tag[i] != '>'
}

/// The pairs but for those that are left out of a document.
pub open spec fn kept(pairs: Seq<Pair>) -> Seq<Pair>
    decreases pairs.len(),
{
    if pairs.len() == 0 {
        Seq::empty()
    } else if is_left_out(pairs.last()) {
        kept(pairs.drop_last())
    } else {
        kept(pairs.drop_last()).push(pairs.last())
    }
}

/// The first place where a text stands, given where it stands and that it stands nowhere before.
proof fn lemma_find_is(s: Seq<char>, part: Seq<char>, i: int, k: int)
    requires
        0 <= i <= k,
        occurs_at(s, k, part),
        forall|j: int| i <= j < k ==> !occurs_at(s, j, part),
    ensures
        find_from(s, part, i) == Some(k),
{
    lemma_find_from(s, part, i);
}

/// A part of a text that stands in another one stands there too.
proof fn lemma_within(s: Seq<char>, i: int, w: Seq<char>, a: int, b: int)
    requires
        occurs_at(s, i, w),
        0 <= a <= b <= w.len(),
    ensures
        s.subrange(i + a, i + b) == w.subrange(a, b),
{
    let t = s.subrange(i, i + w.len());
    assert(t.subrange(a, b) =~= s.subrange(i + a, i + b));
}

/// An element that was written is read.
proof fn lemma_element_is_read(s: Seq<char>, i: int, p: Pair)
    requires
        0 <= i,
        occurs_at(s, i, element(p)),
        is_name(p.0),
    ensures
        element_list(s, i) == seq![p] + element_list(s, i + element(p).len()),
{
    reveal_strlit("  <");
    reveal_strlit(">");
    reveal_strlit("</");
    reveal_strlit(">\n");
    reveal_strlit("<");
    reveal_strlit("<!--");
    let (name, value) = p;
    let w = element(p);
    let n = name.len() as int;
    let m = escaped(value).len() as int;
    lemma_within(s, i, w, 0, 3);
    lemma_within(s, i, w, 3, 3 + n);
    lemma_within(s, i, w, 3 + n, 4 + n);
    lemma_within(s, i, w, 4 + n, 4 + n + m);
    lemma_within(s, i, w, 4 + n + m, 7 + 2 * n + m);
    lemma_within(s, i, w, 7 + 2 * n + m, 8 + 2 * n + m);
    // The start tag.
    let k = i + 2;
    let lead = s.subrange(i, i + 3);
    assert(lead =~= "  <"@);
    assert(s[i] == lead[0] && s[i + 1] == lead[1] && s[k] == lead[2]);
    assert(s.subrange(k, k + 1) =~= "<"@);
    assert forall|j: int| i <= j < k implies !occurs_at(s, j, "<"@) by {
        if occurs_at(s, j, "<"@) {
            assert(s.subrange(j, j + 1)[0] == s[j]);
        }
    }
    lemma_find_is(s, "<"@, i, k);
    let j = k + 1 + n;
    let head = s.subrange(k + 1, j);
    assert(head =~= name) by {
        assert(w.subrange(3, 3 + n) =~= name);
    }
    assert(s[k + 1] == head[0] && s[j - 1] == head[n - 1]);
    assert(!ends_name(name[0]) && !ends_name(name[n - 1]));
    assert(!occurs_at(s, k, "<!--"@)) by {
        if occurs_at(s, k, "<!--"@) {
            assert(s.subrange(k, k + 4)[1] == s[k + 1]);
        }
    }
    assert(s.subrange(j, j + 1) =~= ">"@) by {
        assert(w.subrange(3 + n, 4 + n) =~= ">"@);
    }
    assert forall|x: int| k + 1 <= x < j implies !occurs_at(s, x, ">"@) by {
        if occurs_at(s, x, ">"@) {
            assert(s.subrange(x, x + 1)[0] == s[x]);
            assert(s[x] == head[x - k - 1]);
            assert(name[x - k - 1] != '>');
        }
    }
    lemma_find_is(s, ">"@, k + 1, j);
    lemma_leading_is(head, |c: char| !ends_name(c), n as nat);
    assert(name_in(head) =~= name);
    // The text and the end tag.
    let close = end_tag(name);
    let c = j + 1 + m;
    let inner = s.subrange(j + 1, c);
    lemma_escaped_holds_no_markup(value);
    assert(inner =~= escaped(value)) by {
        assert(w.subrange(4 + n, 4 + n + m) =~= escaped(value));
    }
    assert(close.len() == n + 3);
    assert(s.subrange(c, c + close.len()) =~= close) by {
        assert(w.subrange(4 + n + m, 7 + 2 * n + m) =~= close);
    }
    assert(close[0] == '<');
    assert forall|x: int| j + 1 <= x < c implies !occurs_at(s, x, close) by {
        if occurs_at(s, x, close) {
            assert(s.subrange(x, x + close.len())[0] == s[x]);
            assert(s[x] == inner[x - j - 1]);
            assert(escaped(value)[x - j - 1] != '<');
        }
    }
    lemma_find_is(s, close, j + 1, c);
    lemma_find_from(inner, seq!['<'], 0);
    assert(first_index(inner, '<') is None) by {
        match first_index(inner, '<') {
            Some(x) => {
                assert(inner.subrange(x, x + 1)[0] == inner[x]);
                assert(escaped(value)[x] != '<');
            },
            None => {},
        }
    }
    lemma_unescaped_escaped(value);
    let next = c + close.len();
    assert(piece_at(s, k) == Some((Some(p), next)));
    assert(element_list(s, i) == seq![p] + element_list(s, next));
    // The end of the line.
    assert(next + 1 == i + w.len());
    let last = s.subrange(next, next + 1);
    assert(last[0] == '\n' && s[next] == last[0]);
    lemma_skip_char(s, next);
}

/// A character that is no mark-up is passed over.
proof fn lemma_skip_char(s: Seq<char>, i: int)
    requires
        0 <= i < s.len(),
        s[i] != '<',
    ensures
        element_list(s, i) == element_list(s, i + 1),
{
    reveal_strlit("<");
    assert(!occurs_at(s, i, "<"@)) by {
        if occurs_at(s, i, "<"@) {
            assert(s.subrange(i, i + 1)[0] == s[i]);
        }
    }
    assert(find_from(s, "<"@, i) == find_from(s, "<"@, i + 1));
}

/// The elements of some pairs start with that of the first one.
proof fn lemma_elements_front(pairs: Seq<Pair>)
    requires
        pairs.len() > 0,
    ensures
        elements(pairs) == (if is_left_out(pairs[0]) {
            elements(pairs.skip(1))
        } else {
            element(pairs[0]) + elements(pairs.skip(1))
        }),
        kept(pairs) == (if is_left_out(pairs[0]) {
            kept(pairs.skip(1))
        } else {
            seq![pairs[0]] + kept(pairs.skip(1))
        }),
    decreases pairs.len(),
{
    let front = pairs.drop_last();
    if pairs.len() == 1 {
        assert(front =~= Seq::<Pair>::empty());
        assert(pairs.skip(1) =~= Seq::<Pair>::empty());
        assert(elements(front) =~= Seq::<char>::empty());
        assert(kept(front) =~= Seq::<Pair>::empty());
        assert(Seq::<char>::empty() + element(pairs[0]) =~= element(pairs[0])
            + Seq::<char>::empty());
        assert(Seq::<Pair>::empty().push(pairs[0]) =~= seq![pairs[0]] + Seq::<Pair>::empty());
    } else {
        lemma_elements_front(front);
        assert(front.skip(1) =~= pairs.skip(1).drop_last());
        let tail = elements(front.skip(1));
        let last = element(pairs.last());
        assert((element(pairs[0]) + tail) + last =~= element(pairs[0]) + (tail + last));
        let rest = kept(front.skip(1));
        assert((seq![pairs[0]] + rest).push(pairs.last()) =~= seq![pairs[0]] + rest.push(
            pairs.last(),
        ));
    }
}

/// Elements that were written are read up to the end of the document.
proof fn lemma_elements_are_read(s: Seq<char>, i: int, pairs: Seq<Pair>)
    requires
        0 <= i <= s.len(),
        s.skip(i) == elements(pairs) + "</ComicInfo>\n"@,
        forall|k: int| 0 <= k < pairs.len() ==> is_name((#[trigger] pairs[k]).0),
    ensures
        element_list(s, i) == kept(pairs),
    decreases pairs.len(),
{
    let tail = "</ComicInfo>\n"@;
    if pairs.len() == 0 {
        reveal_strlit("</ComicInfo>\n");
        reveal_strlit("<");
        assert(elements(pairs) + tail =~= tail);
        assert(s.skip(i)[0] == s[i] && s.skip(i)[1] == s[i + 1]);
        assert(s.subrange(i, i + 1) =~= "<"@);
        assert(find_from(s, "<"@, i) == Some(i));
    } else {
        lemma_elements_front(pairs);
        let rest = pairs.skip(1);
        assert forall|k: int| 0 <= k < rest.len() implies is_name((#[trigger] rest[k]).0) by {
            assert(rest[k] == pairs[k + 1]);
        }
        if is_left_out(pairs[0]) {
            lemma_elements_are_read(s, i, rest);
        } else {
            let w = element(pairs[0]);
            let all = s.skip(i);
            assert(all =~= w + (elements(rest) + tail));
            assert(s.subrange(i, i + w.len()) =~= all.take(w.len() as int));
            assert(all.take(w.len() as int) =~= w);
            assert(s.skip(i + w.len()) =~= all.skip(w.len() as int));
            assert(all.skip(w.len() as int) =~= elements(rest) + tail);
            assert(is_name(pairs[0].0));
            lemma_element_is_read(s, i, pairs[0]);
            lemma_elements_are_read(s, i + w.len(), rest);
        }
    }
}

/// Reading a document that was written gives back its tags with their values, in the order in which
/// they were written. Only a volume without a value is not written.
pub proof fn lemma_document_is_read(pairs: Seq<Pair>, order: Seq<Seq<char>>)
    requires
        forall|k: int|
            0 <= k < arranged(pairs, order).len() ==> is_name((#[trigger] arranged(pairs, order)[k]).0),
    ensures
        document_tags(document(pairs, order)) == Some(kept(arranged(pairs, order))),
{
    let s = document(pairs, order);
    let head = "<?xml version=\"1.0\" encoding=\"utf-8\"?>\n<ComicInfo>\n"@;
    reveal_strlit("<?xml version=\"1.0\" encoding=\"utf-8\"?>\n<ComicInfo>\n");
    reveal_strlit("<ComicInfo");
    reveal_strlit(">");
    assert(head.len() == 51);
    assert forall|k: int| 0 <= k < 51 implies #[trigger] s[k] == head[k] by {}
    assert(s.subrange(39, 49) =~= "<ComicInfo"@);
    assert forall|j: int| 0 <= j < 39 implies !occurs_at(s, j, "<ComicInfo"@) by {
        if occurs_at(s, j, "<ComicInfo"@) {
            assert(s.subrange(j, j + 10)[0] == s[j]);
            assert(s.subrange(j, j + 10)[1] == s[j + 1]);
            assert(s[j] == head[j] && s[j + 1] == head[j + 1]);
        }
    }
    lemma_find_is(s, "<ComicInfo"@, 0, 39);
    assert(s.subrange(49, 50) =~= ">"@);
    lemma_find_is(s, ">"@, 49, 49);
    assert(s[48] == 'o');
    assert(s[50] == '\n');
    lemma_skip_char(s, 50);
    let body = elements(arranged(pairs, order)) + "</ComicInfo>\n"@;
    assert(s.skip(51) =~= body);
    lemma_elements_are_read(s, 51, arranged(pairs, order));
}

proof fn lemma_kept(pairs: Seq<Pair>, p: Pair)
    ensures
        kept(pairs).contains(p) <==> pairs.contains(p) && !(p.0 == "Volume"@ && trimmed(p.1).len()
            == 0),
    decreases pairs.len(),
{
    let r = kept(pairs);
    if pairs.len() > 0 {
        let t = pairs.drop_last();
        let head = kept(t);
        lemma_kept(t, p);
        if pairs.contains(p) {
            let i = choose|i: int| 0 <= i < pairs.len() && pairs[i] == p;
            if i < t.len() {
                assert(t[i] == p);
            }
        }
        if t.contains(p) {
            let i = choose|i: int| 0 <= i < t.len() && t[i] == p;
            assert(pairs[i] == p);
        }
        if p == pairs.last() {
            assert(pairs[pairs.len() - 1] == p);
        }
        if head.contains(p) {
            let i = choose|i: int| 0 <= i < head.len() && head[i] == p;
            assert(r[i] == p);
        }
        if r.len() > head.len() {
            assert(r[head.len() as int] == pairs.last());
            if r.contains(p) {
                let i = choose|i: int| 0 <= i < r.len() && r[i] == p;
                if i < head.len() {
                    assert(head[i] == p);
                }
            }
        }
    }
}

/// A tag is read from a document with a value exactly where it was written with that value, but that a
/// volume which is blank is not written.
pub proof fn lemma_written_tags_are_read(pairs: Seq<Pair>, order: Seq<Seq<char>>, p: Pair)
    requires
        pairs.len() <= usize::MAX,
        forall|k: int| 0 <= k < pairs.len() ==> is_name((#[trigger] pairs[k]).0),
    ensures
        document_tags(document(pairs, order)) matches Some(tags) && (tags.contains(p)
            <==> pairs.contains(p) && !(p.0 == "Volume"@ && trimmed(p.1).len() == 0)),
{
    let a = arranged(pairs, order);
    lemma_arranged(pairs, order);
    assert forall|k: int| 0 <= k < a.len() implies is_name((#[trigger] a[k]).0) by {
        assert(a.to_multiset().count(a[k]) > 0) by {
            broadcast use vstd::seq_lib::group_to_multiset_ensures;

            assert(a.contains(a[k]));
        }
        broadcast use vstd::seq_lib::group_to_multiset_ensures;

        assert(pairs.contains(a[k]));
    }
    assert(a.contains(p) <==> pairs.contains(p)) by {
        broadcast use vstd::seq_lib::group_to_multiset_ensures;

        assert(a.to_multiset().count(p) > 0 <==> a.contains(p));
        assert(pairs.to_multiset().count(p) > 0 <==> pairs.contains(p));
    }
    lemma_document_is_read(pairs, order);
    lemma_kept(a, p);
}

} // verus!
