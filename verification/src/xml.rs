//! Writing `ComicInfo.xml`.

use crate::order::{
    is_stable_order,
    lemma_stable_order_exists,
    lemma_stable_order_lists_all,
    lemma_stable_order_unique,
    picked,
    precedes,
    rank_order,
    sort_by_rank,
    stable_order,
};
use crate::schema::{
    canonical_order,
    canonical_place,
    is_listed,
    lemma_place_is,
    lemma_place_of,
    lemma_ranks_are_distinct,
    rank_of,
    tag_rank,
};
use crate::tags::{keys, lookup, Pair, TagMap};
use crate::text::{chars_of, contains_text, occurs_at, same, trim, trimmed};
use vstd::prelude::*;

verus! {

/// What reading the metadata of an archive gives.
#[derive(Clone, Debug)]
pub enum ComicInfoReadResult {
    /// The archive holds no metadata.
    Missing,
    /// The tags of the metadata with their values.
    Found(Vec<(String, String)>),
}

/// How a character is written in XML.
pub open spec fn escaped_char(c: char) -> Seq<char> {
    if c == '&' {
        "&amp;"@
    } else if c == '<' {
        "&lt;"@
    } else if c == '>' {
        "&gt;"@
    } else if c == '"' {
        "&quot;"@
    } else if c == '\'' {
        "&apos;"@
    } else {
        seq![c]
    }
}

/// How a text is written in XML.
pub open spec fn escaped(s: Seq<char>) -> Seq<char>
    decreases s.len(),
{
    if s.len() == 0 {
        Seq::empty()
    } else {
        escaped(s.drop_last()) + escaped_char(s.last())
    }
}

/// A text as it is written in XML.
pub fn escape_xml(s: &str) -> (r: String)
    ensures
        r@ == escaped(s@),
{
    let v = chars_of(s);
    let mut out = String::new();
    let n: usize = v.len();
    for i in 0..n
        invariant
            n == v@.len(),
            v@ == s@,
            out@ == escaped(s@.take(i as int)),
    {
        let c: char = v[i];
        proof {
            assert(s@.take(i + 1).drop_last() =~= s@.take(i as int));
            assert(s@.take(i + 1).last() == c);
        }
        if c == '&' {
            out.append("&amp;");
        } else if c == '<' {
            out.append("&lt;");
        } else if c == '>' {
            out.append("&gt;");
        } else if c == '"' {
            out.append("&quot;");
        } else if c == '\'' {
            out.append("&apos;");
        } else {
            out.push(c);
            assert(escaped(s@.take(i as int)).push(c) =~= escaped(s@.take(i as int)) + seq![c]);
        }
    }
    assert(s@.take(n as int) =~= s@);
    out
}

/// Whether a tag is left out: a volume without a value.
pub open spec fn is_left_out(p: Pair) -> bool {
    p.0 == "Volume"@ && trimmed(p.1).len() == 0
}

/// A tag with its value as an XML element on a line of its own.
pub open spec fn element(p: Pair) -> Seq<char> {
    "  <"@ + p.0 + ">"@ + escaped(p.1) + "</"@ + p.0 + ">\n"@
}

/// The elements of some tags, one after the other.
pub open spec fn elements(pairs: Seq<Pair>) -> Seq<char>
    decreases pairs.len(),
{
    if pairs.len() == 0 {
        Seq::empty()
    } else if is_left_out(pairs.last()) {
        elements(pairs.drop_last())
    } else {
        elements(pairs.drop_last()) + element(pairs.last())
    }
}

/// The ranks of some tags in a custom order.
pub open spec fn ranks(pairs: Seq<Pair>, order: Seq<Seq<char>>) -> Seq<usize> {
    pairs.map_values(|p: Pair| rank_of(p.0, order))
}

/// The tags sorted by their rank in a custom order.
pub open spec fn arranged(pairs: Seq<Pair>, order: Seq<Seq<char>>) -> Seq<Pair> {
    picked(pairs, stable_order(pairs.len(), rank_order(ranks(pairs, order))))
}

/// What stands before the elements.
pub open spec fn opening() -> Seq<char> {
    "<?xml version=\"1.0\" encoding=\"utf-8\"?>\n<ComicInfo>\n"@
}

/// The whole document.
pub open spec fn document(pairs: Seq<Pair>, order: Seq<Seq<char>>) -> Seq<char> {
    opening() + elements(arranged(pairs, order)) + "</ComicInfo>\n"@
}

/// Appends a tag with its value as an XML element.
fn push_element(out: &mut String, tag: &str, value: &str)
    ensures
        final(out)@ == old(out)@ + element((tag@, value@)),
{
    let escaped_value = escape_xml(value);
    out.append("  <");
    out.append(tag);
    out.append(">");
    out.append(escaped_value.as_str());
    out.append("</");
    out.append(tag);
    out.append(">\n");
    assert(out@ =~= old(out)@ + element((tag@, value@)));
}

/// The document with the given tags, sorted by their rank in a custom order.
pub fn build_comic_info_xml(data: &TagMap, order: &Vec<String>) -> (r: String)
    ensures
        r@ == document(data@, order.deep_view()),
{
    let n: usize = data.entries.len();
    let mut rank_list: Vec<usize> = Vec::new();
    for i in 0..n
        invariant
            n == data.entries@.len(),
            rank_list@.len() == i,
            forall|k: int|
                0 <= k < i ==> #[trigger] rank_list@[k] == rank_of(
                    data.entries@[k].0@,
                    order.deep_view(),
                ),
    {
        rank_list.push(tag_rank(data.entries[i].0.as_str(), order));
    }
    let ghost all = ranks(data@, order.deep_view());
    assert(rank_list@ =~= all);
    let sorted = sort_by_rank(&rank_list);
    let ghost pairs = arranged(data@, order.deep_view());
    proof {
        lemma_stable_order_unique(
            sorted@,
            stable_order(n as nat, rank_order(all)),
            n as nat,
            rank_order(all),
        );
        assert(pairs =~= picked(data@, sorted@));
    }
    let mut xml = String::from_str("<?xml version=\"1.0\" encoding=\"utf-8\"?>\n<ComicInfo>\n");
    assert(xml@ =~= opening() + elements(pairs.take(0)));
    for i in 0..n
        invariant
            n == data.entries@.len(),
            is_stable_order(sorted@, n as nat, rank_order(all)),
            pairs == picked(data@, sorted@),
            xml@ == opening() + elements(pairs.take(i as int)),
    {
        let k: usize = sorted[i];
        let ghost before = pairs.take(i as int);
        proof {
            assert(pairs.take(i + 1).drop_last() =~= before);
            assert(pairs.take(i + 1).last() == data@[k as int]);
            assert(data@[k as int] == (data.entries@[k as int].0@, data.entries@[k as int].1@));
        }
        let tag = data.entries[k].0.as_str();
        let value = data.entries[k].1.as_str();
        let skip: bool = same(tag, "Volume") && trim(value).as_str().is_empty();
        if !skip {
            push_element(&mut xml, tag, value);
            assert(xml@ =~= opening() + (elements(before) + element(data@[k as int])));
        }
    }
    assert(pairs.take(n as int) =~= pairs);
    xml.append("</ComicInfo>\n");
    xml
}

pub proof fn lemma_escaped_front(s: Seq<char>)
    requires
        s.len() > 0,
    ensures
        escaped(s) == escaped_char(s[0]) + escaped(s.skip(1)),
    decreases s.len(),
{
    if s.len() == 1 {
        assert(s.drop_last() =~= Seq::<char>::empty());
        assert(s.skip(1) =~= Seq::<char>::empty());
        reveal_with_fuel(escaped, 2);
        assert(escaped(s) =~= escaped_char(s[0]));
        assert(escaped(s) =~= escaped_char(s[0]) + escaped(s.skip(1)));
    } else {
        let t = s.drop_last();
        lemma_escaped_front(t);
        assert(t.skip(1) =~= s.skip(1).drop_last());
        assert(escaped(s) =~= escaped_char(s[0]) + (escaped(t.skip(1)) + escaped_char(s.last())));
    }
}

/// A text written in XML holds no mark-up: no angle brackets and no quotes.
pub proof fn lemma_escaped_holds_no_markup(s: Seq<char>)
    ensures
        forall|i: int|
            0 <= i < escaped(s).len() ==> #[trigger] escaped(s)[i] != '<' && escaped(s)[i] != '>'
                && escaped(s)[i] != '"' && escaped(s)[i] != '\'',
    decreases s.len(),
{
    reveal_strlit("&amp;");
    reveal_strlit("&lt;");
    reveal_strlit("&gt;");
    reveal_strlit("&quot;");
    reveal_strlit("&apos;");
    if s.len() > 0 {
        let t = escaped(s.drop_last());
        let e = escaped_char(s.last());
        lemma_escaped_holds_no_markup(s.drop_last());
        assert forall|i: int| 0 <= i < escaped(s).len() implies #[trigger] escaped(s)[i] != '<'
            && escaped(s)[i] != '>' && escaped(s)[i] != '"' && escaped(s)[i] != '\'' by {
            if i < t.len() {
                assert(escaped(s)[i] == t[i]);
            } else {
                assert(escaped(s)[i] == e[i - t.len()]);
            }
        }
    }
}

/// No two texts are written in XML in the same way.
pub proof fn lemma_escaped_injective(a: Seq<char>, b: Seq<char>)
    requires
        escaped(a) == escaped(b),
    ensures
        a == b,
    decreases a.len(),
{
    reveal_strlit("&amp;");
    reveal_strlit("&lt;");
    reveal_strlit("&gt;");
    reveal_strlit("&quot;");
    reveal_strlit("&apos;");
    if a.len() > 0 {
        lemma_escaped_front(a);
        assert(escaped(a).len() > 0);
    }
    if b.len() > 0 {
        lemma_escaped_front(b);
        assert(escaped(b).len() > 0);
    }
    if a.len() > 0 && b.len() > 0 {
        let x = escaped_char(a[0]);
        let y = escaped_char(b[0]);
        let p = escaped(a.skip(1));
        let q = escaped(b.skip(1));
        assert(x + p == y + q);
        assert((x + p)[0] == x[0] && (y + q)[0] == y[0]);
        if x.len() > 1 && y.len() > 1 {
            assert((x + p)[1] == x[1] && (y + q)[1] == y[1]);
            assert((x + p)[2] == x[2] && (y + q)[2] == y[2]);
        }
        assert(a[0] == b[0]);
        assert(p =~= (x + p).skip(x.len() as int));
        assert(q =~= (y + q).skip(y.len() as int));
        lemma_escaped_injective(a.skip(1), b.skip(1));
        assert(a =~= seq![a[0]] + a.skip(1));
        assert(b =~= seq![b[0]] + b.skip(1));
    } else {
        assert(a =~= b);
    }
}

/// The elements come in the order of their ranks, and are the given tags, each once.
pub proof fn lemma_arranged(pairs: Seq<Pair>, order: Seq<Seq<char>>)
    requires
        pairs.len() <= usize::MAX,
    ensures
        arranged(pairs, order).len() == pairs.len(),
        forall|i: int, j: int|
            0 <= i < j < pairs.len() ==> rank_of(#[trigger] arranged(pairs, order)[i].0, order)
                <= rank_of(#[trigger] arranged(pairs, order)[j].0, order),
        arranged(pairs, order).to_multiset() == pairs.to_multiset(),
{
    let le = rank_order(ranks(pairs, order));
    let n = pairs.len();
    let r = stable_order(n, le);
    lemma_stable_order_exists(n as usize, le);
    let s = arranged(pairs, order);
    assert forall|i: int, j: int| 0 <= i < j < n implies rank_of(#[trigger] s[i].0, order)
        <= rank_of(#[trigger] s[j].0, order) by {
        assert(precedes(le, r[i] as int, r[j] as int));
    }
    lemma_picked_multiset(pairs, r, le);
}

/// Sorting keeps every element.
proof fn lemma_picked_multiset(pairs: Seq<Pair>, r: Seq<usize>, le: spec_fn(int, int) -> bool)
    requires
        is_stable_order(r, pairs.len(), le),
    ensures
        picked(pairs, r).to_multiset() == pairs.to_multiset(),
    decreases pairs.len(),
{
    let n = pairs.len();
    let s = picked(pairs, r);
    if n == 0 {
        assert(s =~= pairs);
    } else {
        // Take the last position out of both.
        lemma_stable_order_lists_all(r, n, le, n - 1);
        let k = choose|k: int| 0 <= k < n && r[k] == n - 1;
        let short = r.remove(k);
        assert forall|i: int| 0 <= i < n - 1 implies #[trigger] short[i] < n - 1 by {
            let j = if i < k {
                i
            } else {
                i + 1
            };
            assert(short[i] == r[j]);
            assert(r[j] < n);
            if i < k {
                assert(precedes(le, r[j] as int, r[k] as int));
            } else {
                assert(precedes(le, r[k] as int, r[j] as int));
            }
        }
        assert forall|i: int, j: int| 0 <= i < j < n - 1 implies precedes(
            le,
            #[trigger] short[i] as int,
            #[trigger] short[j] as int,
        ) by {
            let a = if i < k {
                i
            } else {
                i + 1
            };
            let b = if j < k {
                j
            } else {
                j + 1
            };
            assert(short[i] == r[a] && short[j] == r[b]);
            assert(precedes(le, r[a] as int, r[b] as int));
        }
        lemma_picked_multiset(pairs.drop_last(), short, le);
        assert(picked(pairs.drop_last(), short) =~= s.remove(k));
        broadcast use vstd::seq_lib::group_to_multiset_ensures;

        assert(s.remove(k).insert(k, s[k]) =~= s);
        assert(pairs.drop_last().push(pairs.last()) =~= pairs);
        assert(s.to_multiset() =~= s.remove(k).to_multiset().insert(s[k]));
        assert(pairs.to_multiset() =~= pairs.drop_last().to_multiset().insert(pairs.last()));
    }
}

/// Whether every tag is listed in a custom order or belongs to the schema.
pub open spec fn are_ranked(pairs: Seq<Pair>, order: Seq<Seq<char>>) -> bool {
    forall|i: int|
        0 <= i < pairs.len() ==> is_listed((#[trigger] pairs[i]).0, order) || canonical_place(
            pairs[i].0,
        ) < canonical_order().len()
}

/// Whether the ranks of tags ascend.
spec fn ascend(pairs: Seq<Pair>, order: Seq<Seq<char>>) -> bool {
    forall|i: int, j: int|
        0 <= i < j < pairs.len() ==> rank_of(#[trigger] pairs[i].0, order) < rank_of(
            #[trigger] pairs[j].0,
            order,
        )
}

/// Distinct tags that are ranked ascend once they are sorted, and stay the same tags.
proof fn lemma_arranged_ascends(pairs: Seq<Pair>, order: Seq<Seq<char>>)
    requires
        pairs.len() <= usize::MAX,
        order.len() + canonical_order().len() <= usize::MAX,
        keys(pairs).no_duplicates(),
        are_ranked(pairs, order),
    ensures
        ascend(arranged(pairs, order), order),
        forall|p: Pair| #[trigger] arranged(pairs, order).contains(p) <==> pairs.contains(p),
{
    let le = rank_order(ranks(pairs, order));
    let n = pairs.len();
    let r = stable_order(n, le);
    let s = arranged(pairs, order);
    lemma_stable_order_exists(n as usize, le);
    lemma_arranged(pairs, order);
    assert forall|i: int, j: int| 0 <= i < j < s.len() implies rank_of(#[trigger] s[i].0, order)
        < rank_of(#[trigger] s[j].0, order) by {
        let a = r[i] as int;
        let b = r[j] as int;
        assert(precedes(le, a, b));
        assert(keys(pairs)[a] == pairs[a].0 && keys(pairs)[b] == pairs[b].0);
        assert(s[i] == pairs[a] && s[j] == pairs[b]);
        lemma_ranks_are_distinct(pairs[a].0, pairs[b].0, order);
    }
    broadcast use vstd::seq_lib::group_to_multiset_ensures;

    assert forall|p: Pair| #[trigger] s.contains(p) <==> pairs.contains(p) by {
        assert(s.contains(p) <==> s.to_multiset().count(p) > 0);
        assert(pairs.contains(p) <==> pairs.to_multiset().count(p) > 0);
    }
}

/// Tags that ascend are given by which they are.
proof fn lemma_ascending_unique(a: Seq<Pair>, b: Seq<Pair>, order: Seq<Seq<char>>)
    requires
        ascend(a, order),
        ascend(b, order),
        forall|p: Pair| #[trigger] a.contains(p) <==> b.contains(p),
    ensures
        a == b,
    decreases a.len(),
{
    if a.len() == 0 {
        if b.len() > 0 {
            assert(a.contains(b[0]));
        }
        assert(a =~= b);
    } else {
        let x = a.last();
        assert(a.contains(x));
        let j = choose|j: int| 0 <= j < b.len() && b[j] == x;
        let y = b.last();
        assert(b.contains(y));
        assert(a.contains(y));
        let k = choose|k: int| 0 <= k < a.len() && a[k] == y;
        assert(x == y) by {
            if j < b.len() - 1 && k < a.len() - 1 {
                assert(rank_of(b[j].0, order) < rank_of(b[b.len() - 1].0, order));
                assert(rank_of(a[k].0, order) < rank_of(a[a.len() - 1].0, order));
            }
        }
        let c = a.drop_last();
        let d = b.drop_last();
        assert forall|p: Pair| #[trigger] c.contains(p) <==> d.contains(p) by {
            if c.contains(p) {
                let i = choose|i: int| 0 <= i < c.len() && c[i] == p;
                assert(a[i] == p);
                assert(a.contains(p));
                let m = choose|m: int| 0 <= m < b.len() && b[m] == p;
                assert(rank_of(a[i].0, order) < rank_of(a[a.len() - 1].0, order));
                assert(d[m] == p);
            }
            if d.contains(p) {
                let i = choose|i: int| 0 <= i < d.len() && d[i] == p;
                assert(b[i] == p);
                assert(b.contains(p));
                assert(a.contains(p));
                let m = choose|m: int| 0 <= m < a.len() && a[m] == p;
                assert(rank_of(b[i].0, order) < rank_of(b[b.len() - 1].0, order));
                assert(c[m] == p);
            }
        }
        lemma_ascending_unique(c, d, order);
        assert(a =~= c.push(x));
        assert(b =~= d.push(y));
    }
}

/// A pair stands among pairs with distinct tags where its value is found under its tag.
proof fn lemma_contains_is_lookup(pairs: Seq<Pair>, p: Pair)
    requires
        keys(pairs).no_duplicates(),
    ensures
        pairs.contains(p) <==> lookup(pairs, p.0) == Some(p.1),
{
    lemma_place_of(keys(pairs), p.0);
    if pairs.contains(p) {
        let k = choose|k: int| 0 <= k < pairs.len() && pairs[k] == p;
        assert forall|i: int| 0 <= i < k implies #[trigger] keys(pairs)[i] != p.0 by {
            assert(keys(pairs)[k] == p.0);
        }
        lemma_place_is(keys(pairs), p.0, k as nat);
    }
}

/// The document depends on which value each tag has, and not on the sequence in which the tags were
/// set, as far as each tag is listed or belongs to the schema.
pub proof fn lemma_document_depends_on_values(
    one: TagMap,
    other: TagMap,
    order: Seq<Seq<char>>,
)
    requires
        order.len() + canonical_order().len() <= usize::MAX,
        one.is_valid(),
        other.is_valid(),
        are_ranked(one@, order),
        forall|key: Seq<char>| #[trigger] lookup(one@, key) == lookup(other@, key),
    ensures
        document(one@, order) == document(other@, order),
{
    let a = one@;
    let b = other@;
    assert(a.len() == one.entries.len() && b.len() == other.entries.len());
    assert forall|p: Pair| #[trigger] a.contains(p) <==> b.contains(p) by {
        lemma_contains_is_lookup(a, p);
        lemma_contains_is_lookup(b, p);
        assert(lookup(a, p.0) == lookup(b, p.0));
    }
    assert forall|i: int| 0 <= i < b.len() implies is_listed((#[trigger] b[i]).0, order)
        || canonical_place(b[i].0) < canonical_order().len() by {
        assert(b.contains(b[i]));
        assert(a.contains(b[i]));
        let k = choose|k: int| 0 <= k < a.len() && a[k] == b[i];
        assert(is_listed(a[k].0, order) || canonical_place(a[k].0) < canonical_order().len());
    }
    lemma_arranged_ascends(a, order);
    lemma_arranged_ascends(b, order);
    assert forall|p: Pair| #[trigger] arranged(a, order).contains(p) <==> arranged(
        b,
        order,
    ).contains(p) by {
        assert(a.contains(p) <==> b.contains(p));
    }
    lemma_ascending_unique(arranged(a, order), arranged(b, order), order);
}

/// A document without tags holds nothing but its frame.
pub proof fn lemma_empty_document(order: Seq<Seq<char>>)
    ensures
        document(Seq::empty(), order) == opening() + "</ComicInfo>\n"@,
{
    let none = Seq::<Pair>::empty();
    lemma_arranged(none, order);
    assert(arranged(none, order) =~= none);
    assert(opening() + elements(none) =~= opening());
}

/// Whether a document holds an element with this tag and this text.
pub open spec fn says(xml: Seq<char>, tag: Seq<char>, value: Seq<char>) -> bool {
    contains_text(xml, "<"@ + tag + ">"@ + escaped(value) + "</"@ + tag + ">"@)
}

/// The elements of some tags hold the element of each one that is not left out.
proof fn lemma_elements_hold(pairs: Seq<Pair>, k: int) -> (i: int)
    requires
        0 <= k < pairs.len(),
        !is_left_out(pairs[k]),
    ensures
        occurs_at(elements(pairs), i, element(pairs[k])),
    decreases pairs.len(),
{
    let front = elements(pairs.drop_last());
    if k == pairs.len() - 1 {
        let i = front.len() as int;
        assert(elements(pairs).subrange(i, i + element(pairs[k]).len()) =~= element(pairs[k]));
        i
    } else {
        let i = lemma_elements_hold(pairs.drop_last(), k);
        let e = element(pairs[k]);
        assert(elements(pairs).subrange(i, i + e.len()) =~= front.subrange(i, i + e.len()));
        i
    }
}

/// A document holds an element for each tag and its value, but for a volume without a value.
pub proof fn lemma_document_says(pairs: Seq<Pair>, order: Seq<Seq<char>>, p: Pair)
    requires
        pairs.len() <= usize::MAX,
        pairs.contains(p),
        p.0 == "Volume"@ ==> trimmed(p.1).len() > 0,
    ensures
        says(document(pairs, order), p.0, p.1),
{
    broadcast use vstd::seq_lib::group_to_multiset_ensures;

    let s = arranged(pairs, order);
    lemma_arranged(pairs, order);
    assert(s.to_multiset().count(p) > 0);
    assert(s.contains(p));
    let k = choose|k: int| 0 <= k < s.len() && s[k] == p;
    let i = lemma_elements_hold(s, k);
    let xml = document(pairs, order);
    let e = element(p);
    let part = "<"@ + p.0 + ">"@ + escaped(p.1) + "</"@ + p.0 + ">"@;
    reveal_strlit("  <");
    reveal_strlit("<");
    reveal_strlit(">\n");
    reveal_strlit(">");
    let n = part.len() as int;
    assert(e.subrange(2, 2 + n) =~= part);
    let at = opening().len() + i + 2;
    assert(elements(s).subrange(i, i + e.len()) == e);
    assert forall|j: int| 0 <= j < n implies #[trigger] xml.subrange(at, at + n)[j] == part[j] by {
        assert(xml[at + j] == elements(s)[i + 2 + j]);
        assert(elements(s)[i + 2 + j] == elements(s).subrange(i, i + e.len())[2 + j]);
        assert(e[2 + j] == e.subrange(2, 2 + n)[j]);
    }
    assert(xml.subrange(at, at + n) =~= part);
    assert(occurs_at(xml, at, part));
}

} // verus!
