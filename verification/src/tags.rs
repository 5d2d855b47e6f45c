//! Values by tag.

use crate::schema::{lemma_place_is, lemma_place_of, place_of};
use crate::text::same;
use vstd::prelude::*;

verus! {

/// A tag and its value.
pub type Pair = (Seq<char>, Seq<char>);

/// The tags of some pairs.
pub open spec fn keys(pairs: Seq<Pair>) -> Seq<Seq<char>> {
    pairs.map_values(|p: Pair| p.0)
}

/// The value of the first pair with a given tag.
pub open spec fn lookup(pairs: Seq<Pair>, key: Seq<char>) -> Option<Seq<char>> {
    let k = place_of(keys(pairs), key);
    if k < pairs.len() {
        Some(pairs[k as int].1)
    } else {
        None
    }
}

/// The pairs with a new value for a tag: in place of the old one where there is one, else at the end.
pub open spec fn inserted(pairs: Seq<Pair>, key: Seq<char>, value: Seq<char>) -> Seq<Pair> {
    let k = place_of(keys(pairs), key);
    if k < pairs.len() {
        pairs.update(k as int, (key, value))
    } else {
        pairs.push((key, value))
    }
}

/// What was inserted is found, and nothing else changes.
pub proof fn lemma_lookup_inserted(
    pairs: Seq<Pair>,
    key: Seq<char>,
    value: Seq<char>,
    other: Seq<char>,
)
    ensures
        lookup(inserted(pairs, key, value), key) == Some(value),
        other != key ==> lookup(inserted(pairs, key, value), other) == lookup(pairs, other),
{
    let after = inserted(pairs, key, value);
    let k = place_of(keys(pairs), key);
    let j = place_of(keys(pairs), other);
    lemma_place_of(keys(pairs), key);
    lemma_place_of(keys(pairs), other);
    if k < pairs.len() {
        assert(keys(after) =~= keys(pairs));
    } else {
        assert(keys(after) =~= keys(pairs).push(key));
        assert forall|i: int| 0 <= i < k implies #[trigger] keys(after)[i] != key by {
            assert(keys(pairs)[i] != key);
        }
        lemma_place_is(keys(after), key, k);
        if other != key {
            assert forall|i: int| 0 <= i < j implies #[trigger] keys(after)[i] != other by {
                assert(keys(pairs)[i] != other);
            }
            if j < pairs.len() {
                lemma_place_is(keys(after), other, j);
            } else {
                lemma_place_is(keys(after), other, j + 1);
            }
        }
    }
}

/// No tag gets a second value.
pub proof fn lemma_inserted_keeps_keys_distinct(
    pairs: Seq<Pair>,
    key: Seq<char>,
    value: Seq<char>,
)
    requires
        keys(pairs).no_duplicates(),
    ensures
        keys(inserted(pairs, key, value)).no_duplicates(),
{
    let after = inserted(pairs, key, value);
    lemma_place_of(keys(pairs), key);
    if place_of(keys(pairs), key) < pairs.len() {
        assert(keys(after) =~= keys(pairs));
    } else {
        assert(keys(after) =~= keys(pairs).push(key));
    }
}

/// Where a tag stands; the number of pairs where it does not.
pub fn pair_place(entries: &Vec<(String, String)>, key: &str) -> (r: usize)
    ensures
        r == place_of(keys(entries.deep_view()), key@),
        r <= entries@.len(),
{
    let ghost names = keys(entries.deep_view());
    let mut i: usize = 0;
    while i < entries.len()
        invariant
            names == keys(entries.deep_view()),
            i <= entries@.len(),
            forall|k: int| 0 <= k < i ==> #[trigger] names[k] != key@,
        decreases entries@.len() - i,
    {
        assert(names[i as int] == entries@[i as int].0@);
        if same(entries[i].0.as_str(), key) {
            proof {
                lemma_place_is(names, key@, i as nat);
            }
            return i;
        }
        i = i + 1;
    }
    proof {
        lemma_place_is(names, key@, i as nat);
    }
    i
}

/// Sets the value of a tag.
pub fn set_pair(entries: &mut Vec<(String, String)>, key: String, value: String)
    ensures
        final(entries).deep_view() == inserted(old(entries).deep_view(), key@, value@),
{
    let k: usize = pair_place(entries, key.as_str());
    let ghost before = entries.deep_view();
    let ghost pair = (key@, value@);
    if k < entries.len() {
        entries.set(k, (key, value));
        assert(entries.deep_view() =~= before.update(k as int, pair));
    } else {
        entries.push((key, value));
        assert(entries.deep_view() =~= before.push(pair));
    }
}

/// The pairs with one value for each tag: the last one given, at the place of the first one.
pub open spec fn collected(pairs: Seq<Pair>) -> Seq<Pair>
    decreases pairs.len(),
{
    if pairs.len() == 0 {
        Seq::empty()
    } else {
        let (key, value) = pairs.last();
        inserted(collected(pairs.drop_last()), key, value)
    }
}

/// Every tag has one value.
pub proof fn lemma_collected_keys_distinct(pairs: Seq<Pair>)
    ensures
        keys(collected(pairs)).no_duplicates(),
    decreases pairs.len(),
{
    if pairs.len() > 0 {
        let (key, value) = pairs.last();
        lemma_collected_keys_distinct(pairs.drop_last());
        lemma_inserted_keeps_keys_distinct(collected(pairs.drop_last()), key, value);
    }
}

/// A map of the pairs, where the last value of a tag counts.
pub fn collect(pairs: &Vec<(String, String)>) -> (r: TagMap)
    ensures
        r@ == collected(pairs.deep_view()),
        r.is_valid(),
{
    let ghost all = pairs.deep_view();
    let mut map = TagMap::new();
    let n: usize = pairs.len();
    assert(all.take(0) =~= Seq::<Pair>::empty());
    for i in 0..n
        invariant
            n == pairs@.len(),
            all == pairs.deep_view(),
            map@ == collected(all.take(i as int)),
            map.is_valid(),
    {
        proof {
            assert(all.take(i + 1).drop_last() =~= all.take(i as int));
            assert(all.take(i + 1).last() == (pairs@[i as int].0@, pairs@[i as int].1@));
        }
        map.insert(pairs[i].0.clone(), pairs[i].1.clone());
    }
    assert(all.take(n as int) =~= all);
    map
}

/// Values by tag, in the order in which the tags were first set.
#[derive(Clone, Debug)]
pub struct TagMap {
    pub entries: Vec<(String, String)>,
}

impl View for TagMap {
    type V = Seq<Pair>;

    open spec fn view(&self) -> Seq<Pair> {
        self.entries.deep_view()
    }
}

impl TagMap {
    /// Whether no tag stands there twice.
    pub open spec fn is_valid(self) -> bool {
        keys(self@).no_duplicates()
    }

    /// No values.
    pub fn new() -> (r: TagMap)
        ensures
            r@ == Seq::<Pair>::empty(),
            r.is_valid(),
    {
        let r = TagMap { entries: Vec::new() };
        assert(r@ =~= Seq::<Pair>::empty());
        r
    }

    /// Sets the value of a tag.
    pub fn insert(&mut self, key: String, value: String)
        ensures
            final(self)@ == inserted(old(self)@, key@, value@),
            old(self).is_valid() ==> final(self).is_valid(),
    {
        proof {
            if self.is_valid() {
                lemma_inserted_keeps_keys_distinct(self@, key@, value@);
            }
        }
        set_pair(&mut self.entries, key, value);
    }

    /// The value of a tag.
    pub fn get(&self, key: &str) -> (r: Option<&String>)
        ensures
            match r {
                Some(v) => lookup(self@, key@) == Some(v@),
                None => lookup(self@, key@) is None,
            },
    {
        let k: usize = pair_place(&self.entries, key);
        if k < self.entries.len() {
            Some(&self.entries[k].1)
        } else {
            None
        }
    }

    /// Whether a tag has a value.
    pub fn contains_key(&self, key: &str) -> (r: bool)
        ensures
            r == (lookup(self@, key@) is Some),
    {
        pair_place(&self.entries, key) < self.entries.len()
    }

    /// Whether no tag has a value.
    pub fn is_empty(&self) -> (r: bool)
        ensures
            r == (self@.len() == 0),
    {
        self.entries.len() == 0
    }

    /// The same values in another map.
    pub fn duplicate(&self) -> (r: TagMap)
        ensures
            r@ == self@,
            self.is_valid() ==> r.is_valid(),
    {
        let mut entries: Vec<(String, String)> = Vec::new();
        let n: usize = self.entries.len();
        for i in 0..n
            invariant
                n == self.entries@.len(),
                entries@.len() == i,
                forall|k: int|
                    0 <= k < i ==> (#[trigger] entries@[k]).deep_view()
                        == self.entries@[k].deep_view(),
        {
            entries.push((self.entries[i].0.clone(), self.entries[i].1.clone()));
        }
        let r = TagMap { entries };
        assert(r@ =~= self@);
        r
    }
}

/// Of several values for a tag the last one counts, and a tag that is not given has none.
pub proof fn lemma_last_value_counts(pairs: Seq<Pair>, key: Seq<char>, k: int)
    ensures
        0 <= k < pairs.len() && pairs[k].0 == key && (forall|i: int|
            k < i < pairs.len() ==> (#[trigger] pairs[i]).0 != key) ==> lookup(
            collected(pairs),
            key,
        ) == Some(pairs[k].1),
        (forall|i: int| 0 <= i < pairs.len() ==> (#[trigger] pairs[i]).0 != key) ==> lookup(
            collected(pairs),
            key,
        ) is None,
    decreases pairs.len(),
{
    if pairs.len() > 0 {
        let front = pairs.drop_last();
        let (tag, value) = pairs.last();
        let n = pairs.len() - 1;
        lemma_last_value_counts(front, key, k);
        lemma_lookup_inserted(collected(front), tag, value, key);
        if k < n && 0 <= k && pairs[k].0 == key && (forall|i: int|
            k < i < pairs.len() ==> (#[trigger] pairs[i]).0 != key) {
            assert forall|i: int| k < i < front.len() implies (#[trigger] front[i]).0 != key by {
                assert(pairs[i].0 != key);
            }
            assert(pairs[n].0 != key);
            assert(front[k] == pairs[k]);
        }
        if forall|i: int| 0 <= i < pairs.len() ==> (#[trigger] pairs[i]).0 != key {
            assert forall|i: int| 0 <= i < front.len() implies (#[trigger] front[i]).0 != key by {
                assert(pairs[i].0 != key);
            }
            assert(pairs[n].0 != key);
        }
    }
}

} // verus!
