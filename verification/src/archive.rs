//! The entries of an archive, and the metadata among them.

use crate::text::same;
use vstd::prelude::*;

verus! {

/// The name of the entry with the metadata.
pub const METADATA_ENTRY: &'static str = "ComicInfo.xml";

/// The places of the entries that are not the metadata.
pub open spec fn other_places(names: Seq<Seq<char>>) -> Seq<usize>
    decreases names.len(),
{
    if names.len() == 0 {
        Seq::empty()
    } else {
        let head = other_places(names.drop_last());
        if names.last() == METADATA_ENTRY@ {
            head
        } else {
            head.push((names.len() - 1) as usize)
        }
    }
}

/// Where the metadata stands first.
pub open spec fn metadata_place(names: Seq<Seq<char>>) -> Option<usize>
    decreases names.len(),
{
    if names.len() == 0 {
        None
    } else if metadata_place(names.drop_last()) is Some {
        metadata_place(names.drop_last())
    } else if names.last() == METADATA_ENTRY@ {
        Some((names.len() - 1) as usize)
    } else {
        None
    }
}

/// The entries of an archive once metadata was written into it: the others as they were, and the
/// metadata behind them.
pub open spec fn written_names(names: Seq<Seq<char>>) -> Seq<Seq<char>> {
    other_places(names).map_values(|i: usize| names[i as int]).push(METADATA_ENTRY@)
}

/// Whether an entry of an archive is the metadata.
pub fn is_comic_info_entry(name: &str) -> (r: bool)
    ensures
        r == (name@ == METADATA_ENTRY@),
{
    same(name, METADATA_ENTRY)
}

/// The places of the entries that are copied when metadata is written into an archive. The metadata
/// is written behind them.
pub fn kept_entries(names: &Vec<String>) -> (r: Vec<usize>)
    ensures
        r@ == other_places(names.deep_view()),
{
    let ghost list = names.deep_view();
    let mut kept: Vec<usize> = Vec::new();
    let n: usize = names.len();
    for i in 0..n
        invariant
            n == names@.len(),
            list == names.deep_view(),
            kept@ == other_places(list.take(i as int)),
    {
        assert(list.take(i + 1).drop_last() =~= list.take(i as int));
        assert(list.take(i + 1).last() == names@[i as int]@);
        if !is_comic_info_entry(names[i].as_str()) {
            kept.push(i);
        }
    }
    assert(list.take(n as int) =~= list);
    kept
}

/// The place of the entry that the metadata is read from.
pub fn find_metadata(names: &Vec<String>) -> (r: Option<usize>)
    ensures
        r == metadata_place(names.deep_view()),
{
    let ghost list = names.deep_view();
    let mut found: Option<usize> = None;
    let n: usize = names.len();
    for i in 0..n
        invariant
            n == names@.len(),
            list == names.deep_view(),
            found == metadata_place(list.take(i as int)),
    {
        assert(list.take(i + 1).drop_last() =~= list.take(i as int));
        assert(list.take(i + 1).last() == names@[i as int]@);
        if found.is_none() && is_comic_info_entry(names[i].as_str()) {
            found = Some(i);
        }
    }
    assert(list.take(n as int) =~= list);
    found
}

/// The places of the other entries are those of the other entries, in ascending order.
pub proof fn lemma_other_entries_are_kept(names: Seq<Seq<char>>, i: int)
    requires
        0 <= i < names.len() <= usize::MAX,
    ensures
        other_places(names).contains(i as usize) <==> names[i] != METADATA_ENTRY@,
        forall|j: int, k: int|
            0 <= j < k < other_places(names).len() ==> other_places(names)[j] < other_places(
                names,
            )[k],
{
    lemma_places(names);
    if other_places(names).contains(i as usize) {
        let k = choose|k: int|
            0 <= k < other_places(names).len() && other_places(names)[k] == i as usize;
        assert(names[other_places(names)[k] as int] != METADATA_ENTRY@);
    }
}

proof fn lemma_places(names: Seq<Seq<char>>)
    requires
        names.len() <= usize::MAX,
    ensures
        ({
            let places = other_places(names);
            &&& places.len() <= names.len()
            &&& forall|k: int|
                0 <= k < places.len() ==> (#[trigger] places[k]) < names.len()
                    && names[places[k] as int] != METADATA_ENTRY@
            &&& forall|j: int, k: int| 0 <= j < k < places.len() ==> places[j] < places[k]
            &&& forall|i: int|
                0 <= i < names.len() && #[trigger] names[i] != METADATA_ENTRY@ ==> places.contains(
                    i as usize,
                )
        }),
    decreases names.len(),
{
    if names.len() > 0 {
        let shorter = names.drop_last();
        let head = other_places(shorter);
        let places = other_places(names);
        lemma_places(shorter);
        assert forall|k: int| 0 <= k < places.len() implies (#[trigger] places[k]) < names.len()
            && names[places[k] as int] != METADATA_ENTRY@ by {
            if k < head.len() {
                assert(places[k] == head[k]);
                assert(names[head[k] as int] == shorter[head[k] as int]);
            }
        }
        assert forall|j: int, k: int| 0 <= j < k < places.len() implies places[j] < places[k] by {
            assert(places[j] == head[j]);
            if k < head.len() {
                assert(places[k] == head[k]);
            }
        }
        assert forall|i: int|
            0 <= i < names.len() && #[trigger] names[i]
                != METADATA_ENTRY@ implies places.contains(i as usize) by {
            if i < shorter.len() {
                assert(shorter[i] == names[i]);
                let k = choose|k: int| 0 <= k < head.len() && head[k] == i as usize;
                assert(places[k] == i as usize);
            } else {
                assert(places[head.len() as int] == i as usize);
            }
        }
    }
}

/// An archive into which metadata was written holds one entry with metadata, whatever it held before,
/// and the metadata is read from it.
pub proof fn lemma_metadata_is_replaced(names: Seq<Seq<char>>, i: int)
    requires
        names.len() < usize::MAX,
        0 <= i < written_names(names).len(),
    ensures
        written_names(names)[i] == METADATA_ENTRY@ <==> i == written_names(names).len() - 1,
        metadata_place(written_names(names)) == Some((written_names(names).len() - 1) as usize),
{
    lemma_places(names);
    let places = other_places(names);
    let written = written_names(names);
    assert forall|k: int| 0 <= k < places.len() implies #[trigger] written[k]
        != METADATA_ENTRY@ by {
        assert(written[k] == names[places[k] as int]);
    }
    lemma_no_metadata(written.drop_last());
}

proof fn lemma_no_metadata(names: Seq<Seq<char>>)
    requires
        forall|k: int| 0 <= k < names.len() ==> #[trigger] names[k] != METADATA_ENTRY@,
    ensures
        metadata_place(names) is None,
    decreases names.len(),
{
    if names.len() > 0 {
        assert forall|k: int| 0 <= k < names.drop_last().len() implies #[trigger] names.drop_last()[k]
            != METADATA_ENTRY@ by {
            assert(names.drop_last()[k] == names[k]);
        }
        lemma_no_metadata(names.drop_last());
    }
}

/// An entry of an archive: its name, and what it holds.
pub type Entry = (Seq<char>, Seq<u8>);

/// The names of entries.
pub open spec fn entry_names(entries: Seq<Entry>) -> Seq<Seq<char>> {
    entries.map_values(|e: Entry| e.0)
}

/// The entries of an archive once metadata was written into it: the others as they were, and the
/// metadata behind them.
pub open spec fn written_entries(entries: Seq<Entry>, metadata: Seq<u8>) -> Seq<Entry> {
    other_places(entry_names(entries)).map_values(|i: usize| entries[i as int]).push(
        (METADATA_ENTRY@, metadata),
    )
}

proof fn lemma_written_entries(entries: Seq<Entry>, metadata: Seq<u8>)
    requires
        entries.len() < usize::MAX,
    ensures
        entry_names(written_entries(entries, metadata)) == written_names(entry_names(entries)),
        written_entries(entries, metadata).len() <= entries.len() + 1,
{
    let names = entry_names(entries);
    lemma_places(names);
    assert forall|k: int| 0 <= k < other_places(names).len() implies #[trigger] entry_names(
        written_entries(entries, metadata),
    )[k] == written_names(names)[k] by {
        assert(names[other_places(names)[k] as int] == entries[other_places(names)[k] as int].0);
    }
    assert(entry_names(written_entries(entries, metadata)) =~= written_names(names));
}

/// What is read from an archive after metadata was written into it is that metadata.
pub proof fn lemma_written_metadata_is_read(entries: Seq<Entry>, metadata: Seq<u8>)
    requires
        entries.len() < usize::MAX,
    ensures
        metadata_place(entry_names(written_entries(entries, metadata))) matches Some(i) && i
            < written_entries(entries, metadata).len() && written_entries(
            entries,
            metadata,
        )[i as int].1 == metadata,
{
    let written = written_entries(entries, metadata);
    lemma_written_entries(entries, metadata);
    lemma_metadata_is_replaced(entry_names(entries), written.len() - 1);
}

/// The last write wins: once metadata was written, to write again gives the archive that the second
/// write alone would have given, with the same entries in the same order, and what they hold. In
/// particular, to write the same metadata again changes nothing.
pub proof fn lemma_last_write_wins(entries: Seq<Entry>, first: Seq<u8>, second: Seq<u8>)
    requires
        entries.len() < usize::MAX,
    ensures
        written_entries(written_entries(entries, first), second) == written_entries(entries, second),
{
    let names = entry_names(entries);
    let places = other_places(names);
    let once = written_entries(entries, first);
    let others = written_names(names).drop_last();
    lemma_places(names);
    lemma_written_entries(entries, first);
    assert forall|k: int| 0 <= k < others.len() implies #[trigger] others[k]
        != METADATA_ENTRY@ by {
        assert(others[k] == names[places[k] as int]);
    }
    lemma_all_kept(others);
    assert(other_places(entry_names(once)) == other_places(others));
    let twice = written_entries(once, second);
    assert forall|k: int| 0 <= k < others.len() implies #[trigger] twice[k] == written_entries(
        entries,
        second,
    )[k] by {
        assert(k as usize as int == k);
        assert(twice[k] == once[k]);
    }
    assert(twice =~= written_entries(entries, second));
}

proof fn lemma_all_kept(names: Seq<Seq<char>>)
    requires
        forall|k: int| 0 <= k < names.len() ==> #[trigger] names[k] != METADATA_ENTRY@,
    ensures
        other_places(names) == Seq::new(names.len(), |k: int| k as usize),
    decreases names.len(),
{
    if names.len() > 0 {
        let shorter = names.drop_last();
        assert forall|k: int| 0 <= k < shorter.len() implies #[trigger] shorter[k]
            != METADATA_ENTRY@ by {
            assert(shorter[k] == names[k]);
        }
        lemma_all_kept(shorter);
        assert(other_places(names) =~= Seq::new(names.len(), |k: int| k as usize));
    } else {
        assert(other_places(names) =~= Seq::new(names.len(), |k: int| k as usize));
    }
}

} // verus!
