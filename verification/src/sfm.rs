//! Editing the metadata of single archives.

use crate::naming::{natural_order, sort_key, sort_keys};
use crate::natural::Relation;
use crate::order::{
    is_stable_order,
    lemma_row_order,
    lemma_stable_order_exists,
    lemma_stable_order_lists_all,
    lemma_stable_order_unique,
    number_order,
    picked,
    precedes,
    rank_order,
    row_order,
    row_relation,
    sort_by_number,
    sort_by_text,
    stable_order,
    text_order,
};
use crate::reader::{document_tags, is_name, kept, lemma_document_is_read};
use crate::schema::{
    comicinfo_fields,
    field_of,
    field_spec,
    field_table,
    is_per_file,
    lemma_place_is,
    FieldSpec,
};
use crate::session::{ComicInfoApp, Dialog};
use crate::state::AppSettings;
use crate::tags::{collect, collected, keys, Pair};
use crate::decimal::{decimal_text, text_of_u64};
use crate::text::{cat2, cat4, cat7, chars_of, join, joined, same};
use crate::unicode::{is_space, is_space_char};
use crate::worker::{is_among, is_in};
use crate::xml::{arranged, build_comic_info_xml, document, ranks, ComicInfoReadResult};
use vstd::prelude::*;

verus! {

/// A file in the list of files.
#[derive(Clone, Debug)]
pub struct SfmFileEntry {
    pub path: String,
    pub name: String,
    pub is_cbz: bool,
}

/// The path and the name of a file, and whether it is an archive.
pub type FileView = (Seq<char>, Seq<char>, bool);

impl DeepView for SfmFileEntry {
    type V = FileView;

    open spec fn deep_view(&self) -> FileView {
        (self.path@, self.name@, self.is_cbz)
    }
}

/// A tag with its value, and a number by which it is known while it is edited and moved.
#[derive(Clone, Debug, Hash, PartialEq, Eq)]
pub struct SfmTagRow {
    pub tag: String,
    pub value: String,
    pub id: u64,
}

/// A tag, its value and the number by which it is known.
pub type TagRow = (Seq<char>, Seq<char>, u64);

impl DeepView for SfmTagRow {
    type V = TagRow;

    open spec fn deep_view(&self) -> TagRow {
        (self.tag@, self.value@, self.id)
    }
}

/// What is shown of the selected file.
#[derive(Clone, Debug)]
pub enum SfmPanelState {
    /// Nothing is selected.
    Empty,
    /// The file has no metadata.
    NoComicInfo,
    /// The metadata of the file is being edited.
    Editing,
    /// The file could not be read.
    LoadError(String),
}

/// What is shown of the selected file.
pub enum Panel {
    Empty,
    NoComicInfo,
    Editing,
    LoadError(Seq<char>),
}

impl View for SfmPanelState {
    type V = Panel;

    open spec fn view(&self) -> Panel {
        match *self {
            SfmPanelState::Empty => Panel::Empty,
            SfmPanelState::NoComicInfo => Panel::NoComicInfo,
            SfmPanelState::Editing => Panel::Editing,
            SfmPanelState::LoadError(text) => Panel::LoadError(text@),
        }
    }
}

/// Where to go once unsaved changes are dealt with.
#[derive(Clone, Copy, Debug, PartialEq, Eq, Structural)]
pub enum SfmNavTarget {
    File(usize),
    ExitMode,
}

/// A change: the tags of a file before and after it.
#[derive(Clone, Debug)]
pub struct SfmUndoEntry {
    pub file: String,
    pub before: Vec<SfmTagRow>,
    pub after: Vec<SfmTagRow>,
}

/// A file, and its tags before and after a change.
pub type Change = (Seq<char>, Seq<TagRow>, Seq<TagRow>);

impl DeepView for SfmUndoEntry {
    type V = Change;

    open spec fn deep_view(&self) -> Change {
        (self.file@, self.before.deep_view(), self.after.deep_view())
    }
}

/// The state of the editor of single archives.
#[derive(Debug)]
pub struct SfmState {
    /// The file or folder that is open.
    pub root: Option<String>,
    pub files: Vec<SfmFileEntry>,
    pub selected: Option<usize>,
    pub panel: SfmPanelState,
    pub tags: Vec<SfmTagRow>,
    /// The tags as they were loaded or last saved.
    pub loaded_tags: Vec<SfmTagRow>,
    /// The tags of the file that are not known.
    pub foreign_tags_notice: Option<Vec<String>>,
    pub next_row_id: u64,
    /// Where to go once unsaved changes are dealt with.
    pub pending_nav: Option<SfmNavTarget>,
    /// The tags as they were before the word that is being typed.
    pub pending_undo_word: Option<Vec<SfmTagRow>>,
    /// The tags to set once the file that they belong to is open.
    pub pending_undo_apply: Option<Vec<SfmTagRow>>,
    pub add_tag_menu_open: bool,
}

/// What the state of the editor holds.
#[verifier::ext_equal]
pub struct Editor {
    pub root: Option<Seq<char>>,
    pub files: Seq<FileView>,
    pub selected: Option<usize>,
    pub panel: Panel,
    pub tags: Seq<TagRow>,
    pub loaded: Seq<TagRow>,
    pub foreign: Option<Seq<Seq<char>>>,
    pub next_id: u64,
    pub nav: Option<SfmNavTarget>,
    pub word: Option<Seq<TagRow>>,
    pub apply: Option<Seq<TagRow>>,
    pub menu: bool,
}

impl View for SfmState {
    type V = Editor;

    open spec fn view(&self) -> Editor {
        Editor {
            root: self.root.deep_view(),
            files: self.files.deep_view(),
            selected: self.selected,
            panel: self.panel@,
            tags: self.tags.deep_view(),
            loaded: self.loaded_tags.deep_view(),
            foreign: self.foreign_tags_notice.deep_view(),
            next_id: self.next_row_id,
            nav: self.pending_nav,
            word: self.pending_undo_word.deep_view(),
            apply: self.pending_undo_apply.deep_view(),
            menu: self.add_tag_menu_open,
        }
    }
}

/// The editor in which nothing is open.
pub open spec fn blank_editor() -> Editor {
    Editor {
        root: None,
        files: Seq::empty(),
        selected: None,
        panel: Panel::Empty,
        tags: Seq::empty(),
        loaded: Seq::empty(),
        foreign: None,
        next_id: 0,
        nav: None,
        word: None,
        apply: None,
        menu: false,
    }
}

impl SfmState {
    /// Whether nothing is open.
    pub open spec fn is_blank(self) -> bool {
        self@ == blank_editor()
    }

    /// The state in which nothing is open.
    pub fn new() -> (r: SfmState)
        ensures
            r.is_blank(),
    {
        let r = SfmState {
            root: None,
            files: Vec::new(),
            selected: None,
            panel: SfmPanelState::Empty,
            tags: Vec::new(),
            loaded_tags: Vec::new(),
            foreign_tags_notice: None,
            next_row_id: 0,
            pending_nav: None,
            pending_undo_word: None,
            pending_undo_apply: None,
            add_tag_menu_open: false,
        };
        assert(r@ =~= blank_editor());
        r
    }
}

// ── Tags ────────────────────────────────────────────────────────────────────────────────────────
/// The tags and values of some rows.
pub open spec fn pairs_of(rows: Seq<TagRow>) -> Seq<Pair> {
    rows.map_values(|r: TagRow| (r.0, r.1))
}

/// Whether there are changes that are not saved.
pub open spec fn is_dirty(e: Editor) -> bool {
    pairs_of(e.tags) != pairs_of(e.loaded)
}

/// The selected file, where there is one.
pub open spec fn open_file(e: Editor) -> Option<FileView> {
    match e.selected {
        Some(i) => if i < e.files.len() {
            Some(e.files[i as int])
        } else {
            None
        },
        None => None,
    }
}

/// Whether a tag is known.
pub open spec fn is_known(tag: Seq<char>) -> bool {
    field_of(tag) is Some || is_per_file(tag)
}

/// The tags that are not known.
pub open spec fn foreign_tags(pairs: Seq<Pair>) -> Seq<Seq<char>>
    decreases pairs.len(),
{
    if pairs.len() == 0 {
        Seq::empty()
    } else {
        let head = foreign_tags(pairs.drop_last());
        if is_known(pairs.last().0) {
            head
        } else {
            head.push(pairs.last().0)
        }
    }
}

/// The number that comes `n` after `start`. After the largest number comes zero.
pub open spec fn id_after(start: u64, n: nat) -> u64 {
    ((start + n) % 0x1_0000_0000_0000_0000) as u64
}

/// Rows of the given tags with the next numbers.
pub open spec fn numbered(pairs: Seq<Pair>, start: u64) -> Seq<TagRow> {
    Seq::new(pairs.len(), |i: int| (pairs[i].0, pairs[i].1, id_after(start, i as nat)))
}

fn next_id(id: u64) -> (r: u64)
    ensures
        r == id_after(id, 1),
{
    if id == u64::MAX {
        0
    } else {
        id + 1
    }
}

proof fn lemma_id_after(start: u64, n: nat)
    ensures
        id_after(id_after(start, n), 1) == id_after(start, n + 1),
{
}

/// Whether a tag is known.
pub fn is_known_tag(tag: &str) -> (r: bool)
    ensures
        r == is_known(tag@),
{
    field_spec(tag).is_some() || same(tag, "Title") || same(tag, "Number") || same(tag, "Volume")
        || same(tag, "Summary")
}

/// The tags that are not known.
fn find_foreign(pairs: &Vec<(String, String)>) -> (r: Vec<String>)
    ensures
        r.deep_view() == foreign_tags(pairs.deep_view()),
{
    let ghost all = pairs.deep_view();
    let mut out: Vec<String> = Vec::new();
    let n: usize = pairs.len();
    assert(out.deep_view() =~= foreign_tags(all.take(0)));
    for i in 0..n
        invariant
            n == pairs@.len(),
            all == pairs.deep_view(),
            out.deep_view() == foreign_tags(all.take(i as int)),
    {
        let ghost head = out.deep_view();
        proof {
            assert(all.take(i + 1).drop_last() =~= all.take(i as int));
            assert(all.take(i + 1).last() == (pairs@[i as int].0@, pairs@[i as int].1@));
        }
        if !is_known_tag(pairs[i].0.as_str()) {
            out.push(pairs[i].0.clone());
            assert(out.deep_view() =~= head.push(pairs@[i as int].0@));
        }
    }
    assert(all.take(n as int) =~= all);
    out
}

/// The same rows in another list.
pub fn copy_tags(rows: &Vec<SfmTagRow>) -> (r: Vec<SfmTagRow>)
    ensures
        r.deep_view() == rows.deep_view(),
{
    let mut out: Vec<SfmTagRow> = Vec::new();
    let n: usize = rows.len();
    for i in 0..n
        invariant
            n == rows@.len(),
            out@.len() == i,
            forall|k: int| 0 <= k < i ==> (#[trigger] out@[k]).deep_view() == rows@[k].deep_view(),
    {
        let row = SfmTagRow {
            tag: rows[i].tag.clone(),
            value: rows[i].value.clone(),
            id: rows[i].id,
        };
        out.push(row);
    }
    assert(out.deep_view() =~= rows.deep_view());
    out
}

/// Whether two lists hold the same tags and values.
fn same_pairs(a: &Vec<SfmTagRow>, b: &Vec<SfmTagRow>) -> (r: bool)
    ensures
        r == (pairs_of(a.deep_view()) == pairs_of(b.deep_view())),
{
    let ghost p = pairs_of(a.deep_view());
    let ghost q = pairs_of(b.deep_view());
    if a.len() != b.len() {
        assert(p.len() != q.len());
        return false;
    }
    let n: usize = a.len();
    for i in 0..n
        invariant
            n == a@.len(),
            n == b@.len(),
            p == pairs_of(a.deep_view()),
            q == pairs_of(b.deep_view()),
            forall|k: int| 0 <= k < i ==> #[trigger] p[k] == q[k],
    {
        assert(p[i as int] == (a@[i as int].tag@, a@[i as int].value@));
        assert(q[i as int] == (b@[i as int].tag@, b@[i as int].value@));
        if !same(a[i].tag.as_str(), b[i].tag.as_str()) || !same(
            a[i].value.as_str(),
            b[i].value.as_str(),
        ) {
            return false;
        }
    }
    assert(p =~= q);
    true
}

/// Whether two lists hold the same rows.
fn same_rows(a: &Vec<SfmTagRow>, b: &Vec<SfmTagRow>) -> (r: bool)
    ensures
        r == (a.deep_view() == b.deep_view()),
{
    let ghost p = a.deep_view();
    let ghost q = b.deep_view();
    if a.len() != b.len() {
        assert(p.len() != q.len());
        return false;
    }
    let n: usize = a.len();
    for i in 0..n
        invariant
            n == a@.len(),
            n == b@.len(),
            p == a.deep_view(),
            q == b.deep_view(),
            forall|k: int| 0 <= k < i ==> #[trigger] p[k] == q[k],
    {
        assert(p[i as int] == a@[i as int].deep_view());
        assert(q[i as int] == b@[i as int].deep_view());
        if !same(a[i].tag.as_str(), b[i].tag.as_str()) || !same(
            a[i].value.as_str(),
            b[i].value.as_str(),
        ) || a[i].id != b[i].id {
            return false;
        }
    }
    assert(p =~= q);
    true
}

// ── Reading an archive ──────────────────────────────────────────────────────────────────────────
/// What came of reading an archive.
pub enum Reading {
    Missing,
    Found(Seq<Pair>),
    Failed(Seq<char>),
}

/// What came of reading an archive.
pub open spec fn reading_of(r: Result<ComicInfoReadResult, String>) -> Reading {
    match r {
        Ok(ComicInfoReadResult::Missing) => Reading::Missing,
        Ok(ComicInfoReadResult::Found(pairs)) => Reading::Found(pairs.deep_view()),
        Err(text) => Reading::Failed(text@),
    }
}

/// The editor without what it showed of a file.
pub open spec fn emptied(e: Editor) -> Editor {
    Editor { tags: Seq::empty(), loaded: Seq::empty(), foreign: None, ..e }
}

/// The editor with what was read of the selected file.
pub open spec fn with_reading(e: Editor, r: Reading) -> Editor {
    match r {
        Reading::Missing => Editor { panel: Panel::NoComicInfo, ..e },
        Reading::Found(pairs) => {
            let foreign = foreign_tags(pairs);
            Editor {
                tags: numbered(pairs, e.next_id),
                loaded: numbered(pairs, e.next_id),
                next_id: id_after(e.next_id, pairs.len()),
                foreign: if foreign.len() == 0 {
                    None
                } else {
                    Some(foreign)
                },
                panel: Panel::Editing,
                ..e
            }
        },
        Reading::Failed(text) => Editor { panel: Panel::LoadError(text), ..e },
    }
}

/// The editor with new metadata for the selected file.
pub open spec fn with_defaults(e: Editor, title: Seq<char>, series: Seq<char>) -> Editor {
    if open_file(e) is Some {
        let pairs = seq![("Title"@, title), ("Series"@, series)];
        Editor {
            tags: numbered(pairs, e.next_id),
            loaded: Seq::empty(),
            next_id: id_after(e.next_id, 2),
            foreign: None,
            panel: Panel::Editing,
            ..e
        }
    } else {
        e
    }
}

/// The rows with the given tags and the next numbers.
fn make_rows(pairs: &Vec<(String, String)>, start: u64) -> (r: (Vec<SfmTagRow>, u64))
    ensures
        r.0.deep_view() == numbered(pairs.deep_view(), start),
        r.1 == id_after(start, pairs@.len()),
{
    let ghost all = pairs.deep_view();
    let mut rows: Vec<SfmTagRow> = Vec::new();
    let mut id: u64 = start;
    let n: usize = pairs.len();
    for i in 0..n
        invariant
            n == pairs@.len(),
            all == pairs.deep_view(),
            rows@.len() == i,
            id == id_after(start, i as nat),
            forall|k: int|
                0 <= k < i ==> (#[trigger] rows@[k]).deep_view() == (
                    all[k].0,
                    all[k].1,
                    id_after(start, k as nat),
                ),
    {
        assert(all[i as int] == (pairs@[i as int].0@, pairs@[i as int].1@));
        proof {
            lemma_id_after(start, i as nat);
        }
        rows.push(SfmTagRow { tag: pairs[i].0.clone(), value: pairs[i].1.clone(), id });
        id = next_id(id);
    }
    assert(rows.deep_view() =~= numbered(all, start));
    (rows, id)
}

impl SfmState {
    /// Whether there are changes that are not saved.
    pub fn dirty(&self) -> (r: bool)
        ensures
            r == is_dirty(self@),
    {
        !same_pairs(&self.tags, &self.loaded_tags)
    }

    /// The place of the selected file, where there is one.
    fn open_place(&self) -> (r: Option<usize>)
        ensures
            match r {
                Some(i) => i < self.files@.len() && self.selected == Some(i) && open_file(self@)
                    == Some(self.files@[i as int].deep_view()),
                None => open_file(self@) is None,
            },
    {
        match self.selected {
            Some(i) => if i < self.files.len() {
                Some(i)
            } else {
                None
            },
            None => None,
        }
    }

    /// The name of the selected file; nothing where none is selected.
    pub fn open_name(&self) -> (r: String)
        ensures
            r@ == match open_file(self@) {
                Some(f) => f.1,
                None => ""@,
            },
    {
        match self.open_place() {
            Some(i) => self.files[i].name.clone(),
            None => String::from_str(""),
        }
    }

    /// Drops what is shown of a file.
    fn clear_file(&mut self)
        ensures
            final(self)@ == emptied(old(self)@),
    {
        self.tags = Vec::new();
        self.loaded_tags = Vec::new();
        self.foreign_tags_notice = None;
        assert(self@ =~= emptied(old(self)@));
    }

    /// Shows what was read of the selected file.
    pub fn take_reading(&mut self, reading: Result<ComicInfoReadResult, String>)
        ensures
            final(self)@ == with_reading(old(self)@, reading_of(reading)),
    {
        match reading {
            Ok(ComicInfoReadResult::Missing) => {
                self.panel = SfmPanelState::NoComicInfo;
            },
            Ok(ComicInfoReadResult::Found(pairs)) => {
                let foreign = find_foreign(&pairs);
                let (rows, id) = make_rows(&pairs, self.next_row_id);
                self.next_row_id = id;
                self.loaded_tags = copy_tags(&rows);
                self.tags = rows;
                assert(foreign.deep_view().len() == foreign@.len());
                self.foreign_tags_notice = if foreign.len() == 0 {
                    None
                } else {
                    Some(foreign)
                };
                self.panel = SfmPanelState::Editing;
            },
            Err(text) => {
                self.panel = SfmPanelState::LoadError(text);
            },
        }
        assert(self@ =~= with_reading(old(self)@, reading_of(reading)));
    }

    /// Starts new metadata for the selected file, given its name without the extension and the name of
    /// its folder.
    pub fn create_default(&mut self, title: &str, series: &str)
        ensures
            final(self)@ == with_defaults(old(self)@, title@, series@),
    {
        match self.open_place() {
            Some(_) => {
                let mut pairs: Vec<(String, String)> = Vec::new();
                pairs.push((String::from_str("Title"), String::from_str(title)));
                pairs.push((String::from_str("Series"), String::from_str(series)));
                assert(pairs.deep_view() =~= seq![("Title"@, title@), ("Series"@, series@)]);
                let (rows, id) = make_rows(&pairs, self.next_row_id);
                self.next_row_id = id;
                self.tags = rows;
                self.loaded_tags = Vec::new();
                self.foreign_tags_notice = None;
                self.panel = SfmPanelState::Editing;
                assert(self@ =~= with_defaults(old(self)@, title@, series@));
            },
            None => {},
        }
    }
}

// ── The desk ────────────────────────────────────────────────────────────────────────────────────
/// What the user is asked or told, as far as it is about single archives.
pub enum Shown {
    Notice(Seq<char>),
    Unsaved,
    Other(Option<Dialog>),
}

/// What the user is asked or told.
pub open spec fn shown(dialog: Option<Dialog>) -> Shown {
    match dialog {
        Some(Dialog::Notice(text)) => Shown::Notice(text@),
        Some(Dialog::SfmUnsavedChanges) => Shown::Unsaved,
        _ => Shown::Other(dialog),
    }
}

/// What editing single archives works on.
#[verifier::ext_equal]
pub struct Desk {
    pub editor: Editor,
    pub changes: Seq<Change>,
    /// The changes before this one are made, those from it on are undone.
    pub cursor: nat,
    /// Whether changes are saved without asking when another file is chosen.
    pub autosave: bool,
    /// Whether single archives are edited.
    pub single: bool,
    pub last_root: Option<Seq<char>>,
    pub last_is_folder: bool,
    pub last_selected: Option<Seq<char>>,
    pub dialog: Shown,
    pub status: Seq<char>,
}

impl ComicInfoApp {
    /// What editing single archives works on.
    pub open spec fn desk(self) -> Desk {
        Desk {
            editor: self.sfm@,
            changes: self.sfm_undo_stack.deep_view(),
            cursor: self.sfm_undo_cursor as nat,
            autosave: self.settings.sfm_autosave_on_focus_change,
            single: self.settings.single_file_mode,
            last_root: self.settings.sfm_last_root.deep_view(),
            last_is_folder: self.settings.sfm_last_is_folder,
            last_selected: self.settings.sfm_last_selected.deep_view(),
            dialog: shown(self.dialog),
            status: self.status@,
        }
    }
}

/// Whether nothing but the desk differs.
pub open spec fn only_desk_differs(a: ComicInfoApp, b: ComicInfoApp) -> bool {
    b == (ComicInfoApp {
        sfm: b.sfm,
        sfm_undo_stack: b.sfm_undo_stack,
        sfm_undo_cursor: b.sfm_undo_cursor,
        settings: AppSettings {
            single_file_mode: b.settings.single_file_mode,
            sfm_last_root: b.settings.sfm_last_root,
            sfm_last_is_folder: b.settings.sfm_last_is_folder,
            sfm_last_selected: b.settings.sfm_last_selected,
            ..a.settings
        },
        dialog: b.dialog,
        status: b.status,
        ..a
    })
}

/// What is to be done after an archive was read or written.
#[derive(Debug)]
pub enum SfmThen {
    Stay,
    /// Single archives are no longer edited.
    Leave,
    /// The user has dealt with unsaved changes.
    Resolve,
    /// The tags are to be set.
    Apply(Vec<SfmTagRow>),
    /// Another file is to be selected, and its tags are to be set where some are given.
    Goto(usize, Option<Vec<SfmTagRow>>),
}

/// What is to be done after an archive was read or written.
pub enum Then {
    Stay,
    Leave,
    Resolve,
    Apply(Seq<TagRow>),
    Goto(usize, Option<Seq<TagRow>>),
}

impl View for SfmThen {
    type V = Then;

    open spec fn view(&self) -> Then {
        match *self {
            SfmThen::Stay => Then::Stay,
            SfmThen::Leave => Then::Leave,
            SfmThen::Resolve => Then::Resolve,
            SfmThen::Apply(tags) => Then::Apply(tags.deep_view()),
            SfmThen::Goto(idx, tags) => Then::Goto(idx, tags.deep_view()),
        }
    }
}

/// What is to be done outside.
#[derive(Debug)]
pub enum SfmStep {
    Done,
    /// The archive is to be read.
    Read { path: String, then: SfmThen },
    /// The metadata is to be written to the archive.
    Write { path: String, xml: String, then: SfmThen },
    /// The file or folder is to be looked for and opened, with the wanted file selected.
    Look { root: String, is_folder: bool, wanted: Option<String> },
}

/// What is to be done outside.
pub enum Step {
    Done,
    Read(Seq<char>, Then),
    Write(Seq<char>, Seq<char>, Then),
    Look(Seq<char>, bool, Option<Seq<char>>),
}

impl View for SfmStep {
    type V = Step;

    open spec fn view(&self) -> Step {
        match *self {
            SfmStep::Done => Step::Done,
            SfmStep::Read { path, then } => Step::Read(path@, then@),
            SfmStep::Write { path, xml, then } => Step::Write(path@, xml@, then@),
            SfmStep::Look { root, is_folder, wanted } => Step::Look(
                root@,
                is_folder,
                wanted.deep_view(),
            ),
        }
    }
}

/// The desk with other tags in the editor.
pub open spec fn with_tags(d: Desk, tags: Seq<TagRow>) -> Desk {
    Desk { editor: Editor { tags, ..d.editor }, ..d }
}

/// The desk where the selected file is remembered as the last one.
pub open spec fn remembered(d: Desk) -> Desk {
    Desk {
        last_selected: match open_file(d.editor) {
            Some(f) => Some(f.0),
            None => None,
        },
        ..d
    }
}

/// Selects a file, and sets its tags where some are given. A word that is being typed is dropped.
pub open spec fn switched(d: Desk, idx: usize, tags: Option<Seq<TagRow>>) -> (Desk, Step) {
    let e = emptied(Editor { selected: Some(idx), word: None, ..d.editor });
    let there = remembered(Desk { editor: e, ..d });
    match open_file(e) {
        Some(f) if f.2 => (
            there,
            Step::Read(
                f.0,
                match tags {
                    Some(t) => Then::Apply(t),
                    None => Then::Stay,
                },
            ),
        ),
        _ => (
            Desk {
                editor: Editor {
                    panel: Panel::Empty,
                    tags: match tags {
                        Some(t) => t,
                        None => Seq::empty(),
                    },
                    ..e
                },
                ..there
            },
            Step::Done,
        ),
    }
}

/// Goes where the user was going when unsaved changes were found.
pub open spec fn resolved(d: Desk) -> (Desk, Step) {
    match d.editor.nav {
        Some(SfmNavTarget::File(idx)) => switched(
            Desk { editor: Editor { nav: None, apply: None, ..d.editor }, ..d },
            idx,
            d.editor.apply,
        ),
        Some(SfmNavTarget::ExitMode) => (
            Desk { editor: Editor { nav: None, ..d.editor }, single: false, ..d },
            Step::Done,
        ),
        None => (d, Step::Done),
    }
}

/// Goes on after an archive was read or written.
pub open spec fn proceeded(d: Desk, then: Then) -> (Desk, Step) {
    match then {
        Then::Stay => (d, Step::Done),
        Then::Leave => (Desk { single: false, ..d }, Step::Done),
        Then::Resolve => resolved(d),
        Then::Apply(tags) => (with_tags(d, tags), Step::Done),
        Then::Goto(idx, tags) => switched(d, idx, tags),
    }
}

/// The document with the tags of some rows in the order of the rows.
pub open spec fn written(tags: Seq<TagRow>) -> Seq<char> {
    document(collected(pairs_of(tags)), keys(pairs_of(tags)))
}

/// Saves the tags of the selected file, and goes on.
pub open spec fn saving(d: Desk, then: Then) -> (Desk, Step) {
    match open_file(d.editor) {
        Some(f) => (d, Step::Write(f.0, written(d.editor.tags), then)),
        None => proceeded(d, then),
    }
}

/// The desk where the tags of the selected file are saved.
pub open spec fn saved(d: Desk) -> Desk {
    Desk {
        editor: Editor { loaded: d.editor.tags, ..d.editor },
        status: "Saved ComicInfo.xml in "@ + (open_file(d.editor)->0).1,
        ..d
    }
}

/// The desk where the tags of the selected file could not be saved.
pub open spec fn not_saved(d: Desk, text: Seq<char>) -> Desk {
    Desk {
        dialog: Shown::Notice("Couldn't save "@ + (open_file(d.editor)->0).1 + ": "@ + text),
        ..d
    }
}

/// Goes on after the selected file was written, or could not be. What was written is read again.
pub open spec fn after_write(d: Desk, error: Option<Seq<char>>, then: Then) -> (Desk, Step) {
    match open_file(d.editor) {
        Some(f) => match error {
            None => if f.2 {
                (Desk { editor: emptied(d.editor), ..saved(d) }, Step::Read(f.0, then))
            } else {
                proceeded(saved(d), then)
            },
            Some(text) => proceeded(not_saved(d, text), then),
        },
        None => proceeded(d, then),
    }
}

/// Goes on after the selected file was read.
pub open spec fn after_read(d: Desk, r: Reading, then: Then) -> (Desk, Step) {
    proceeded(Desk { editor: with_reading(d.editor, r), ..d }, then)
}

/// Asks what to do with unsaved changes.
pub open spec fn asked(d: Desk, nav: SfmNavTarget, apply: Option<Seq<TagRow>>) -> Desk {
    Desk {
        editor: Editor { nav: Some(nav), apply, ..d.editor },
        dialog: Shown::Unsaved,
        ..d
    }
}

/// Selects a file. Unsaved changes are saved first or asked about.
pub open spec fn selecting(d: Desk, idx: usize) -> (Desk, Step) {
    if d.editor.selected == Some(idx) {
        (d, Step::Done)
    } else if is_dirty(d.editor) {
        if d.autosave {
            saving(d, Then::Goto(idx, None))
        } else {
            (asked(d, SfmNavTarget::File(idx), None), Step::Done)
        }
    } else {
        switched(d, idx, None)
    }
}

/// What to do with unsaved changes.
#[derive(Clone, Copy, Debug, PartialEq, Eq, Structural)]
pub enum UnsavedChoice {
    Save,
    Discard,
    Cancel,
}

/// Deals with unsaved changes as the user chose.
pub open spec fn answered(d: Desk, choice: UnsavedChoice) -> (Desk, Step) {
    let closed = Desk { dialog: Shown::Other(None), ..d };
    match choice {
        UnsavedChoice::Save => saving(closed, Then::Resolve),
        UnsavedChoice::Discard => resolved(
            Desk {
                editor: Editor { tags: d.editor.loaded, word: None, ..d.editor },
                ..closed
            },
        ),
        UnsavedChoice::Cancel => (closed, Step::Done),
    }
}

/// Opens what was open the last time, with the file selected that was selected then.
pub open spec fn restoring(d: Desk) -> (Desk, Step) {
    match d.last_root {
        Some(root) => (d, Step::Look(root, d.last_is_folder, d.last_selected)),
        None => (d, Step::Done),
    }
}

/// Starts or ends editing single archives. Unsaved changes are saved first or asked about.
pub open spec fn mode_set(d: Desk, single: bool) -> (Desk, Step) {
    if d.single == single {
        (d, Step::Done)
    } else if !single && is_dirty(d.editor) {
        if d.autosave {
            saving(d, Then::Leave)
        } else {
            (asked(d, SfmNavTarget::ExitMode, None), Step::Done)
        }
    } else if single && d.editor.root is None {
        restoring(Desk { single, ..d })
    } else {
        (Desk { single, ..d }, Step::Done)
    }
}

/// What was open the last time is not there any more.
pub open spec fn lost(d: Desk) -> Desk {
    match d.last_root {
        Some(root) => {
            let notice =
                "The Single File Mode item you had open last time is no longer there:\n"@ + root;
            Desk { last_root: None, last_selected: None, dialog: Shown::Notice(notice), ..d }
        },
        None => d,
    }
}

/// The first place of the file with a given path; the number of files where there is none.
pub open spec fn file_place(files: Seq<FileView>, path: Seq<char>) -> nat
    decreases files.len(),
{
    if files.len() == 0 {
        0
    } else if files[0].0 == path {
        0
    } else {
        1 + file_place(files.skip(1), path)
    }
}

/// The first place of an archive; the number of files where there is none.
pub open spec fn archive_place(files: Seq<FileView>) -> nat
    decreases files.len(),
{
    if files.len() == 0 {
        0
    } else if files[0].2 {
        0
    } else {
        1 + archive_place(files.skip(1))
    }
}

/// The names of some files.
pub open spec fn file_names(files: Seq<FileView>) -> Seq<Seq<char>> {
    files.map_values(|f: FileView| f.1)
}

/// The files in the order of their names.
pub open spec fn sorted_files(files: Seq<FileView>) -> Seq<FileView> {
    picked(files, stable_order(files.len(), row_order(sort_keys(file_names(files)))))
}

/// The place of the file to select: the wanted one where it is there, else the first archive.
pub open spec fn starting_place(files: Seq<FileView>, wanted: Option<Seq<char>>) -> Option<usize> {
    let first = archive_place(files);
    let fallback = if first < files.len() {
        Some(first as usize)
    } else {
        None
    };
    match wanted {
        Some(path) => {
            let k = file_place(files, path);
            if k < files.len() {
                Some(k as usize)
            } else {
                fallback
            }
        },
        None => fallback,
    }
}

/// Opens a file or a folder with the given files.
pub open spec fn opened(
    d: Desk,
    root: Seq<char>,
    is_folder: bool,
    files: Seq<FileView>,
    wanted: Option<Seq<char>>,
) -> (Desk, Step) {
    let sorted = sorted_files(files);
    let fresh = Desk {
        editor: Editor { root: Some(root), files: sorted, ..blank_editor() },
        last_root: Some(root),
        last_is_folder: is_folder,
        ..d
    };
    match starting_place(sorted, wanted) {
        Some(idx) => switched(fresh, idx, None),
        None => (remembered(fresh), Step::Done),
    }
}

// ── Undo ────────────────────────────────────────────────────────────────────────────────────────
/// Notes a change to the tags of the selected file, given what they were before. Changes that were
/// undone can no longer be redone.
pub open spec fn pushed(d: Desk, before: Seq<TagRow>) -> Desk {
    match open_file(d.editor) {
        Some(f) => {
            let kept = if d.cursor < d.changes.len() {
                d.changes.take(d.cursor as int)
            } else {
                d.changes
            };
            Desk {
                changes: kept.push((f.0, before, d.editor.tags)),
                cursor: kept.len() + 1,
                ..d
            }
        },
        None => d,
    }
}

/// Goes to a file and sets its tags. Unsaved changes of another file are saved first or asked about.
pub open spec fn brought_back(d: Desk, file: Seq<char>, tags: Seq<TagRow>) -> (Desk, Step) {
    let is_open = match open_file(d.editor) {
        Some(f) => f.0 == file,
        None => false,
    };
    let k = file_place(d.editor.files, file);
    if is_open {
        (with_tags(d, tags), Step::Done)
    } else if k >= d.editor.files.len() {
        let notice =
            "Can't jump to that change -- the file it belongs to isn't open right now."@;
        (Desk { dialog: Shown::Notice(notice), ..d }, Step::Done)
    } else if is_dirty(d.editor) {
        if d.autosave {
            saving(d, Then::Goto(k as usize, Some(tags)))
        } else {
            (asked(d, SfmNavTarget::File(k as usize), Some(tags)), Step::Done)
        }
    } else {
        switched(d, k as usize, Some(tags))
    }
}

/// The desk at another change, without a word that is being typed.
pub open spec fn at_change(d: Desk, cursor: nat) -> Desk {
    Desk { editor: Editor { word: None, ..d.editor }, cursor, ..d }
}

/// Undoes the last change.
pub open spec fn undone(d: Desk) -> (Desk, Step) {
    if d.cursor == 0 {
        (d, Step::Done)
    } else {
        let c = d.changes[d.cursor - 1];
        brought_back(at_change(d, (d.cursor - 1) as nat), c.0, c.1)
    }
}

/// Makes the last change that was undone again.
pub open spec fn redone(d: Desk) -> (Desk, Step) {
    if d.cursor >= d.changes.len() {
        (d, Step::Done)
    } else {
        let c = d.changes[d.cursor as int];
        brought_back(at_change(d, d.cursor + 1), c.0, c.2)
    }
}

/// Whether the history is in order: nothing is undone beyond its end.
pub open spec fn history_is_valid(d: Desk) -> bool {
    d.cursor <= d.changes.len()
}

// ── Edits ───────────────────────────────────────────────────────────────────────────────────────
/// The numbers of some rows.
pub open spec fn row_ids(rows: Seq<TagRow>) -> Seq<u64> {
    rows.map_values(|r: TagRow| r.2)
}

/// The numbers and values of some rows, sorted by number.
pub open spec fn values_by_id(rows: Seq<TagRow>) -> Seq<(u64, Seq<char>)> {
    picked(rows, stable_order(rows.len(), number_order(row_ids(rows)))).map_values(
        |r: TagRow| (r.2, r.1),
    )
}

/// Whether two lists hold the same rows, in whatever order.
pub open spec fn is_reordered(a: Seq<TagRow>, b: Seq<TagRow>) -> bool {
    values_by_id(a) == values_by_id(b)
}

/// The rows but for those with a given number.
pub open spec fn without_row(rows: Seq<TagRow>, id: u64) -> Seq<TagRow>
    decreases rows.len(),
{
    if rows.len() == 0 {
        Seq::empty()
    } else if rows.last().2 == id {
        without_row(rows.drop_last(), id)
    } else {
        without_row(rows.drop_last(), id).push(rows.last())
    }
}

/// Notes what was edited since the tags were as `before`. A row that is removed, a word that is
/// finished and rows that are moved are changes of their own; what is typed is kept until the word is
/// finished.
pub open spec fn edited(
    d: Desk,
    before: Seq<TagRow>,
    removed: Option<u64>,
    word_ended: bool,
) -> Desk {
    match removed {
        Some(id) => pushed(with_tags(d, without_row(d.editor.tags, id)), before),
        None => if word_ended {
            pushed(
                Desk { editor: Editor { word: None, ..d.editor }, ..d },
                match d.editor.word {
                    Some(w) => w,
                    None => before,
                },
            )
        } else if d.editor.tags == before {
            d
        } else if is_reordered(d.editor.tags, before) {
            pushed(d, before)
        } else if d.editor.word is None {
            Desk { editor: Editor { word: Some(before), ..d.editor }, ..d }
        } else {
            d
        },
    }
}

/// Adds a tag without a value, given what the tags were before.
pub open spec fn tag_added(d: Desk, tag: Seq<char>, before: Seq<TagRow>) -> Desk {
    let row = (tag, Seq::<char>::empty(), d.editor.next_id);
    pushed(
        Desk {
            editor: Editor {
                tags: d.editor.tags.push(row),
                next_id: id_after(d.editor.next_id, 1),
                ..d.editor
            },
            ..d
        },
        before,
    )
}

// ── The desk at work ────────────────────────────────────────────────────────────────────────────
proof fn lemma_file_place(files: Seq<FileView>, path: Seq<char>, k: nat)
    requires
        k <= files.len(),
        forall|i: int| 0 <= i < k ==> (#[trigger] files[i]).0 != path,
        k < files.len() ==> files[k as int].0 == path,
    ensures
        file_place(files, path) == k,
    decreases k,
{
    if k > 0 {
        assert(files[0].0 != path);
        assert forall|i: int| 0 <= i < k - 1 implies (#[trigger] files.skip(1)[i]).0 != path by {
            assert(files.skip(1)[i] == files[i + 1]);
        }
        lemma_file_place(files.skip(1), path, (k - 1) as nat);
    }
}

proof fn lemma_archive_place(files: Seq<FileView>, k: nat)
    requires
        k <= files.len(),
        forall|i: int| 0 <= i < k ==> !(#[trigger] files[i]).2,
        k < files.len() ==> files[k as int].2,
    ensures
        archive_place(files) == k,
    decreases k,
{
    if k > 0 {
        assert(!files[0].2);
        assert forall|i: int| 0 <= i < k - 1 implies !(#[trigger] files.skip(1)[i]).2 by {
            assert(files.skip(1)[i] == files[i + 1]);
        }
        lemma_archive_place(files.skip(1), (k - 1) as nat);
    }
}

/// The first place of the file with a given path; the number of files where there is none.
fn find_file(files: &Vec<SfmFileEntry>, path: &str) -> (r: usize)
    ensures
        r == file_place(files.deep_view(), path@),
        r <= files@.len(),
{
    let n: usize = files.len();
    let mut k: usize = 0;
    while k < n && !same(files[k].path.as_str(), path)
        invariant
            n == files@.len(),
            k <= n,
            forall|i: int| 0 <= i < k ==> (#[trigger] files.deep_view()[i]).0 != path@,
        decreases n - k,
    {
        k = k + 1;
    }
    proof {
        lemma_file_place(files.deep_view(), path@, k as nat);
    }
    k
}

/// The first place of an archive; the number of files where there is none.
fn find_archive(files: &Vec<SfmFileEntry>) -> (r: usize)
    ensures
        r == archive_place(files.deep_view()),
        r <= files@.len(),
{
    let n: usize = files.len();
    let mut k: usize = 0;
    while k < n && !files[k].is_cbz
        invariant
            n == files@.len(),
            k <= n,
            forall|i: int| 0 <= i < k ==> !(#[trigger] files.deep_view()[i]).2,
        decreases n - k,
    {
        k = k + 1;
    }
    proof {
        lemma_archive_place(files.deep_view(), k as nat);
    }
    k
}

/// The files in the order of their names.
fn sort_files(files: &Vec<SfmFileEntry>) -> (r: Vec<SfmFileEntry>)
    ensures
        r.deep_view() == sorted_files(files.deep_view()),
{
    let ghost all = files.deep_view();
    let mut names: Vec<String> = Vec::new();
    let n: usize = files.len();
    for i in 0..n
        invariant
            n == files@.len(),
            names@.len() == i,
            forall|k: int| 0 <= k < i ==> (#[trigger] names@[k])@ == files@[k].name@,
    {
        names.push(files[i].name.clone());
    }
    assert(names.deep_view() =~= file_names(all));
    let order = natural_order(&names);
    let ghost le = row_order(sort_keys(file_names(all)));
    proof {
        lemma_row_order(sort_keys(file_names(all)));
        lemma_stable_order_exists(n, le);
        lemma_stable_order_unique(order@, stable_order(n as nat, le), n as nat, le);
    }
    let mut out: Vec<SfmFileEntry> = Vec::new();
    for i in 0..n
        invariant
            n == files@.len(),
            all == files.deep_view(),
            is_stable_order(order@, n as nat, le),
            out@.len() == i,
            forall|k: int|
                0 <= k < i ==> (#[trigger] out@[k]).deep_view() == all[order@[k] as int],
    {
        let k: usize = order[i];
        assert(all[k as int] == files@[k as int].deep_view());
        out.push(
            SfmFileEntry {
                path: files[k].path.clone(),
                name: files[k].name.clone(),
                is_cbz: files[k].is_cbz,
            },
        );
    }
    assert(out.deep_view() =~= picked(all, order@));
    out
}

/// The tags and values of some rows.
fn take_pairs(rows: &Vec<SfmTagRow>) -> (r: Vec<(String, String)>)
    ensures
        r.deep_view() == pairs_of(rows.deep_view()),
{
    let mut out: Vec<(String, String)> = Vec::new();
    let n: usize = rows.len();
    for i in 0..n
        invariant
            n == rows@.len(),
            out@.len() == i,
            forall|k: int|
                0 <= k < i ==> (#[trigger] out@[k]).deep_view() == (rows@[k].tag@, rows@[k].value@),
    {
        out.push((rows[i].tag.clone(), rows[i].value.clone()));
    }
    assert(out.deep_view() =~= pairs_of(rows.deep_view()));
    out
}

/// The document with the tags of some rows in the order of the rows.
pub fn write_tags(rows: &Vec<SfmTagRow>) -> (r: String)
    ensures
        r@ == written(rows.deep_view()),
{
    let pairs = take_pairs(rows);
    let data = collect(&pairs);
    let mut order: Vec<String> = Vec::new();
    let n: usize = rows.len();
    for i in 0..n
        invariant
            n == rows@.len(),
            order@.len() == i,
            forall|k: int| 0 <= k < i ==> (#[trigger] order@[k])@ == rows@[k].tag@,
    {
        order.push(rows[i].tag.clone());
    }
    assert(order.deep_view() =~= keys(pairs_of(rows.deep_view())));
    build_comic_info_xml(&data, &order)
}

/// The rows but for those with a given number.
fn drop_row(rows: &Vec<SfmTagRow>, id: u64) -> (r: Vec<SfmTagRow>)
    ensures
        r.deep_view() == without_row(rows.deep_view(), id),
{
    let ghost all = rows.deep_view();
    let mut out: Vec<SfmTagRow> = Vec::new();
    let n: usize = rows.len();
    assert(out.deep_view() =~= without_row(all.take(0), id));
    for i in 0..n
        invariant
            n == rows@.len(),
            all == rows.deep_view(),
            out.deep_view() == without_row(all.take(i as int), id),
    {
        let ghost head = out.deep_view();
        proof {
            assert(all.take(i + 1).drop_last() =~= all.take(i as int));
            assert(all.take(i + 1).last() == rows@[i as int].deep_view());
        }
        if rows[i].id != id {
            let row = SfmTagRow {
                tag: rows[i].tag.clone(),
                value: rows[i].value.clone(),
                id: rows[i].id,
            };
            out.push(row);
            assert(out.deep_view() =~= head.push(rows@[i as int].deep_view()));
        }
    }
    assert(all.take(n as int) =~= all);
    out
}

/// The places of some rows, sorted by the numbers of the rows.
fn places_by_id(rows: &Vec<SfmTagRow>) -> (r: Vec<usize>)
    ensures
        is_stable_order(r@, rows@.len(), number_order(row_ids(rows.deep_view()))),
        r@ == stable_order(rows@.len(), number_order(row_ids(rows.deep_view()))),
{
    let mut ids: Vec<u64> = Vec::new();
    let n: usize = rows.len();
    for i in 0..n
        invariant
            n == rows@.len(),
            ids@.len() == i,
            forall|k: int| 0 <= k < i ==> #[trigger] ids@[k] == rows@[k].id,
    {
        ids.push(rows[i].id);
    }
    assert(ids@ =~= row_ids(rows.deep_view()));
    let r = sort_by_number(&ids);
    proof {
        let le = number_order(ids@);
        lemma_stable_order_exists(n, le);
        lemma_stable_order_unique(r@, stable_order(n as nat, le), n as nat, le);
    }
    r
}

/// Whether two lists hold the same rows, in whatever order.
fn reordered(a: &Vec<SfmTagRow>, b: &Vec<SfmTagRow>) -> (r: bool)
    ensures
        r == is_reordered(a.deep_view(), b.deep_view()),
{
    let x = places_by_id(a);
    let y = places_by_id(b);
    let ghost p = values_by_id(a.deep_view());
    let ghost q = values_by_id(b.deep_view());
    if a.len() != b.len() {
        assert(p.len() != q.len());
        return false;
    }
    let n: usize = a.len();
    for i in 0..n
        invariant
            n == a@.len(),
            n == b@.len(),
            is_stable_order(x@, n as nat, number_order(row_ids(a.deep_view()))),
            is_stable_order(y@, n as nat, number_order(row_ids(b.deep_view()))),
            p == values_by_id(a.deep_view()),
            q == values_by_id(b.deep_view()),
            p == picked(a.deep_view(), x@).map_values(|r: TagRow| (r.2, r.1)),
            q == picked(b.deep_view(), y@).map_values(|r: TagRow| (r.2, r.1)),
            forall|k: int| 0 <= k < i ==> #[trigger] p[k] == q[k],
    {
        let j: usize = x[i];
        let k: usize = y[i];
        assert(p[i as int] == (a@[j as int].id, a@[j as int].value@));
        assert(q[i as int] == (b@[k as int].id, b@[k as int].value@));
        if a[j].id != b[k].id || !same(a[j].value.as_str(), b[k].value.as_str()) {
            return false;
        }
    }
    assert(p =~= q);
    true
}

impl ComicInfoApp {
    /// Remembers the selected file as the last one.
    fn sfm_persist_selection(&mut self)
        ensures
            final(self).desk() == remembered(old(self).desk()),
            only_desk_differs(*old(self), *final(self)),
    {
        self.settings.sfm_last_selected = match self.sfm.open_place() {
            Some(i) => Some(self.sfm.files[i].path.clone()),
            None => None,
        };
        assert(self.desk() =~= remembered(old(self).desk()));
    }

    /// Selects a file, and sets its tags where some are given.
    fn sfm_switch_to(&mut self, idx: usize, tags: Option<Vec<SfmTagRow>>) -> (r: SfmStep)
        ensures
            final(self).desk() == switched(old(self).desk(), idx, tags.deep_view()).0,
            r@ == switched(old(self).desk(), idx, tags.deep_view()).1,
            only_desk_differs(*old(self), *final(self)),
    {
        let ghost e = emptied(Editor { selected: Some(idx), word: None, ..self.sfm@ });
        self.sfm.selected = Some(idx);
        self.sfm.pending_undo_word = None;
        self.sfm.clear_file();
        assert(self.sfm@ =~= e);
        self.sfm_persist_selection();
        let step = match self.sfm.open_place() {
            Some(i) => if self.sfm.files[i].is_cbz {
                Some(self.sfm.files[i].path.clone())
            } else {
                None
            },
            None => None,
        };
        match step {
            Some(path) => {
                let then = match tags {
                    Some(t) => SfmThen::Apply(t),
                    None => SfmThen::Stay,
                };
                SfmStep::Read { path, then }
            },
            None => {
                self.sfm.panel = SfmPanelState::Empty;
                match tags {
                    Some(t) => {
                        self.sfm.tags = t;
                    },
                    None => {},
                }
                assert(self.desk() =~= switched(old(self).desk(), idx, tags.deep_view()).0);
                SfmStep::Done
            },
        }
    }

    /// Goes where the user was going when unsaved changes were found.
    fn sfm_resolve_pending_nav(&mut self) -> (r: SfmStep)
        ensures
            final(self).desk() == resolved(old(self).desk()).0,
            r@ == resolved(old(self).desk()).1,
            only_desk_differs(*old(self), *final(self)),
    {
        match self.sfm.pending_nav {
            Some(SfmNavTarget::File(idx)) => {
                self.sfm.pending_nav = None;
                let tags = self.sfm.pending_undo_apply.take();
                proof {
                    let d = old(self).desk();
                    assert(self.desk() =~= Desk {
                        editor: Editor { nav: None, apply: None, ..d.editor },
                        ..d
                    });
                }
                self.sfm_switch_to(idx, tags)
            },
            Some(SfmNavTarget::ExitMode) => {
                self.sfm.pending_nav = None;
                self.settings.single_file_mode = false;
                assert(self.desk() =~= resolved(old(self).desk()).0);
                SfmStep::Done
            },
            None => SfmStep::Done,
        }
    }

    /// Goes on after an archive was read or written.
    fn sfm_proceed(&mut self, then: SfmThen) -> (r: SfmStep)
        ensures
            final(self).desk() == proceeded(old(self).desk(), then@).0,
            r@ == proceeded(old(self).desk(), then@).1,
            only_desk_differs(*old(self), *final(self)),
    {
        match then {
            SfmThen::Stay => SfmStep::Done,
            SfmThen::Leave => {
                self.settings.single_file_mode = false;
                assert(self.desk() =~= proceeded(old(self).desk(), then@).0);
                SfmStep::Done
            },
            SfmThen::Resolve => self.sfm_resolve_pending_nav(),
            SfmThen::Apply(tags) => {
                self.sfm_apply_undo_tags(tags);
                SfmStep::Done
            },
            SfmThen::Goto(idx, tags) => self.sfm_switch_to(idx, tags),
        }
    }

    /// Sets the tags of the selected file. They are not saved.
    fn sfm_apply_undo_tags(&mut self, tags: Vec<SfmTagRow>)
        ensures
            final(self).desk() == with_tags(old(self).desk(), tags.deep_view()),
            only_desk_differs(*old(self), *final(self)),
    {
        self.sfm.tags = tags;
        assert(self.desk() =~= with_tags(old(self).desk(), tags.deep_view()));
    }

    /// Saves the tags of the selected file, and goes on.
    fn sfm_save_then(&mut self, then: SfmThen) -> (r: SfmStep)
        ensures
            final(self).desk() == saving(old(self).desk(), then@).0,
            r@ == saving(old(self).desk(), then@).1,
            only_desk_differs(*old(self), *final(self)),
    {
        match self.sfm.open_place() {
            Some(i) => {
                let xml = write_tags(&self.sfm.tags);
                let path = self.sfm.files[i].path.clone();
                SfmStep::Write { path, xml, then }
            },
            None => self.sfm_proceed(then),
        }
    }

    /// Saves the tags of the selected file.
    pub fn sfm_save_current(&mut self) -> (r: SfmStep)
        ensures
            final(self).desk() == saving(old(self).desk(), Then::Stay).0,
            r@ == saving(old(self).desk(), Then::Stay).1,
            only_desk_differs(*old(self), *final(self)),
    {
        self.sfm_save_then(SfmThen::Stay)
    }

    /// Notes that the tags of the selected file are saved.
    fn sfm_mark_saved(&mut self)
        requires
            open_file(old(self).desk().editor) is Some,
        ensures
            final(self).desk() == saved(old(self).desk()),
            only_desk_differs(*old(self), *final(self)),
    {
        let name = self.sfm.open_name();
        self.sfm.loaded_tags = copy_tags(&self.sfm.tags);
        self.status = cat2("Saved ComicInfo.xml in ", name.as_str());
        assert(self.desk() =~= saved(old(self).desk()));
    }

    /// Tells that the tags of the selected file could not be saved.
    fn sfm_save_failed(&mut self, text: &str)
        requires
            open_file(old(self).desk().editor) is Some,
        ensures
            final(self).desk() == not_saved(old(self).desk(), text@),
            only_desk_differs(*old(self), *final(self)),
    {
        let name = self.sfm.open_name();
        self.notify(cat4("Couldn't save ", name.as_str(), ": ", text));
        assert(self.desk() =~= not_saved(old(self).desk(), text@));
    }

    /// Goes on after the selected file was written, or could not be.
    pub fn sfm_written(&mut self, error: Option<String>, then: SfmThen) -> (r: SfmStep)
        ensures
            final(self).desk() == after_write(old(self).desk(), error.deep_view(), then@).0,
            r@ == after_write(old(self).desk(), error.deep_view(), then@).1,
            only_desk_differs(*old(self), *final(self)),
    {
        match self.sfm.open_place() {
            Some(i) => match error {
                None => {
                    let is_cbz: bool = self.sfm.files[i].is_cbz;
                    let path = self.sfm.files[i].path.clone();
                    self.sfm_mark_saved();
                    if is_cbz {
                        let ghost d = self.desk();
                        self.sfm.clear_file();
                        assert(self.desk() =~= Desk { editor: emptied(d.editor), ..d });
                        SfmStep::Read { path, then }
                    } else {
                        self.sfm_proceed(then)
                    }
                },
                Some(text) => {
                    self.sfm_save_failed(text.as_str());
                    self.sfm_proceed(then)
                },
            },
            None => self.sfm_proceed(then),
        }
    }

    /// Goes on after the selected file was read.
    pub fn sfm_loaded(
        &mut self,
        reading: Result<ComicInfoReadResult, String>,
        then: SfmThen,
    ) -> (r: SfmStep)
        ensures
            final(self).desk() == after_read(old(self).desk(), reading_of(reading), then@).0,
            r@ == after_read(old(self).desk(), reading_of(reading), then@).1,
            only_desk_differs(*old(self), *final(self)),
    {
        let ghost d = self.desk();
        let ghost r = reading_of(reading);
        self.sfm.take_reading(reading);
        assert(self.desk() =~= Desk { editor: with_reading(d.editor, r), ..d });
        self.sfm_proceed(then)
    }

    /// Asks what to do with unsaved changes.
    fn sfm_ask(&mut self, nav: SfmNavTarget, apply: Option<Vec<SfmTagRow>>)
        ensures
            final(self).desk() == asked(old(self).desk(), nav, apply.deep_view()),
            only_desk_differs(*old(self), *final(self)),
    {
        self.sfm.pending_nav = Some(nav);
        self.sfm.pending_undo_apply = apply;
        self.dialog = Some(Dialog::SfmUnsavedChanges);
        assert(self.desk() =~= asked(old(self).desk(), nav, apply.deep_view()));
    }

    /// Selects a file. Unsaved changes are saved first or asked about.
    pub fn sfm_request_select(&mut self, idx: usize) -> (r: SfmStep)
        ensures
            final(self).desk() == selecting(old(self).desk(), idx).0,
            r@ == selecting(old(self).desk(), idx).1,
            only_desk_differs(*old(self), *final(self)),
    {
        let is_selected: bool = match self.sfm.selected {
            Some(i) => i == idx,
            None => false,
        };
        let none: Option<Vec<SfmTagRow>> = None;
        if is_selected {
            SfmStep::Done
        } else if self.sfm.dirty() {
            if self.settings.sfm_autosave_on_focus_change {
                self.sfm_save_then(SfmThen::Goto(idx, none))
            } else {
                self.sfm_ask(SfmNavTarget::File(idx), none);
                SfmStep::Done
            }
        } else {
            self.sfm_switch_to(idx, none)
        }
    }

    /// Deals with unsaved changes as the user chose.
    pub fn sfm_answer_unsaved(&mut self, choice: UnsavedChoice) -> (r: SfmStep)
        ensures
            final(self).desk() == answered(old(self).desk(), choice).0,
            r@ == answered(old(self).desk(), choice).1,
            only_desk_differs(*old(self), *final(self)),
    {
        let ghost d = self.desk();
        let ghost closed = Desk { dialog: Shown::Other(None), ..d };
        self.dialog = None;
        assert(self.desk() =~= closed);
        match choice {
            UnsavedChoice::Save => self.sfm_save_then(SfmThen::Resolve),
            UnsavedChoice::Discard => {
                self.sfm.tags = copy_tags(&self.sfm.loaded_tags);
                self.sfm.pending_undo_word = None;
                assert(self.desk() =~= Desk {
                    editor: Editor { tags: d.editor.loaded, word: None, ..d.editor },
                    ..closed
                });
                self.sfm_resolve_pending_nav()
            },
            UnsavedChoice::Cancel => SfmStep::Done,
        }
    }

    /// Opens what was open the last time.
    pub fn sfm_restore_last_session(&mut self) -> (r: SfmStep)
        ensures
            final(self).desk() == restoring(old(self).desk()).0,
            r@ == restoring(old(self).desk()).1,
            only_desk_differs(*old(self), *final(self)),
    {
        let wanted: Option<String> = match &self.settings.sfm_last_selected {
            Some(path) => Some(path.clone()),
            None => None,
        };
        match &self.settings.sfm_last_root {
            Some(root) => SfmStep::Look {
                root: root.clone(),
                is_folder: self.settings.sfm_last_is_folder,
                wanted,
            },
            None => SfmStep::Done,
        }
    }

    /// Starts or ends editing single archives. Unsaved changes are saved first or asked about.
    pub fn sfm_set_mode(&mut self, single: bool) -> (r: SfmStep)
        ensures
            final(self).desk() == mode_set(old(self).desk(), single).0,
            r@ == mode_set(old(self).desk(), single).1,
            only_desk_differs(*old(self), *final(self)),
    {
        let ghost d = self.desk();
        let none: Option<Vec<SfmTagRow>> = None;
        if self.settings.single_file_mode == single {
            SfmStep::Done
        } else if !single && self.sfm.dirty() {
            if self.settings.sfm_autosave_on_focus_change {
                self.sfm_save_then(SfmThen::Leave)
            } else {
                self.sfm_ask(SfmNavTarget::ExitMode, none);
                SfmStep::Done
            }
        } else {
            self.settings.single_file_mode = single;
            assert(self.desk() =~= Desk { single, ..d });
            if single && self.sfm.root.is_none() {
                self.sfm_restore_last_session()
            } else {
                SfmStep::Done
            }
        }
    }

    /// Tells that what was open the last time is not there any more, and forgets it.
    pub fn sfm_last_session_lost(&mut self)
        ensures
            final(self).desk() == lost(old(self).desk()),
            only_desk_differs(*old(self), *final(self)),
    {
        let notice: Option<String> = match &self.settings.sfm_last_root {
            Some(root) => Some(
                cat2(
                    "The Single File Mode item you had open last time is no longer there:\n",
                    root.as_str(),
                ),
            ),
            None => None,
        };
        match notice {
            Some(text) => {
                self.notify(text);
                self.settings.sfm_last_root = None;
                self.settings.sfm_last_selected = None;
            },
            None => {},
        }
        assert(self.desk() =~= lost(old(self).desk()));
    }

    /// Opens a file or a folder with the given files, and selects the wanted file where it is there.
    pub fn sfm_open_path(
        &mut self,
        root: String,
        is_folder: bool,
        files: &Vec<SfmFileEntry>,
        wanted: Option<String>,
    ) -> (r: SfmStep)
        ensures
            final(self).desk() == opened(
                old(self).desk(),
                root@,
                is_folder,
                files.deep_view(),
                wanted.deep_view(),
            ).0,
            r@ == opened(
                old(self).desk(),
                root@,
                is_folder,
                files.deep_view(),
                wanted.deep_view(),
            ).1,
            only_desk_differs(*old(self), *final(self)),
    {
        let ghost d = self.desk();
        let mut sfm = SfmState::new();
        sfm.files = sort_files(files);
        sfm.root = Some(root.clone());
        let first: usize = find_archive(&sfm.files);
        let fallback: Option<usize> = if first < sfm.files.len() {
            Some(first)
        } else {
            None
        };
        let start: Option<usize> = match &wanted {
            Some(path) => {
                let k: usize = find_file(&sfm.files, path.as_str());
                if k < sfm.files.len() {
                    Some(k)
                } else {
                    fallback
                }
            },
            None => fallback,
        };
        assert(start == starting_place(sorted_files(files.deep_view()), wanted.deep_view()));
        self.sfm = sfm;
        self.settings.sfm_last_root = Some(root);
        self.settings.sfm_last_is_folder = is_folder;
        assert(self.desk() =~= Desk {
            editor: Editor {
                root: Some(root@),
                files: sorted_files(files.deep_view()),
                ..blank_editor()
            },
            last_root: Some(root@),
            last_is_folder: is_folder,
            ..d
        });
        match start {
            Some(idx) => {
                let none: Option<Vec<SfmTagRow>> = None;
                self.sfm_switch_to(idx, none)
            },
            None => {
                self.sfm_persist_selection();
                SfmStep::Done
            },
        }
    }

    /// Starts new metadata for the selected file, given its name without the extension and the name of
    /// its folder.
    pub fn sfm_create_default(&mut self, title: &str, series: &str)
        ensures
            final(self).desk() == (Desk {
                editor: with_defaults(old(self).desk().editor, title@, series@),
                ..old(self).desk()
            }),
            only_desk_differs(*old(self), *final(self)),
    {
        self.sfm.create_default(title, series);
        assert(self.desk() =~= Desk {
            editor: with_defaults(old(self).desk().editor, title@, series@),
            ..old(self).desk()
        });
    }

    /// Notes a change to the tags of the selected file, given what they were before.
    fn sfm_push_undo(&mut self, before: Vec<SfmTagRow>)
        ensures
            final(self).desk() == pushed(old(self).desk(), before.deep_view()),
            only_desk_differs(*old(self), *final(self)),
    {
        let ghost d = self.desk();
        match self.sfm.open_place() {
            Some(i) => {
                let file = self.sfm.files[i].path.clone();
                let after = copy_tags(&self.sfm.tags);
                if self.sfm_undo_cursor < self.sfm_undo_stack.len() {
                    self.sfm_undo_stack.truncate(self.sfm_undo_cursor);
                }
                proof {
                    let kept = if d.cursor < d.changes.len() {
                        d.changes.take(d.cursor as int)
                    } else {
                        d.changes
                    };
                    assert(self.sfm_undo_stack.deep_view() =~= kept);
                }
                let ghost kept = self.sfm_undo_stack.deep_view();
                let entry = SfmUndoEntry { file, before, after };
                let ghost change = entry.deep_view();
                self.sfm_undo_stack.push(entry);
                assert(self.sfm_undo_stack.deep_view() =~= kept.push(change));
                self.sfm_undo_cursor = self.sfm_undo_stack.len();
                assert(self.desk() =~= pushed(d, before.deep_view()));
            },
            None => {},
        }
    }

    /// Goes to a file and sets its tags. Unsaved changes of another file are saved first or asked
    /// about.
    fn sfm_goto_undo_entry(&mut self, file: String, tags: Vec<SfmTagRow>) -> (r: SfmStep)
        ensures
            final(self).desk() == brought_back(old(self).desk(), file@, tags.deep_view()).0,
            r@ == brought_back(old(self).desk(), file@, tags.deep_view()).1,
            only_desk_differs(*old(self), *final(self)),
    {
        let ghost d = self.desk();
        let is_open: bool = match self.sfm.open_place() {
            Some(i) => same(self.sfm.files[i].path.as_str(), file.as_str()),
            None => false,
        };
        if is_open {
            self.sfm_apply_undo_tags(tags);
            return SfmStep::Done;
        }
        let k: usize = find_file(&self.sfm.files, file.as_str());
        if k >= self.sfm.files.len() {
            self.notify(
                String::from_str(
                    "Can't jump to that change -- the file it belongs to isn't open right now.",
                ),
            );
            assert(self.desk() =~= brought_back(d, file@, tags.deep_view()).0);
            SfmStep::Done
        } else if self.sfm.dirty() {
            if self.settings.sfm_autosave_on_focus_change {
                self.sfm_save_then(SfmThen::Goto(k, Some(tags)))
            } else {
                self.sfm_ask(SfmNavTarget::File(k), Some(tags));
                SfmStep::Done
            }
        } else {
            self.sfm_switch_to(k, Some(tags))
        }
    }

    /// Undoes the last change.
    pub fn sfm_undo(&mut self) -> (r: SfmStep)
        requires
            history_is_valid(old(self).desk()),
        ensures
            final(self).desk() == undone(old(self).desk()).0,
            r@ == undone(old(self).desk()).1,
            only_desk_differs(*old(self), *final(self)),
            history_is_valid(final(self).desk()),
    {
        if self.sfm_undo_cursor == 0 {
            return SfmStep::Done;
        }
        let ghost d = self.desk();
        let k: usize = self.sfm_undo_cursor - 1;
        let file = self.sfm_undo_stack[k].file.clone();
        let tags = copy_tags(&self.sfm_undo_stack[k].before);
        assert(d.changes[k as int] == self.sfm_undo_stack@[k as int].deep_view());
        self.sfm.pending_undo_word = None;
        self.sfm_undo_cursor = k;
        assert(self.desk() =~= at_change(d, k as nat));
        self.sfm_goto_undo_entry(file, tags)
    }

    /// Makes the last change that was undone again.
    pub fn sfm_redo(&mut self) -> (r: SfmStep)
        requires
            history_is_valid(old(self).desk()),
        ensures
            final(self).desk() == redone(old(self).desk()).0,
            r@ == redone(old(self).desk()).1,
            only_desk_differs(*old(self), *final(self)),
            history_is_valid(final(self).desk()),
    {
        if self.sfm_undo_cursor >= self.sfm_undo_stack.len() {
            return SfmStep::Done;
        }
        let ghost d = self.desk();
        let k: usize = self.sfm_undo_cursor;
        let file = self.sfm_undo_stack[k].file.clone();
        let tags = copy_tags(&self.sfm_undo_stack[k].after);
        assert(d.changes[k as int] == self.sfm_undo_stack@[k as int].deep_view());
        self.sfm.pending_undo_word = None;
        self.sfm_undo_cursor = k + 1;
        assert(self.desk() =~= at_change(d, (k + 1) as nat));
        self.sfm_goto_undo_entry(file, tags)
    }

    /// Notes what was edited since the tags were as `before`: a row that is to be removed, a word that
    /// is finished, rows that were moved, or text that was typed.
    pub fn sfm_edited(&mut self, before: Vec<SfmTagRow>, removed: Option<u64>, word_ended: bool)
        ensures
            final(self).desk() == edited(
                old(self).desk(),
                before.deep_view(),
                removed,
                word_ended,
            ),
            only_desk_differs(*old(self), *final(self)),
    {
        let ghost d = self.desk();
        match removed {
            Some(id) => {
                self.sfm.tags = drop_row(&self.sfm.tags, id);
                assert(self.desk() =~= with_tags(d, without_row(d.editor.tags, id)));
                self.sfm_push_undo(before);
            },
            None => {
                if word_ended {
                    let word = self.sfm.pending_undo_word.take();
                    assert(self.desk() =~= Desk { editor: Editor { word: None, ..d.editor }, ..d });
                    match word {
                        Some(w) => self.sfm_push_undo(w),
                        None => self.sfm_push_undo(before),
                    }
                } else if !same_rows(&self.sfm.tags, &before) {
                    if reordered(&self.sfm.tags, &before) {
                        self.sfm_push_undo(before);
                    } else if self.sfm.pending_undo_word.is_none() {
                        self.sfm.pending_undo_word = Some(before);
                        assert(self.desk() =~= edited(d, before.deep_view(), removed, word_ended));
                    }
                }
            },
        }
    }

    /// Adds a tag without a value, given what the tags were before.
    pub fn sfm_add_tag(&mut self, tag: &str, before: Vec<SfmTagRow>)
        ensures
            final(self).desk() == tag_added(old(self).desk(), tag@, before.deep_view()),
            only_desk_differs(*old(self), *final(self)),
    {
        let ghost d = self.desk();
        let id: u64 = self.sfm.next_row_id;
        self.sfm.next_row_id = next_id(id);
        let row = SfmTagRow { tag: String::from_str(tag), value: String::new(), id };
        let ghost view = row.deep_view();
        self.sfm.tags.push(row);
        proof {
            assert(view.1 =~= Seq::<char>::empty());
            assert(self.sfm.tags.deep_view() =~= d.editor.tags.push(view));
            assert(self.desk() =~= Desk {
                editor: Editor {
                    tags: d.editor.tags.push(view),
                    next_id: id_after(d.editor.next_id, 1),
                    ..d.editor
                },
                ..d
            });
        }
        self.sfm_push_undo(before);
    }
}

// ── Adding tags ─────────────────────────────────────────────────────────────────────────────────
/// The texts that are not among `taken`.
pub open spec fn not_among(texts: Seq<Seq<char>>, taken: Seq<Seq<char>>) -> Seq<Seq<char>>
    decreases texts.len(),
{
    if texts.len() == 0 {
        Seq::empty()
    } else if is_among(texts.last(), taken) {
        not_among(texts.drop_last(), taken)
    } else {
        not_among(texts.drop_last(), taken).push(texts.last())
    }
}

/// The tags that can be added to the metadata of an archive.
pub open spec fn editable_tags() -> Seq<Seq<char>> {
    field_table().map_values(|f: FieldSpec| f.tag@) + seq![
        "Title"@,
        "Number"@,
        "Volume"@,
        "Summary"@,
    ]
}

/// The texts in their order.
pub open spec fn sorted_texts(texts: Seq<Seq<char>>) -> Seq<Seq<char>> {
    picked(texts, stable_order(texts.len(), text_order(texts)))
}

/// The tags that are not there yet, in their order.
pub open spec fn addable_tags(rows: Seq<TagRow>) -> Seq<Seq<char>> {
    sorted_texts(not_among(editable_tags(), keys(pairs_of(rows))))
}

/// The texts that are not among `taken`.
pub fn leave_out(texts: &Vec<String>, taken: &Vec<String>) -> (r: Vec<String>)
    ensures
        r.deep_view() == not_among(texts.deep_view(), taken.deep_view()),
{
    let ghost all = texts.deep_view();
    let mut out: Vec<String> = Vec::new();
    let n: usize = texts.len();
    assert(out.deep_view() =~= not_among(all.take(0), taken.deep_view()));
    for i in 0..n
        invariant
            n == texts@.len(),
            all == texts.deep_view(),
            out.deep_view() == not_among(all.take(i as int), taken.deep_view()),
    {
        let ghost head = out.deep_view();
        proof {
            assert(all.take(i + 1).drop_last() =~= all.take(i as int));
            assert(all.take(i + 1).last() == texts@[i as int]@);
        }
        if !is_in(texts[i].as_str(), taken) {
            out.push(texts[i].clone());
            assert(out.deep_view() =~= head.push(texts@[i as int]@));
        }
    }
    assert(all.take(n as int) =~= all);
    out
}

/// The tags that can be added to the metadata of an archive.
fn list_editable_tags() -> (r: Vec<String>)
    ensures
        r.deep_view() == editable_tags(),
{
    let fields = comicinfo_fields();
    let mut out: Vec<String> = Vec::new();
    let n: usize = fields.len();
    for i in 0..n
        invariant
            n == fields@.len(),
            out@.len() == i,
            forall|k: int| 0 <= k < i ==> (#[trigger] out@[k])@ == fields@[k].tag@,
    {
        out.push(String::from_str(fields[i].tag));
    }
    out.push(String::from_str("Title"));
    out.push(String::from_str("Number"));
    out.push(String::from_str("Volume"));
    out.push(String::from_str("Summary"));
    assert(out.deep_view() =~= editable_tags());
    out
}

/// The texts in their order.
pub fn sort_texts(texts: &Vec<String>) -> (r: Vec<String>)
    ensures
        r.deep_view() == sorted_texts(texts.deep_view()),
{
    let order = sort_by_text(texts);
    let n: usize = texts.len();
    let mut out: Vec<String> = Vec::new();
    for i in 0..n
        invariant
            n == texts@.len(),
            is_stable_order(order@, n as nat, text_order(texts.deep_view())),
            out@.len() == i,
            forall|k: int| 0 <= k < i ==> (#[trigger] out@[k])@ == texts@[order@[k] as int]@,
    {
        out.push(texts[order[i]].clone());
    }
    assert(out.deep_view() =~= picked(texts.deep_view(), order@));
    out
}

/// Whether a word ends with what was typed: behind a blank, or where the field is left.
pub fn ends_word(value: &str, lost_focus: bool) -> (r: bool)
    ensures
        r == (lost_focus || (value@.len() > 0 && is_space(value@.last()))),
{
    let v = chars_of(value);
    let n: usize = v.len();
    lost_focus || (n > 0 && is_space_char(v[n - 1]))
}

/// What is told of tags that are not known.
pub open spec fn foreign_text(foreign: Seq<Seq<char>>) -> Seq<char> {
    "This file has "@ + decimal_text(foreign.len()) + " tag"@ + (if foreign.len() == 1 {
        ""@
    } else {
        "s"@
    }) + " not recognized by this app: "@ + joined(foreign, ", "@)
        + ". They're shown below and will be kept if you save."@
}

/// What is told of tags that are not known.
pub fn foreign_notice(foreign: &Vec<String>) -> (r: String)
    ensures
        r@ == foreign_text(foreign.deep_view()),
{
    let n: usize = foreign.len();
    let count = text_of_u64(n as u64);
    let list = join(foreign, ", ");
    assert(foreign.deep_view().len() == n);
    cat7(
        "This file has ",
        count.as_str(),
        " tag",
        if n == 1 {
            ""
        } else {
            "s"
        },
        " not recognized by this app: ",
        list.as_str(),
        ". They're shown below and will be kept if you save.",
    )
}

impl SfmState {
    /// The tags that are not there yet, in their order.
    pub fn addable_tags(&self) -> (r: Vec<String>)
        ensures
            r.deep_view() == addable_tags(self@.tags),
    {
        let mut taken: Vec<String> = Vec::new();
        let n: usize = self.tags.len();
        for i in 0..n
            invariant
                n == self.tags@.len(),
                taken@.len() == i,
                forall|k: int| 0 <= k < i ==> (#[trigger] taken@[k])@ == self.tags@[k].tag@,
        {
            taken.push(self.tags[i].tag.clone());
        }
        assert(taken.deep_view() =~= keys(pairs_of(self@.tags)));
        let all = list_editable_tags();
        let free = leave_out(&all, &taken);
        sort_texts(&free)
    }
}

// ── Laws ────────────────────────────────────────────────────────────────────────────────────────
/// A file whose metadata was just read has no unsaved changes.
pub proof fn lemma_read_is_clean(e: Editor, r: Reading)
    ensures
        !is_dirty(with_reading(emptied(e), r)),
{
}

/// Saving leaves no unsaved changes, and keeps the tags.
pub proof fn lemma_saved_is_clean(d: Desk)
    ensures
        !is_dirty(saved(d).editor),
        saved(d).editor.tags == d.editor.tags,
{
}

/// What could not be saved is still there, and the user is told.
pub proof fn lemma_failed_save_keeps_edits(d: Desk, text: Seq<char>)
    requires
        open_file(d.editor) is Some,
    ensures
        ({
            let (after, step) = after_write(d, Some(text), Then::Stay);
            &&& after.editor == d.editor
            &&& after.dialog == Shown::Notice(
                "Couldn't save "@ + (open_file(d.editor)->0).1 + ": "@ + text,
            )
            &&& step == Step::Done
        }),
{
}

/// Where another file is chosen and changes are not saved by themselves, no unsaved change is lost: the
/// user is asked, and the tags, the selection and the history stay as they are.
pub proof fn lemma_unsaved_changes_are_asked_about(d: Desk, idx: usize)
    requires
        is_dirty(d.editor),
        !d.autosave,
        d.editor.selected != Some(idx),
    ensures
        ({
            let (after, step) = selecting(d, idx);
            &&& step == Step::Done
            &&& after.dialog == Shown::Unsaved
            &&& after.editor.nav == Some(SfmNavTarget::File(idx))
            &&& after.editor.tags == d.editor.tags
            &&& after.editor.loaded == d.editor.loaded
            &&& after.editor.selected == d.editor.selected
            &&& after.changes == d.changes
            &&& after.cursor == d.cursor
        }),
{
}

/// Where another file is chosen and changes are saved by themselves, the tags are written before
/// anything else is done.
pub proof fn lemma_unsaved_changes_are_written(d: Desk, idx: usize)
    requires
        is_dirty(d.editor),
        d.autosave,
        d.editor.selected != Some(idx),
        open_file(d.editor) is Some,
    ensures
        selecting(d, idx) == (
            d,
            Step::Write(
                (open_file(d.editor)->0).0,
                written(d.editor.tags),
                Then::Goto(idx, None),
            ),
        ),
{
}

/// To cancel keeps what was edited, and where the user was going.
pub proof fn lemma_cancel_keeps_edits(d: Desk)
    ensures
        answered(d, UnsavedChoice::Cancel).0.editor == d.editor,
        answered(d, UnsavedChoice::Cancel).1 == Step::Done,
{
}

/// To discard brings back what was last loaded or saved: leaving the mode then keeps the file open,
/// without changes.
pub proof fn lemma_discard_reverts(d: Desk)
    requires
        d.editor.nav == Some(SfmNavTarget::ExitMode),
    ensures
        ({
            let (after, step) = answered(d, UnsavedChoice::Discard);
            &&& after.editor.tags == d.editor.loaded
            &&& !is_dirty(after.editor)
            &&& after.editor.files == d.editor.files
            &&& after.editor.selected == d.editor.selected
            &&& !after.single
            &&& step == Step::Done
        }),
{
}

/// Undoing a change that was just made brings the tags back that were there before it.
pub proof fn lemma_undo_brings_back(d: Desk, before: Seq<TagRow>)
    requires
        history_is_valid(d),
        open_file(d.editor) is Some,
    ensures
        ({
            let (after, step) = undone(pushed(d, before));
            &&& step == Step::Done
            &&& after.editor.tags == before
            &&& after.cursor == d.cursor
            &&& after.editor.loaded == d.editor.loaded
        }),
{
}

/// Redoing what was just undone restores the desk, where the tags are those after the change.
pub proof fn lemma_redo_restores(d: Desk)
    requires
        history_is_valid(d),
        d.cursor > 0,
        open_file(d.editor) is Some,
        (open_file(d.editor)->0).0 == d.changes[d.cursor - 1].0,
        d.editor.tags == d.changes[d.cursor - 1].2,
        d.editor.word is None,
    ensures
        undone(d).1 == Step::Done,
        redone(undone(d).0) == (d, Step::Done),
{
    let back = undone(d).0;
    assert(redone(back).0 =~= d);
}

/// Undoing what was just redone restores the desk, where the tags are those before the change.
pub proof fn lemma_undo_restores(d: Desk)
    requires
        d.cursor < d.changes.len(),
        open_file(d.editor) is Some,
        (open_file(d.editor)->0).0 == d.changes[d.cursor as int].0,
        d.editor.tags == d.changes[d.cursor as int].1,
        d.editor.word is None,
    ensures
        redone(d).1 == Step::Done,
        undone(redone(d).0) == (d, Step::Done),
{
    let ahead = redone(d).0;
    assert(undone(ahead).0 =~= d);
}

/// After a new change nothing can be redone.
pub proof fn lemma_change_ends_redo(d: Desk, before: Seq<TagRow>)
    requires
        history_is_valid(d),
        open_file(d.editor) is Some,
    ensures
        pushed(d, before).cursor == pushed(d, before).changes.len(),
        redone(pushed(d, before)) == (pushed(d, before), Step::Done),
        pushed(d, before).changes.drop_last() == d.changes.take(d.cursor as int),
{
    let kept = if d.cursor < d.changes.len() {
        d.changes.take(d.cursor as int)
    } else {
        d.changes
    };
    assert(kept =~= d.changes.take(d.cursor as int));
    assert(pushed(d, before).changes.drop_last() =~= kept);
}

/// Whatever is done, the history stays in order.
pub proof fn lemma_history_stays_valid(
    d: Desk,
    then: Then,
    idx: usize,
    error: Option<Seq<char>>,
    reading: Reading,
    choice: UnsavedChoice,
    single: bool,
    before: Seq<TagRow>,
    removed: Option<u64>,
    word_ended: bool,
    tag: Seq<char>,
    root: Seq<char>,
    files: Seq<FileView>,
    wanted: Option<Seq<char>>,
)
    requires
        history_is_valid(d),
    ensures
        history_is_valid(saving(d, then).0),
        history_is_valid(after_write(d, error, then).0),
        history_is_valid(after_read(d, reading, then).0),
        history_is_valid(selecting(d, idx).0),
        history_is_valid(answered(d, choice).0),
        history_is_valid(mode_set(d, single).0),
        history_is_valid(undone(d).0),
        history_is_valid(redone(d).0),
        history_is_valid(edited(d, before, removed, word_ended)),
        history_is_valid(tag_added(d, tag, before)),
        history_is_valid(opened(d, root, single, files, wanted).0),
        history_is_valid(restoring(d).0),
        history_is_valid(lost(d)),
{
}

/// A file that is chosen and can be edited is remembered as the last one, and read.
pub proof fn lemma_chosen_file_is_read(d: Desk, idx: usize)
    requires
        !is_dirty(d.editor),
        d.editor.selected != Some(idx),
        idx < d.editor.files.len(),
        d.editor.files[idx as int].2,
    ensures
        selecting(d, idx).1 == Step::Read(d.editor.files[idx as int].0, Then::Stay),
        selecting(d, idx).0.editor.selected == Some(idx),
        selecting(d, idx).0.last_selected == Some(d.editor.files[idx as int].0),
        selecting(d, idx).0.editor.word is None,
{
}

/// A file that stands among some files has a place there.
proof fn lemma_file_has_place(files: Seq<FileView>, k: int)
    requires
        0 <= k < files.len(),
    ensures
        file_place(files, files[k].0) < files.len(),
        files[file_place(files, files[k].0) as int].0 == files[k].0,
    decreases files.len(),
{
    if files[0].0 != files[k].0 {
        assert(files.skip(1)[k - 1] == files[k]);
        lemma_file_has_place(files.skip(1), k - 1);
    }
}

/// What was open the last time is opened again with the file selected that was selected then, as far as
/// it is still there.
pub proof fn lemma_remembered_file_is_selected(d: Desk, files: Seq<FileView>, k: int)
    requires
        d.last_root is Some,
        files.len() <= usize::MAX,
        0 <= k < files.len(),
        d.last_selected == Some(files[k].0),
    ensures
        restoring(d).1 == Step::Look(d.last_root->0, d.last_is_folder, d.last_selected),
        open_file(
            opened(d, d.last_root->0, d.last_is_folder, files, d.last_selected).0.editor,
        ) matches Some(f) && f.0 == files[k].0,
{
    let sorted = sorted_files(files);
    let n = files.len();
    let le = row_order(sort_keys(file_names(files)));
    let r = stable_order(n, le);
    lemma_row_order(sort_keys(file_names(files)));
    lemma_stable_order_exists(n as usize, le);
    lemma_stable_order_lists_all(r, n, le, k);
    let i = choose|i: int| 0 <= i < n && r[i] == k;
    assert(sorted[i] == files[k]);
    lemma_file_has_place(sorted, i);
}

proof fn lemma_collected_distinct(pairs: Seq<Pair>)
    requires
        keys(pairs).no_duplicates(),
    ensures
        collected(pairs) == pairs,
    decreases pairs.len(),
{
    if pairs.len() > 0 {
        let front = pairs.drop_last();
        let (key, value) = pairs.last();
        assert(keys(front) =~= keys(pairs).drop_last());
        assert forall|i: int, j: int| 0 <= i < keys(front).len() && 0 <= j < keys(front).len() && i
            != j implies keys(front)[i] != keys(front)[j] by {
            assert(keys(pairs)[i] != keys(pairs)[j]);
        }
        lemma_collected_distinct(front);
        assert forall|i: int| 0 <= i < front.len() implies #[trigger] keys(front)[i] != key by {
            assert(keys(pairs)[i] != keys(pairs)[pairs.len() - 1]);
        }
        lemma_place_is(keys(front), key, front.len());
        assert(front.push((key, value)) =~= pairs);
    }
}

/// Tags that are written in the order in which they stand keep it.
proof fn lemma_own_order(pairs: Seq<Pair>)
    requires
        keys(pairs).no_duplicates(),
        pairs.len() <= usize::MAX,
    ensures
        arranged(pairs, keys(pairs)) == pairs,
{
    let order = keys(pairs);
    let n = pairs.len();
    let all = ranks(pairs, order);
    let le = rank_order(all);
    let own = Seq::new(n, |i: int| i as usize);
    assert forall|i: int| 0 <= i < n implies #[trigger] all[i] == i by {
        assert(order[i] == pairs[i].0);
        assert forall|k: int| 0 <= k < i implies #[trigger] order[k] != order[i] by {}
        lemma_place_is(order, pairs[i].0, i as nat);
    }
    assert forall|i: int, j: int| 0 <= i < j < n implies precedes(
        le,
        #[trigger] own[i] as int,
        #[trigger] own[j] as int,
    ) by {
        assert(all[i] == i && all[j] == j);
    }
    assert(is_stable_order(own, n, le));
    lemma_stable_order_exists(n as usize, le);
    lemma_stable_order_unique(own, stable_order(n, le), n, le);
    assert(picked(pairs, own) =~= pairs);
}

/// What is saved can be read again: the tags with their values, in the order in which they are shown.
/// Only a volume without a value is not saved.
pub proof fn lemma_saved_tags_are_read(rows: Seq<TagRow>)
    requires
        rows.len() <= usize::MAX,
        keys(pairs_of(rows)).no_duplicates(),
        forall|i: int| 0 <= i < rows.len() ==> is_name((#[trigger] rows[i]).0),
    ensures
        document_tags(written(rows)) == Some(kept(pairs_of(rows))),
{
    let pairs = pairs_of(rows);
    lemma_collected_distinct(pairs);
    lemma_own_order(pairs);
    assert forall|k: int| 0 <= k < pairs.len() implies is_name((#[trigger] pairs[k]).0) by {
        assert(pairs[k].0 == rows[k].0);
    }
    lemma_document_is_read(pairs, keys(pairs));
}

/// After saving, and reading what was written, the editor shows what was saved, without changes.
pub proof fn lemma_save_and_read_keeps_tags(d: Desk)
    requires
        open_file(d.editor) is Some,
        (open_file(d.editor)->0).2,
        d.editor.tags.len() <= usize::MAX,
        keys(pairs_of(d.editor.tags)).no_duplicates(),
        forall|i: int| 0 <= i < d.editor.tags.len() ==> is_name((#[trigger] d.editor.tags[i]).0),
    ensures
        ({
            let xml = written(d.editor.tags);
            let (waiting, _) = after_write(d, None, Then::Stay);
            let read = document_tags(xml)->0;
            let (after, step) = after_read(waiting, Reading::Found(read), Then::Stay);
            &&& pairs_of(after.editor.tags) == kept(pairs_of(d.editor.tags))
            &&& !is_dirty(after.editor)
            &&& after.editor.panel == Panel::Editing
            &&& step == Step::Done
        }),
{
    lemma_saved_tags_are_read(d.editor.tags);
    let read = kept(pairs_of(d.editor.tags));
    assert(pairs_of(numbered(read, d.editor.next_id)) =~= read);
}

/// The tags that are told to be unknown are those that are neither a field nor worked out for each file.
pub proof fn lemma_foreign_tags(pairs: Seq<Pair>, tag: Seq<char>)
    ensures
        foreign_tags(pairs).contains(tag) <==> keys(pairs).contains(tag) && field_of(tag) is None && tag
            != "Title"@ && tag != "Number"@ && tag != "Volume"@ && tag != "Summary"@,
    decreases pairs.len(),
{
    let r = foreign_tags(pairs);
    let names = keys(pairs);
    if pairs.len() > 0 {
        let t = pairs.drop_last();
        let head = foreign_tags(t);
        lemma_foreign_tags(t, tag);
        assert(names.drop_last() =~= keys(t));
        assert(names.last() == pairs.last().0);
        if names.contains(tag) {
            let i = choose|i: int| 0 <= i < names.len() && names[i] == tag;
            if i < t.len() {
                assert(keys(t)[i] == tag);
            }
        }
        if keys(t).contains(tag) {
            let i = choose|i: int| 0 <= i < t.len() && keys(t)[i] == tag;
            assert(names[i] == tag);
        }
        if tag == pairs.last().0 {
            assert(names[names.len() - 1] == tag);
        }
        if head.contains(tag) {
            let i = choose|i: int| 0 <= i < head.len() && head[i] == tag;
            assert(r[i] == tag);
        }
        if r.len() > head.len() {
            assert(r[head.len() as int] == pairs.last().0);
            if r.contains(tag) {
                let i = choose|i: int| 0 <= i < r.len() && r[i] == tag;
                if i < head.len() {
                    assert(head[i] == tag);
                }
            }
        }
    }
}

proof fn lemma_first_archive(files: Seq<FileView>)
    ensures
        archive_place(files) <= files.len(),
        archive_place(files) < files.len() ==> files[archive_place(files) as int].2,
        forall|i: int| 0 <= i < archive_place(files) ==> !(#[trigger] files[i]).2,
    decreases files.len(),
{
    if files.len() > 0 && !files[0].2 {
        let rest = files.skip(1);
        lemma_first_archive(rest);
        assert forall|i: int| 0 <= i < archive_place(files) implies !(#[trigger] files[i]).2 by {
            if i > 0 {
                assert(rest[i - 1] == files[i]);
            }
        }
    }
}

/// Where no file is wanted, the first archive in the list is selected, and none only where there is no
/// archive.
pub proof fn lemma_first_archive_is_selected(files: Seq<FileView>)
    requires
        files.len() <= usize::MAX,
    ensures
        starting_place(files, None) matches Some(k) ==> k < files.len() && files[k as int].2 && forall|
            i: int,
        |
            0 <= i < k ==> !(#[trigger] files[i]).2,
        starting_place(files, None) is None ==> forall|i: int|
            0 <= i < files.len() ==> !(#[trigger] files[i]).2,
{
    lemma_first_archive(files);
}

/// The files of a folder are listed in the order of their names, in which numbers count by value.
pub proof fn lemma_files_are_sorted(files: Seq<FileView>, i: int, j: int)
    requires
        0 <= i < j < files.len() <= usize::MAX,
    ensures
        sorted_files(files).len() == files.len(),
        row_relation(sort_key(sorted_files(files)[i].1), sort_key(sorted_files(files)[j].1))
            != Relation::Above,
{
    let names = file_names(files);
    let le = row_order(sort_keys(names));
    let r = stable_order(files.len(), le);
    lemma_row_order(sort_keys(names));
    lemma_stable_order_exists(files.len() as usize, le);
    assert(precedes(le, r[i] as int, r[j] as int));
    assert(sort_keys(names)[r[i] as int] == sort_key(files[r[i] as int].1));
    assert(sort_keys(names)[r[j] as int] == sort_key(files[r[j] as int].1));
}

/// A row that is removed is gone, and the others stay.
pub proof fn lemma_removed_row(rows: Seq<TagRow>, id: u64, row: TagRow)
    ensures
        without_row(rows, id).contains(row) <==> rows.contains(row) && row.2 != id,
    decreases rows.len(),
{
    let r = without_row(rows, id);
    if rows.len() > 0 {
        let t = rows.drop_last();
        let head = without_row(t, id);
        lemma_removed_row(t, id, row);
        if rows.contains(row) {
            let i = choose|i: int| 0 <= i < rows.len() && rows[i] == row;
            if i < t.len() {
                assert(t[i] == row);
            }
        }
        if t.contains(row) {
            let i = choose|i: int| 0 <= i < t.len() && t[i] == row;
            assert(rows[i] == row);
        }
        if row == rows.last() {
            assert(rows[rows.len() - 1] == row);
        }
        if head.contains(row) {
            let i = choose|i: int| 0 <= i < head.len() && head[i] == row;
            assert(r[i] == row);
        }
        if r.len() > head.len() {
            assert(r[head.len() as int] == rows.last());
            if r.contains(row) {
                let i = choose|i: int| 0 <= i < r.len() && r[i] == row;
                if i < head.len() {
                    assert(head[i] == row);
                }
            }
        }
    }
}

} // verus!
