//! The state of the application, and what changes it.

use crate::decimal::{decimal_text, text_of_u64};
use crate::import::{
    copy_row,
    copy_rows,
    field_label,
    is_older_name,
    label_of,
    lemma_current_configuration_stays,
    lemma_settings_are_no_older_names,
    members_or_none,
    migrate_config,
    setting_names,
    string_members,
    with_older_fields,
};
use crate::naming::{
    detect_file_type,
    is_automatic,
    kind_of,
    lemma_first_number,
    lemma_prefix_is_fixed,
    natural_order,
    prefix_of,
    separator_of,
    sort_key,
    sort_keys,
};
use crate::natural::Relation;
use crate::number::{ascii_lower_all, at_most, number_of, parse_number, Number};
use crate::order::{
    lemma_row_order,
    lemma_row_relation,
    lemma_stable_order_exists,
    lemma_stable_order_lists_all,
    precedes,
    row_order,
    row_relation,
    stable_order,
};
use crate::sfm::{SfmState, SfmUndoEntry};
use crate::state::{
    AppConfig,
    AppSettings,
    Line,
    LogEntry,
    LogLevel,
    PostFinale,
    PrefixMode,
    RunStats,
    CURRENT_CONFIG_VERSION,
};
use crate::tags::{lookup, Pair, TagMap};
use crate::text::{
    cat2,
    cat3,
    cat4,
    cat5,
    cat6,
    cat7,
    chars_of,
    contains,
    contains_text,
    ends_with,
    find_from,
    first_index,
    has_suffix,
    leading,
    lemma_find_from,
    lemma_leading,
    lemma_trailing,
    lines_of,
    occurs_at,
    replace,
    replaced,
    same,
    split_lines,
    trailing,
    trim,
    trimmed,
};
use crate::unicode::{alphanumeric, is_alphanumeric, is_space, lower_text, lowered};
use crate::worker::{
    base_of,
    divider,
    divider_text,
    find_number,
    has_fraction,
    is_among,
    is_fractional,
    number_in,
    show_number,
    shown_number,
    WorkerConfig,
    WorkerMsg,
};
use vstd::prelude::*;

verus! {

/// The pages of the application.
#[derive(Clone, Copy, Debug, PartialEq, Eq, Hash, Structural)]
pub enum Tab {
    Paths,
    Processing,
    Metadata,
    Rules,
    Run,
}

impl Default for Tab {
    fn default() -> (r: Tab)
        ensures
            r == Tab::Paths,
    {
        Tab::Paths
    }
}

/// The kinds of rules.
#[derive(Clone, Copy, Debug, PartialEq, Eq, Structural)]
pub enum RuleTarget {
    Volume,
    Date,
    Summary,
}

/// A rule that is being edited.
#[derive(Clone, Debug)]
pub struct RuleEditState {
    pub target: RuleTarget,
    /// The place of the rule, where it is not new.
    pub row_idx: Option<usize>,
    pub labels: Vec<String>,
    pub values: Vec<String>,
    pub is_new: bool,
    /// Whether the range is a single number.
    pub same_start_end: bool,
}

/// A file whose number has a fraction, and the label chosen for it.
#[derive(Clone, Debug)]
pub struct DecimalState {
    pub filename: String,
    pub raw_title: String,
    pub choice: u8,
    pub custom: String,
}

/// What the user is asked or told.
#[derive(Clone, Debug)]
pub enum Dialog {
    EditRule(RuleEditState),
    Decimal(DecimalState),
    ResumeSession { cbz_files: Vec<String>, processed_set: Vec<String>, count: usize },
    FinalChapter {
        cbz_files: Vec<String>,
        processed_set: Vec<String>,
        resume: bool,
        finale_num: String,
        finale_idx: usize,
    },
    Notice(String),
    ConfirmReset,
    ConfirmClearLog,
    /// All rules of a kind are to be removed.
    ConfirmClearAllRules(RuleTarget),
    /// Fields of the constant metadata are empty.
    EmptyFieldsWarning { fields: Vec<String>, cbzs: Vec<String> },
    /// A field of constant metadata is to be added.
    AddMetadataTag,
    /// The order of tags is to be changed.
    ReorderTags,
    /// What was taken over from a file.
    ImportResult { filename: String, items: Vec<(String, String)> },
    HelpText { title: String, body: String },
    /// The archive being edited has unsaved changes.
    SfmUnsavedChanges,
}

/// What a path is chosen for.
#[derive(Clone, Debug)]
pub enum PathPick {
    Folder,
    TitlesJson,
    DateJson,
    LoadConfig,
    SaveConfig(String),
    ImportMeta,
    OutputPath,
    SfmFile,
    SfmFolder,
}

/// The counters of a run as they are shown.
#[derive(Clone, Copy, Debug, PartialEq, Eq, Structural)]
pub struct DisplayStats {
    pub total: usize,
    pub processed: usize,
    pub renamed: usize,
    pub skipped: usize,
    pub xml: usize,
    pub errors: usize,
}

impl Default for DisplayStats {
    fn default() -> (r: DisplayStats)
        ensures
            r == (DisplayStats {
                total: 0,
                processed: 0,
                renamed: 0,
                skipped: 0,
                xml: 0,
                errors: 0,
            }),
    {
        DisplayStats { total: 0, processed: 0, renamed: 0, skipped: 0, xml: 0, errors: 0 }
    }
}

/// The counters of a run as they are shown.
pub open spec fn displayed(s: RunStats) -> DisplayStats {
    DisplayStats {
        total: s.total,
        processed: s.processed,
        renamed: s.renamed,
        skipped: s.rename_skipped,
        xml: s.xml_updated,
        errors: s.errors,
    }
}

/// The counters of a run as they are shown.
pub fn display_stats(s: RunStats) -> (r: DisplayStats)
    ensures
        r == displayed(s),
{
    DisplayStats {
        total: s.total,
        processed: s.processed,
        renamed: s.renamed,
        skipped: s.rename_skipped,
        xml: s.xml_updated,
        errors: s.errors,
    }
}

/// A run that is to be started: the files, those already done, and whether it is resumed.
#[derive(Debug)]
pub struct PendingStart {
    pub cbz_files: Vec<String>,
    pub processed_set: Vec<String>,
    pub resume: bool,
}

/// The state of the application.
pub struct ComicInfoApp {
    pub cfg: AppConfig,
    pub tab: Tab,
    pub sep_preview: String,
    pub status: String,
    pub verbose: bool,
    pub settings: AppSettings,
    pub vol_sel: Option<usize>,
    pub date_sel: Option<usize>,
    pub summ_sel: Option<usize>,
    pub meta_field_sel: Option<String>,
    pub dialog: Option<Dialog>,
    pub running: bool,
    /// How many files are done, of how many.
    pub progress: (usize, usize),
    pub disp_stats: DisplayStats,
    pub log: Vec<LogEntry>,
    /// The lines about each file of the run, in the order of the files.
    pub file_slots: Vec<Option<Vec<LogEntry>>>,
    /// The lines that close the run.
    pub log_footer: Vec<LogEntry>,
    pub pending_start: Option<PendingStart>,
    pub sfm: SfmState,
    /// The changes to tags, and how many of them are in effect.
    pub sfm_undo_stack: Vec<SfmUndoEntry>,
    pub sfm_undo_cursor: usize,
}

/// The text of the notice that is shown, where one is.
pub open spec fn notice_of(dialog: Option<Dialog>) -> Option<Seq<char>> {
    match dialog {
        Some(Dialog::Notice(text)) => Some(text@),
        _ => None,
    }
}

// ── Log ─────────────────────────────────────────────────────────────────────────────────────────
/// The lines of the slots that are filled.
pub open spec fn slot_lines(slots: Seq<Option<Vec<LogEntry>>>) -> Seq<Line>
    decreases slots.len(),
{
    if slots.len() == 0 {
        Seq::empty()
    } else {
        slot_lines(slots.drop_last()) + match slots.last() {
            Some(entries) => entries.deep_view(),
            None => Seq::empty(),
        }
    }
}

/// The log, as it is shown: what came before, the lines about each file, and the lines that close the
/// run.
pub open spec fn shown_log(app: ComicInfoApp) -> Seq<Line> {
    app.log.deep_view() + slot_lines(app.file_slots@) + app.log_footer.deep_view()
}

/// Appends a line to a log.
fn push_entry(log: &mut Vec<LogEntry>, text: String, level: LogLevel)
    ensures
        final(log).deep_view() == old(log).deep_view().push((text@, level)),
{
    let ghost line = (text@, level);
    log.push(LogEntry { text, level });
    assert(log.deep_view() =~= old(log).deep_view().push(line));
}

/// The lines about a file as entries of the log.
fn entries_of(lines: Vec<(String, LogLevel)>) -> (r: Vec<LogEntry>)
    ensures
        r.deep_view() == lines.deep_view(),
{
    let mut out: Vec<LogEntry> = Vec::new();
    let n: usize = lines.len();
    for i in 0..n
        invariant
            n == lines@.len(),
            out@.len() == i,
            forall|k: int|
                0 <= k < i ==> (#[trigger] out@[k]).deep_view() == lines@[k].deep_view(),
    {
        out.push(LogEntry { text: lines[i].0.clone(), level: lines[i].1 });
    }
    assert(out.deep_view() =~= lines.deep_view());
    out
}

/// Appends some lines to a log.
fn append_entries(log: &mut Vec<LogEntry>, mut more: Vec<LogEntry>)
    ensures
        final(log).deep_view() == old(log).deep_view() + more.deep_view(),
{
    let ghost first = log.deep_view();
    let ghost second = more.deep_view();
    log.append(&mut more);
    assert(log.deep_view() =~= first + second);
}

/// The lines of an entry list, copied.
fn copy_entries(entries: &Vec<LogEntry>) -> (r: Vec<LogEntry>)
    ensures
        r.deep_view() == entries.deep_view(),
{
    let mut out: Vec<LogEntry> = Vec::new();
    let n: usize = entries.len();
    for i in 0..n
        invariant
            n == entries@.len(),
            out@.len() == i,
            forall|k: int|
                0 <= k < i ==> (#[trigger] out@[k]).deep_view() == entries@[k].deep_view(),
    {
        out.push(LogEntry { text: entries[i].text.clone(), level: entries[i].level });
    }
    assert(out.deep_view() =~= entries.deep_view());
    out
}

/// What the screen does after a message.
#[derive(Clone, Copy, Debug, PartialEq, Eq, Structural)]
pub enum PollStep {
    /// The next message can be read; the flag tells whether the screen has to be drawn anew.
    Next { repaint: bool },
    /// No message is read until the user has answered.
    Pause,
    /// The run is over; the flag tells whether a sound is played.
    Finished { sound: bool },
}

/// The line on the outcome of a run.
pub open spec fn done_line(ts: Seq<char>, stats: RunStats) -> Line {
    if stats.errors > 0 {
        (
            "  [DONE] "@ + ts + "  -  "@ + decimal_text(stats.errors as nat) + " errors"@,
            LogLevel::Warn,
        )
    } else {
        (
            "  [DONE] "@ + ts + "  -  "@ + decimal_text(stats.processed as nat)
                + " processed  -  "@ + decimal_text(stats.renamed as nat)
                + " renamed  -  0 errors"@,
            LogLevel::Success,
        )
    }
}

/// The status after a run.
pub open spec fn done_status(stats: RunStats) -> Seq<char> {
    if stats.errors > 0 {
        "Done  -  "@ + decimal_text(stats.errors as nat) + " error(s)."@
    } else {
        "Done."@
    }
}

fn done_text(ts: &str, stats: &RunStats) -> (r: String)
    ensures
        r@ == done_line(ts@, *stats).0,
{
    if stats.errors > 0 {
        let n = text_of_u64(stats.errors as u64);
        cat5("  [DONE] ", ts, "  -  ", n.as_str(), " errors")
    } else {
        let p = text_of_u64(stats.processed as u64);
        let r = text_of_u64(stats.renamed as u64);
        cat7(
            "  [DONE] ",
            ts,
            "  -  ",
            p.as_str(),
            " processed  -  ",
            r.as_str(),
            " renamed  -  0 errors",
        )
    }
}

fn done_status_text(stats: &RunStats) -> (r: String)
    ensures
        r@ == done_status(*stats),
{
    if stats.errors > 0 {
        let n = text_of_u64(stats.errors as u64);
        cat3("Done  -  ", n.as_str(), " error(s).")
    } else {
        String::from_str("Done.")
    }
}

/// What a message does to the state of the application, at the time `ts`.
pub open spec fn after_message(
    a: ComicInfoApp,
    msg: WorkerMsg,
    ts: Seq<char>,
    b: ComicInfoApp,
    step: PollStep,
) -> bool {
    match msg {
        WorkerMsg::Log { text, level } => {
            &&& b.log.deep_view() == a.log.deep_view().push((text@, level))
            &&& b == (ComicInfoApp { log: b.log, ..a })
            &&& step == (PollStep::Next { repaint: true })
        },
        WorkerMsg::LogBatch { idx, lines } => {
            &&& step == (PollStep::Next { repaint: true })
            &&& if idx < a.file_slots@.len() {
                &&& b.file_slots@.len() == a.file_slots@.len()
                &&& forall|k: int|
                    0 <= k < a.file_slots@.len() && k != idx ==> #[trigger] b.file_slots@[k]
                        == a.file_slots@[k]
                &&& b.file_slots@[idx as int] matches Some(entries) && entries.deep_view()
                    == lines.deep_view()
                &&& b == (ComicInfoApp { file_slots: b.file_slots, ..a })
            } else {
                &&& b.log.deep_view() == a.log.deep_view() + lines.deep_view()
                &&& b == (ComicInfoApp { log: b.log, ..a })
            }
        },
        WorkerMsg::Progress { done, total } => {
            &&& b == (ComicInfoApp { progress: (done, total), ..a })
            &&& step == (PollStep::Next { repaint: true })
        },
        WorkerMsg::Stats { stats } => {
            &&& b == (ComicInfoApp { disp_stats: displayed(stats), ..a })
            &&& step == (PollStep::Next { repaint: false })
        },
        WorkerMsg::DecimalRequest { filename, raw_title } => {
            &&& b.dialog matches Some(Dialog::Decimal(ds)) && ds.filename == filename
                && ds.raw_title == raw_title && ds.choice == 1 && ds.custom@ == ""@
            &&& b == (ComicInfoApp { dialog: b.dialog, ..a })
            &&& step == PollStep::Pause
        },
        WorkerMsg::Done { stats } => {
            &&& b.log_footer.deep_view() == a.log_footer.deep_view() + seq![
                (divider(), LogLevel::Sep),
                done_line(ts, stats),
                (divider(), LogLevel::Sep),
            ]
            &&& b.status@ == done_status(stats)
            &&& b == (ComicInfoApp {
                running: false,
                disp_stats: displayed(stats),
                log_footer: b.log_footer,
                status: b.status,
                ..a
            })
            &&& step == (PollStep::Finished { sound: a.settings.play_sound_on_completion })
        },
    }
}

impl ComicInfoApp {
    /// Takes a message of the run in, at the time `ts`.
    pub fn handle_message(&mut self, msg: WorkerMsg, ts: &str) -> (r: PollStep)
        ensures
            after_message(*old(self), msg, ts@, *final(self), r),
    {
        match msg {
            WorkerMsg::Log { text, level } => {
                push_entry(&mut self.log, text, level);
                PollStep::Next { repaint: true }
            },
            WorkerMsg::LogBatch { idx, lines } => {
                let entries = entries_of(lines);
                if idx < self.file_slots.len() {
                    self.file_slots.set(idx, Some(entries));
                } else {
                    append_entries(&mut self.log, entries);
                }
                PollStep::Next { repaint: true }
            },
            WorkerMsg::Progress { done, total } => {
                self.progress = (done, total);
                PollStep::Next { repaint: true }
            },
            WorkerMsg::Stats { stats } => {
                self.disp_stats = display_stats(stats);
                PollStep::Next { repaint: false }
            },
            WorkerMsg::DecimalRequest { filename, raw_title } => {
                self.dialog = Some(
                    Dialog::Decimal(
                        DecimalState {
                            filename,
                            raw_title,
                            choice: 1,
                            custom: String::from_str(""),
                        },
                    ),
                );
                PollStep::Pause
            },
            WorkerMsg::Done { stats } => {
                let ghost before = self.log_footer.deep_view();
                self.running = false;
                self.disp_stats = display_stats(stats);
                push_entry(&mut self.log_footer, divider_text(), LogLevel::Sep);
                let level = if stats.errors > 0 {
                    LogLevel::Warn
                } else {
                    LogLevel::Success
                };
                push_entry(&mut self.log_footer, done_text(ts, &stats), level);
                push_entry(&mut self.log_footer, divider_text(), LogLevel::Sep);
                assert(self.log_footer.deep_view() =~= before + seq![
                    (divider(), LogLevel::Sep),
                    done_line(ts@, stats),
                    (divider(), LogLevel::Sep),
                ]);
                self.status = done_status_text(&stats);
                PollStep::Finished { sound: self.settings.play_sound_on_completion }
            },
        }
    }

    /// Notes that the run ended without a word.
    pub fn run_disconnected(&mut self)
        ensures
            *final(self) == (ComicInfoApp { running: false, ..*old(self) }),
    {
        self.running = false;
    }

    /// Moves what the last run logged to the log that only grows.
    ///
    /// A run that was cut short has no closing lines; a divider stands in their place.
    pub fn archive_previous_run_log(&mut self)
        ensures
            ({
                let a = *old(self);
                let b = *final(self);
                if a.file_slots@.len() == 0 && a.log_footer@.len() == 0 {
                    b == a
                } else {
                    &&& b.log.deep_view() == a.log.deep_view() + slot_lines(a.file_slots@) + (
                    if a.log_footer@.len() == 0 {
                        seq![(divider(), LogLevel::Sep)]
                    } else {
                        a.log_footer.deep_view()
                    })
                    &&& b.file_slots@.len() == 0
                    &&& b.log_footer@.len() == 0
                    &&& b == (ComicInfoApp {
                        log: b.log,
                        file_slots: b.file_slots,
                        log_footer: b.log_footer,
                        ..a
                    })
                }
            }),
            old(self).log_footer@.len() > 0 ==> shown_log(*final(self)) == shown_log(*old(self)),
    {
        if self.file_slots.len() == 0 && self.log_footer.len() == 0 {
            return ;
        }
        let ghost start = self.log.deep_view();
        let ghost slots = self.file_slots@;
        let ghost before = *self;
        let n: usize = self.file_slots.len();
        let mut i: usize = 0;
        assert(slots.take(0) =~= Seq::<Option<Vec<LogEntry>>>::empty());
        assert(start + Seq::<Line>::empty() =~= start);
        while i < n
            invariant
                n == slots.len(),
                slots == self.file_slots@,
                i <= n,
                self.log.deep_view() == start + slot_lines(slots.take(i as int)),
                *self == (ComicInfoApp { log: self.log, ..before }),
            decreases n - i,
        {
            proof {
                assert(slots.take(i + 1).drop_last() =~= slots.take(i as int));
                assert(slots.take(i + 1).last() == slots[i as int]);
            }
            let ghost head = self.log.deep_view();
            match &self.file_slots[i] {
                Some(entries) => {
                    let more = copy_entries(entries);
                    append_entries(&mut self.log, more);
                    assert(self.log.deep_view() =~= start + slot_lines(slots.take(i + 1)));
                },
                None => {
                    assert(head =~= start + slot_lines(slots.take(i + 1)));
                },
            }
            i = i + 1;
        }
        assert(slots.take(n as int) =~= slots);
        let ghost middle = self.log.deep_view();
        self.file_slots = Vec::new();
        if self.log_footer.len() == 0 {
            push_entry(&mut self.log, divider_text(), LogLevel::Sep);
            assert(self.log.deep_view() =~= middle + seq![(divider(), LogLevel::Sep)]);
        } else {
            let footer = copy_entries(&self.log_footer);
            append_entries(&mut self.log, footer);
            self.log_footer = Vec::new();
            assert(shown_log(*self) =~= self.log.deep_view());
        }
    }
}

/// Slots whose lines are the same show the same lines.
proof fn lemma_same_slots(a: Seq<Option<Vec<LogEntry>>>, b: Seq<Option<Vec<LogEntry>>>)
    requires
        a.len() == b.len(),
        forall|k: int| 0 <= k < a.len() ==> (#[trigger] a[k]).deep_view() == b[k].deep_view(),
    ensures
        slot_lines(a) == slot_lines(b),
    decreases a.len(),
{
    if a.len() > 0 {
        let (x, y) = (a.drop_last(), b.drop_last());
        assert forall|k: int| 0 <= k < x.len() implies (#[trigger] x[k]).deep_view()
            == y[k].deep_view() by {
            assert(x[k] == a[k] && y[k] == b[k]);
        }
        lemma_same_slots(x, y);
        assert(a.last().deep_view() == b.last().deep_view());
    }
}

/// The reports of two files are shown in the order of the files, whichever of them comes first: the
/// log is the same either way.
pub proof fn lemma_reports_stand_in_order(
    app: ComicInfoApp,
    i: usize,
    x: Vec<(String, LogLevel)>,
    j: usize,
    y: Vec<(String, LogLevel)>,
    ts: Seq<char>,
    one: (ComicInfoApp, ComicInfoApp),
    other: (ComicInfoApp, ComicInfoApp),
    step: PollStep,
)
    requires
        i != j,
        i < app.file_slots@.len(),
        j < app.file_slots@.len(),
        after_message(app, WorkerMsg::LogBatch { idx: i, lines: x }, ts, one.0, step),
        after_message(one.0, WorkerMsg::LogBatch { idx: j, lines: y }, ts, one.1, step),
        after_message(app, WorkerMsg::LogBatch { idx: j, lines: y }, ts, other.0, step),
        after_message(other.0, WorkerMsg::LogBatch { idx: i, lines: x }, ts, other.1, step),
    ensures
        shown_log(one.1) == shown_log(other.1),
{
    let (a, b) = (one.1.file_slots@, other.1.file_slots@);
    assert forall|k: int| 0 <= k < a.len() implies (#[trigger] a[k]).deep_view()
        == b[k].deep_view() by {
        if k == i {
            assert(a[k] == one.0.file_slots@[k]);
        } else if k == j {
            assert(b[k] == other.0.file_slots@[k]);
        } else {
            assert(a[k] == one.0.file_slots@[k]);
            assert(b[k] == other.0.file_slots@[k]);
        }
    }
    lemma_same_slots(a, b);
}

// ── Configurations ──────────────────────────────────────────────────────────────────────────────
/// The constant metadata of a configuration that was read, with what an older one holds besides.
pub open spec fn is_migrated(a: AppConfig, data: Seq<char>, b: AppConfig) -> bool {
    &&& (b.metadata_fields.deep_view(), b.community_rating_10_scale) == with_older_fields(
        a.metadata_fields.deep_view(),
        a.community_rating_10_scale,
        string_members(members_or_none(data)),
    )
    &&& b == (AppConfig {
        config_version: CURRENT_CONFIG_VERSION,
        metadata_fields: b.metadata_fields,
        community_rating_10_scale: b.community_rating_10_scale,
        ..a
    })
}

/// A configuration that was saved comes back: what was read from its JSON is taken over as it is, for
/// none of the names under which it holds texts is an older name of a tag.
pub proof fn lemma_saved_configuration_comes_back(
    saved: AppConfig,
    data: Seq<char>,
    after: AppConfig,
)
    requires
        saved.config_version == CURRENT_CONFIG_VERSION,
        forall|i: int|
            0 <= i < string_members(members_or_none(data)).len() ==> setting_names().contains(
                (#[trigger] string_members(members_or_none(data))[i]).0,
            ),
        is_migrated(saved, data, after),
    ensures
        after.metadata_fields.deep_view() == saved.metadata_fields.deep_view(),
        after == (AppConfig { metadata_fields: after.metadata_fields, ..saved }),
{
    let pairs = string_members(members_or_none(data));
    let names = setting_names();
    lemma_settings_are_no_older_names();
    assert forall|i: int| 0 <= i < pairs.len() implies !is_older_name((#[trigger] pairs[i]).0) by {
        let k = choose|k: int| 0 <= k < names.len() && names[k] == pairs[i].0;
        assert(!is_older_name(names[k]));
    }
    lemma_current_configuration_stays(
        saved.metadata_fields.deep_view(),
        saved.community_rating_10_scale,
        pairs,
    );
}

/// What is told of a configuration that was loaded.
pub open spec fn loaded_message(fname: Seq<char>, version: u32) -> Seq<char> {
    let head = "Loaded '"@ + fname
        + "'.\n\nThe entire session was replaced with this file's settings."@;
    if version < CURRENT_CONFIG_VERSION {
        head + "\n\nThis was saved with an older version of this app (config v"@ + decimal_text(
            version as nat,
        ) + " vs current v"@ + decimal_text(CURRENT_CONFIG_VERSION as nat)
            + "). Some fields may not have carried over if the config format changed since then -- worth double-checking the Metadata tab before running."@
    } else if version > CURRENT_CONFIG_VERSION {
        head + "\n\nThis was saved with a NEWER version of this app (config v"@ + decimal_text(
            version as nat,
        ) + " vs current v"@ + decimal_text(CURRENT_CONFIG_VERSION as nat)
            + "). Some fields may not load correctly -- consider updating the app if you run into issues."@
    } else {
        head
    }
}

fn loaded_text(fname: &str, version: u32) -> (r: String)
    ensures
        r@ == loaded_message(fname@, version),
{
    let head = cat3(
        "Loaded '",
        fname,
        "'.\n\nThe entire session was replaced with this file's settings.",
    );
    let v = text_of_u64(version as u64);
    let c = text_of_u64(CURRENT_CONFIG_VERSION as u64);
    if version < CURRENT_CONFIG_VERSION {
        cat6(
            head.as_str(),
            "\n\nThis was saved with an older version of this app (config v",
            v.as_str(),
            " vs current v",
            c.as_str(),
            "). Some fields may not have carried over if the config format changed since then -- worth double-checking the Metadata tab before running.",
        )
    } else if version > CURRENT_CONFIG_VERSION {
        cat6(
            head.as_str(),
            "\n\nThis was saved with a NEWER version of this app (config v",
            v.as_str(),
            " vs current v",
            c.as_str(),
            "). Some fields may not load correctly -- consider updating the app if you run into issues.",
        )
    } else {
        head
    }
}

/// What is told when nothing was taken over from a file.
pub open spec fn nothing_imported() -> Seq<char> {
    "No recognised metadata fields found in the file.\n\n                 Expected a Python file with CONSTANT_METADATA dict and/or SUMMARY,\n                 or a JSON object with ComicInfo field names."@
}

fn nothing_imported_text() -> (r: String)
    ensures
        r@ == nothing_imported(),
{
    String::from_str(
        "No recognised metadata fields found in the file.\n\n                 Expected a Python file with CONSTANT_METADATA dict and/or SUMMARY,\n                 or a JSON object with ComicInfo field names.",
    )
}

impl ComicInfoApp {
    /// The state in which the application starts.
    pub fn new() -> (r: ComicInfoApp)
        ensures
            r.cfg.is_default(),
            r.tab == Tab::Paths,
            r.sep_preview@ == ""@,
            r.status@ == "Ready."@,
            !r.verbose,
            r.settings.is_default(),
            r.vol_sel is None && r.date_sel is None && r.summ_sel is None,
            r.meta_field_sel is None,
            r.dialog is None,
            !r.running,
            r.progress == (0usize, 0usize),
            r.disp_stats == displayed(
                RunStats {
                    total: 0,
                    processed: 0,
                    renamed: 0,
                    rename_skipped: 0,
                    xml_updated: 0,
                    errors: 0,
                },
            ),
            shown_log(r) == Seq::<Line>::empty(),
            r.pending_start is None,
            r.sfm.is_blank(),
            r.sfm_undo_stack@.len() == 0,
            r.sfm_undo_cursor == 0,
    {
        let r = ComicInfoApp {
            cfg: AppConfig::default(),
            tab: Tab::Paths,
            sep_preview: String::from_str(""),
            status: String::from_str("Ready."),
            verbose: false,
            settings: AppSettings::default(),
            vol_sel: None,
            date_sel: None,
            summ_sel: None,
            meta_field_sel: None,
            dialog: None,
            running: false,
            progress: (0, 0),
            disp_stats: DisplayStats {
                total: 0,
                processed: 0,
                renamed: 0,
                skipped: 0,
                xml: 0,
                errors: 0,
            },
            log: Vec::new(),
            file_slots: Vec::new(),
            log_footer: Vec::new(),
            pending_start: None,
            sfm: SfmState::new(),
            sfm_undo_stack: Vec::new(),
            sfm_undo_cursor: 0,
        };
        assert(shown_log(r) =~= Seq::<Line>::empty());
        r
    }

    /// Shows a notice.
    pub fn notify(&mut self, text: String)
        ensures
            *final(self) == (ComicInfoApp { dialog: Some(Dialog::Notice(text)), ..*old(self) }),
    {
        self.dialog = Some(Dialog::Notice(text));
    }

    /// Takes the configuration of the last session over.
    pub fn restore_autosave(&mut self, cfg: AppConfig)
        ensures
            final(self).status@ == if cfg.config_version != CURRENT_CONFIG_VERSION {
                "Session restored (from an older app version -- some fields may be reset)."@
            } else {
                "Session restored."@
            },
            *final(self) == (ComicInfoApp {
                cfg: (AppConfig { config_version: CURRENT_CONFIG_VERSION, ..cfg }),
                status: final(self).status,
                ..*old(self)
            }),
    {
        let version: u32 = cfg.config_version;
        let mut cfg = cfg;
        cfg.config_version = CURRENT_CONFIG_VERSION;
        self.cfg = cfg;
        self.status = String::from_str(
            if version != CURRENT_CONFIG_VERSION {
                "Session restored (from an older app version -- some fields may be reset)."
            } else {
                "Session restored."
            },
        );
    }

    /// Puts the preferred order of tags in the place of the present one, where there is one.
    pub fn apply_preferred_order(&mut self)
        ensures
            final(self).cfg.tag_order.deep_view() == match old(self).settings.preferred_tag_order {
                Some(order) => order.deep_view(),
                None => old(self).cfg.tag_order.deep_view(),
            },
            *final(self) == (ComicInfoApp {
                cfg: (AppConfig { tag_order: final(self).cfg.tag_order, ..old(self).cfg }),
                ..*old(self)
            }),
    {
        match &self.settings.preferred_tag_order {
            Some(order) => {
                let order = copy_row(order);
                self.cfg.tag_order = order;
            },
            None => {},
        }
    }

    /// Takes over a configuration that was loaded from the file `fname`, given as it was read and as
    /// JSON.
    pub fn config_loaded(&mut self, cfg: AppConfig, data: &str, fname: &str)
        ensures
            is_migrated(cfg, data@, final(self).cfg),
            final(self).status@ == "Loaded: "@ + fname@,
            notice_of(final(self).dialog) == Some(loaded_message(fname@, cfg.config_version)),
            *final(self) == (ComicInfoApp {
                cfg: final(self).cfg,
                status: final(self).status,
                dialog: final(self).dialog,
                ..*old(self)
            }),
    {
        let version: u32 = cfg.config_version;
        let mut cfg = cfg;
        migrate_config(&mut cfg, data);
        cfg.config_version = CURRENT_CONFIG_VERSION;
        self.cfg = cfg;
        self.status = cat2("Loaded: ", fname);
        self.notify(loaded_text(fname, version));
    }

    /// Tells that a file is no configuration.
    pub fn config_invalid(&mut self, fname: &str)
        ensures
            notice_of(final(self).dialog) == Some(
                "Could not load '"@ + fname@
                    + "': the file isn't a valid config (it may be a different kind of JSON file, or corrupted)."@,
            ),
            *final(self) == (ComicInfoApp { dialog: final(self).dialog, ..*old(self) }),
    {
        self.notify(
            cat3(
                "Could not load '",
                fname,
                "': the file isn't a valid config (it may be a different kind of JSON file, or corrupted).",
            ),
        );
    }

    /// Tells that a file could not be read.
    pub fn file_unreadable(&mut self, path: &str)
        ensures
            notice_of(final(self).dialog) == Some("Could not read file:\n"@ + path@),
            *final(self) == (ComicInfoApp { dialog: final(self).dialog, ..*old(self) }),
    {
        self.notify(cat2("Could not read file:\n", path));
    }

    /// Tells that a file to take metadata from is no JSON.
    pub fn import_not_json(&mut self)
        ensures
            notice_of(final(self).dialog) == Some(
                "Could not parse file as JSON.\nFor Python files use a .py extension."@,
            ),
            *final(self) == (ComicInfoApp { dialog: final(self).dialog, ..*old(self) }),
    {
        self.notify(
            String::from_str("Could not parse file as JSON.\nFor Python files use a .py extension."),
        );
    }

    /// Tells that a configuration to take metadata from could not be read.
    pub fn import_config_failed(&mut self, error: &str)
        ensures
            notice_of(final(self).dialog) == Some(
                "Recognised this as a full config file, but couldn't load it:\n"@ + error@,
            ),
            *final(self) == (ComicInfoApp { dialog: final(self).dialog, ..*old(self) }),
    {
        self.notify(
            cat2("Recognised this as a full config file, but couldn't load it:\n", error),
        );
    }

    /// Tells what was taken over from the file `fname`.
    pub fn import_finished(&mut self, fname: &str, items: Vec<(String, String)>)
        ensures
            items@.len() == 0 ==> notice_of(final(self).dialog) == Some(nothing_imported())
                && *final(self) == (ComicInfoApp { dialog: final(self).dialog, ..*old(self) }),
            items@.len() > 0 ==> {
                &&& final(self).status@ == "Imported "@ + decimal_text(items@.len())
                    + " field(s) from "@ + fname@
                &&& final(self).dialog matches Some(
                    Dialog::ImportResult { filename, items: shown },
                ) && filename@ == fname@ && shown == items
                &&& *final(self) == (ComicInfoApp {
                    status: final(self).status,
                    dialog: final(self).dialog,
                    ..*old(self)
                })
            },
    {
        if items.len() == 0 {
            self.notify(nothing_imported_text());
        } else {
            let n = text_of_u64(items.len() as u64);
            self.status = cat4("Imported ", n.as_str(), " field(s) from ", fname);
            self.dialog = Some(
                Dialog::ImportResult { filename: String::from_str(fname), items },
            );
        }
    }

    /// Notes that the configuration was saved as `fname`.
    pub fn config_saved(&mut self, fname: &str)
        ensures
            final(self).status@ == "Saved: "@ + fname@,
            *final(self) == (ComicInfoApp { status: final(self).status, ..*old(self) }),
    {
        self.status = cat2("Saved: ", fname);
    }

    /// Puts everything back to where a new configuration starts, but for the examples of rules. The
    /// preferred order of tags is kept.
    pub fn reset_all(&mut self)
        ensures
            final(self).cfg.is_plain(),
            final(self).cfg.volume_rules@.len() == 0,
            final(self).cfg.date_rules@.len() == 0,
            final(self).cfg.summ_rules@.len() == 0,
            final(self).cfg.tag_order.deep_view() == match old(self).settings.preferred_tag_order {
                Some(order) => order.deep_view(),
                None => crate::schema::canonical_order(),
            },
            final(self).status@ == "Reset to defaults."@,
            *final(self) == (ComicInfoApp {
                cfg: final(self).cfg,
                status: final(self).status,
                ..*old(self)
            }),
    {
        let mut cfg = AppConfig::default();
        assert(cfg.summ_rules.deep_view().len() == cfg.summ_rules@.len());
        cfg.volume_rules = Vec::new();
        cfg.date_rules = Vec::new();
        self.cfg = cfg;
        self.apply_preferred_order();
        self.status = String::from_str("Reset to defaults.");
    }
}

// ── Names ───────────────────────────────────────────────────────────────────────────────────────
/// The character that stands for `c` in a suggested file name.
pub open spec fn slug_char(c: char) -> char {
    if alphanumeric(c) || c == '-' {
        c
    } else {
        '_'
    }
}

/// The words of a text, joined by underscores.
pub open spec fn slug_of(s: Seq<char>) -> Seq<char> {
    replaced(s.map_values(|c: char| slug_char(c)), "__"@, "_"@)
}

/// The name suggested for a configuration, given the lower-case slug.
pub open spec fn config_name(slug: Seq<char>) -> Seq<char> {
    if slug.len() == 0 {
        "metadata_gui.json"@
    } else {
        slug + "_gui.json"@
    }
}

/// The name suggested for a configuration, given the lower-case slug.
pub fn config_name_for(slug: &str) -> (r: String)
    ensures
        r@ == config_name(slug@),
{
    if slug.is_empty() {
        String::from_str("metadata_gui.json")
    } else {
        cat2(slug, "_gui.json")
    }
}

/// The words of a text, joined by underscores.
fn make_slug(s: &str) -> (r: String)
    ensures
        r@ == slug_of(s@),
{
    let v = chars_of(s);
    let ghost goal = s@.map_values(|c: char| slug_char(c));
    let mut out = String::new();
    let n: usize = v.len();
    for i in 0..n
        invariant
            n == v@.len(),
            v@ == s@,
            goal == s@.map_values(|c: char| slug_char(c)),
            out@ == goal.take(i as int),
    {
        let c: char = v[i];
        out.push(
            if is_alphanumeric(c) || c == '-' {
                c
            } else {
                '_'
            },
        );
        assert(goal.take(i + 1) =~= goal.take(i as int).push(goal[i as int]));
    }
    assert(goal.take(n as int) =~= goal);
    proof {
        reveal_strlit("__");
    }
    replace(out.as_str(), "__", "_")
}

/// What a suggested file name is made from: the name of the folder, where one is chosen, else the
/// series.
pub open spec fn name_source(cfg: AppConfig, folder_name: Seq<char>) -> Seq<char> {
    if cfg.folder@.len() > 0 {
        folder_name
    } else {
        match lookup(cfg.metadata_fields.deep_view(), "Series"@) {
            Some(s) => s,
            None => Seq::empty(),
        }
    }
}

impl ComicInfoApp {
    /// The name suggested for the configuration, given the name of the folder.
    pub fn smart_filename(&self, folder_name: &str) -> (r: String)
        ensures
            r@ == config_name(lowered(slug_of(name_source(self.cfg, folder_name@)))),
    {
        let source: String = if !self.cfg.folder.as_str().is_empty() {
            String::from_str(folder_name)
        } else {
            let k: usize = crate::tags::pair_place(&self.cfg.metadata_fields, "Series");
            if k < self.cfg.metadata_fields.len() {
                self.cfg.metadata_fields[k].1.clone()
            } else {
                String::new()
            }
        };
        let slug = make_slug(source.as_str());
        let lower = lower_text(slug.as_str());
        config_name_for(lower.as_str())
    }
}

// ── Preview ─────────────────────────────────────────────────────────────────────────────────────
/// Whether a file name, given in lower case, is that of an archive.
pub open spec fn is_archive_name(lower: Seq<char>) -> bool {
    ends_with(lower, ".cbz"@)
}

/// The names of archives among `names`.
pub open spec fn archive_names(names: Seq<Seq<char>>) -> Seq<Seq<char>>
    decreases names.len(),
{
    if names.len() == 0 {
        Seq::empty()
    } else {
        let head = archive_names(names.drop_last());
        if is_archive_name(lowered(names.last())) {
            head.push(names.last())
        } else {
            head
        }
    }
}

/// The first of `names` in the order of their sort keys.
pub open spec fn first_name(names: Seq<Seq<char>>) -> Option<Seq<char>> {
    if names.len() == 0 {
        None
    } else {
        let order = crate::order::stable_order(names.len(), row_order(sort_keys(names)));
        Some(names[order[0] as int])
    }
}

/// The word that the kind of a file suggests.
pub open spec fn kind_word(kind: Seq<char>) -> Seq<char> {
    if kind == "volume"@ {
        "Volume"@
    } else if kind == "chapter"@ {
        "Chapter"@
    } else {
        "Episode"@
    }
}

/// The prefix in the preview, given the one that the files suggest.
pub open spec fn preview_prefix(cfg: AppConfig, suggested: Seq<char>) -> Seq<char> {
    match cfg.prefix_mode {
        PrefixMode::Custom => if cfg.custom_pfx@.len() == 0 {
            "Custom"@
        } else {
            cfg.custom_pfx@
        },
        PrefixMode::Episode => "Episode"@,
        PrefixMode::Chapter => "Chapter"@,
        PrefixMode::Volume => "Volume"@,
        PrefixMode::Auto => suggested,
    }
}

/// The preview of a title, given the prefix, also in lower case, and the number.
pub open spec fn preview_of(
    cfg: AppConfig,
    prefix: Seq<char>,
    lower: Seq<char>,
    number: Seq<char>,
) -> Seq<char> {
    let shown = shown_number(number, cfg.zero_pad, cfg.pad_width as nat);
    if cfg.csep_on && cfg.csep@.len() > 0 {
        prefix + " "@ + shown + " "@ + trimmed(cfg.csep@) + " My Title"@
    } else {
        let sep = if contains_text(lower, "chapter"@) || contains_text(lower, "volume"@) {
            ": "@
        } else {
            " - "@
        };
        prefix + " "@ + shown + sep + "My Title"@
    }
}

/// The prefix in the preview, given the one that the files suggest.
pub fn choose_preview_prefix(cfg: &AppConfig, suggested: &str) -> (r: String)
    ensures
        r@ == preview_prefix(*cfg, suggested@),
{
    match cfg.prefix_mode {
        PrefixMode::Custom => if cfg.custom_pfx.as_str().is_empty() {
            String::from_str("Custom")
        } else {
            cfg.custom_pfx.clone()
        },
        PrefixMode::Episode => String::from_str("Episode"),
        PrefixMode::Chapter => String::from_str("Chapter"),
        PrefixMode::Volume => String::from_str("Volume"),
        PrefixMode::Auto => String::from_str(suggested),
    }
}

/// The preview of a title, given the prefix, also in lower case, and the number.
pub fn compose_preview(cfg: &AppConfig, prefix: &str, lower: &str, number: &str) -> (r: String)
    ensures
        r@ == preview_of(*cfg, prefix@, lower@, number@),
{
    let shown = show_number(number, cfg.zero_pad, cfg.pad_width);
    if cfg.csep_on && !cfg.csep.as_str().is_empty() {
        let sep = trim(cfg.csep.as_str());
        cat6(prefix, " ", shown.as_str(), " ", sep.as_str(), " My Title")
    } else {
        let sep = if contains(lower, "chapter") || contains(lower, "volume") {
            ": "
        } else {
            " - "
        };
        cat5(prefix, " ", shown.as_str(), sep, "My Title")
    }
}

/// The names of archives among `names`.
fn select_archives(names: &Vec<String>) -> (r: Vec<String>)
    ensures
        r.deep_view() == archive_names(names.deep_view()),
{
    let ghost all = names.deep_view();
    let mut out: Vec<String> = Vec::new();
    let n: usize = names.len();
    assert(out.deep_view() =~= archive_names(all.take(0)));
    for i in 0..n
        invariant
            n == names@.len(),
            all == names.deep_view(),
            out.deep_view() == archive_names(all.take(i as int)),
    {
        let ghost head = out.deep_view();
        proof {
            assert(all.take(i + 1).drop_last() =~= all.take(i as int));
            assert(all.take(i + 1).last() == names@[i as int]@);
        }
        let lower = lower_text(names[i].as_str());
        if has_suffix(lower.as_str(), ".cbz") {
            out.push(names[i].clone());
            assert(out.deep_view() =~= head.push(names@[i as int]@));
        }
    }
    assert(all.take(n as int) =~= all);
    out
}

/// The first of `names` in the order of their sort keys.
fn find_first_name(names: &Vec<String>) -> (r: Option<String>)
    ensures
        r.deep_view() == first_name(names.deep_view()),
{
    if names.len() == 0 {
        None
    } else {
        let order = natural_order(names);
        proof {
            let le = row_order(sort_keys(names.deep_view()));
            let n = names@.len();
            lemma_row_order(sort_keys(names.deep_view()));
            lemma_stable_order_exists(n as usize, le);
            crate::order::lemma_stable_order_unique(
                order@,
                crate::order::stable_order(n, le),
                n,
                le,
            );
        }
        Some(names[order[0]].clone())
    }
}

/// The prefix and the number that the files of a folder suggest for the preview.
pub open spec fn suggestion(names: Seq<Seq<char>>) -> (Seq<char>, Seq<char>) {
    match first_name(archive_names(names)) {
        Some(s) => (
            kind_word(kind_of(s, lowered(s))),
            match number_in(s) {
                Some(n) => n,
                None => "1"@,
            },
        ),
        None => ("Episode"@, "1"@),
    }
}

impl ComicInfoApp {
    /// Makes the preview anew, given the names of the files in the folder.
    pub fn rebuild_sep_preview(&mut self, names: &Vec<String>)
        ensures
            ({
                let (word, number) = suggestion(names.deep_view());
                let prefix = preview_prefix(old(self).cfg, word);
                final(self).sep_preview@ == preview_of(
                    old(self).cfg,
                    prefix,
                    lowered(prefix),
                    number,
                )
            }),
            *final(self) == (ComicInfoApp { sep_preview: final(self).sep_preview, ..*old(self) }),
    {
        let archives = select_archives(names);
        let (word, number): (String, String) = match find_first_name(&archives) {
            Some(s) => {
                let kind = detect_file_type(s.as_str());
                let word = if same(kind, "volume") {
                    "Volume"
                } else if same(kind, "chapter") {
                    "Chapter"
                } else {
                    "Episode"
                };
                let number = match find_number(s.as_str()) {
                    Some(n) => n,
                    None => String::from_str("1"),
                };
                (String::from_str(word), number)
            },
            None => (String::from_str("Episode"), String::from_str("1")),
        };
        let prefix = choose_preview_prefix(&self.cfg, word.as_str());
        let lower = lower_text(prefix.as_str());
        self.sep_preview = compose_preview(
            &self.cfg,
            prefix.as_str(),
            lower.as_str(),
            number.as_str(),
        );
    }
}

/// The preview is a title as a run makes it, with `My Title` for the title of the file.
///
/// The prefix and the separator are taken without white space at their ends. A prefix that only
/// abbreviates the word for a chapter or a volume is left out.
pub proof fn lemma_preview_is_title(
    cfg: AppConfig,
    prefix: Seq<char>,
    lower: Seq<char>,
    number: Seq<char>,
)
    requires
        trimmed(prefix) == prefix,
        trimmed(cfg.csep@) == cfg.csep@,
        !contains_text(lower, "ch."@),
        !contains_text(lower, "vol."@),
    ensures
        preview_of(cfg, prefix, lower, number) == base_of(
            prefix,
            shown_number(number, cfg.zero_pad, cfg.pad_width as nat),
        ) + separator_of(lower, cfg.csep_on, cfg.csep@) + "My Title"@,
{
    reveal_strlit(" My Title");
    reveal_strlit("My Title");
    reveal_strlit(" ");
    let shown = shown_number(number, cfg.zero_pad, cfg.pad_width as nat);
    assert(preview_of(cfg, prefix, lower, number) =~= base_of(prefix, shown) + separator_of(
        lower,
        cfg.csep_on,
        cfg.csep@,
    ) + "My Title"@);
}

// ── Starting a run ──────────────────────────────────────────────────────────────────────────────
/// Whether the date rules give the value of a tag.
pub open spec fn is_date_tag(tag: Seq<char>) -> bool {
    tag == "Year"@ || tag == "Month"@ || tag == "Day"@
}

/// The labels of the fields that are empty.
pub open spec fn empty_labels(fields: Seq<Pair>, by_volume: bool) -> Seq<Seq<char>>
    decreases fields.len(),
{
    if fields.len() == 0 {
        Seq::empty()
    } else {
        let head = empty_labels(fields.drop_last(), by_volume);
        let (tag, value) = fields.last();
        if !(by_volume && is_date_tag(tag)) && trimmed(value).len() == 0 {
            head.push(label_of(tag))
        } else {
            head
        }
    }
}

/// The labels of what is empty in a configuration: fields of constant metadata, but for the date where
/// rules give it, and the summary.
pub open spec fn empty_fields(cfg: AppConfig) -> Seq<Seq<char>> {
    let labels = empty_labels(cfg.metadata_fields.deep_view(), cfg.use_vol_date);
    if trimmed(cfg.summary@).len() == 0 {
        labels.push("Summary"@)
    } else {
        labels
    }
}

fn is_blank(text: &str) -> (r: bool)
    ensures
        r == (trimmed(text@).len() == 0),
{
    let t = trim(text);
    t.as_str().is_empty()
}

/// What is to be done when a run was asked for.
#[derive(Clone, Copy, Debug, PartialEq, Eq, Structural)]
pub enum StartStep {
    /// Nothing, or the user is told or asked something first.
    Wait,
    /// The run can go on.
    Go,
}

/// Whether an extension is that of an archive.
pub fn is_cbz_extension(ext: &str) -> (r: bool)
    ensures
        r == (crate::number::ascii_lower_all(ext@) == crate::number::ascii_lower_all("cbz"@)),
{
    crate::text::same_ignoring_case(ext, "cbz")
}

/// The names in a log of what was done: its lines without blanks at their ends, each once.
pub open spec fn logged_names(lines: Seq<Seq<char>>) -> Seq<Seq<char>>
    decreases lines.len(),
{
    if lines.len() == 0 {
        Seq::empty()
    } else {
        let head = logged_names(lines.drop_last());
        let name = trimmed(lines.last());
        if name.len() > 0 && !crate::worker::is_among(name, head) {
            head.push(name)
        } else {
            head
        }
    }
}

/// The names in a log of what was done.
pub fn progress_entries(text: &str) -> (r: Vec<String>)
    ensures
        r.deep_view() == logged_names(lines_of(text@)),
{
    let lines = split_lines(text);
    let ghost all = lines.deep_view();
    let mut out: Vec<String> = Vec::new();
    let n: usize = lines.len();
    assert(out.deep_view() =~= logged_names(all.take(0)));
    for i in 0..n
        invariant
            n == lines@.len(),
            all == lines.deep_view(),
            out.deep_view() == logged_names(all.take(i as int)),
    {
        let ghost head = out.deep_view();
        proof {
            assert(all.take(i + 1).drop_last() =~= all.take(i as int));
            assert(all.take(i + 1).last() == lines@[i as int]@);
        }
        let name = trim(lines[i].as_str());
        if !name.as_str().is_empty() && !crate::worker::is_in(name.as_str(), &out) {
            let ghost nm = name@;
            out.push(name);
            assert(out.deep_view() =~= head.push(nm));
        }
    }
    assert(all.take(n as int) =~= all);
    out
}

/// A file with a number: its value, the place of the file, and the number as it is written.
pub type Numbered = (Number, usize, Seq<char>);

/// The files whose names hold a number, or only those with a whole number.
pub open spec fn numbered_files(names: Seq<Seq<char>>, whole_only: bool) -> Seq<Numbered>
    decreases names.len(),
{
    if names.len() == 0 {
        Seq::empty()
    } else {
        let head = numbered_files(names.drop_last(), whole_only);
        match number_in(names.last()) {
            Some(s) => match number_of(s) {
                Some(n) => if whole_only && is_fractional(s) {
                    head
                } else {
                    head.push((n, (names.len() - 1) as usize, s))
                },
                None => head,
            },
            None => head,
        }
    }
}

/// The last of the files with the largest number.
pub open spec fn largest_numbered(files: Seq<Numbered>) -> Option<Numbered>
    decreases files.len(),
{
    if files.len() == 0 {
        None
    } else {
        match largest_numbered(files.drop_last()) {
            Some(best) => Some(
                if at_most(best.0, files.last().0) {
                    files.last()
                } else {
                    best
                },
            ),
            None => Some(files.last()),
        }
    }
}

/// The place and the number of the final chapter: the largest whole number, or the largest number
/// where none is whole.
pub open spec fn finale_of(names: Seq<Seq<char>>) -> Option<(usize, Seq<char>)> {
    let whole = numbered_files(names, true);
    let files = if whole.len() > 0 {
        whole
    } else {
        numbered_files(names, false)
    };
    match largest_numbered(files) {
        Some((_, i, s)) => Some((i, s)),
        None => None,
    }
}

/// The last of the files with the largest number.
fn find_largest(names: &Vec<String>, whole_only: bool) -> (r: Option<(Number, usize, String)>)
    ensures
        match (r, largest_numbered(numbered_files(names.deep_view(), whole_only))) {
            (Some(x), Some(y)) => x.0 == y.0 && x.1 == y.1 && x.2@ == y.2,
            (None, None) => true,
            _ => false,
        },
        r is None <==> numbered_files(names.deep_view(), whole_only).len() == 0,
{
    let ghost all = names.deep_view();
    let mut best: Option<(Number, usize, String)> = None;
    let n: usize = names.len();
    assert(numbered_files(all.take(0), whole_only) =~= Seq::<Numbered>::empty());
    for i in 0..n
        invariant
            n == names@.len(),
            all == names.deep_view(),
            ({
                let files = numbered_files(all.take(i as int), whole_only);
                &&& match (best, largest_numbered(files)) {
                    (Some(x), Some(y)) => x.0 == y.0 && x.1 == y.1 && x.2@ == y.2,
                    (None, None) => true,
                    _ => false,
                }
                &&& best is None <==> files.len() == 0
            }),
    {
        let ghost files = numbered_files(all.take(i as int), whole_only);
        proof {
            assert(all.take(i + 1).drop_last() =~= all.take(i as int));
            assert(all.take(i + 1).last() == names@[i as int]@);
        }
        match find_number(names[i].as_str()) {
            Some(s) => match parse_number(s.as_str()) {
                Some(v) => if !(whole_only && has_fraction(s.as_str())) {
                    proof {
                        let more = files.push((v, i, s@));
                        assert(more.drop_last() =~= files);
                        assert(more.last() == (v, i, s@));
                    }
                    let replace_best: bool = match &best {
                        Some(b) => b.0.is_at_most(&v),
                        None => true,
                    };
                    if replace_best {
                        best = Some((v, i, s));
                    }
                },
                None => {},
            },
            None => {},
        }
    }
    assert(all.take(n as int) =~= all);
    best
}

/// The place and the number of the final chapter.
pub fn find_finale(names: &Vec<String>) -> (r: Option<(usize, String)>)
    ensures
        match (r, finale_of(names.deep_view())) {
            (Some(x), Some(y)) => x.0 == y.0 && x.1@ == y.1,
            (None, None) => true,
            _ => false,
        },
{
    let found = match find_largest(names, true) {
        Some(f) => Some(f),
        None => find_largest(names, false),
    };
    match found {
        Some((_, i, s)) => Some((i, s)),
        None => None,
    }
}

/// What is to be done once the final chapter is known.
#[derive(Debug)]
pub enum FinaleStep {
    /// The user is asked how it is to be titled.
    Asked,
    /// The run starts with these files.
    Start {
        cbzs: Vec<String>,
        done: Vec<String>,
        finale_index: Option<usize>,
        finale_number: Option<String>,
    },
}

impl ComicInfoApp {
    /// The labels of what is empty in the configuration.
    pub fn empty_metadata_fields(&self) -> (r: Vec<String>)
        ensures
            r.deep_view() == empty_fields(self.cfg),
    {
        let ghost all = self.cfg.metadata_fields.deep_view();
        let mut out: Vec<String> = Vec::new();
        let n: usize = self.cfg.metadata_fields.len();
        assert(out.deep_view() =~= empty_labels(all.take(0), self.cfg.use_vol_date));
        for i in 0..n
            invariant
                n == self.cfg.metadata_fields@.len(),
                all == self.cfg.metadata_fields.deep_view(),
                out.deep_view() == empty_labels(all.take(i as int), self.cfg.use_vol_date),
        {
            let ghost head = out.deep_view();
            let tag = self.cfg.metadata_fields[i].0.as_str();
            proof {
                assert(all.take(i + 1).drop_last() =~= all.take(i as int));
                assert(all.take(i + 1).last() == (
                    self.cfg.metadata_fields@[i as int].0@,
                    self.cfg.metadata_fields@[i as int].1@,
                ));
            }
            let skip: bool = self.cfg.use_vol_date && (same(tag, "Year") || same(tag, "Month")
                || same(tag, "Day"));
            if !skip && is_blank(self.cfg.metadata_fields[i].1.as_str()) {
                out.push(field_label(tag));
                assert(out.deep_view() =~= head.push(label_of(tag@)));
            }
        }
        assert(all.take(n as int) =~= all);
        let ghost head = out.deep_view();
        if is_blank(self.cfg.summary.as_str()) {
            out.push(String::from_str("Summary"));
            assert(out.deep_view() =~= head.push("Summary"@));
        }
        out
    }

    /// Decides what is to be done when a run is asked for, given whether the folder is there and which
    /// archives it holds, in order.
    pub fn on_start(&mut self, folder_is_dir: bool, cbzs: &Vec<String>) -> (r: StartStep)
        ensures
            ({
                let a = *old(self);
                let b = *final(self);
                if a.running {
                    r == StartStep::Wait && b == a
                } else if trimmed(a.cfg.folder@).len() == 0 || !folder_is_dir {
                    &&& r == StartStep::Wait
                    &&& notice_of(b.dialog) == Some(
                        "Set a valid CBZ folder in Paths & Config first."@,
                    )
                    &&& b == (ComicInfoApp { dialog: b.dialog, tab: Tab::Paths, ..a })
                } else if cbzs@.len() == 0 {
                    &&& r == StartStep::Wait
                    &&& notice_of(b.dialog) == Some("No .cbz files found in the selected folder."@)
                    &&& b == (ComicInfoApp { dialog: b.dialog, ..a })
                } else if empty_fields(a.cfg).len() > 0 {
                    &&& r == StartStep::Wait
                    &&& b.dialog matches Some(
                        Dialog::EmptyFieldsWarning { fields, cbzs: held },
                    ) && fields.deep_view() == empty_fields(a.cfg) && held.deep_view()
                        == cbzs.deep_view()
                    &&& b == (ComicInfoApp { dialog: b.dialog, ..a })
                } else {
                    r == StartStep::Go && b == a
                }
            }),
    {
        if self.running {
            return StartStep::Wait;
        }
        if is_blank(self.cfg.folder.as_str()) || !folder_is_dir {
            self.notify(String::from_str("Set a valid CBZ folder in Paths & Config first."));
            self.tab = Tab::Paths;
            return StartStep::Wait;
        }
        if cbzs.len() == 0 {
            self.notify(String::from_str("No .cbz files found in the selected folder."));
            return StartStep::Wait;
        }
        let fields = self.empty_metadata_fields();
        if fields.len() > 0 {
            assert(fields.deep_view().len() == fields@.len());
            self.dialog = Some(Dialog::EmptyFieldsWarning { fields, cbzs: copy_row(cbzs) });
            return StartStep::Wait;
        }
        assert(fields.deep_view().len() == fields@.len());
        StartStep::Go
    }

    /// Goes on with a run: asks whether to resume where the log of what was done holds names.
    ///
    /// The log of the last run must have been archived.
    pub fn ask_resume(&mut self, cbzs: &Vec<String>, progress: Option<&str>) -> (r: StartStep)
        ensures
            ({
                let a = *old(self);
                let b = *final(self);
                let done = match progress {
                    Some(text) => logged_names(lines_of(text@)),
                    None => Seq::empty(),
                };
                if done.len() > 0 {
                    &&& r == StartStep::Wait
                    &&& b.dialog matches Some(
                        Dialog::ResumeSession { cbz_files, processed_set, count },
                    ) && cbz_files.deep_view() == cbzs.deep_view() && processed_set.deep_view()
                        == done && count == done.len()
                    &&& b == (ComicInfoApp { dialog: b.dialog, ..a })
                } else {
                    r == StartStep::Go && b == a
                }
            }),
    {
        match progress {
            Some(text) => {
                let done = progress_entries(text);
                let count: usize = done.len();
                assert(done.deep_view().len() == count);
                if count > 0 {
                    self.dialog = Some(
                        Dialog::ResumeSession {
                            cbz_files: copy_row(cbzs),
                            processed_set: done,
                            count,
                        },
                    );
                    return StartStep::Wait;
                }
                StartStep::Go
            },
            None => StartStep::Go,
        }
    }

    /// Asks how the final chapter is to be titled, where there is a title for it. `names` are the names
    /// of the files `cbzs`.
    pub fn check_finale(
        &mut self,
        cbzs: Vec<String>,
        names: &Vec<String>,
        done: Vec<String>,
        resume: bool,
        titles: &TagMap,
    ) -> (r: FinaleStep)
        ensures
            ({
                let a = *old(self);
                let b = *final(self);
                match finale_of(names.deep_view()) {
                    Some((idx, num)) => if lookup(titles@, num) is Some {
                        &&& r is Asked
                        &&& b.dialog matches Some(
                            Dialog::FinalChapter {
                                cbz_files,
                                processed_set,
                                resume: again,
                                finale_num,
                                finale_idx,
                            },
                        ) && cbz_files == cbzs && processed_set == done && again == resume
                            && finale_num@ == num && finale_idx == idx
                        &&& b == (ComicInfoApp { dialog: b.dialog, ..a })
                    } else {
                        &&& r matches FinaleStep::Start {
                            cbzs: c,
                            done: d,
                            finale_index,
                            finale_number,
                        } && c == cbzs && d == done && finale_index == Some(idx)
                            && finale_number.deep_view() == Some(num)
                        &&& b == a
                    },
                    None => {
                        &&& r matches FinaleStep::Start {
                            cbzs: c,
                            done: d,
                            finale_index,
                            finale_number,
                        } && c == cbzs && d == done && finale_index is None && finale_number is None
                        &&& b == a
                    },
                }
            }),
    {
        match find_finale(names) {
            Some((idx, num)) => {
                if titles.contains_key(num.as_str()) {
                    self.dialog = Some(
                        Dialog::FinalChapter {
                            cbz_files: cbzs,
                            processed_set: done,
                            resume,
                            finale_num: num,
                            finale_idx: idx,
                        },
                    );
                    FinaleStep::Asked
                } else {
                    FinaleStep::Start {
                        cbzs,
                        done,
                        finale_index: Some(idx),
                        finale_number: Some(num),
                    }
                }
            },
            None => FinaleStep::Start { cbzs, done, finale_index: None, finale_number: None },
        }
    }

    /// Notes that a run over `count` files starts.
    pub fn begin_run(&mut self, count: usize)
        ensures
            final(self).running,
            final(self).progress == (0usize, count),
            final(self).file_slots@ == Seq::new(count as nat, |i: int| None::<Vec<LogEntry>>),
            final(self).log_footer@.len() == 0,
            final(self).tab == Tab::Run,
            final(self).status@ == "Processing..."@,
            final(self).log.deep_view() == if old(self).cfg.dry_run {
                old(self).log.deep_view().push(
                    ("  [DRY RUN] -- no files will be modified"@, LogLevel::Warn),
                )
            } else {
                old(self).log.deep_view()
            },
            *final(self) == (ComicInfoApp {
                running: true,
                progress: (0usize, count),
                file_slots: final(self).file_slots,
                log_footer: final(self).log_footer,
                tab: Tab::Run,
                status: final(self).status,
                log: final(self).log,
                ..*old(self)
            }),
    {
        self.running = true;
        self.progress = (0, count);
        let mut slots: Vec<Option<Vec<LogEntry>>> = Vec::new();
        let mut i: usize = 0;
        while i < count
            invariant
                i <= count,
                slots@ == Seq::new(i as nat, |i: int| None::<Vec<LogEntry>>),
            decreases count - i,
        {
            slots.push(None);
            i = i + 1;
            assert(slots@ =~= Seq::new(i as nat, |i: int| None::<Vec<LogEntry>>));
        }
        self.file_slots = slots;
        self.log_footer = Vec::new();
        if self.cfg.dry_run {
            push_entry(
                &mut self.log,
                String::from_str("  [DRY RUN] -- no files will be modified"),
                LogLevel::Warn,
            );
        }
        self.tab = Tab::Run;
        self.status = String::from_str("Processing...");
    }

    /// The configuration of a run.
    pub fn make_worker_cfg(
        &self,
        titles: &TagMap,
        dates: TagMap,
        processed_files: Vec<String>,
        resume_mode: bool,
        finale_index: Option<usize>,
        finale_number: Option<String>,
        final_ch_mode: String,
        progress_file: String,
        error_log_file: String,
    ) -> (r: WorkerConfig)
        ensures
            r.dry_run == self.cfg.dry_run,
            r.write_new_cbz == self.cfg.write_new_cbz,
            r.output_same_path == self.cfg.output_same_path,
            r.output_path@ == self.cfg.output_path@,
            r.backup_before_overwrite == self.settings.backup_before_overwrite,
            r.use_vol == self.cfg.use_vol,
            r.use_vol_date == self.cfg.use_vol_date,
            r.use_vol_summ == self.cfg.use_vol_summ,
            r.prefix_mode@ == self.cfg.prefix_mode.name(),
            r.custom_pfx@ == self.cfg.custom_pfx@,
            r.post_finale_mode@ == self.cfg.post_finale.name(),
            r.use_csep == self.cfg.csep_on,
            r.csep@ == self.cfg.csep@,
            r.zero_pad == self.cfg.zero_pad,
            r.pad_width == self.cfg.pad_width,
            r.metadata_fields@ == crate::tags::collected(self.cfg.metadata_fields.deep_view()),
            r.community_rating_10_scale == self.cfg.community_rating_10_scale,
            r.tag_order.deep_view() == self.cfg.tag_order.deep_view(),
            r.summary@ == self.cfg.summary@,
            r.volume_rules.deep_view() == self.cfg.volume_rules.deep_view(),
            r.date_rules.deep_view() == self.cfg.date_rules.deep_view(),
            r.summ_rules.deep_view() == self.cfg.summ_rules.deep_view(),
            r.chapter_titles@ == titles@,
            r.volume_titles@ == titles@,
            r.dates_json == dates,
            r.max_workers == self.cfg.workers,
            r.processed_files == processed_files,
            r.resume_mode == resume_mode,
            r.finale_index == finale_index,
            r.finale_number == finale_number,
            r.final_ch_mode == final_ch_mode,
            r.progress_file == progress_file,
            r.error_log_file == error_log_file,
            r.verbose == self.verbose,
            titles.is_valid() && dates.is_valid() ==> r.is_valid(),
    {
        WorkerConfig {
            dry_run: self.cfg.dry_run,
            write_new_cbz: self.cfg.write_new_cbz,
            output_same_path: self.cfg.output_same_path,
            output_path: self.cfg.output_path.clone(),
            backup_before_overwrite: self.settings.backup_before_overwrite,
            use_vol: self.cfg.use_vol,
            use_vol_date: self.cfg.use_vol_date,
            use_vol_summ: self.cfg.use_vol_summ,
            prefix_mode: String::from_str(self.cfg.prefix_mode.as_str()),
            custom_pfx: self.cfg.custom_pfx.clone(),
            post_finale_mode: String::from_str(self.cfg.post_finale.as_str()),
            use_csep: self.cfg.csep_on,
            csep: self.cfg.csep.clone(),
            zero_pad: self.cfg.zero_pad,
            pad_width: self.cfg.pad_width,
            metadata_fields: crate::tags::collect(&self.cfg.metadata_fields),
            community_rating_10_scale: self.cfg.community_rating_10_scale,
            tag_order: copy_row(&self.cfg.tag_order),
            summary: self.cfg.summary.clone(),
            volume_rules: copy_rows(&self.cfg.volume_rules),
            date_rules: copy_rows(&self.cfg.date_rules),
            summ_rules: copy_rows(&self.cfg.summ_rules),
            chapter_titles: titles.duplicate(),
            volume_titles: titles.duplicate(),
            dates_json: dates,
            max_workers: self.cfg.workers,
            processed_files,
            resume_mode,
            finale_index,
            finale_number,
            final_ch_mode,
            progress_file,
            error_log_file,
            verbose: self.verbose,
        }
    }
}

// ── Laws ────────────────────────────────────────────────────────────────────────────────────────
/// A log of what was done, with a line for each name.
pub open spec fn progress_text(names: Seq<Seq<char>>) -> Seq<char>
    decreases names.len(),
{
    if names.len() == 0 {
        Seq::empty()
    } else {
        names[0] + seq!['\n'] + progress_text(names.skip(1))
    }
}

/// Whether a name can be noted on a line of its own: it has no line feed, and no blanks at its ends.
pub open spec fn fits_line(name: Seq<char>) -> bool {
    &&& name.len() > 0
    &&& trimmed(name) == name
    &&& forall|i: int| 0 <= i < name.len() ==> #[trigger] name[i] != '\n'
}

proof fn lemma_no_return_at_end(name: Seq<char>)
    requires
        name.len() > 0,
        trimmed(name) == name,
    ensures
        name.last() != '\r',
{
    let p = |c: char| is_space(c);
    lemma_leading(name, p);
    let front = name.skip(leading(name, p) as int);
    lemma_trailing(front, p);
    assert(leading(name, p) == 0 && trailing(front, p) == 0);
    assert(front =~= name);
    assert(is_space('\r'));
}

/// The first line feed stands behind the first line.
proof fn lemma_first_line(line: Seq<char>, rest: Seq<char>)
    requires
        forall|i: int| 0 <= i < line.len() ==> #[trigger] line[i] != '\n',
    ensures
        first_index(line + seq!['\n'] + rest, '\n') == Some(line.len() as int),
{
    let s = line + seq!['\n'] + rest;
    let mark = seq!['\n'];
    let k = line.len() as int;
    assert(s.subrange(k, k + 1) =~= mark);
    assert(occurs_at(s, k, mark));
    lemma_find_from(s, mark, 0);
    match find_from(s, mark, 0) {
        Some(j) => {
            assert(s.subrange(j, j + 1)[0] == s[j]);
            if j < k {
                assert(s[j] == line[j]);
            }
        },
        None => {},
    }
}

proof fn lemma_progress_lines(names: Seq<Seq<char>>)
    requires
        forall|i: int| 0 <= i < names.len() ==> fits_line(#[trigger] names[i]),
    ensures
        lines_of(progress_text(names)) == names,
    decreases names.len(),
{
    if names.len() == 0 {
        assert(lines_of(progress_text(names)) =~= names);
    } else {
        let first = names[0];
        let rest = names.skip(1);
        let s = progress_text(names);
        let k = first.len() as int;
        assert(fits_line(first));
        assert forall|i: int| 0 <= i < rest.len() implies fits_line(#[trigger] rest[i]) by {
            assert(rest[i] == names[i + 1]);
        }
        lemma_progress_lines(rest);
        lemma_no_return_at_end(first);
        lemma_first_line(first, progress_text(rest));
        assert(s.take(k) =~= first);
        assert(s.skip(k + 1) =~= progress_text(rest));
        assert(seq![first] + rest =~= names);
    }
}

proof fn lemma_logged_names(names: Seq<Seq<char>>, k: int)
    requires
        0 <= k < names.len(),
        fits_line(names[k]),
    ensures
        is_among(names[k], logged_names(names)),
    decreases names.len(),
{
    let front = names.drop_last();
    let head = logged_names(front);
    let all = logged_names(names);
    let name = names[k];
    if k == names.len() - 1 {
        if !is_among(name, head) {
            assert(all[all.len() - 1] == name);
        }
    } else {
        assert(front[k] == name);
        lemma_logged_names(front, k);
        let j = choose|j: int| 0 <= j < head.len() && head[j] == name;
        assert(all[j] == name);
    }
}

/// A file that was noted as done is found again when the run is resumed.
pub proof fn lemma_noted_files_are_resumed(names: Seq<Seq<char>>, k: int)
    requires
        forall|i: int| 0 <= i < names.len() ==> fits_line(#[trigger] names[i]),
        0 <= k < names.len(),
    ensures
        is_among(names[k], logged_names(lines_of(progress_text(names)))),
{
    lemma_progress_lines(names);
    assert(fits_line(names[k]));
    lemma_logged_names(names, k);
}

/// No file is noted twice.
pub proof fn lemma_logged_names_are_distinct(lines: Seq<Seq<char>>)
    ensures
        logged_names(lines).no_duplicates(),
    decreases lines.len(),
{
    if lines.len() > 0 {
        let head = logged_names(lines.drop_last());
        let all = logged_names(lines);
        lemma_logged_names_are_distinct(lines.drop_last());
        assert forall|i: int, j: int| 0 <= i < all.len() && 0 <= j < all.len() && i != j implies
            all[i] != all[j] by {
            if all.len() > head.len() {
                if i == head.len() {
                    assert(head[j] == all[j]);
                } else if j == head.len() {
                    assert(head[i] == all[i]);
                }
            }
        }
    }
}

/// The final chapter is a file with a number, and no file with a whole number has a larger one.
pub proof fn lemma_finale_is_largest(names: Seq<Seq<char>>, k: int)
    requires
        names.len() <= usize::MAX,
        0 <= k < names.len(),
        number_in(names[k]) is Some,
        !is_fractional(number_in(names[k])->0),
        number_of(number_in(names[k])->0) is Some,
    ensures
        finale_of(names) matches Some((i, s)) && i < names.len() && number_in(names[i as int]) == Some(s)
            && !is_fractional(s) && number_of(s) is Some && at_most(
            number_of(number_in(names[k])->0)->0,
            number_of(s)->0,
        ),
{
    lemma_numbered(names, k);
    lemma_largest(numbered_files(names, true));
}

/// The number in a name is never the one that is no number.
proof fn lemma_number_in_name(name: Seq<char>)
    ensures
        number_in(name) matches Some(s) ==> number_of(s) != Some(Number::Nan),
{
    lemma_first_number(name);
    match number_in(name) {
        Some(s) => {
            reveal_strlit("nan");
            assert(s[0] != '-' && s[0] != '+' && s[0] != 'n' && s[0] != 'N');
            assert(ascii_lower_all(s)[0] != 'n');
        },
        None => {},
    }
}

/// Every numbered file stands for a file with that number.
proof fn lemma_numbered(names: Seq<Seq<char>>, k: int)
    requires
        names.len() <= usize::MAX,
        0 <= k <= names.len(),
    ensures
        ({
            let files = numbered_files(names, true);
            &&& forall|j: int|
                0 <= j < files.len() ==> {
                    let (n, i, s) = #[trigger] files[j];
                    &&& i < names.len()
                    &&& number_in(names[i as int]) == Some(s)
                    &&& number_of(s) == Some(n)
                    &&& n != Number::Nan
                    &&& !is_fractional(s)
                }
            &&& k < names.len() && number_in(names[k]) is Some && !is_fractional(
                number_in(names[k])->0,
            ) && number_of(number_in(names[k])->0) is Some ==> exists|j: int|
                0 <= j < files.len() && (#[trigger] files[j]).0 == number_of(
                    number_in(names[k])->0,
                )->0
        }),
    decreases names.len(),
{
    if names.len() > 0 {
        let front = names.drop_last();
        let head = numbered_files(front, true);
        let files = numbered_files(names, true);
        let last = names.len() - 1;
        let m = if k < last {
            k
        } else {
            0
        };
        lemma_numbered(front, m);
        lemma_number_in_name(names[last]);
        assert forall|j: int| 0 <= j < files.len() implies {
            let (n, i, s) = #[trigger] files[j];
            &&& i < names.len()
            &&& number_in(names[i as int]) == Some(s)
            &&& number_of(s) == Some(n)
            &&& n != Number::Nan
            &&& !is_fractional(s)
        } by {
            if j < head.len() {
                assert(files[j] == head[j]);
                let (n, i, s) = head[j];
                assert(front[i as int] == names[i as int]);
            }
        }
        if k < names.len() && number_in(names[k]) is Some && !is_fractional(number_in(names[k])->0)
            && number_of(number_in(names[k])->0) is Some {
            let n = number_of(number_in(names[k])->0)->0;
            if k < last {
                assert(front[k] == names[k]);
                let j = choose|j: int| 0 <= j < head.len() && (#[trigger] head[j]).0 == n;
                assert(files[j] == head[j]);
            } else {
                assert(files[files.len() - 1].0 == n);
            }
        }
    }
}

/// No file has a larger number than the one that is found.
proof fn lemma_largest(files: Seq<Numbered>)
    requires
        forall|j: int| 0 <= j < files.len() ==> (#[trigger] files[j]).0 != Number::Nan,
    ensures
        files.len() > 0 ==> largest_numbered(files) is Some,
        largest_numbered(files) matches Some(best) ==> {
            &&& exists|j: int| 0 <= j < files.len() && #[trigger] files[j] == best
            &&& forall|j: int| 0 <= j < files.len() ==> at_most((#[trigger] files[j]).0, best.0)
        },
    decreases files.len(),
{
    if files.len() > 0 {
        let front = files.drop_last();
        assert forall|j: int| 0 <= j < front.len() implies (#[trigger] front[j]).0 != Number::Nan by {
            assert(front[j] == files[j]);
        }
        lemma_largest(front);
        let best = largest_numbered(files)->0;
        let last = files.len() - 1;
        assert(files[last].0 != Number::Nan);
        match largest_numbered(front) {
            Some(b) => {
                let j = choose|j: int| 0 <= j < front.len() && #[trigger] front[j] == b;
                assert(files[j] == b);
                assert(b.0 != Number::Nan);
                assert forall|j: int| 0 <= j < files.len() implies at_most(
                    (#[trigger] files[j]).0,
                    best.0,
                ) by {
                    if j < last {
                        assert(front[j] == files[j]);
                        assert(at_most(front[j].0, b.0));
                    }
                }
            },
            None => {
                assert(files[last] == best);
            },
        }
    }
}

/// The value of the whole number in a name, where there is one.
pub open spec fn whole_value(name: Seq<char>) -> Option<Number> {
    match number_in(name) {
        Some(s) => if s.contains('.') {
            None
        } else {
            number_of(s)
        },
        None => None,
    }
}

/// Where several files have the largest whole number, the last of them is the final chapter: every whole
/// number behind it is smaller.
pub proof fn lemma_finale_is_last(names: Seq<Seq<char>>, k: int)
    requires
        names.len() <= usize::MAX,
        0 <= k < names.len(),
        whole_value(names[k]) is Some,
    ensures
        finale_of(names) matches Some((i, s)) && (i < k ==> !at_most(
            number_of(s)->0,
            whole_value(names[k])->0,
        )),
{
    lemma_finale_is_largest(names, k);
    lemma_largest_is_last(names, k);
    lemma_numbered(names, k);
    lemma_largest(numbered_files(names, true));
}

proof fn lemma_largest_is_last(names: Seq<Seq<char>>, k: int)
    requires
        names.len() <= usize::MAX,
        0 <= k < names.len(),
    ensures
        largest_numbered(numbered_files(names, true)) matches Some((n, i, s)) ==> i < names.len()
            && number_of(s) == Some(n) && (i < k && whole_value(names[k]) is Some ==> !at_most(
            n,
            whole_value(names[k])->0,
        )),
        whole_value(names[k]) is Some ==> largest_numbered(numbered_files(names, true)) is Some,
    decreases names.len(),
{
    let front = names.drop_last();
    let head = numbered_files(front, true);
    let files = numbered_files(names, true);
    let last = names.len() - 1;
    if files.len() > head.len() {
        assert(files.drop_last() =~= head);
    }
    if last > 0 {
        let m = if k < last {
            k
        } else {
            0
        };
        lemma_largest_is_last(front, m);
        assert(front[m] == names[m]);
    } else {
        assert(head =~= Seq::<Numbered>::empty());
    }
}

/// Only files in the folder that end in `.cbz`, in whatever case, are archives, and all of them are.
pub proof fn lemma_archive_names(names: Seq<Seq<char>>, name: Seq<char>)
    ensures
        archive_names(names).contains(name) <==> names.contains(name) && ends_with(
            lowered(name),
            ".cbz"@,
        ),
    decreases names.len(),
{
    let r = archive_names(names);
    if names.len() > 0 {
        let t = names.drop_last();
        let head = archive_names(t);
        lemma_archive_names(t, name);
        if names.contains(name) {
            let i = choose|i: int| 0 <= i < names.len() && names[i] == name;
            if i < t.len() {
                assert(t[i] == name);
            }
        }
        if t.contains(name) {
            let i = choose|i: int| 0 <= i < t.len() && t[i] == name;
            assert(names[i] == name);
        }
        if name == names.last() {
            assert(names[names.len() - 1] == name);
        }
        if head.contains(name) {
            let i = choose|i: int| 0 <= i < head.len() && head[i] == name;
            assert(r[i] == name);
        }
        if r.len() > head.len() {
            assert(r[head.len() as int] == names.last());
            if r.contains(name) {
                let i = choose|i: int| 0 <= i < r.len() && r[i] == name;
                if i < head.len() {
                    assert(head[i] == name);
                }
            }
        }
    }
}

/// The file that the preview goes by is one of the files, and none stands before it.
pub proof fn lemma_first_name(names: Seq<Seq<char>>, k: int)
    requires
        0 <= k < names.len() <= usize::MAX,
    ensures
        first_name(names) matches Some(f) && names.contains(f) && row_relation(
            sort_key(f),
            sort_key(names[k]),
        ) != Relation::Above,
{
    let le = row_order(sort_keys(names));
    let r = stable_order(names.len(), le);
    lemma_row_order(sort_keys(names));
    lemma_stable_order_exists(names.len() as usize, le);
    lemma_stable_order_lists_all(r, names.len(), le, k);
    let i = choose|i: int| 0 <= i < names.len() && r[i] == k;
    let x = r[0] as int;
    assert(names[x] == first_name(names)->0);
    if i == 0 {
        lemma_row_relation(sort_key(names[k]), sort_key(names[k]));
    } else {
        assert(precedes(le, r[0] as int, r[i] as int));
        assert(sort_keys(names)[x] == sort_key(names[x]));
        assert(sort_keys(names)[k] == sort_key(names[k]));
    }
}

/// A field without a value is named before a run, unless the date rules give its value, and so is an empty
/// summary. Where nothing is empty, nothing is named.
pub proof fn lemma_empty_fields_are_named(cfg: AppConfig, i: int)
    ensures
        ({
            let fields = cfg.metadata_fields.deep_view();
            0 <= i < fields.len() && trimmed(fields[i].1).len() == 0 && !(cfg.use_vol_date && (
            fields[i].0 == "Year"@ || fields[i].0 == "Month"@ || fields[i].0 == "Day"@))
                ==> empty_fields(cfg).contains(label_of(fields[i].0))
        }),
        trimmed(cfg.summary@).len() == 0 ==> empty_fields(cfg).contains("Summary"@),
        trimmed(cfg.summary@).len() > 0 && (forall|j: int|
            0 <= j < cfg.metadata_fields.deep_view().len() ==> trimmed(
                (#[trigger] cfg.metadata_fields.deep_view()[j]).1,
            ).len() > 0) ==> empty_fields(cfg).len() == 0,
{
    let fields = cfg.metadata_fields.deep_view();
    let labels = empty_labels(fields, cfg.use_vol_date);
    lemma_empty_labels(fields, cfg.use_vol_date, i);
    let r = empty_fields(cfg);
    if 0 <= i < fields.len() && labels.contains(label_of(fields[i].0)) {
        let j = choose|j: int| 0 <= j < labels.len() && labels[j] == label_of(fields[i].0);
        assert(r[j] == labels[j]);
    }
    if trimmed(cfg.summary@).len() == 0 {
        assert(r[labels.len() as int] == "Summary"@);
    }
}

proof fn lemma_empty_labels(fields: Seq<Pair>, by_volume: bool, i: int)
    ensures
        0 <= i < fields.len() && trimmed(fields[i].1).len() == 0 && !(by_volume && (fields[i].0
            == "Year"@ || fields[i].0 == "Month"@ || fields[i].0 == "Day"@)) ==> empty_labels(
            fields,
            by_volume,
        ).contains(label_of(fields[i].0)),
        (forall|j: int| 0 <= j < fields.len() ==> trimmed((#[trigger] fields[j]).1).len() > 0)
            ==> empty_labels(fields, by_volume).len() == 0,
    decreases fields.len(),
{
    if fields.len() > 0 {
        let t = fields.drop_last();
        let head = empty_labels(t, by_volume);
        let r = empty_labels(fields, by_volume);
        lemma_empty_labels(t, by_volume, i);
        if 0 <= i < t.len() {
            assert(t[i] == fields[i]);
            if head.contains(label_of(fields[i].0)) {
                let j = choose|j: int| 0 <= j < head.len() && head[j] == label_of(fields[i].0);
                assert(r[j] == head[j]);
            }
        } else if i == t.len() && r.len() > head.len() {
            assert(r[head.len() as int] == label_of(fields[i].0));
        }
        if forall|j: int| 0 <= j < fields.len() ==> trimmed((#[trigger] fields[j]).1).len() > 0 {
            assert forall|j: int| 0 <= j < t.len() implies trimmed((#[trigger] t[j]).1).len() > 0 by {
                assert(t[j] == fields[j]);
            }
            assert(trimmed(fields[fields.len() - 1].1).len() > 0);
        }
    }
}

/// The names in a log are exactly its lines that are not blank, without the blanks at their ends.
pub proof fn lemma_logged_names_are_lines(lines: Seq<Seq<char>>, name: Seq<char>)
    ensures
        logged_names(lines).contains(name) <==> name.len() > 0 && exists|i: int|
            0 <= i < lines.len() && trimmed(#[trigger] lines[i]) == name,
    decreases lines.len(),
{
    let r = logged_names(lines);
    if lines.len() > 0 {
        let t = lines.drop_last();
        let head = logged_names(t);
        let n = lines.len() - 1;
        lemma_logged_names_are_lines(t, name);
        assert(is_among(trimmed(lines.last()), head) <==> head.contains(trimmed(lines.last())));
        if exists|i: int| 0 <= i < lines.len() && trimmed(#[trigger] lines[i]) == name {
            let i = choose|i: int| 0 <= i < lines.len() && trimmed(#[trigger] lines[i]) == name;
            if i < n {
                assert(trimmed(t[i]) == name);
            }
        }
        if exists|i: int| 0 <= i < t.len() && trimmed(#[trigger] t[i]) == name {
            let i = choose|i: int| 0 <= i < t.len() && trimmed(#[trigger] t[i]) == name;
            assert(trimmed(lines[i]) == name);
        }
        if trimmed(lines.last()) == name {
            assert(trimmed(lines[n]) == name);
        }
        if head.contains(name) {
            let i = choose|i: int| 0 <= i < head.len() && head[i] == name;
            assert(r[i] == name);
        }
        if r.len() > head.len() {
            assert(r[head.len() as int] == trimmed(lines.last()));
            if r.contains(name) {
                let i = choose|i: int| 0 <= i < r.len() && r[i] == name;
                if i < head.len() {
                    assert(head[i] == name);
                }
            }
        }
    }
}

/// Letters, digits and hyphens stay in a suggested name, and what stands between two words becomes one
/// underscore.
pub proof fn lemma_slug(a: Seq<char>, c: char, b: Seq<char>)
    requires
        forall|i: int| 0 <= i < a.len() ==> is_slug_letter(#[trigger] a[i]),
        forall|i: int| 0 <= i < b.len() ==> is_slug_letter(#[trigger] b[i]),
        !alphanumeric(c),
        c != '-',
    ensures
        slug_of(a + seq![c] + b) == a + "_"@ + b,
{
    reveal_strlit("_");
    reveal_strlit("__");
    let m = a + "_"@ + b;
    assert((a + seq![c] + b).map_values(|c: char| slug_char(c)) =~= m) by {
        assert forall|i: int| 0 <= i < m.len() implies slug_char((a + seq![c] + b)[i]) == m[i] by {
            if i < a.len() {
                assert(is_slug_letter(a[i]));
            } else if i > a.len() {
                assert(is_slug_letter(b[i - a.len() - 1]));
            }
        }
    }
    lemma_find_from(m, "__"@, 0);
    match find_from(m, "__"@, 0) {
        Some(i) => {
            assert(m.subrange(i, i + 2)[0] == m[i] && m.subrange(i, i + 2)[1] == m[i + 1]);
            if i < a.len() {
                assert(is_slug_letter(a[i]));
            } else {
                assert(is_slug_letter(b[i + 1 - a.len() - 1]));
            }
        },
        None => {},
    }
}

/// Whether a character stays as it is in a suggested name: a letter, a digit or a hyphen, and no
/// underscore.
pub open spec fn is_slug_letter(c: char) -> bool {
    (alphanumeric(c) || c == '-') && c != '_'
}

/// The prefix in the preview is the one that a run gives every file, unless the files suggest it, and but
/// that a prefix of one's own which is empty is shown as `Custom`.
pub proof fn lemma_preview_prefix(cfg: AppConfig, suggested: Seq<char>, file: Seq<char>)
    ensures
        cfg.prefix_mode != PrefixMode::Auto && !(cfg.prefix_mode == PrefixMode::Custom
            && cfg.custom_pfx@.len() == 0) ==> preview_prefix(cfg, suggested) == prefix_of(
            file,
            cfg.prefix_mode.name(),
            cfg.custom_pfx@,
        ),
        cfg.prefix_mode == PrefixMode::Auto ==> preview_prefix(cfg, suggested) == suggested
            && is_automatic(cfg.prefix_mode.name()),
        PostFinale::Strip.name() == "strip"@,
        PostFinale::Keep.name() != "strip"@,
{
    lemma_prefix_is_fixed(file, file, cfg.custom_pfx@);
    reveal_strlit("auto");
    reveal_strlit("custom");
    reveal_strlit("episode");
    reveal_strlit("chapter");
    reveal_strlit("volume");
    reveal_strlit("strip");
    reveal_strlit("keep");
    assert("auto"@.len() == 4 && "custom"@.len() == 6 && "episode"@.len() == 7 && "chapter"@.len() == 7
        && "volume"@.len() == 6);
    assert("strip"@.len() != "keep"@.len());
}

/// Where no file has a whole number, the final chapter is one with the largest number of all.
pub proof fn lemma_finale_without_whole_numbers(names: Seq<Seq<char>>, k: int)
    requires
        names.len() <= usize::MAX,
        forall|i: int| 0 <= i < names.len() ==> whole_value(#[trigger] names[i]) is None,
        0 <= k < names.len(),
        number_in(names[k]) is Some,
        number_of(number_in(names[k])->0) is Some,
    ensures
        finale_of(names) matches Some((i, s)) && i < names.len() && number_in(names[i as int]) == Some(s)
            && number_of(s) is Some && at_most(number_of(number_in(names[k])->0)->0, number_of(s)->0),
{
    lemma_no_whole_files(names);
    lemma_all_numbered(names, k);
    lemma_largest(numbered_files(names, false));
}

proof fn lemma_no_whole_files(names: Seq<Seq<char>>)
    requires
        forall|i: int| 0 <= i < names.len() ==> whole_value(#[trigger] names[i]) is None,
    ensures
        numbered_files(names, true).len() == 0,
    decreases names.len(),
{
    if names.len() > 0 {
        let front = names.drop_last();
        assert forall|i: int| 0 <= i < front.len() implies whole_value(#[trigger] front[i]) is None by {
            assert(front[i] == names[i]);
        }
        lemma_no_whole_files(front);
        assert(whole_value(names[names.len() - 1]) is None);
    }
}

proof fn lemma_all_numbered(names: Seq<Seq<char>>, k: int)
    requires
        names.len() <= usize::MAX,
        0 <= k <= names.len(),
    ensures
        ({
            let files = numbered_files(names, false);
            &&& forall|j: int|
                0 <= j < files.len() ==> {
                    let (n, i, s) = #[trigger] files[j];
                    &&& i < names.len()
                    &&& number_in(names[i as int]) == Some(s)
                    &&& number_of(s) == Some(n)
                    &&& n != Number::Nan
                }
            &&& k < names.len() && number_in(names[k]) is Some && number_of(number_in(names[k])->0) is Some
                ==> exists|j: int|
                0 <= j < files.len() && (#[trigger] files[j]).0 == number_of(
                    number_in(names[k])->0,
                )->0
        }),
    decreases names.len(),
{
    if names.len() > 0 {
        let front = names.drop_last();
        let head = numbered_files(front, false);
        let files = numbered_files(names, false);
        let last = names.len() - 1;
        let m = if k < last {
            k
        } else {
            0
        };
        lemma_all_numbered(front, m);
        lemma_number_in_name(names[last]);
        assert forall|j: int| 0 <= j < files.len() implies {
            let (n, i, s) = #[trigger] files[j];
            &&& i < names.len()
            &&& number_in(names[i as int]) == Some(s)
            &&& number_of(s) == Some(n)
            &&& n != Number::Nan
        } by {
            if j < head.len() {
                assert(files[j] == head[j]);
                let (n, i, s) = head[j];
                assert(front[i as int] == names[i as int]);
            }
        }
        if k < names.len() && number_in(names[k]) is Some && number_of(number_in(names[k])->0) is Some {
            let n = number_of(number_in(names[k])->0)->0;
            if k < last {
                assert(front[k] == names[k]);
                let j = choose|j: int| 0 <= j < head.len() && (#[trigger] head[j]).0 == n;
                assert(files[j] == head[j]);
            } else {
                assert(files[files.len() - 1].0 == n);
            }
        }
    }
}

/// A line that is logged is shown behind those that were logged before it, and the lines about a file in the
/// place of the file. How far a run has come and what was counted is shown as it was told. A run is over
/// with the last message and with no other, and no message but a question brings up a dialog.
pub proof fn lemma_messages_are_shown(
    a: ComicInfoApp,
    msg: WorkerMsg,
    ts: Seq<char>,
    b: ComicInfoApp,
    step: PollStep,
)
    requires
        after_message(a, msg, ts, b, step),
    ensures
        msg matches WorkerMsg::Log { text, level } ==> b.log.deep_view() == a.log.deep_view().push(
            (text@, level),
        ),
        msg matches WorkerMsg::LogBatch { idx, lines } ==> idx < a.file_slots@.len() ==> (
        b.file_slots@[idx as int] matches Some(entries) && entries.deep_view() == lines.deep_view()),
        msg matches WorkerMsg::Progress { done, total } ==> b.progress == (done, total),
        msg matches WorkerMsg::Stats { stats } ==> b.disp_stats.total == stats.total
            && b.disp_stats.processed == stats.processed && b.disp_stats.renamed == stats.renamed
            && b.disp_stats.skipped == stats.rename_skipped && b.disp_stats.xml == stats.xml_updated
            && b.disp_stats.errors == stats.errors,
        msg is Done ==> !b.running && step is Finished,
        !(msg is Done) ==> b.running == a.running && !(step is Finished),
        !(msg is DecimalRequest) ==> b.dialog == a.dialog,
        msg is DecimalRequest <==> step is Pause,
        !(msg is Log) && !(msg is LogBatch) ==> b.log == a.log && b.file_slots == a.file_slots,
        b.cfg == a.cfg && b.settings == a.settings,
{
}

/// The name suggested for a configuration is made from the folder where one is chosen, else from the series,
/// and it is that of a JSON file.
pub proof fn lemma_suggested_name(cfg: AppConfig, folder: Seq<char>, slug: Seq<char>)
    ensures
        cfg.folder@.len() > 0 ==> name_source(cfg, folder) == folder,
        cfg.folder@.len() == 0 ==> (lookup(cfg.metadata_fields.deep_view(), "Series"@) matches Some(s)
            ==> name_source(cfg, folder) == s),
        ends_with(config_name(slug), "_gui.json"@),
        slug.len() > 0 ==> config_name(slug) == slug + "_gui.json"@,
{
    reveal_strlit("_gui.json");
    reveal_strlit("metadata_gui.json");
    let n = config_name(slug);
    assert(n.subrange(n.len() - 9, n.len() as int) =~= "_gui.json"@);
}

/// The preview shows the number of the first archive, and the word for its kind; the first episode where
/// there is no archive.
pub proof fn lemma_suggestion(names: Seq<Seq<char>>, first: Seq<char>, number: Seq<char>)
    requires
        first_name(archive_names(names)) == Some(first),
        number_in(first) == Some(number),
    ensures
        suggestion(names).1 == number,
        kind_of(first, lowered(first)) == "volume"@ ==> suggestion(names).0 == "Volume"@,
        kind_of(first, lowered(first)) == "chapter"@ ==> suggestion(names).0 == "Chapter"@,
        kind_of(first, lowered(first)) == "episode"@ ==> suggestion(names).0 == "Episode"@,
        suggestion(Seq::empty()) == ("Episode"@, "1"@),
{
    reveal_strlit("volume");
    reveal_strlit("chapter");
    reveal_strlit("episode");
    assert("volume"@.len() != "chapter"@.len() && "volume"@.len() != "episode"@.len());
    assert("chapter"@[0] != "episode"@[0]);
}

} // verus!
