//! Settings, counters and the log.

use crate::schema::{canonical_order, default_tag_order};
use crate::theme::{Color, Palette, ThemeChoice};
use vstd::prelude::*;

verus! {

/// How the word that titles start with is found.
#[derive(Clone, Copy, Debug, PartialEq, Eq, Structural)]
pub enum PrefixMode {
    Auto,
    Episode,
    Chapter,
    Volume,
    Custom,
}

impl PrefixMode {
    /// The name of the mode.
    pub open spec fn name(self) -> Seq<char> {
        match self {
            PrefixMode::Auto => "auto"@,
            PrefixMode::Episode => "episode"@,
            PrefixMode::Chapter => "chapter"@,
            PrefixMode::Volume => "volume"@,
            PrefixMode::Custom => "custom"@,
        }
    }

    /// The name of the mode.
    pub fn as_str(&self) -> (r: &'static str)
        ensures
            r@ == self.name(),
    {
        match self {
            PrefixMode::Auto => "auto",
            PrefixMode::Episode => "episode",
            PrefixMode::Chapter => "chapter",
            PrefixMode::Volume => "volume",
            PrefixMode::Custom => "custom",
        }
    }
}

impl Default for PrefixMode {
    fn default() -> (r: PrefixMode)
        ensures
            r == PrefixMode::Auto,
    {
        PrefixMode::Auto
    }
}

/// What becomes of the prefix behind the final chapter.
#[derive(Clone, Copy, Debug, PartialEq, Eq, Structural)]
pub enum PostFinale {
    Strip,
    Keep,
}

impl PostFinale {
    /// The name of the choice.
    pub open spec fn name(self) -> Seq<char> {
        match self {
            PostFinale::Strip => "strip"@,
            PostFinale::Keep => "keep"@,
        }
    }

    /// The name of the choice.
    pub fn as_str(&self) -> (r: &'static str)
        ensures
            r@ == self.name(),
    {
        match self {
            PostFinale::Strip => "strip",
            PostFinale::Keep => "keep",
        }
    }
}

impl Default for PostFinale {
    fn default() -> (r: PostFinale)
        ensures
            r == PostFinale::Strip,
    {
        PostFinale::Strip
    }
}

/// The kind of comic.
#[derive(Clone, Copy, Debug, PartialEq, Eq, Structural)]
pub enum ComicMode {
    Manga,
    Manhwa,
}

impl Default for ComicMode {
    fn default() -> (r: ComicMode)
        ensures
            r == ComicMode::Manga,
    {
        ComicMode::Manga
    }
}

/// The version of the layout of saved configurations.
pub const CURRENT_CONFIG_VERSION: u32 = 1;

/// The configuration of a job.
#[derive(Clone, Debug)]
pub struct AppConfig {
    /// The version of the layout that the configuration was saved in.
    pub config_version: u32,
    pub folder: String,
    pub ch_json: String,
    pub vol_json: String,
    /// Titles of chapters and volumes by number.
    pub titles_json: String,
    pub date_json: String,
    pub workers: usize,
    pub dry_run: bool,
    /// Whether a new archive is written and the source left alone.
    pub write_new_cbz: bool,
    /// Whether new archives go below the folder of the source.
    pub output_same_path: bool,
    /// Where new archives go otherwise.
    pub output_path: String,
    pub mode: ComicMode,
    pub use_vol: bool,
    pub use_vol_date: bool,
    pub use_vol_summ: bool,
    pub prefix_mode: PrefixMode,
    pub custom_pfx: String,
    pub post_finale: PostFinale,
    pub csep_on: bool,
    pub csep: String,
    pub zero_pad: bool,
    pub pad_width: usize,
    /// Tags of constant metadata with their values, in the order in which they were added.
    pub metadata_fields: Vec<(String, String)>,
    /// Whether the community rating is entered on a scale up to 10.
    pub community_rating_10_scale: bool,
    /// The order in which tags are written.
    pub tag_order: Vec<String>,
    pub summary: String,
    /// Rows of first chapter, last chapter, volume.
    pub volume_rules: Vec<Vec<String>>,
    /// Rows of first volume, last volume, year, month, day.
    pub date_rules: Vec<Vec<String>>,
    /// Rows of first volume, last volume, summary.
    pub summ_rules: Vec<Vec<String>>,
}

/// The constant metadata that a new configuration starts with.
pub open spec fn default_fields() -> Seq<(Seq<char>, Seq<char>)> {
    seq![
        ("Series"@, ""@),
        ("Writer"@, ""@),
        ("Penciller"@, ""@),
        ("Publisher"@, ""@),
        ("LanguageISO"@, "en"@),
        ("AlternateSeries"@, ""@),
        ("Genre"@, ""@),
        ("CommunityRating"@, ""@),
        ("Year"@, ""@),
        ("Month"@, ""@),
        ("Day"@, ""@),
        ("Count"@, ""@),
        ("Web"@, ""@),
    ]
}

/// The examples of rules for volumes that a new configuration starts with.
pub open spec fn default_volume_rules() -> Seq<Seq<Seq<char>>> {
    seq![
        seq!["1"@, "3.5"@, "1"@],
        seq!["4"@, "8.5"@, "2"@],
        seq!["9"@, "13.5"@, "3"@],
    ]
}

/// The examples of rules for dates that a new configuration starts with.
pub open spec fn default_date_rules() -> Seq<Seq<Seq<char>>> {
    seq![
        seq!["1"@, "1"@, "2020"@, "6"@, "16"@],
        seq!["2"@, "2"@, "2021"@, "1"@, "19"@],
        seq!["3"@, "3"@, "2021"@, "6"@, "1"@],
    ]
}

impl AppConfig {
    /// Whether everything but the rules is as in a new configuration.
    pub open spec fn is_plain(self) -> bool {
        &&& self.config_version == CURRENT_CONFIG_VERSION
        &&& self.folder@ == ""@
        &&& self.ch_json@ == ""@
        &&& self.vol_json@ == ""@
        &&& self.titles_json@ == ""@
        &&& self.date_json@ == ""@
        &&& self.workers == 4
        &&& !self.dry_run
        &&& !self.write_new_cbz
        &&& self.output_same_path
        &&& self.output_path@ == ""@
        &&& self.mode == ComicMode::Manga
        &&& self.use_vol
        &&& self.use_vol_date
        &&& self.use_vol_summ
        &&& self.prefix_mode == PrefixMode::Auto
        &&& self.custom_pfx@ == "Break"@
        &&& self.post_finale == PostFinale::Strip
        &&& !self.csep_on
        &&& self.csep@ == "..."@
        &&& !self.zero_pad
        &&& self.pad_width == 2
        &&& self.metadata_fields.deep_view() == default_fields()
        &&& !self.community_rating_10_scale
        &&& self.summary@ == ""@
    }

    /// Whether this is a new configuration.
    pub open spec fn is_default(self) -> bool {
        &&& self.is_plain()
        &&& self.tag_order.deep_view() == canonical_order()
        &&& self.volume_rules.deep_view() == default_volume_rules()
        &&& self.date_rules.deep_view() == default_date_rules()
        &&& self.summ_rules.deep_view() == Seq::<Seq<Seq<char>>>::empty()
    }
}

/// A row of texts.
fn row_of(texts: &Vec<&'static str>) -> (r: Vec<String>)
    ensures
        r.deep_view() == texts.deep_view(),
{
    crate::schema::texts_of(texts)
}

/// A tag with a value.
fn pair_of(tag: &'static str, value: &'static str) -> (r: (String, String))
    ensures
        r.deep_view() == (tag@, value@),
{
    (String::from_str(tag), String::from_str(value))
}

impl Default for AppConfig {
    fn default() -> (r: AppConfig)
        ensures
            r.is_default(),
    {
        let metadata_fields: Vec<(String, String)> = vec![
            pair_of("Series", ""),
            pair_of("Writer", ""),
            pair_of("Penciller", ""),
            pair_of("Publisher", ""),
            pair_of("LanguageISO", "en"),
            pair_of("AlternateSeries", ""),
            pair_of("Genre", ""),
            pair_of("CommunityRating", ""),
            pair_of("Year", ""),
            pair_of("Month", ""),
            pair_of("Day", ""),
            pair_of("Count", ""),
            pair_of("Web", ""),
        ];
        assert(metadata_fields.deep_view() =~= default_fields());
        let volume_rules: Vec<Vec<String>> = vec![
            row_of(&vec!["1", "3.5", "1"]),
            row_of(&vec!["4", "8.5", "2"]),
            row_of(&vec!["9", "13.5", "3"]),
        ];
        assert(volume_rules.deep_view() =~~= default_volume_rules());
        let date_rules: Vec<Vec<String>> = vec![
            row_of(&vec!["1", "1", "2020", "6", "16"]),
            row_of(&vec!["2", "2", "2021", "1", "19"]),
            row_of(&vec!["3", "3", "2021", "6", "1"]),
        ];
        assert(date_rules.deep_view() =~~= default_date_rules());
        let summ_rules: Vec<Vec<String>> = Vec::new();
        assert(summ_rules.deep_view() =~= Seq::<Seq<Seq<char>>>::empty());
        AppConfig {
            config_version: CURRENT_CONFIG_VERSION,
            folder: String::from_str(""),
            ch_json: String::from_str(""),
            vol_json: String::from_str(""),
            titles_json: String::from_str(""),
            date_json: String::from_str(""),
            workers: 4,
            dry_run: false,
            write_new_cbz: false,
            output_same_path: true,
            output_path: String::from_str(""),
            mode: ComicMode::Manga,
            use_vol: true,
            use_vol_date: true,
            use_vol_summ: true,
            prefix_mode: PrefixMode::Auto,
            custom_pfx: String::from_str("Break"),
            post_finale: PostFinale::Strip,
            csep_on: false,
            csep: String::from_str("..."),
            zero_pad: false,
            pad_width: 2,
            metadata_fields,
            community_rating_10_scale: false,
            tag_order: default_tag_order(),
            summary: String::from_str(""),
            volume_rules,
            date_rules,
            summ_rules,
        }
    }
}

/// Settings that hold for every job.
#[derive(Clone, Debug)]
pub struct AppSettings {
    /// Whether an archive is copied before it is overwritten.
    pub backup_before_overwrite: bool,
    /// Whether a sound is played when a run is finished.
    pub play_sound_on_completion: bool,
    pub theme: ThemeChoice,
    /// The order of tags that a new configuration starts with, where one was chosen.
    pub preferred_tag_order: Option<Vec<String>>,
    /// Whether single archives are edited.
    pub single_file_mode: bool,
    /// Whether edits are saved when another file is chosen.
    pub sfm_autosave_on_focus_change: bool,
    /// What was open when single archives were last edited.
    pub sfm_last_root: Option<String>,
    pub sfm_last_is_folder: bool,
    pub sfm_last_selected: Option<String>,
}

impl AppSettings {
    /// Whether these are the settings that the application starts with.
    pub open spec fn is_default(self) -> bool {
        &&& self.backup_before_overwrite
        &&& self.play_sound_on_completion
        &&& self.theme == ThemeChoice::MidnightViolet
        &&& self.preferred_tag_order is None
        &&& !self.single_file_mode
        &&& !self.sfm_autosave_on_focus_change
        &&& self.sfm_last_root is None
        &&& !self.sfm_last_is_folder
        &&& self.sfm_last_selected is None
    }
}

impl Default for AppSettings {
    fn default() -> (r: AppSettings)
        ensures
            r.is_default(),
    {
        AppSettings {
            backup_before_overwrite: true,
            play_sound_on_completion: true,
            theme: ThemeChoice::MidnightViolet,
            preferred_tag_order: None,
            single_file_mode: false,
            sfm_autosave_on_focus_change: false,
            sfm_last_root: None,
            sfm_last_is_folder: false,
            sfm_last_selected: None,
        }
    }
}

/// What a run has done so far.
#[derive(Clone, Copy, Debug, PartialEq, Eq, Structural)]
pub struct RunStats {
    pub total: usize,
    pub processed: usize,
    pub renamed: usize,
    pub rename_skipped: usize,
    pub xml_updated: usize,
    pub errors: usize,
}

impl Default for RunStats {
    fn default() -> (r: RunStats)
        ensures
            r == (RunStats {
                total: 0,
                processed: 0,
                renamed: 0,
                rename_skipped: 0,
                xml_updated: 0,
                errors: 0,
            }),
    {
        RunStats {
            total: 0,
            processed: 0,
            renamed: 0,
            rename_skipped: 0,
            xml_updated: 0,
            errors: 0,
        }
    }
}

/// What a line of the log is about.
#[derive(Clone, Copy, Debug, PartialEq, Eq, Structural)]
pub enum LogLevel {
    Success,
    Failure,
    Warn,
    Dim,
    Head,
    Sep,
    Renamed,
}

impl DeepView for LogLevel {
    type V = LogLevel;

    open spec fn deep_view(&self) -> LogLevel {
        *self
    }
}

impl LogLevel {
    /// The colour of a line in a palette.
    pub open spec fn shade(self, p: Palette) -> Color {
        match self {
            LogLevel::Success => p.tgood,
            LogLevel::Failure => p.terr,
            LogLevel::Warn => p.twarn,
            LogLevel::Dim => p.tdim,
            LogLevel::Head => p.acc2,
            LogLevel::Sep => p.bdr,
            LogLevel::Renamed => p.acc2,
        }
    }

    /// The colour of a line in a palette.
    pub fn color(self, p: &Palette) -> (r: Color)
        ensures
            r == self.shade(*p),
    {
        match self {
            LogLevel::Success => p.tgood,
            LogLevel::Failure => p.terr,
            LogLevel::Warn => p.twarn,
            LogLevel::Dim => p.tdim,
            LogLevel::Head => p.acc2,
            LogLevel::Sep => p.bdr,
            LogLevel::Renamed => p.acc2,
        }
    }
}

/// A line of the log.
pub type Line = (Seq<char>, LogLevel);

/// A line of the log.
#[derive(Clone, Debug)]
pub struct LogEntry {
    pub text: String,
    pub level: LogLevel,
}

impl DeepView for LogEntry {
    type V = Line;

    open spec fn deep_view(&self) -> Line {
        (self.text@, self.level)
    }
}

} // verus!
