//! What is done with each archive of a run.
//!
//! A file is read first: its number, its prefix and its title. Where the number has a fraction, a
//! label is asked for. Then the title, the metadata and the new name are worked out. Archives are
//! read and written elsewhere; what to do and what to report is decided here.

use crate::decimal::{
    all_digits,
    decimal_text,
    is_digit,
    natural_of,
    pad_with_zeros,
    parse_u64,
    signed_text,
    text_of_i64,
    text_of_u64,
    zero_padded,
};
use crate::naming::{
    detect_file_type,
    get_prefix,
    get_separator,
    is_decimal_file,
    kind_of,
    lemma_number_is_found,
    numeral,
    prefix_of,
    safe_name,
    sanitize_filename,
    separator_of,
    starts_apart,
};
use crate::number::{
    fivefold,
    fivefold_of,
    number_of,
    number_text,
    parse_number,
    tenth,
    tenth_of,
    Number,
    INFINITE,
};
use crate::patterns::{
    find,
    first_number,
    has_decimal,
    has_digit,
    is_pattern_digit,
    next_digit,
    ANY_NUMBER,
};
use crate::rules::{find_date, find_summary, find_volume, mapped_date, mapped_text, matching_rule};
use crate::state::{Line, LogLevel, RunStats};
use crate::tags::{inserted, lemma_lookup_inserted, lookup, Pair, TagMap};
use crate::text::{
    cat2,
    cat3,
    cat4,
    cat5,
    cat6,
    cat7,
    chars_of,
    repeat,
    repeated,
    same,
    trim,
    trimmed,
};
use crate::unicode::{lowered, nfkc};
use crate::xml::{build_comic_info_xml, document};
use chrono::Datelike;
use vstd::prelude::*;

verus! {

/// What a run reports.
#[derive(Debug)]
pub enum WorkerMsg {
    Log { text: String, level: LogLevel },
    /// The lines about one file, which belong together. `idx` is the place of the file in the sorted
    /// list.
    LogBatch { idx: usize, lines: Vec<(String, LogLevel)> },
    Progress { done: usize, total: usize },
    Stats { stats: RunStats },
    /// A label is needed for a file whose number has a fraction.
    DecimalRequest { filename: String, raw_title: String },
    Done { stats: RunStats },
}

/// What a run is told.
#[derive(Debug)]
pub enum UiMsg {
    DecimalResponse { result: String },
}

/// The configuration of a run.
#[derive(Clone, Debug)]
pub struct WorkerConfig {
    pub dry_run: bool,
    pub write_new_cbz: bool,
    pub output_same_path: bool,
    pub output_path: String,
    pub backup_before_overwrite: bool,
    pub use_vol: bool,
    pub use_vol_date: bool,
    pub use_vol_summ: bool,
    pub prefix_mode: String,
    pub custom_pfx: String,
    /// `strip` or `keep`.
    pub post_finale_mode: String,
    pub use_csep: bool,
    pub csep: String,
    pub zero_pad: bool,
    pub pad_width: usize,
    pub metadata_fields: TagMap,
    pub community_rating_10_scale: bool,
    pub tag_order: Vec<String>,
    pub summary: String,
    pub volume_rules: Vec<Vec<String>>,
    pub date_rules: Vec<Vec<String>>,
    pub summ_rules: Vec<Vec<String>>,
    pub chapter_titles: TagMap,
    pub volume_titles: TagMap,
    pub dates_json: TagMap,
    pub max_workers: usize,
    pub processed_files: Vec<String>,
    pub resume_mode: bool,
    pub finale_index: Option<usize>,
    pub finale_number: Option<String>,
    /// `final` or `normal`.
    pub final_ch_mode: String,
    pub progress_file: String,
    pub error_log_file: String,
    pub verbose: bool,
}

impl WorkerConfig {
    /// Whether no tag, title or date stands there twice.
    pub open spec fn is_valid(self) -> bool {
        &&& self.metadata_fields.is_valid()
        &&& self.chapter_titles.is_valid()
        &&& self.volume_titles.is_valid()
        &&& self.dates_json.is_valid()
    }
}

/// A date, as `NaiveDate::parse_from_str` reads it from a text in a given format: year, month, day.
pub uninterp spec fn parsed_date(text: Seq<char>, format: Seq<char>) -> Option<(i32, u32, u32)>;

/// Calls `chrono::NaiveDate::parse_from_str`, and takes the date apart into year, month and day.
///
/// The result depends on the text and the format alone. A month is between 1 and 12, a day between 1
/// and 31.
#[verifier::external_body]
fn parse_date(text: &str, format: &str) -> (r: Option<(i32, u32, u32)>)
    ensures
        r == parsed_date(text@, format@),
        r matches Some((_, m, d)) ==> 1 <= m <= 12 && 1 <= d <= 31,
{
    let date = chrono::NaiveDate::parse_from_str(text, format).ok()?;
    Some((date.year(), date.month(), date.day()))
}

/// What is known of a file by its name.
#[derive(Debug)]
pub struct FileName {
    /// The whole name.
    pub file: String,
    /// `volume`, `chapter`, `episode` or `unknown`.
    pub kind: String,
    /// The name without its extension, made safe.
    pub safe_stem: String,
}

/// What is known of a file by its name, given the name without its extension.
pub fn describe_file(file: &str, stem: &str) -> (r: FileName)
    ensures
        r.file@ == file@,
        r.kind@ == kind_of(file@, lowered(file@)),
        r.safe_stem@ == safe_name(nfkc(stem@)),
{
    FileName {
        file: String::from_str(file),
        kind: String::from_str(detect_file_type(file)),
        safe_stem: sanitize_filename(stem),
    }
}

/// Whether a name is among `names`.
pub open spec fn is_among(name: Seq<char>, names: Seq<Seq<char>>) -> bool {
    exists|i: int| 0 <= i < names.len() && #[trigger] names[i] == name
}

/// Whether a name is among `names`.
pub fn is_in(name: &str, names: &Vec<String>) -> (r: bool)
    ensures
        r == is_among(name@, names.deep_view()),
{
    let ghost list = names.deep_view();
    let mut i: usize = 0;
    while i < names.len()
        invariant
            list == names.deep_view(),
            i <= names@.len(),
            forall|k: int| 0 <= k < i ==> #[trigger] list[k] != name@,
        decreases names@.len() - i,
    {
        assert(list[i as int] == names@[i as int]@);
        if same(names[i].as_str(), name) {
            return true;
        }
        i = i + 1;
    }
    false
}

/// Whether a file was already done in the run that is resumed.
pub fn is_resumed(cfg: &WorkerConfig, file: &str) -> (r: bool)
    ensures
        r == (cfg.resume_mode && is_among(file@, cfg.processed_files.deep_view())),
{
    cfg.resume_mode && is_in(file, &cfg.processed_files)
}

/// The number in a file name.
pub open spec fn number_in(file: Seq<char>) -> Option<Seq<char>> {
    match first_number(file) {
        Some((_, number, _)) => Some(number),
        None => None,
    }
}

/// The number in a file name.
pub fn find_number(file: &str) -> (r: Option<String>)
    ensures
        r.deep_view() == number_in(file@),
{
    match find(ANY_NUMBER, file) {
        Some((_, number, _)) => Some(number),
        None => None,
    }
}

/// Whether a number has a fraction.
pub open spec fn is_fractional(number: Seq<char>) -> bool {
    number.contains('.')
}

/// Whether a number has a fraction.
pub fn has_fraction(number: &str) -> (r: bool)
    ensures
        r == is_fractional(number@),
{
    let v = chars_of(number);
    let mut i: usize = 0;
    while i < v.len()
        invariant
            v@ == number@,
            i <= v@.len(),
            forall|k: int| 0 <= k < i ==> #[trigger] v@[k] != '.',
        decreases v@.len() - i,
    {
        if v[i] == '.' {
            assert(number@[i as int] == '.');
            return true;
        }
        i = i + 1;
    }
    false
}

/// A number as it is shown: filled up with zeros to `width` where that is wanted and it is a whole
/// number.
pub open spec fn shown_number(number: Seq<char>, zero_pad: bool, width: nat) -> Seq<char> {
    if zero_pad && !is_fractional(number) {
        match natural_of(number) {
            Some(n) => if n <= u64::MAX {
                zero_padded(decimal_text(n), width)
            } else {
                number
            },
            None => number,
        }
    } else {
        number
    }
}

/// A number as it is shown.
pub fn show_number(number: &str, zero_pad: bool, width: usize) -> (r: String)
    ensures
        r@ == shown_number(number@, zero_pad, width as nat),
{
    if zero_pad && !has_fraction(number) {
        match parse_u64(number) {
            Some(n) => {
                let digits = text_of_u64(n);
                pad_with_zeros(digits.as_str(), width)
            },
            None => String::from_str(number),
        }
    } else {
        String::from_str(number)
    }
}

/// The prefix and the number.
pub open spec fn base_of(prefix: Seq<char>, number: Seq<char>) -> Seq<char> {
    trimmed(prefix) + " "@ + number
}

/// The titles that hold for a kind of file.
pub open spec fn titles_for(cfg: WorkerConfig, kind: Seq<char>) -> Seq<Pair> {
    if kind == "volume"@ {
        cfg.volume_titles@
    } else {
        cfg.chapter_titles@
    }
}

/// The title under a number, as it stands in the file name or as it is shown.
pub open spec fn title_entry(
    titles: Seq<Pair>,
    orig: Seq<char>,
    number: Seq<char>,
) -> Option<Seq<char>> {
    match lookup(titles, orig) {
        Some(t) => Some(t),
        None => lookup(titles, number),
    }
}

/// Whether there is a title that is not empty.
pub open spec fn is_reliable(entry: Option<Seq<char>>) -> bool {
    match entry {
        Some(t) => t.len() > 0,
        None => false,
    }
}

/// The line on the kind of a file.
pub open spec fn kind_line(file: Seq<char>, kind: Seq<char>) -> Line {
    ("  -  "@ + file + "  ->  "@ + kind, LogLevel::Dim)
}

/// The line on a file without a number.
pub open spec fn no_number_line(file: Seq<char>) -> Line {
    ("[WARN] no number found - skipping: "@ + file, LogLevel::Warn)
}

/// The line on the number and the prefix of a file.
pub open spec fn number_line(
    orig: Seq<char>,
    number: Seq<char>,
    prefix: Seq<char>,
    mode: Seq<char>,
) -> Line {
    let note = if number != orig {
        orig + " -> "@ + number + " (zero-padded)"@
    } else {
        number + " (no padding)"@
    };
    (
        "       number="@ + note + "  prefix=\""@ + trimmed(prefix) + "\" (mode="@ + mode + ")"@,
        LogLevel::Dim,
    )
}

/// The warning about a file for which there is no title.
pub open spec fn title_warning(file: Seq<char>, orig: Seq<char>, has_entry: bool) -> Seq<char> {
    let reason = if has_entry {
        "empty title"@
    } else {
        "no entry"@
    };
    "  [WARN] "@ + file + "  -  "@ + reason + " for \""@ + orig
        + "\" in titles JSON, using filename as-is"@
}

/// The line on the title of a file.
pub open spec fn title_line(raw_title: Seq<char>, reliable: bool) -> Line {
    let source = if reliable {
        "titles JSON"@
    } else {
        "fallback -- using original filename as title"@
    };
    ("       title=\""@ + raw_title + "\"  (source: "@ + source + ")"@, LogLevel::Dim)
}

/// One line, or none.
pub open spec fn line_if(wanted: bool, line: Line) -> Seq<Line> {
    if wanted {
        seq![line]
    } else {
        Seq::empty()
    }
}

/// What is read of a file.
#[derive(Debug)]
pub struct FileReading {
    /// The number as it stands in the file name.
    pub orig_num: String,
    /// The number as it is shown.
    pub number: String,
    pub is_decimal: bool,
    pub prefix: String,
    /// The prefix and the number.
    pub base: String,
    /// Whether the title comes from the titles.
    pub reliable: bool,
    pub raw_title: String,
    /// The warning about a missing title.
    pub warning: Option<String>,
    pub lines: Vec<(String, LogLevel)>,
}

/// The width that numbers are filled up to.
pub open spec fn pad_width(cfg: WorkerConfig, auto_pad: Option<usize>) -> nat {
    match auto_pad {
        Some(w) => w as nat,
        None => cfg.pad_width as nat,
    }
}

impl FileReading {
    /// Whether this is what is read of a file with the number `orig`.
    pub open spec fn is_of(
        self,
        cfg: WorkerConfig,
        name: FileName,
        auto_pad: Option<usize>,
        orig: Seq<char>,
    ) -> bool {
        let number = shown_number(orig, cfg.zero_pad, pad_width(cfg, auto_pad));
        let prefix = prefix_of(name.file@, cfg.prefix_mode@, cfg.custom_pfx@);
        let titles = titles_for(cfg, name.kind@);
        let entry = title_entry(titles, orig, number);
        let reliable = is_reliable(entry);
        let raw_title = if reliable {
            entry->0
        } else {
            name.safe_stem@
        };
        let warned = titles.len() > 0 && !reliable;
        let warning = title_warning(name.file@, orig, entry is Some);
        &&& self.orig_num@ == orig
        &&& self.number@ == number
        &&& self.is_decimal == is_fractional(orig)
        &&& self.prefix@ == prefix
        &&& self.base@ == base_of(prefix, number)
        &&& self.reliable == reliable
        &&& self.raw_title@ == raw_title
        &&& self.warning.deep_view() == (if warned {
            Some(warning)
        } else {
            None
        })
        &&& self.lines.deep_view() == line_if(cfg.verbose, kind_line(name.file@, name.kind@))
            + line_if(cfg.verbose, number_line(orig, number, prefix, cfg.prefix_mode@)) + line_if(
            warned,
            (warning, LogLevel::Warn),
        ) + line_if(cfg.verbose, title_line(raw_title, reliable))
    }
}

/// Appends a line where it is wanted.
fn push_line(lines: &mut Vec<(String, LogLevel)>, wanted: bool, text: String, level: LogLevel)
    ensures
        final(lines).deep_view() == old(lines).deep_view() + line_if(wanted, (text@, level)),
{
    let ghost line = (text@, level);
    if wanted {
        lines.push((text, level));
        assert(lines.deep_view() =~= old(lines).deep_view() + seq![line]);
    } else {
        assert(lines.deep_view() =~= old(lines).deep_view() + Seq::<Line>::empty());
    }
}

/// No lines.
fn no_lines() -> (r: Vec<(String, LogLevel)>)
    ensures
        r.deep_view() == Seq::<Line>::empty(),
{
    let r: Vec<(String, LogLevel)> = Vec::new();
    assert(r.deep_view() =~= Seq::<Line>::empty());
    r
}

fn kind_text(file: &str, kind: &str) -> (r: String)
    ensures
        r@ == kind_line(file@, kind@).0,
{
    cat4("  -  ", file, "  ->  ", kind)
}

fn number_note(orig: &str, number: &str, prefix: &str, mode: &str) -> (r: String)
    ensures
        r@ == number_line(orig@, number@, prefix@, mode@).0,
{
    let note = if same(number, orig) {
        cat2(number, " (no padding)")
    } else {
        cat4(orig, " -> ", number, " (zero-padded)")
    };
    let word = trim(prefix);
    cat7(
        "       number=",
        note.as_str(),
        "  prefix=\"",
        word.as_str(),
        "\" (mode=",
        mode,
        ")",
    )
}

fn warning_text(file: &str, orig: &str, has_entry: bool) -> (r: String)
    ensures
        r@ == title_warning(file@, orig@, has_entry),
{
    let reason = if has_entry {
        "empty title"
    } else {
        "no entry"
    };
    cat7(
        "  [WARN] ",
        file,
        "  -  ",
        reason,
        " for \"",
        orig,
        "\" in titles JSON, using filename as-is",
    )
}

fn title_note(raw_title: &str, reliable: bool) -> (r: String)
    ensures
        r@ == title_line(raw_title@, reliable).0,
{
    let source = if reliable {
        "titles JSON"
    } else {
        "fallback -- using original filename as title"
    };
    cat5("       title=\"", raw_title, "\"  (source: ", source, ")")
}

/// The title under a number, as it stands in the file name or as it is shown.
fn find_title(titles: &TagMap, orig: &str, number: &str) -> (r: Option<String>)
    ensures
        r.deep_view() == title_entry(titles@, orig@, number@),
{
    match titles.get(orig) {
        Some(t) => Some(t.clone()),
        None => match titles.get(number) {
            Some(t) => Some(t.clone()),
            None => None,
        },
    }
}

/// What is read of a file, given what is known of it by its name. Nothing where there is no number.
pub fn read_file(cfg: &WorkerConfig, name: &FileName, auto_pad: Option<usize>) -> (r: Option<
    FileReading,
>)
    ensures
        match number_in(name.file@) {
            Some(orig) => r matches Some(reading) && reading.is_of(*cfg, *name, auto_pad, orig),
            None => r is None,
        },
{
    let orig = match find_number(name.file.as_str()) {
        Some(n) => n,
        None => return None,
    };
    let mut lines = no_lines();
    let text = kind_text(name.file.as_str(), name.kind.as_str());
    push_line(&mut lines, cfg.verbose, text, LogLevel::Dim);
    let width: usize = match auto_pad {
        Some(w) => w,
        None => cfg.pad_width,
    };
    let number = show_number(orig.as_str(), cfg.zero_pad, width);
    let is_decimal = has_fraction(orig.as_str());
    let prefix = get_prefix(
        name.file.as_str(),
        cfg.prefix_mode.as_str(),
        cfg.custom_pfx.as_str(),
    );
    let word = trim(prefix.as_str());
    let base = cat3(word.as_str(), " ", number.as_str());
    let text = number_note(
        orig.as_str(),
        number.as_str(),
        prefix.as_str(),
        cfg.prefix_mode.as_str(),
    );
    push_line(&mut lines, cfg.verbose, text, LogLevel::Dim);
    let titles = if same(name.kind.as_str(), "volume") {
        &cfg.volume_titles
    } else {
        &cfg.chapter_titles
    };
    let entry = find_title(titles, orig.as_str(), number.as_str());
    let has_entry: bool = entry.is_some();
    let (reliable, raw_title): (bool, String) = match entry {
        Some(t) => if t.as_str().is_empty() {
            (false, name.safe_stem.clone())
        } else {
            (true, t)
        },
        None => (false, name.safe_stem.clone()),
    };
    let warned: bool = !titles.is_empty() && !reliable;
    let text = warning_text(name.file.as_str(), orig.as_str(), has_entry);
    let warning = if warned {
        Some(text.clone())
    } else {
        None
    };
    push_line(&mut lines, warned, text, LogLevel::Warn);
    let text = title_note(raw_title.as_str(), reliable);
    push_line(&mut lines, cfg.verbose, text, LogLevel::Dim);
    let reading = FileReading {
        orig_num: orig,
        number,
        is_decimal,
        prefix,
        base,
        reliable,
        raw_title,
        warning,
        lines,
    };
    assert(reading.lines.deep_view() =~= line_if(cfg.verbose, kind_line(name.file@, name.kind@))
        + line_if(
        cfg.verbose,
        number_line(
            reading.orig_num@,
            reading.number@,
            reading.prefix@,
            cfg.prefix_mode@,
        ),
    ) + line_if(
        warned,
        (title_warning(name.file@, reading.orig_num@, has_entry), LogLevel::Warn),
    ) + line_if(cfg.verbose, title_line(reading.raw_title@, reliable)));
    Some(reading)
}

/// What is reported of a file without a number.
pub fn no_number_report(cfg: &WorkerConfig, name: &FileName) -> (r: Vec<(String, LogLevel)>)
    ensures
        r.deep_view() == seq![no_number_line(name.file@)] + line_if(
            cfg.verbose,
            kind_line(name.file@, name.kind@),
        ),
{
    let mut lines = no_lines();
    let text = cat2("[WARN] no number found - skipping: ", name.file.as_str());
    push_line(&mut lines, true, text, LogLevel::Warn);
    let text = kind_text(name.file.as_str(), name.kind.as_str());
    push_line(&mut lines, cfg.verbose, text, LogLevel::Dim);
    assert(lines.deep_view() =~= seq![no_number_line(name.file@)] + line_if(
        cfg.verbose,
        kind_line(name.file@, name.kind@),
    ));
    lines
}

/// Whether a label is asked for.
pub fn needs_label(name: &FileName, reading: &FileReading) -> (r: bool)
    ensures
        r == (reading.is_decimal && name.kind@ != "volume"@),
{
    reading.is_decimal && !same(name.kind.as_str(), "volume")
}

/// Whether a file is the final chapter, and there is a title for it.
pub open spec fn is_finale(cfg: WorkerConfig, orig: Seq<char>, kind: Seq<char>) -> bool {
    &&& cfg.finale_number.deep_view() == Some(orig)
    &&& kind == "chapter"@
    &&& lookup(cfg.chapter_titles@, orig) is Some
}

/// The title that is written for a file.
pub open spec fn title_of(
    cfg: WorkerConfig,
    orig: Seq<char>,
    base: Seq<char>,
    sep: Seq<char>,
    labelled: Seq<char>,
    raw_title: Seq<char>,
    kind: Seq<char>,
    is_decimal: bool,
    after_finale: bool,
    reliable: bool,
) -> Seq<char> {
    if orig == "0"@ {
        raw_title
    } else if is_finale(cfg, orig, kind) {
        if cfg.final_ch_mode@ == "final"@ {
            "Final Chapter: "@ + labelled
        } else {
            base + sep + labelled
        }
    } else if after_finale && cfg.post_finale_mode@ == "strip"@ {
        if is_decimal && kind != "volume"@ {
            labelled
        } else {
            raw_title
        }
    } else if is_decimal && kind == "chapter"@ {
        labelled
    } else if !reliable {
        raw_title
    } else {
        base + sep + labelled
    }
}

/// The title that is written for a file.
///
/// Chapter 0 keeps its title as it is. The final chapter is marked as such where that is wanted.
/// Behind it the prefix is left out where that is wanted. A chapter with a fraction has its label for
/// a title, and a file without a title its name. Every other title has the prefix and the number
/// before it.
pub fn build_xml_title(
    orig_num: &str,
    base: &str,
    sep: &str,
    labelled: &str,
    raw_title: &str,
    mode: &str,
    is_decimal: bool,
    after_finale: bool,
    has_reliable_title: bool,
    cfg: &WorkerConfig,
) -> (r: String)
    ensures
        r@ == title_of(
            *cfg,
            orig_num@,
            base@,
            sep@,
            labelled@,
            raw_title@,
            mode@,
            is_decimal,
            after_finale,
            has_reliable_title,
        ),
{
    if same(orig_num, "0") {
        return String::from_str(raw_title);
    }
    let is_final: bool = match &cfg.finale_number {
        Some(n) => same(n.as_str(), orig_num) && same(mode, "chapter")
            && cfg.chapter_titles.contains_key(orig_num),
        None => false,
    };
    assert(is_final == is_finale(*cfg, orig_num@, mode@));
    if is_final {
        return if same(cfg.final_ch_mode.as_str(), "final") {
            cat2("Final Chapter: ", labelled)
        } else {
            cat3(base, sep, labelled)
        };
    }
    if after_finale && same(cfg.post_finale_mode.as_str(), "strip") {
        return if is_decimal && !same(mode, "volume") {
            String::from_str(labelled)
        } else {
            String::from_str(raw_title)
        };
    }
    if is_decimal && same(mode, "chapter") {
        return String::from_str(labelled);
    }
    if !has_reliable_title {
        return String::from_str(raw_title);
    }
    cat3(base, sep, labelled)
}

/// The ordinal of five.
pub const FIVE: u64 = 0x4014_0000_0000_0000;

/// A rating on a scale up to 10, brought to the scale up to 5 and kept within it.
pub open spec fn halved_rating(n: Number) -> Number {
    match n {
        Number::Nan => Number::Nan,
        Number::Real { negative, ordinal } => {
            let five_tenths = if ordinal >= INFINITE {
                INFINITE
            } else {
                let t = tenth(ordinal as nat) as u64;
                if t >= INFINITE {
                    INFINITE
                } else {
                    fivefold(t as nat) as u64
                }
            };
            if negative && five_tenths > 0 {
                Number::Real { negative: false, ordinal: 0 }
            } else if !negative && five_tenths > FIVE {
                Number::Real { negative: false, ordinal: FIVE }
            } else {
                Number::Real { negative, ordinal: five_tenths }
            }
        },
    }
}

/// A rating on a scale up to 10, brought to the scale up to 5 and kept within it.
pub fn halve_rating(n: Number) -> (r: Number)
    ensures
        r == halved_rating(n),
{
    match n {
        Number::Nan => Number::Nan,
        Number::Real { negative, ordinal } => {
            let five_tenths: u64 = if ordinal >= INFINITE {
                INFINITE
            } else {
                let t: u64 = tenth_of(ordinal);
                if t >= INFINITE {
                    INFINITE
                } else {
                    fivefold_of(t)
                }
            };
            if negative && five_tenths > 0 {
                Number::Real { negative: false, ordinal: 0 }
            } else if !negative && five_tenths > FIVE {
                Number::Real { negative: false, ordinal: FIVE }
            } else {
                Number::Real { negative, ordinal: five_tenths }
            }
        },
    }
}

/// The constant metadata, with the community rating brought to the scale of the schema.
pub open spec fn constant_fields(cfg: WorkerConfig) -> Seq<Pair> {
    let fields = cfg.metadata_fields@;
    if !cfg.community_rating_10_scale {
        fields
    } else {
        match lookup(fields, "CommunityRating"@) {
            Some(v) => match number_of(v) {
                Some(n) => inserted(
                    fields,
                    "CommunityRating"@,
                    number_text(halved_rating(n), 1),
                ),
                None => fields,
            },
            None => fields,
        }
    }
}

/// The constant metadata, with the community rating brought to the scale of the schema.
fn constant_metadata(cfg: &WorkerConfig) -> (r: TagMap)
    ensures
        r@ == constant_fields(*cfg),
        cfg.is_valid() ==> r.is_valid(),
{
    let mut md = cfg.metadata_fields.duplicate();
    if cfg.community_rating_10_scale {
        let rating: Option<Number> = match md.get("CommunityRating") {
            Some(v) => parse_number(v.as_str()),
            None => None,
        };
        match rating {
            Some(n) => {
                let text = halve_rating(n).to_text(1);
                md.insert(String::from_str("CommunityRating"), text);
            },
            None => {},
        }
    }
    md
}

/// The volume that a file belongs to.
pub open spec fn volume_of(
    cfg: WorkerConfig,
    kind: Seq<char>,
    orig: Seq<char>,
    number: Seq<char>,
) -> Option<Seq<char>> {
    if !cfg.use_vol {
        None
    } else if kind == "volume"@ {
        Some(number)
    } else {
        mapped_text(matching_rule(orig, cfg.volume_rules.deep_view(), 3))
    }
}

/// The volume that a file belongs to.
fn choose_volume(cfg: &WorkerConfig, kind: &str, orig: &str, number: &str) -> (r: Option<String>)
    ensures
        r.deep_view() == volume_of(*cfg, kind@, orig@, number@),
{
    if !cfg.use_vol {
        None
    } else if same(kind, "volume") {
        Some(String::from_str(number))
    } else {
        find_volume(orig, &cfg.volume_rules)
    }
}

/// Year, month and day as texts.
pub type DateTexts = (Seq<char>, Seq<char>, Seq<char>);

/// The date that the rules give for a volume.
pub open spec fn rule_date(cfg: WorkerConfig, volume: Option<Seq<char>>) -> Option<DateTexts> {
    match volume {
        Some(v) => match mapped_date(matching_rule(v, cfg.date_rules.deep_view(), 5)) {
            Some((y, m, d)) => Some(
                (signed_text(y as int), signed_text(m as int), signed_text(d as int)),
            ),
            None => None,
        },
        None => None,
    }
}

/// The date of a file, by the rules or by what its own date was read as.
pub open spec fn date_of(
    cfg: WorkerConfig,
    volume: Option<Seq<char>>,
    own_date: Option<(i32, u32, u32)>,
) -> Option<DateTexts> {
    if cfg.use_vol_date {
        rule_date(cfg, volume)
    } else {
        match own_date {
            Some((y, m, d)) => Some(
                (signed_text(y as int), decimal_text(m as nat), decimal_text(d as nat)),
            ),
            None => None,
        }
    }
}

/// The date of a file.
fn choose_date(
    cfg: &WorkerConfig,
    volume: &Option<String>,
    own_date: Option<(i32, u32, u32)>,
) -> (r: Option<(String, String, String)>)
    ensures
        r.deep_view() == date_of(*cfg, volume.deep_view(), own_date),
{
    if cfg.use_vol_date {
        match volume {
            Some(v) => match find_date(v.as_str(), &cfg.date_rules) {
                Some((y, m, d)) => Some(
                    (text_of_i64(y as i64), text_of_i64(m as i64), text_of_i64(d as i64)),
                ),
                None => None,
            },
            None => None,
        }
    } else {
        match own_date {
            Some((y, m, d)) => Some(
                (text_of_i64(y as i64), text_of_u64(m as u64), text_of_u64(d as u64)),
            ),
            None => None,
        }
    }
}

/// Whether a file is the first chapter, which always has the default summary.
pub open spec fn is_first_chapter(kind: Seq<char>, orig: Seq<char>) -> bool {
    kind == "chapter"@ && orig == "1"@
}

/// The summary that the rules give for a file.
pub open spec fn rule_summary(
    cfg: WorkerConfig,
    kind: Seq<char>,
    orig: Seq<char>,
    volume: Option<Seq<char>>,
) -> Option<Seq<char>> {
    if is_first_chapter(kind, orig) || !cfg.use_vol_summ {
        None
    } else {
        match volume {
            Some(v) => mapped_text(matching_rule(v, cfg.summ_rules.deep_view(), 3)),
            None => None,
        }
    }
}

/// The summary of a file.
pub open spec fn summary_of(cfg: WorkerConfig, by_rule: Option<Seq<char>>) -> Seq<char> {
    match by_rule {
        Some(s) => s,
        None => cfg.summary@,
    }
}

/// The summary that the rules give for a file.
fn choose_summary(
    cfg: &WorkerConfig,
    kind: &str,
    orig: &str,
    volume: &Option<String>,
) -> (r: Option<String>)
    ensures
        r.deep_view() == rule_summary(*cfg, kind@, orig@, volume.deep_view()),
{
    if (same(kind, "chapter") && same(orig, "1")) || !cfg.use_vol_summ {
        None
    } else {
        match volume {
            Some(v) => find_summary(v.as_str(), &cfg.summ_rules),
            None => None,
        }
    }
}

/// The tags with the volume, where there is one.
pub open spec fn with_volume(fields: Seq<Pair>, volume: Option<Seq<char>>) -> Seq<Pair> {
    match volume {
        Some(v) => inserted(fields, "Volume"@, v),
        None => fields,
    }
}

/// The tags with the date, where there is one.
pub open spec fn with_date(fields: Seq<Pair>, date: Option<DateTexts>) -> Seq<Pair> {
    match date {
        Some((y, m, d)) => inserted(inserted(inserted(fields, "Year"@, y), "Month"@, m), "Day"@, d),
        None => fields,
    }
}

/// The metadata of a file: the constant metadata, and what was worked out for the file.
pub open spec fn metadata_of(
    cfg: WorkerConfig,
    title: Seq<char>,
    number: Seq<char>,
    volume: Option<Seq<char>>,
    date: Option<DateTexts>,
    summary: Seq<char>,
) -> Seq<Pair> {
    let titled = inserted(inserted(constant_fields(cfg), "Title"@, title), "Number"@, number);
    inserted(with_date(with_volume(titled, volume), date), "Summary"@, summary)
}

/// Puts the metadata of a file together.
fn collect_metadata(
    cfg: &WorkerConfig,
    title: &str,
    number: &str,
    volume: &Option<String>,
    date: &Option<(String, String, String)>,
    summary: &str,
) -> (r: TagMap)
    ensures
        r@ == metadata_of(
            *cfg,
            title@,
            number@,
            volume.deep_view(),
            date.deep_view(),
            summary@,
        ),
        cfg.is_valid() ==> r.is_valid(),
{
    let mut md = constant_metadata(cfg);
    md.insert(String::from_str("Title"), String::from_str(title));
    md.insert(String::from_str("Number"), String::from_str(number));
    match volume {
        Some(v) => {
            md.insert(String::from_str("Volume"), v.clone());
        },
        None => {},
    }
    match date {
        Some((y, m, d)) => {
            md.insert(String::from_str("Year"), y.clone());
            md.insert(String::from_str("Month"), m.clone());
            md.insert(String::from_str("Day"), d.clone());
        },
        None => {},
    }
    md.insert(String::from_str("Summary"), String::from_str(summary));
    md
}

/// The line on the volume of a file.
pub open spec fn volume_line(
    cfg: WorkerConfig,
    kind: Seq<char>,
    volume: Option<Seq<char>>,
) -> Line {
    let note = if !cfg.use_vol {
        "disabled"@
    } else {
        match volume {
            Some(v) => if kind == "volume"@ {
                v + " (file is a volume)"@
            } else {
                v + " (matched a volume rule)"@
            },
            None => "none (no rule matched)"@,
        }
    };
    ("       volume="@ + note, LogLevel::Dim)
}

fn volume_note(cfg: &WorkerConfig, kind: &str, volume: &Option<String>) -> (r: String)
    ensures
        r@ == volume_line(*cfg, kind@, volume.deep_view()).0,
{
    let note = if !cfg.use_vol {
        String::from_str("disabled")
    } else {
        match volume {
            Some(v) => if same(kind, "volume") {
                cat2(v.as_str(), " (file is a volume)")
            } else {
                cat2(v.as_str(), " (matched a volume rule)")
            },
            None => String::from_str("none (no rule matched)"),
        }
    };
    cat2("       volume=", note.as_str())
}

/// The line on the date of a file.
pub open spec fn date_line(cfg: WorkerConfig, date: Option<DateTexts>) -> Line {
    let note = match date {
        Some((y, m, d)) => y + "-"@ + m + "-"@ + d + if cfg.use_vol_date {
            "  (matched a date rule)"@
        } else {
            "  (from episode_dates.json)"@
        },
        None => if cfg.use_vol_date {
            "no rule matched"@
        } else {
            "not found in episode_dates.json"@
        },
    };
    ("       date="@ + note, LogLevel::Dim)
}

fn date_note(cfg: &WorkerConfig, date: &Option<(String, String, String)>) -> (r: String)
    ensures
        r@ == date_line(*cfg, date.deep_view()).0,
{
    let note = match date {
        Some((y, m, d)) => cat6(
            y.as_str(),
            "-",
            m.as_str(),
            "-",
            d.as_str(),
            if cfg.use_vol_date {
                "  (matched a date rule)"
            } else {
                "  (from episode_dates.json)"
            },
        ),
        None => String::from_str(
            if cfg.use_vol_date {
                "no rule matched"
            } else {
                "not found in episode_dates.json"
            },
        ),
    };
    cat2("       date=", note.as_str())
}

/// The line on the summary of a file.
pub open spec fn summary_line(
    cfg: WorkerConfig,
    kind: Seq<char>,
    orig: Seq<char>,
    by_rule: bool,
) -> Line {
    let note = if is_first_chapter(kind, orig) {
        "default summary (chapter 1)"@
    } else if !cfg.use_vol_summ {
        "disabled (using default summary)"@
    } else if by_rule {
        "matched a summary rule"@
    } else {
        "no rule matched (using default summary)"@
    };
    ("       summary="@ + note, LogLevel::Dim)
}

fn summary_note(cfg: &WorkerConfig, kind: &str, orig: &str, by_rule: bool) -> (r: String)
    ensures
        r@ == summary_line(*cfg, kind@, orig@, by_rule).0,
{
    cat2(
        "       summary=",
        if same(kind, "chapter") && same(orig, "1") {
            "default summary (chapter 1)"
        } else if !cfg.use_vol_summ {
            "disabled (using default summary)"
        } else if by_rule {
            "matched a summary rule"
        } else {
            "no rule matched (using default summary)"
        },
    )
}

/// The new name of a file.
pub open spec fn new_name_of(
    cfg: WorkerConfig,
    base: Seq<char>,
    safe_title: Seq<char>,
    safe_stem: Seq<char>,
    reliable: bool,
    invalid_sep: bool,
) -> Seq<char> {
    if reliable {
        let sep = if cfg.use_csep && !invalid_sep {
            " "@ + trimmed(cfg.csep@) + " "@
        } else {
            " - "@
        };
        base + sep + safe_title + ".cbz"@
    } else {
        safe_stem + ".cbz"@
    }
}

/// The new name of a file: prefix, number and title where there is a title, else the old name made
/// safe.
pub fn new_file_name(
    cfg: &WorkerConfig,
    base: &str,
    safe_title: &str,
    safe_stem: &str,
    reliable: bool,
    invalid_sep: bool,
) -> (r: String)
    ensures
        r@ == new_name_of(*cfg, base@, safe_title@, safe_stem@, reliable, invalid_sep),
{
    if reliable {
        let sep = if cfg.use_csep && !invalid_sep {
            let mark = trim(cfg.csep.as_str());
            cat3(" ", mark.as_str(), " ")
        } else {
            String::from_str(" - ")
        };
        cat4(base, sep.as_str(), safe_title, ".cbz")
    } else {
        cat2(safe_stem, ".cbz")
    }
}

/// What is to be written for a file.
#[derive(Debug)]
pub struct FilePlan {
    pub xml_title: String,
    pub xml: String,
    pub new_name: String,
    /// What is reported of the file, without the outcome.
    pub lines: Vec<(String, LogLevel)>,
}

impl FilePlan {
    /// Whether this is the plan for a file, given the separator, the date of its own and the title
    /// made safe.
    pub open spec fn is_of(
        self,
        cfg: WorkerConfig,
        name: FileName,
        reading: FileReading,
        labelled: Seq<char>,
        after_finale: bool,
        invalid_sep: bool,
        sep: Seq<char>,
        own_date: Option<(i32, u32, u32)>,
        safe_title: Seq<char>,
    ) -> bool {
        let kind = name.kind@;
        let orig = reading.orig_num@;
        let title = title_of(
            cfg,
            orig,
            reading.base@,
            sep,
            labelled,
            reading.raw_title@,
            kind,
            reading.is_decimal,
            after_finale,
            reading.reliable,
        );
        let volume = volume_of(cfg, kind, orig, reading.number@);
        let date = date_of(cfg, volume, own_date);
        let by_rule = rule_summary(cfg, kind, orig, volume);
        let metadata = metadata_of(
            cfg,
            title,
            reading.number@,
            volume,
            date,
            summary_of(cfg, by_rule),
        );
        &&& self.xml_title@ == title
        &&& self.xml@ == document(metadata, cfg.tag_order.deep_view())
        &&& self.new_name@ == new_name_of(
            cfg,
            reading.base@,
            safe_title,
            name.safe_stem@,
            reading.reliable,
            invalid_sep,
        )
        &&& self.lines.deep_view() == reading.lines.deep_view() + line_if(
            cfg.verbose,
            volume_line(cfg, kind, volume),
        ) + line_if(cfg.verbose, date_line(cfg, date)) + line_if(
            cfg.verbose,
            summary_line(cfg, kind, orig, by_rule is Some),
        )
    }
}

/// The same lines in another list.
pub fn copy_lines(lines: &Vec<(String, LogLevel)>) -> (r: Vec<(String, LogLevel)>)
    ensures
        r.deep_view() == lines.deep_view(),
{
    let mut out: Vec<(String, LogLevel)> = Vec::new();
    let n: usize = lines.len();
    for i in 0..n
        invariant
            n == lines@.len(),
            out@.len() == i,
            forall|k: int|
                0 <= k < i ==> (#[trigger] out@[k]).deep_view() == lines@[k].deep_view(),
    {
        out.push((lines[i].0.clone(), lines[i].1));
    }
    assert(out.deep_view() =~= lines.deep_view());
    out
}

/// What is to be written for a file, given the separator, the date of its own and the title made
/// safe.
pub fn complete_file(
    cfg: &WorkerConfig,
    name: &FileName,
    reading: &FileReading,
    labelled: &str,
    after_finale: bool,
    invalid_sep: bool,
    sep: &str,
    own_date: Option<(i32, u32, u32)>,
    safe_title: &str,
) -> (r: FilePlan)
    ensures
        r.is_of(
            *cfg,
            *name,
            *reading,
            labelled@,
            after_finale,
            invalid_sep,
            sep@,
            own_date,
            safe_title@,
        ),
{
    let kind = name.kind.as_str();
    let orig = reading.orig_num.as_str();
    let xml_title = build_xml_title(
        orig,
        reading.base.as_str(),
        sep,
        labelled,
        reading.raw_title.as_str(),
        kind,
        reading.is_decimal,
        after_finale,
        reading.reliable,
        cfg,
    );
    let volume = choose_volume(cfg, kind, orig, reading.number.as_str());
    let date = choose_date(cfg, &volume, own_date);
    let by_rule = choose_summary(cfg, kind, orig, &volume);
    let mut lines = copy_lines(&reading.lines);
    let text = volume_note(cfg, kind, &volume);
    push_line(&mut lines, cfg.verbose, text, LogLevel::Dim);
    let text = date_note(cfg, &date);
    push_line(&mut lines, cfg.verbose, text, LogLevel::Dim);
    let text = summary_note(cfg, kind, orig, by_rule.is_some());
    push_line(&mut lines, cfg.verbose, text, LogLevel::Dim);
    let summary = match by_rule {
        Some(s) => s,
        None => cfg.summary.clone(),
    };
    let md = collect_metadata(
        cfg,
        xml_title.as_str(),
        reading.number.as_str(),
        &volume,
        &date,
        summary.as_str(),
    );
    let xml = build_comic_info_xml(&md, &cfg.tag_order);
    let new_name = new_file_name(
        cfg,
        reading.base.as_str(),
        safe_title,
        name.safe_stem.as_str(),
        reading.reliable,
        invalid_sep,
    );
    FilePlan { xml_title, xml, new_name, lines }
}

/// The format of the dates of files.
pub open spec fn date_format() -> Seq<char> {
    "%b %d, %Y"@
}

/// The date of its own that a file has.
pub open spec fn own_date_of(cfg: WorkerConfig, orig: Seq<char>) -> Option<(i32, u32, u32)> {
    match lookup(cfg.dates_json@, orig) {
        Some(text) => parsed_date(text, date_format()),
        None => None,
    }
}

/// Whether a file stands behind the final chapter.
pub open spec fn is_after_finale(cfg: WorkerConfig, file_idx: usize) -> bool {
    match cfg.finale_index {
        Some(i) => file_idx > i,
        None => false,
    }
}

/// Whether this is the plan for a file at a place in the sorted list, with a given label.
pub open spec fn is_planned(
    cfg: WorkerConfig,
    name: FileName,
    reading: FileReading,
    labelled: Seq<char>,
    file_idx: usize,
    invalid_sep: bool,
    plan: FilePlan,
) -> bool {
    plan.is_of(
        cfg,
        name,
        reading,
        labelled,
        is_after_finale(cfg, file_idx),
        invalid_sep,
        separator_of(lowered(reading.prefix@), cfg.use_csep, cfg.csep@),
        own_date_of(cfg, reading.orig_num@),
        safe_name(nfkc(reading.raw_title@)),
    )
}

/// What is to be written for a file.
pub fn plan_file(
    cfg: &WorkerConfig,
    name: &FileName,
    reading: &FileReading,
    labelled: &str,
    file_idx: usize,
    invalid_sep: bool,
) -> (r: FilePlan)
    ensures
        is_planned(*cfg, *name, *reading, labelled@, file_idx, invalid_sep, r),
{
    let sep = get_separator(reading.prefix.as_str(), cfg.use_csep, cfg.csep.as_str());
    let own_date: Option<(i32, u32, u32)> = match cfg.dates_json.get(reading.orig_num.as_str()) {
        Some(text) => parse_date(text.as_str(), "%b %d, %Y"),
        None => None,
    };
    let safe_title = sanitize_filename(reading.raw_title.as_str());
    let after_finale: bool = match cfg.finale_index {
        Some(i) => file_idx > i,
        None => false,
    };
    complete_file(
        cfg,
        name,
        reading,
        labelled,
        after_finale,
        invalid_sep,
        sep.as_str(),
        own_date,
        safe_title.as_str(),
    )
}

/// Where an archive is written.
#[derive(Clone, Copy, Debug, PartialEq, Eq, Structural)]
pub enum OutputPlace {
    /// In the folder that was chosen.
    Chosen,
    /// In the folder `output` below that of the source.
    Below,
    /// In the folder of the source.
    Beside,
}

/// Where an archive is written.
pub fn output_place(cfg: &WorkerConfig) -> (r: OutputPlace)
    ensures
        r == if !cfg.write_new_cbz {
            OutputPlace::Beside
        } else if cfg.output_same_path {
            OutputPlace::Below
        } else {
            OutputPlace::Chosen
        },
{
    if cfg.write_new_cbz && !cfg.output_same_path {
        OutputPlace::Chosen
    } else if cfg.write_new_cbz {
        OutputPlace::Below
    } else {
        OutputPlace::Beside
    }
}

/// How a file is written.
#[derive(Clone, Copy, Debug, PartialEq, Eq, Structural)]
pub enum WriteMode {
    /// Not at all.
    DryRun,
    /// As a new archive under its new name.
    NewFile,
    /// In place, after a copy was made.
    BackupThenOverwrite,
    /// In place.
    Overwrite,
}

/// How a file is written.
pub fn write_mode(cfg: &WorkerConfig) -> (r: WriteMode)
    ensures
        r == if cfg.dry_run {
            WriteMode::DryRun
        } else if cfg.write_new_cbz {
            WriteMode::NewFile
        } else if cfg.backup_before_overwrite {
            WriteMode::BackupThenOverwrite
        } else {
            WriteMode::Overwrite
        },
{
    if cfg.dry_run {
        WriteMode::DryRun
    } else if cfg.write_new_cbz {
        WriteMode::NewFile
    } else if cfg.backup_before_overwrite {
        WriteMode::BackupThenOverwrite
    } else {
        WriteMode::Overwrite
    }
}

/// What becomes of the name of a file that was written in place.
#[derive(Clone, Copy, Debug, PartialEq, Eq, Structural)]
pub enum RenameStep {
    /// The name stays.
    Keep,
    /// The file gets its new name.
    Rename,
    /// The new name is taken.
    Skip,
}

/// What becomes of the name of a file that was written in place.
pub fn rename_step(path_differs: bool, target_exists: bool) -> (r: RenameStep)
    ensures
        r == if !path_differs {
            RenameStep::Keep
        } else if target_exists {
            RenameStep::Skip
        } else {
            RenameStep::Rename
        },
{
    if path_differs && !target_exists {
        RenameStep::Rename
    } else if target_exists && path_differs {
        RenameStep::Skip
    } else {
        RenameStep::Keep
    }
}

/// How the work on a file ended.
#[derive(Clone, Copy, Debug, PartialEq, Eq, Structural)]
pub enum Outcome {
    /// There is no number in the name.
    NoNumber,
    /// Nothing was to be written.
    Previewed,
    /// Writing or copying failed.
    Failed,
    /// The archive was written; the flags tell whether it was renamed, and whether it could not be
    /// because the name was taken.
    Written { renamed: bool, skipped: bool },
}

/// One more, up to the largest count there is.
pub open spec fn one_more(n: usize) -> usize {
    if n == usize::MAX {
        n
    } else {
        (n + 1) as usize
    }
}

fn count_up(n: usize) -> (r: usize)
    ensures
        r == one_more(n),
{
    if n == usize::MAX {
        n
    } else {
        n + 1
    }
}

/// The counters with one more file begun.
pub open spec fn begun(s: RunStats) -> RunStats {
    RunStats { total: one_more(s.total), ..s }
}

/// The counters with one more file ended.
pub open spec fn ended(s: RunStats, outcome: Outcome) -> RunStats {
    match outcome {
        Outcome::NoNumber => s,
        Outcome::Previewed => RunStats { processed: one_more(s.processed), ..s },
        Outcome::Failed => RunStats { errors: one_more(s.errors), ..s },
        Outcome::Written { renamed, skipped } => RunStats {
            processed: one_more(s.processed),
            xml_updated: one_more(s.xml_updated),
            renamed: if renamed {
                one_more(s.renamed)
            } else {
                s.renamed
            },
            rename_skipped: if skipped {
                one_more(s.rename_skipped)
            } else {
                s.rename_skipped
            },
            ..s
        },
    }
}

/// Counts a file that is begun.
pub fn count_begun(stats: &mut RunStats)
    ensures
        *final(stats) == begun(*old(stats)),
{
    stats.total = count_up(stats.total);
}

/// Whether what is reported of a file is shown before the file counts as done with: so it is where the
/// file was skipped or something failed.
pub fn reports_first(outcome: Outcome) -> (r: bool)
    ensures
        r == (outcome is Failed || outcome is NoNumber),
{
    match outcome {
        Outcome::Failed => true,
        Outcome::NoNumber => true,
        _ => false,
    }
}

/// Counts a file that is ended.
pub fn count_ended(stats: &mut RunStats, outcome: Outcome)
    ensures
        *final(stats) == ended(*old(stats), outcome),
{
    match outcome {
        Outcome::NoNumber => {},
        Outcome::Previewed => {
            stats.processed = count_up(stats.processed);
        },
        Outcome::Failed => {
            stats.errors = count_up(stats.errors);
        },
        Outcome::Written { renamed, skipped } => {
            stats.processed = count_up(stats.processed);
            stats.xml_updated = count_up(stats.xml_updated);
            if renamed {
                stats.renamed = count_up(stats.renamed);
            }
            if skipped {
                stats.rename_skipped = count_up(stats.rename_skipped);
            }
        },
    }
}

/// Whether every file begun was written, previewed or failed, or had no number.
pub open spec fn adds_up(s: RunStats, without_number: nat) -> bool {
    s.processed + s.errors + without_number == s.total
}

/// The counters add up when they did before a file was begun and ended.
pub proof fn lemma_counters_add_up(s: RunStats, without_number: nat, outcome: Outcome)
    requires
        adds_up(s, without_number),
        s.total < usize::MAX,
    ensures
        adds_up(
            ended(begun(s), outcome),
            if outcome == Outcome::NoNumber {
                without_number + 1
            } else {
                without_number
            },
        ),
{
}

/// The place of a file in the list.
pub open spec fn counter(file_idx: usize, total: usize) -> Seq<char> {
    "["@ + decimal_text((file_idx + 1) as nat) + "/"@ + decimal_text(total as nat) + "]"@
}

fn counter_text(file_idx: usize, total: usize) -> (r: String)
    requires
        file_idx < usize::MAX,
    ensures
        r@ == counter(file_idx, total),
{
    let i = text_of_u64((file_idx + 1) as u64);
    let n = text_of_u64(total as u64);
    cat5("[", i.as_str(), "/", n.as_str(), "]")
}

/// Some lines, followed by others.
fn with_lines(mut head: Vec<(String, LogLevel)>, tail: &Vec<(String, LogLevel)>) -> (r: Vec<
    (String, LogLevel),
>)
    ensures
        r.deep_view() == head.deep_view() + tail.deep_view(),
{
    let mut more = copy_lines(tail);
    let ghost first = head.deep_view();
    let ghost second = more.deep_view();
    head.append(&mut more);
    assert(head.deep_view() =~= first + second);
    head
}

/// What is reported of a file that was only previewed.
pub fn dry_run_report(
    file: &str,
    dest: &str,
    xml_title: &str,
    file_idx: usize,
    total: usize,
    lines: &Vec<(String, LogLevel)>,
) -> (r: Vec<(String, LogLevel)>)
    requires
        file_idx < usize::MAX,
    ensures
        r.deep_view() == seq![
            (
                "  [DRY] "@ + counter(file_idx, total) + "  "@ + file@ + "  ->  "@ + dest@,
                LogLevel::Warn,
            ),
            ("           XML title: "@ + xml_title@, LogLevel::Dim),
        ] + lines.deep_view(),
{
    let ctr = counter_text(file_idx, total);
    let mut out = no_lines();
    let text = cat6("  [DRY] ", ctr.as_str(), "  ", file, "  ->  ", dest);
    push_line(&mut out, true, text, LogLevel::Warn);
    let text = cat2("           XML title: ", xml_title);
    push_line(&mut out, true, text, LogLevel::Dim);
    assert(out.deep_view() =~= seq![
        (
            "  [DRY] "@ + counter(file_idx, total) + "  "@ + file@ + "  ->  "@ + dest@,
            LogLevel::Warn,
        ),
        ("           XML title: "@ + xml_title@, LogLevel::Dim),
    ]);
    with_lines(out, lines)
}

/// The message on a file that could not be written.
pub fn write_error(file: &str, error: &str) -> (r: String)
    ensures
        r@ == "  [ERR] "@ + file@ + "  -  "@ + error@,
{
    cat4("  [ERR] ", file, "  -  ", error)
}

/// The message on a file that could not be copied.
pub fn backup_error(file: &str, error: &str) -> (r: String)
    ensures
        r@ == "  [ERR] "@ + file@ + "  -  backup failed, skipped: "@ + error@,
{
    cat4("  [ERR] ", file, "  -  backup failed, skipped: ", error)
}

/// The message on a file that could not be renamed.
pub fn rename_error(file: &str, error: &str) -> (r: String)
    ensures
        r@ == "  [WARN] "@ + file@ + "  -  rename failed: "@ + error@,
{
    cat4("  [WARN] ", file, "  -  rename failed: ", error)
}

/// What is reported of a file on which the work failed.
pub fn error_report(message: &str, lines: &Vec<(String, LogLevel)>) -> (r: Vec<(String, LogLevel)>)
    ensures
        r.deep_view() == seq![(message@, LogLevel::Failure)] + lines.deep_view(),
{
    let mut out = no_lines();
    push_line(&mut out, true, String::from_str(message), LogLevel::Failure);
    assert(out.deep_view() =~= seq![(message@, LogLevel::Failure)]);
    with_lines(out, lines)
}

/// The lines with a warning behind them.
pub fn add_warning(lines: &mut Vec<(String, LogLevel)>, message: &str)
    ensures
        final(lines).deep_view() == old(lines).deep_view().push((message@, LogLevel::Warn)),
{
    lines.push((String::from_str(message), LogLevel::Warn));
    assert(lines.deep_view() =~= old(lines).deep_view().push((message@, LogLevel::Warn)));
}

/// What is reported first of a file that was written.
pub open spec fn done_lines(
    file: Seq<char>,
    new_name: Seq<char>,
    file_idx: usize,
    total: usize,
) -> Seq<Line> {
    let head = "  [OK] "@ + counter(file_idx, total) + "  "@;
    if new_name != file {
        seq![
            (head + file, LogLevel::Success),
            ("           ->  "@ + new_name, LogLevel::Renamed),
        ]
    } else {
        seq![(head + new_name, LogLevel::Success)]
    }
}

/// What is reported of a file that was written.
pub fn done_report(
    file: &str,
    new_name: &str,
    file_idx: usize,
    total: usize,
    lines: &Vec<(String, LogLevel)>,
) -> (r: Vec<(String, LogLevel)>)
    requires
        file_idx < usize::MAX,
    ensures
        r.deep_view() == done_lines(file@, new_name@, file_idx, total) + lines.deep_view(),
{
    let ctr = counter_text(file_idx, total);
    let mut out = no_lines();
    let text = cat4("  [OK] ", ctr.as_str(), "  ", file);
    push_line(&mut out, true, text, LogLevel::Success);
    if !same(new_name, file) {
        let text = cat2("           ->  ", new_name);
        push_line(&mut out, true, text, LogLevel::Renamed);
    }
    assert(out.deep_view() =~= done_lines(file@, new_name@, file_idx, total));
    with_lines(out, lines)
}

/// The message that logs a line.
pub fn logq(text: String, level: LogLevel) -> (r: WorkerMsg)
    ensures
        r == (WorkerMsg::Log { text, level }),
{
    WorkerMsg::Log { text, level }
}

/// The message that logs the lines about a file, where there are any.
pub fn flush_batch(idx: usize, batch: Vec<(String, LogLevel)>) -> (r: Option<WorkerMsg>)
    ensures
        batch@.len() == 0 ==> r is None,
        batch@.len() > 0 ==> r == Some(WorkerMsg::LogBatch { idx, lines: batch }),
{
    if batch.len() == 0 {
        None
    } else {
        Some(WorkerMsg::LogBatch { idx, lines: batch })
    }
}

/// Counts a file that is done with, and tells how far the run has come.
pub fn bump_done(done: &mut usize, total: usize, stats: RunStats) -> (r: (WorkerMsg, WorkerMsg))
    ensures
        *final(done) == one_more(*old(done)),
        r.0 == (WorkerMsg::Progress { done: *final(done), total }),
        r.1 == (WorkerMsg::Stats { stats }),
{
    *done = count_up(*done);
    (WorkerMsg::Progress { done: *done, total }, WorkerMsg::Stats { stats })
}

/// The line that an error log starts with.
pub fn error_log_header(run_ts: &str) -> (r: String)
    ensures
        r@ == "=== Run started "@ + run_ts@ + " ==="@,
{
    cat3("=== Run started ", run_ts, " ===")
}

/// A line of an error log.
pub fn error_log_line(ts: &str, message: &str) -> (r: String)
    ensures
        r@ == "["@ + ts@ + "] "@ + message@,
{
    cat4("[", ts, "] ", message)
}

/// The last place of a name in a list; the length of the list where it does not stand there.
pub open spec fn last_place(names: Seq<Seq<char>>, name: Seq<char>) -> nat
    decreases names.len(),
{
    if names.len() == 0 {
        0
    } else if names.last() == name {
        (names.len() - 1) as nat
    } else {
        let k = last_place(names.drop_last(), name);
        if k < names.len() - 1 {
            k
        } else {
            names.len()
        }
    }
}

/// The place of a file in the list of all files.
pub fn file_index(names: &Vec<String>, name: &str) -> (r: usize)
    ensures
        r == last_place(names.deep_view(), name@),
{
    let ghost list = names.deep_view();
    let n: usize = names.len();
    let mut found: usize = n;
    let mut i: usize = 0;
    while i < n
        invariant
            n == names@.len(),
            list == names.deep_view(),
            i <= n,
            ({
                let k = last_place(list.take(i as int), name@);
                if k < i {
                    found == k
                } else {
                    found == n && k == i
                }
            }),
        decreases n - i,
    {
        proof {
            assert(list.take(i + 1).drop_last() =~= list.take(i as int));
            assert(list.take(i + 1).last() == names@[i as int]@);
        }
        if same(names[i].as_str(), name) {
            found = i;
        }
        i = i + 1;
    }
    assert(list.take(n as int) =~= list);
    found
}

/// The places of the files whose numbers have a fraction, or of those whose numbers have none.
pub open spec fn places_where(names: Seq<Seq<char>>, decimal: bool) -> Seq<usize>
    decreases names.len(),
{
    if names.len() == 0 {
        Seq::empty()
    } else {
        let head = places_where(names.drop_last(), decimal);
        if has_decimal(names.last()) == decimal {
            head.push((names.len() - 1) as usize)
        } else {
            head
        }
    }
}

/// The places of the files whose numbers have a fraction, and of the others.
pub fn partition_files(names: &Vec<String>) -> (r: (Vec<usize>, Vec<usize>))
    ensures
        r.0@ == places_where(names.deep_view(), true),
        r.1@ == places_where(names.deep_view(), false),
{
    let ghost list = names.deep_view();
    let mut decimal: Vec<usize> = Vec::new();
    let mut normal: Vec<usize> = Vec::new();
    let n: usize = names.len();
    for i in 0..n
        invariant
            n == names@.len(),
            list == names.deep_view(),
            decimal@ == places_where(list.take(i as int), true),
            normal@ == places_where(list.take(i as int), false),
    {
        proof {
            assert(list.take(i + 1).drop_last() =~= list.take(i as int));
            assert(list.take(i + 1).last() == names@[i as int]@);
        }
        if is_decimal_file(names[i].as_str()) {
            decimal.push(i);
        } else {
            normal.push(i);
        }
    }
    assert(list.take(n as int) =~= list);
    (decimal, normal)
}

/// Every file is worked on: it is among those with a fraction or among the others, not both.
pub proof fn lemma_partition_is_complete(names: Seq<Seq<char>>, i: int)
    requires
        0 <= i < names.len() <= usize::MAX,
    ensures
        places_where(names, true).contains(i as usize) <==> has_decimal(names[i]),
        places_where(names, false).contains(i as usize) <==> !has_decimal(names[i]),
    decreases names.len(),
{
    let n = names.len();
    let t = places_where(names.drop_last(), true);
    let f = places_where(names.drop_last(), false);
    if i < n - 1 {
        lemma_partition_is_complete(names.drop_last(), i);
        assert(names.drop_last()[i] == names[i]);
        lemma_push_contains(t, (n - 1) as usize, i as usize);
        lemma_push_contains(f, (n - 1) as usize, i as usize);
    } else {
        lemma_places_below(names.drop_last(), true, i as usize);
        lemma_places_below(names.drop_last(), false, i as usize);
        lemma_push_contains(t, i as usize, i as usize);
        lemma_push_contains(f, i as usize, i as usize);
    }
}

proof fn lemma_push_contains(s: Seq<usize>, x: usize, y: usize)
    ensures
        s.push(x).contains(y) <==> s.contains(y) || x == y,
{
    if s.contains(y) {
        let k = choose|k: int| 0 <= k < s.len() && s[k] == y;
        assert(s.push(x)[k] == y);
    }
    if x == y {
        assert(s.push(x)[s.len() as int] == y);
    }
    if s.push(x).contains(y) && x != y {
        let k = choose|k: int| 0 <= k < s.push(x).len() && s.push(x)[k] == y;
        assert(s[k] == y);
    }
}

proof fn lemma_places_below(names: Seq<Seq<char>>, decimal: bool, y: usize)
    requires
        names.len() <= y,
    ensures
        !places_where(names, decimal).contains(y),
    decreases names.len(),
{
    if names.len() > 0 {
        lemma_places_below(names.drop_last(), decimal, y);
        lemma_push_contains(
            places_where(names.drop_last(), decimal),
            (names.len() - 1) as usize,
            y,
        );
    }
}

/// The line that divides the log.
pub open spec fn divider() -> Seq<char> {
    repeated('-', 60)
}

/// The line that divides the log.
pub fn divider_text() -> (r: String)
    ensures
        r@ == divider(),
{
    repeat('-', 60)
}

/// What is logged when a run starts.
pub fn start_lines(ts: &str, total: usize, normal: usize, decimal: usize) -> (r: Vec<
    (String, LogLevel),
>)
    ensures
        r.deep_view() == seq![
            (divider(), LogLevel::Sep),
            (
                "  [START] "@ + ts@ + "  -  "@ + decimal_text(total as nat) + " files  ("@ + (
                decimal_text(normal as nat) + " normal  -  "@ + decimal_text(decimal as nat)
                    + " decimal)"@),
                LogLevel::Head,
            ),
            (divider(), LogLevel::Sep),
        ],
{
    let all = text_of_u64(total as u64);
    let n = text_of_u64(normal as u64);
    let d = text_of_u64(decimal as u64);
    let counts = cat4(n.as_str(), " normal  -  ", d.as_str(), " decimal)");
    let text = cat6("  [START] ", ts, "  -  ", all.as_str(), " files  (", counts.as_str());
    let mut lines = no_lines();
    push_line(&mut lines, true, divider_text(), LogLevel::Sep);
    push_line(&mut lines, true, text, LogLevel::Head);
    push_line(&mut lines, true, divider_text(), LogLevel::Sep);
    assert(lines.deep_view() =~= seq![
        (divider(), LogLevel::Sep),
        (
            "  [START] "@ + ts@ + "  -  "@ + decimal_text(total as nat) + " files  ("@ + (
            decimal_text(normal as nat) + " normal  -  "@ + decimal_text(decimal as nat)
                + " decimal)"@),
            LogLevel::Head,
        ),
        (divider(), LogLevel::Sep),
    ]);
    lines
}

/// Where there is no title for a file, it is named and titled alike: the title is the old name made
/// safe, and so is the new name.
pub proof fn lemma_untitled_file_keeps_its_name(
    cfg: WorkerConfig,
    name: FileName,
    reading: FileReading,
    plan: FilePlan,
    auto_pad: Option<usize>,
    orig: Seq<char>,
    after_finale: bool,
    invalid_sep: bool,
    sep: Seq<char>,
    own_date: Option<(i32, u32, u32)>,
    safe_title: Seq<char>,
)
    requires
        reading.is_of(cfg, name, auto_pad, orig),
        !reading.reliable,
        !is_finale(cfg, orig, name.kind@),
        plan.is_of(
            cfg,
            name,
            reading,
            reading.raw_title@,
            after_finale,
            invalid_sep,
            sep,
            own_date,
            safe_title,
        ),
    ensures
        plan.xml_title@ == name.safe_stem@,
        plan.new_name@ == name.safe_stem@ + ".cbz"@,
{
}

/// Title, number and summary are always those worked out for the file, whatever the constant metadata
/// holds, and so is the volume where there is one.
pub proof fn lemma_worked_out_tags_win(
    cfg: WorkerConfig,
    title: Seq<char>,
    number: Seq<char>,
    volume: Option<Seq<char>>,
    date: Option<DateTexts>,
    summary: Seq<char>,
)
    ensures
        lookup(metadata_of(cfg, title, number, volume, date, summary), "Title"@) == Some(title),
        lookup(metadata_of(cfg, title, number, volume, date, summary), "Number"@) == Some(number),
        lookup(metadata_of(cfg, title, number, volume, date, summary), "Summary"@) == Some(summary),
        volume matches Some(v) ==> lookup(
            metadata_of(cfg, title, number, volume, date, summary),
            "Volume"@,
        ) == Some(v),
        date matches Some((y, m, d)) ==> {
            let metadata = metadata_of(cfg, title, number, volume, date, summary);
            &&& lookup(metadata, "Year"@) == Some(y)
            &&& lookup(metadata, "Month"@) == Some(m)
            &&& lookup(metadata, "Day"@) == Some(d)
        },
{
    reveal_strlit("Title");
    reveal_strlit("Number");
    reveal_strlit("Volume");
    reveal_strlit("Year");
    reveal_strlit("Month");
    reveal_strlit("Day");
    reveal_strlit("Summary");
    let t = "Title"@;
    let n = "Number"@;
    let v = "Volume"@;
    let y = "Year"@;
    let m = "Month"@;
    let d = "Day"@;
    let s = "Summary"@;
    assert(t[0] == 'T' && n[0] == 'N' && v[0] == 'V' && y[0] == 'Y' && m[0] == 'M' && d[0] == 'D'
        && s[0] == 'S');
    let a = constant_fields(cfg);
    lemma_lookup_inserted(a, t, title, t);
    let b = inserted(a, t, title);
    lemma_lookup_inserted(b, n, number, t);
    let c = inserted(b, n, number);
    let e = with_volume(c, volume);
    if volume is Some {
        lemma_lookup_inserted(c, v, volume->0, t);
        lemma_lookup_inserted(c, v, volume->0, n);
    }
    assert(lookup(e, t) == Some(title) && lookup(e, n) == Some(number));
    let f = with_date(e, date);
    if date is Some {
        let (yy, mm, dd) = date->0;
        let g = inserted(e, y, yy);
        let h = inserted(g, m, mm);
        lemma_lookup_inserted(e, y, yy, t);
        lemma_lookup_inserted(e, y, yy, n);
        lemma_lookup_inserted(e, y, yy, v);
        lemma_lookup_inserted(g, m, mm, t);
        lemma_lookup_inserted(g, m, mm, n);
        lemma_lookup_inserted(g, m, mm, v);
        lemma_lookup_inserted(g, m, mm, y);
        lemma_lookup_inserted(h, d, dd, t);
        lemma_lookup_inserted(h, d, dd, n);
        lemma_lookup_inserted(h, d, dd, v);
        lemma_lookup_inserted(h, d, dd, y);
        lemma_lookup_inserted(h, d, dd, m);
        lemma_lookup_inserted(f, s, summary, y);
        lemma_lookup_inserted(f, s, summary, m);
        lemma_lookup_inserted(f, s, summary, d);
    }
    lemma_lookup_inserted(f, s, summary, t);
    lemma_lookup_inserted(f, s, summary, n);
    lemma_lookup_inserted(f, s, summary, v);
}

/// The place of a file is the last one at which its name stands, and there is none only where its name
/// does not stand in the list.
pub proof fn lemma_last_place(names: Seq<Seq<char>>, name: Seq<char>)
    ensures
        last_place(names, name) <= names.len(),
        last_place(names, name) < names.len() ==> names[last_place(names, name) as int] == name,
        forall|i: int|
            0 <= i < names.len() && #[trigger] names[i] == name ==> i <= last_place(names, name)
                < names.len(),
    decreases names.len(),
{
    if names.len() > 0 {
        let t = names.drop_last();
        lemma_last_place(t, name);
        assert forall|i: int| 0 <= i < names.len() && #[trigger] names[i] == name implies i
            <= last_place(names, name) < names.len() by {
            if i < t.len() {
                assert(t[i] == name);
            }
        }
    }
}

/// The files with a fraction stand in the order of the list, each once, and so do the others.
pub proof fn lemma_places_ascend(names: Seq<Seq<char>>, decimal: bool, i: int, j: int)
    requires
        names.len() <= usize::MAX,
        0 <= i < j < places_where(names, decimal).len(),
    ensures
        places_where(names, decimal)[i] < places_where(names, decimal)[j] < names.len(),
    decreases names.len(),
{
    if names.len() > 0 {
        let t = names.drop_last();
        let head = places_where(t, decimal);
        if j < head.len() {
            lemma_places_ascend(t, decimal, i, j);
        } else if i < head.len() {
            if head[i] >= t.len() {
                lemma_places_below(t, decimal, head[i]);
                assert(head.contains(head[i]));
            }
        }
    }
}

/// Whether no more files were renamed, or not for want of a free name, than were written, nor more written
/// than are done.
pub open spec fn is_consistent(s: RunStats) -> bool {
    s.renamed + s.rename_skipped <= s.xml_updated <= s.processed <= s.total
}

/// The counters stay consistent. A file on which the work failed, or without a number, counts as none of
/// these, and a preview as done only.
pub proof fn lemma_counters_are_consistent(s: RunStats, outcome: Outcome)
    requires
        is_consistent(s),
        s.processed < s.total < usize::MAX,
        outcome matches Outcome::Written { renamed, skipped } ==> !(renamed && skipped),
    ensures
        is_consistent(ended(s, outcome)),
        is_consistent(begun(s)),
        begun(s).total == s.total + 1 && begun(s).processed == s.processed,
        ended(s, outcome).total == s.total,
        ended(s, outcome).processed > s.processed <==> (outcome is Previewed || outcome is Written),
        ended(s, outcome).xml_updated > s.xml_updated <==> outcome is Written,
        ended(s, outcome).errors > s.errors ==> outcome is Failed,
        outcome is Failed && s.errors < usize::MAX ==> ended(s, outcome).errors == s.errors + 1,
        ended(s, outcome).renamed + ended(s, outcome).rename_skipped <= s.renamed + s.rename_skipped
            + 1,
        ended(s, outcome).renamed > s.renamed <==> (outcome matches Outcome::Written {
            renamed,
            skipped,
        } && renamed),
        ended(s, outcome).rename_skipped > s.rename_skipped <==> (outcome matches Outcome::Written {
            renamed,
            skipped,
        } && skipped),
{
}

/// The number of a file is the first one in its name, with its fraction where it has one.
pub proof fn lemma_number_is_first(p: Seq<char>, whole: Seq<char>, tenth: Option<char>, s: Seq<char>)
    requires
        !has_digit(p),
        whole.len() > 0,
        all_digits(whole),
        tenth matches Some(c) ==> is_digit(c),
        starts_apart(s),
    ensures
        number_in(p + numeral(whole, tenth) + s) == Some(numeral(whole, tenth)),
        number_in(p) is None,
{
    lemma_number_is_found(p, whole, tenth, s);
    lemma_no_number(p, 0);
}

proof fn lemma_no_number(s: Seq<char>, i: int)
    requires
        0 <= i <= s.len(),
        !has_digit(s),
    ensures
        next_digit(s, i) == s.len(),
    decreases s.len() - i,
{
    if i < s.len() {
        assert(!is_pattern_digit(s[i]));
        lemma_no_number(s, i + 1);
    }
}

} // verus!
