//! What holds of everything that is planned for a file of a run: the title, the tags and the new name.

use crate::decimal::{
    all_digits,
    decimal_text,
    digits_value,
    integer_of,
    is_digit,
    lemma_decimal_text,
    lemma_zero_padded_value,
    natural_of,
    zero_padded,
};
use crate::naming::{
    has_none,
    lemma_decimal_text_length,
    lemma_safe_name,
    safe_name,
    separator_of,
};
use crate::number::{
    fivefold,
    fixed_point,
    fixed_text,
    half_even,
    is_nearest,
    lemma_nearest,
    lemma_nearest_at_most_double,
    lemma_nearest_error,
    lemma_scale_bound,
    lemma_tenths_are_read,
    lemma_units_increase,
    nearest,
    number_of,
    number_text,
    scale,
    significand,
    tenth,
    units,
    Number,
    BLOCK,
    INFINITE,
};
use crate::patterns::is_unsafe;
use crate::rules::{covers, lemma_first_rule_wins, matching_rule, Row};
use crate::schema::{lemma_place_of, place_of};
use crate::state::LogLevel;
use crate::tags::{inserted, keys, lemma_lookup_inserted, lookup, Pair};
use crate::text::{ends_with, trimmed};
use crate::unicode::{lowered, nfkc};
use crate::worker::{
    constant_fields,
    date_of,
    halved_rating,
    is_after_finale,
    is_finale,
    is_planned,
    lemma_worked_out_tags_win,
    metadata_of,
    own_date_of,
    parsed_date,
    rule_summary,
    summary_of,
    title_of,
    volume_of,
    with_date,
    with_volume,
    FileName,
    FilePlan,
    FileReading,
    WorkerConfig,
    FIVE,
};
use crate::xml::{document, lemma_document_says, says};
use vstd::arithmetic::div_mod::lemma_fundamental_div_mod;
use vstd::arithmetic::power::{lemma_pow1, pow};
use vstd::arithmetic::power2::{
    lemma2_to64,
    lemma2_to64_rest,
    lemma_pow2_adds,
    lemma_pow2_pos,
    lemma_pow2_strictly_increases,
    lemma_pow2_unfold,
    pow2,
};
use vstd::prelude::*;

verus! {

/// Whether the tags of a file fit into a list, whatever is worked out for it.
pub open spec fn fits(cfg: WorkerConfig) -> bool {
    cfg.metadata_fields@.len() + 8 <= usize::MAX
}

// ── The document of a plan ──────────────────────────────────────────────────────────────────────
/// The tags that a plan writes.
spec fn planned_tags(
    cfg: WorkerConfig,
    name: FileName,
    reading: FileReading,
    labelled: Seq<char>,
    k: usize,
) -> Seq<Pair> {
    let kind = name.kind@;
    let orig = reading.orig_num@;
    let volume = volume_of(cfg, kind, orig, reading.number@);
    metadata_of(
        cfg,
        title_of(
            cfg,
            orig,
            reading.base@,
            separator_of(lowered(reading.prefix@), cfg.use_csep, cfg.csep@),
            labelled,
            reading.raw_title@,
            kind,
            reading.is_decimal,
            is_after_finale(cfg, k),
            reading.reliable,
        ),
        reading.number@,
        volume,
        date_of(cfg, volume, own_date_of(cfg, orig)),
        summary_of(cfg, rule_summary(cfg, kind, orig, volume)),
    )
}

proof fn lemma_planned_length(
    cfg: WorkerConfig,
    name: FileName,
    reading: FileReading,
    labelled: Seq<char>,
    k: usize,
)
    requires
        fits(cfg),
    ensures
        planned_tags(cfg, name, reading, labelled, k).len() <= usize::MAX,
{
}

/// A plan writes each of its tags.
proof fn lemma_plan_says(
    cfg: WorkerConfig,
    name: FileName,
    reading: FileReading,
    labelled: Seq<char>,
    k: usize,
    invalid_sep: bool,
    plan: FilePlan,
    tag: Seq<char>,
    value: Seq<char>,
)
    requires
        fits(cfg),
        is_planned(cfg, name, reading, labelled, k, invalid_sep, plan),
        lookup(planned_tags(cfg, name, reading, labelled, k), tag) == Some(value),
        tag == "Volume"@ ==> trimmed(value).len() > 0,
    ensures
        says(plan.xml@, tag, value),
{
    let tags = planned_tags(cfg, name, reading, labelled, k);
    lemma_planned_length(cfg, name, reading, labelled, k);
    lemma_place_of(keys(tags), tag);
    let i = place_of(keys(tags), tag);
    assert(keys(tags)[i as int] == tags[i as int].0);
    assert(tags[i as int] == (tag, value));
    assert(tags.contains((tag, value)));
    lemma_document_says(tags, cfg.tag_order.deep_view(), (tag, value));
}

/// Whether a plan is one for a file that was read, at place `k` of the sorted list, with a given label.
pub open spec fn is_case(
    cfg: WorkerConfig,
    name: FileName,
    auto_pad: Option<usize>,
    reading: FileReading,
    labelled: Seq<char>,
    k: usize,
    invalid_sep: bool,
    plan: FilePlan,
) -> bool {
    &&& fits(cfg)
    &&& reading.is_of(cfg, name, auto_pad, reading.orig_num@)
    &&& is_planned(cfg, name, reading, labelled, k, invalid_sep, plan)
}

/// What the tags of a plan say.
proof fn lemma_planned_lookups(
    cfg: WorkerConfig,
    name: FileName,
    reading: FileReading,
    labelled: Seq<char>,
    k: usize,
)
    ensures
        ({
            let tags = planned_tags(cfg, name, reading, labelled, k);
            let orig = reading.orig_num@;
            let volume = volume_of(cfg, name.kind@, orig, reading.number@);
            let date = date_of(cfg, volume, own_date_of(cfg, orig));
            let summary = summary_of(cfg, rule_summary(cfg, name.kind@, orig, volume));
            let title = title_of(
                cfg,
                orig,
                reading.base@,
                separator_of(lowered(reading.prefix@), cfg.use_csep, cfg.csep@),
                labelled,
                reading.raw_title@,
                name.kind@,
                reading.is_decimal,
                is_after_finale(cfg, k),
                reading.reliable,
            );
            &&& lookup(tags, "Title"@) == Some(title)
            &&& lookup(tags, "Number"@) == Some(reading.number@)
            &&& lookup(tags, "Summary"@) == Some(summary)
            &&& lookup(tags, "Volume"@) == match volume {
                Some(v) => Some(v),
                None => lookup(constant_fields(cfg), "Volume"@),
            }
            &&& lookup(tags, "Year"@) == match date {
                Some((y, m, d)) => Some(y),
                None => lookup(constant_fields(cfg), "Year"@),
            }
            &&& lookup(tags, "Month"@) == match date {
                Some((y, m, d)) => Some(m),
                None => lookup(constant_fields(cfg), "Month"@),
            }
            &&& lookup(tags, "Day"@) == match date {
                Some((y, m, d)) => Some(d),
                None => lookup(constant_fields(cfg), "Day"@),
            }
            &&& forall|tag: Seq<char>|
                !is_worked_out(tag) ==> #[trigger] lookup(tags, tag) == lookup(
                    constant_fields(cfg),
                    tag,
                )
        }),
{
    let orig = reading.orig_num@;
    let volume = volume_of(cfg, name.kind@, orig, reading.number@);
    let date = date_of(cfg, volume, own_date_of(cfg, orig));
    let summary = summary_of(cfg, rule_summary(cfg, name.kind@, orig, volume));
    let title = title_of(
        cfg,
        orig,
        reading.base@,
        separator_of(lowered(reading.prefix@), cfg.use_csep, cfg.csep@),
        labelled,
        reading.raw_title@,
        name.kind@,
        reading.is_decimal,
        is_after_finale(cfg, k),
        reading.reliable,
    );
    let tags = planned_tags(cfg, name, reading, labelled, k);
    let number = reading.number@;
    lemma_worked_out_tags_win(cfg, title, number, volume, date, summary);
    lemma_tag_names();
    assert forall|tag: Seq<char>|
        tag != "Title"@ && tag != "Number"@ && tag != "Summary"@ && (tag == "Volume"@ ==> volume
            is None) && (tag == "Year"@ || tag == "Month"@ || tag == "Day"@ ==> date
            is None) implies #[trigger] lookup(tags, tag) == lookup(constant_fields(cfg), tag) by {
        lemma_tags_around(cfg, title, number, volume, date, summary, tag);
    }
}

/// Whether a tag is worked out for each file, or can be.
pub open spec fn is_worked_out(tag: Seq<char>) -> bool {
    tag == "Title"@ || tag == "Number"@ || tag == "Summary"@ || tag == "Volume"@ || tag == "Year"@
        || tag == "Month"@ || tag == "Day"@
}

/// The tags that are worked out differ from each other, and from the community rating.
proof fn lemma_tag_names()
    ensures
        "Volume"@ != "Title"@ && "Volume"@ != "Number"@ && "Volume"@ != "Summary"@,
        "Volume"@ != "Year"@ && "Volume"@ != "Month"@ && "Volume"@ != "Day"@,
        "Year"@ != "Title"@ && "Year"@ != "Number"@ && "Year"@ != "Summary"@,
        "Month"@ != "Title"@ && "Month"@ != "Number"@ && "Month"@ != "Summary"@,
        "Day"@ != "Title"@ && "Day"@ != "Number"@ && "Day"@ != "Summary"@,
        !is_worked_out("CommunityRating"@),
        "chapter"@ != "volume"@,
{
    reveal_strlit("chapter");
    reveal_strlit("volume");
    assert("chapter"@.len() != "volume"@.len());
    reveal_strlit("Title");
    reveal_strlit("Number");
    reveal_strlit("Summary");
    reveal_strlit("Volume");
    reveal_strlit("Year");
    reveal_strlit("Month");
    reveal_strlit("Day");
    reveal_strlit("CommunityRating");
    assert("Title"@[0] == 'T' && "Number"@[0] == 'N' && "Summary"@[0] == 'S' && "Volume"@[0] == 'V'
        && "Year"@[0] == 'Y' && "Month"@[0] == 'M' && "Day"@[0] == 'D' && "CommunityRating"@[0]
        == 'C');
}

/// What is worked out for a file leaves the other tags alone.
proof fn lemma_tags_around(
    cfg: WorkerConfig,
    title: Seq<char>,
    number: Seq<char>,
    volume: Option<Seq<char>>,
    date: Option<(Seq<char>, Seq<char>, Seq<char>)>,
    summary: Seq<char>,
    tag: Seq<char>,
)
    requires
        tag != "Title"@,
        tag != "Number"@,
        tag != "Summary"@,
        tag == "Volume"@ ==> volume is None,
        tag == "Year"@ || tag == "Month"@ || tag == "Day"@ ==> date is None,
    ensures
        lookup(metadata_of(cfg, title, number, volume, date, summary), tag) == lookup(
            constant_fields(cfg),
            tag,
        ),
{
    let a = constant_fields(cfg);
    let b = inserted(a, "Title"@, title);
    let c = inserted(b, "Number"@, number);
    lemma_lookup_inserted(a, "Title"@, title, tag);
    lemma_lookup_inserted(b, "Number"@, number, tag);
    if volume is Some {
        lemma_lookup_inserted(c, "Volume"@, volume->0, tag);
    }
    let e = with_volume(c, volume);
    if date is Some {
        let (y, m, d) = date->0;
        let g = inserted(e, "Year"@, y);
        let h = inserted(g, "Month"@, m);
        lemma_lookup_inserted(e, "Year"@, y, tag);
        lemma_lookup_inserted(g, "Month"@, m, tag);
        lemma_lookup_inserted(h, "Day"@, d, tag);
    }
    lemma_lookup_inserted(with_date(e, date), "Summary"@, summary, tag);
}

// ── Titles ──────────────────────────────────────────────────────────────────────────────────────
/// The title that the titles hold for a file, under its number as it stands in the name or as it is
/// shown.
pub open spec fn has_title(
    cfg: WorkerConfig,
    name: FileName,
    reading: FileReading,
    title: Seq<char>,
) -> bool {
    let titles = if name.kind@ == "volume"@ {
        cfg.volume_titles@
    } else {
        cfg.chapter_titles@
    };
    &&& title.len() > 0
    &&& lookup(titles, reading.orig_num@) == Some(title) || (lookup(titles, reading.orig_num@) is None
        && lookup(titles, reading.number@) == Some(title))
}

/// Prefix and number before a title, with what stands between them.
pub open spec fn numbered_title(
    cfg: WorkerConfig,
    reading: FileReading,
    title: Seq<char>,
) -> Seq<char> {
    trimmed(reading.prefix@) + " "@ + reading.number@ + separator_of(
        lowered(reading.prefix@),
        cfg.use_csep,
        cfg.csep@,
    ) + title
}

/// A file with a whole number and a title is titled by prefix, number and title: in a run without a final
/// chapter, up to the final chapter whatever is to become of side stories, and behind it where they keep
/// their prefix. Only the final chapter that is to be marked and chapter 0 are titled otherwise.
pub proof fn lemma_numbered_title(
    cfg: WorkerConfig,
    name: FileName,
    auto_pad: Option<usize>,
    reading: FileReading,
    labelled: Seq<char>,
    k: usize,
    invalid_sep: bool,
    plan: FilePlan,
    title: Seq<char>,
)
    requires
        is_case(cfg, name, auto_pad, reading, labelled, k, invalid_sep, plan),
        has_title(cfg, name, reading, title),
        labelled == title,
        reading.orig_num@ != "0"@,
        !reading.orig_num@.contains('.'),
        cfg.final_ch_mode@ == "final"@ ==> cfg.finale_number.deep_view() != Some(reading.orig_num@)
            || name.kind@ != "chapter"@,
        cfg.finale_index matches Some(f) ==> k <= f || cfg.post_finale_mode@ != "strip"@,
    ensures
        plan.xml_title@ == numbered_title(cfg, reading, title),
        says(plan.xml@, "Title"@, numbered_title(cfg, reading, title)),
{
    lemma_planned_lookups(cfg, name, reading, labelled, k);
    lemma_tag_names();
    lemma_plan_says(cfg, name, reading, labelled, k, invalid_sep, plan, "Title"@, plan.xml_title@);
}

/// A side story behind the final chapter is titled without prefix and number where these are to be left
/// out.
pub proof fn lemma_side_story_title(
    cfg: WorkerConfig,
    name: FileName,
    auto_pad: Option<usize>,
    reading: FileReading,
    labelled: Seq<char>,
    k: usize,
    invalid_sep: bool,
    plan: FilePlan,
    title: Seq<char>,
    f: usize,
)
    requires
        is_case(cfg, name, auto_pad, reading, labelled, k, invalid_sep, plan),
        has_title(cfg, name, reading, title),
        labelled == title,
        cfg.finale_index == Some(f),
        k > f,
        cfg.post_finale_mode@ == "strip"@,
        cfg.finale_number.deep_view() != Some(reading.orig_num@) || name.kind@ != "chapter"@,
    ensures
        plan.xml_title@ == title,
        says(plan.xml@, "Title"@, title),
{
    lemma_planned_lookups(cfg, name, reading, labelled, k);
    lemma_tag_names();
    lemma_plan_says(cfg, name, reading, labelled, k, invalid_sep, plan, "Title"@, plan.xml_title@);
}

/// The final chapter is titled as such where it is to be marked, wherever it stands in the list.
pub proof fn lemma_final_chapter_title(
    cfg: WorkerConfig,
    name: FileName,
    auto_pad: Option<usize>,
    reading: FileReading,
    labelled: Seq<char>,
    k: usize,
    invalid_sep: bool,
    plan: FilePlan,
    title: Seq<char>,
)
    requires
        is_case(cfg, name, auto_pad, reading, labelled, k, invalid_sep, plan),
        lookup(cfg.chapter_titles@, reading.orig_num@) == Some(title),
        name.kind@ == "chapter"@,
        labelled == title,
        reading.orig_num@ != "0"@,
        cfg.final_ch_mode@ == "final"@,
        cfg.finale_number.deep_view() == Some(reading.orig_num@),
    ensures
        plan.xml_title@ == "Final Chapter: "@ + title,
        says(plan.xml@, "Title"@, "Final Chapter: "@ + title),
{
    lemma_planned_lookups(cfg, name, reading, labelled, k);
    lemma_tag_names();
    lemma_plan_says(cfg, name, reading, labelled, k, invalid_sep, plan, "Title"@, plan.xml_title@);
}

/// A chapter with a fraction is titled by its label alone, wherever it stands in the list.
pub proof fn lemma_label_is_title(
    cfg: WorkerConfig,
    name: FileName,
    auto_pad: Option<usize>,
    reading: FileReading,
    labelled: Seq<char>,
    k: usize,
    invalid_sep: bool,
    plan: FilePlan,
)
    requires
        is_case(cfg, name, auto_pad, reading, labelled, k, invalid_sep, plan),
        name.kind@ == "chapter"@,
        reading.orig_num@.contains('.'),
        reading.orig_num@ != "0"@,
        cfg.finale_number.deep_view() != Some(reading.orig_num@),
    ensures
        plan.xml_title@ == labelled,
        says(plan.xml@, "Title"@, labelled),
{
    lemma_planned_lookups(cfg, name, reading, labelled, k);
    lemma_tag_names();
    lemma_plan_says(cfg, name, reading, labelled, k, invalid_sep, plan, "Title"@, plan.xml_title@);
}

/// A volume or an episode with a fraction and a title is titled by prefix, number and label, up to the final
/// chapter and behind it where side stories keep their prefix.
pub proof fn lemma_numbered_label(
    cfg: WorkerConfig,
    name: FileName,
    auto_pad: Option<usize>,
    reading: FileReading,
    labelled: Seq<char>,
    k: usize,
    invalid_sep: bool,
    plan: FilePlan,
    title: Seq<char>,
)
    requires
        is_case(cfg, name, auto_pad, reading, labelled, k, invalid_sep, plan),
        has_title(cfg, name, reading, title),
        name.kind@ != "chapter"@,
        reading.orig_num@.contains('.'),
        reading.orig_num@ != "0"@,
        cfg.finale_index matches Some(f) ==> k <= f || cfg.post_finale_mode@ != "strip"@,
    ensures
        plan.xml_title@ == numbered_title(cfg, reading, labelled),
        says(plan.xml@, "Title"@, numbered_title(cfg, reading, labelled)),
{
    lemma_planned_lookups(cfg, name, reading, labelled, k);
    lemma_tag_names();
    lemma_plan_says(cfg, name, reading, labelled, k, invalid_sep, plan, "Title"@, plan.xml_title@);
}

/// A side story with a fraction that is no volume is titled by its label alone where prefixes are to be left
/// out behind the final chapter, and a volume by its title.
pub proof fn lemma_side_story_label(
    cfg: WorkerConfig,
    name: FileName,
    auto_pad: Option<usize>,
    reading: FileReading,
    labelled: Seq<char>,
    k: usize,
    invalid_sep: bool,
    plan: FilePlan,
    title: Seq<char>,
    f: usize,
)
    requires
        is_case(cfg, name, auto_pad, reading, labelled, k, invalid_sep, plan),
        has_title(cfg, name, reading, title),
        reading.orig_num@.contains('.'),
        reading.orig_num@ != "0"@,
        cfg.finale_number.deep_view() != Some(reading.orig_num@),
        cfg.finale_index == Some(f),
        k > f,
        cfg.post_finale_mode@ == "strip"@,
    ensures
        name.kind@ != "volume"@ ==> plan.xml_title@ == labelled && says(plan.xml@, "Title"@, labelled),
        name.kind@ == "volume"@ ==> plan.xml_title@ == title && says(plan.xml@, "Title"@, title),
{
    lemma_planned_lookups(cfg, name, reading, labelled, k);
    lemma_tag_names();
    lemma_plan_says(cfg, name, reading, labelled, k, invalid_sep, plan, "Title"@, plan.xml_title@);
}

/// Whether the titles hold no title for a file: none under its number, neither as it stands in the name nor
/// as it is shown, or an empty one.
pub open spec fn has_no_title(cfg: WorkerConfig, name: FileName, reading: FileReading) -> bool {
    let titles = if name.kind@ == "volume"@ {
        cfg.volume_titles@
    } else {
        cfg.chapter_titles@
    };
    match lookup(titles, reading.orig_num@) {
        Some(t) => t.len() == 0,
        None => match lookup(titles, reading.number@) {
            Some(t) => t.len() == 0,
            None => true,
        },
    }
}

/// A file without a title keeps its name, made safe, and is titled by it. Where there are titles for other
/// files, that is warned of.
pub proof fn lemma_file_without_title(
    cfg: WorkerConfig,
    name: FileName,
    auto_pad: Option<usize>,
    reading: FileReading,
    labelled: Seq<char>,
    k: usize,
    invalid_sep: bool,
    plan: FilePlan,
)
    requires
        is_case(cfg, name, auto_pad, reading, labelled, k, invalid_sep, plan),
        has_no_title(cfg, name, reading),
    ensures
        reading.raw_title@ == name.safe_stem@,
        plan.new_name@ == name.safe_stem@ + ".cbz"@,
        reading.warning is Some <==> (if name.kind@ == "volume"@ {
            cfg.volume_titles@
        } else {
            cfg.chapter_titles@
        }).len() > 0,
        labelled == name.safe_stem@ && cfg.finale_number.deep_view() != Some(reading.orig_num@)
            ==> plan.xml_title@ == name.safe_stem@ && says(plan.xml@, "Title"@, name.safe_stem@),
{
    lemma_planned_lookups(cfg, name, reading, labelled, k);
    lemma_tag_names();
    lemma_plan_says(cfg, name, reading, labelled, k, invalid_sep, plan, "Title"@, plan.xml_title@);
}

/// A file with a title is not warned of.
pub proof fn lemma_no_warning_with_title(
    cfg: WorkerConfig,
    name: FileName,
    auto_pad: Option<usize>,
    reading: FileReading,
    labelled: Seq<char>,
    k: usize,
    invalid_sep: bool,
    plan: FilePlan,
    title: Seq<char>,
)
    requires
        is_case(cfg, name, auto_pad, reading, labelled, k, invalid_sep, plan),
        has_title(cfg, name, reading, title),
    ensures
        reading.warning is None,
        reading.raw_title@ == title,
{
}

/// Chapter 0 is titled by its title alone, or by its name where it has none.
pub proof fn lemma_chapter_zero_title(
    cfg: WorkerConfig,
    name: FileName,
    auto_pad: Option<usize>,
    reading: FileReading,
    labelled: Seq<char>,
    k: usize,
    invalid_sep: bool,
    plan: FilePlan,
)
    requires
        is_case(cfg, name, auto_pad, reading, labelled, k, invalid_sep, plan),
        reading.orig_num@ == "0"@,
    ensures
        says(plan.xml@, "Title"@, plan.xml_title@),
        forall|title: Seq<char>| #[trigger]
            has_title(cfg, name, reading, title) ==> plan.xml_title@ == title,
        (forall|title: Seq<char>| !#[trigger] has_title(cfg, name, reading, title))
            ==> plan.xml_title@ == name.safe_stem@,
{
    lemma_planned_lookups(cfg, name, reading, labelled, k);
    lemma_tag_names();
    lemma_plan_says(cfg, name, reading, labelled, k, invalid_sep, plan, "Title"@, plan.xml_title@);
    assert forall|title: Seq<char>| #[trigger]
        has_title(cfg, name, reading, title) implies reading.raw_title@ == title by {}
    if reading.reliable {
        assert(has_title(cfg, name, reading, reading.raw_title@));
    }
}

/// A final chapter that is still to come makes no difference to a file: what is planned is the same as
/// without one.
pub proof fn lemma_finale_ahead_makes_no_difference(
    cfg: WorkerConfig,
    name: FileName,
    auto_pad: Option<usize>,
    reading: FileReading,
    labelled: Seq<char>,
    k: usize,
    invalid_sep: bool,
    plan: FilePlan,
    other: WorkerConfig,
    same: FilePlan,
    f: usize,
)
    requires
        is_planned(cfg, name, reading, labelled, k, invalid_sep, plan),
        is_planned(other, name, reading, labelled, k, invalid_sep, same),
        cfg.finale_index == Some(f),
        k <= f,
        other == (WorkerConfig { finale_index: None, ..cfg }),
    ensures
        plan.xml@ == same.xml@,
        plan.xml_title@ == same.xml_title@,
        plan.new_name@ == same.new_name@,
{
    let kind = name.kind@;
    let orig = reading.orig_num@;
    let number = reading.number@;
    let sep = separator_of(lowered(reading.prefix@), cfg.use_csep, cfg.csep@);
    assert(!is_after_finale(cfg, k) && !is_after_finale(other, k));
    assert(is_finale(cfg, orig, kind) == is_finale(other, orig, kind));
    assert(title_of(
        cfg,
        orig,
        reading.base@,
        sep,
        labelled,
        reading.raw_title@,
        kind,
        reading.is_decimal,
        false,
        reading.reliable,
    ) == title_of(
        other,
        orig,
        reading.base@,
        sep,
        labelled,
        reading.raw_title@,
        kind,
        reading.is_decimal,
        false,
        reading.reliable,
    ));
    let volume = volume_of(cfg, kind, orig, number);
    assert(volume == volume_of(other, kind, orig, number));
    let own = own_date_of(cfg, orig);
    assert(own == own_date_of(other, orig));
    assert(date_of(cfg, volume, own) == date_of(other, volume, own));
    assert(rule_summary(cfg, kind, orig, volume) == rule_summary(other, kind, orig, volume));
    assert(constant_fields(cfg) == constant_fields(other));
    assert(planned_tags(cfg, name, reading, labelled, k) == planned_tags(
        other,
        name,
        reading,
        labelled,
        k,
    ));
    assert(plan.xml@ == document(
        planned_tags(cfg, name, reading, labelled, k),
        cfg.tag_order.deep_view(),
    ));
    assert(same.xml@ == document(
        planned_tags(other, name, reading, labelled, k),
        cfg.tag_order.deep_view(),
    ));
}

// ── Numbers and volumes ─────────────────────────────────────────────────────────────────────────
/// The number of a file is written as it is shown.
pub proof fn lemma_number_is_written(
    cfg: WorkerConfig,
    name: FileName,
    auto_pad: Option<usize>,
    reading: FileReading,
    labelled: Seq<char>,
    k: usize,
    invalid_sep: bool,
    plan: FilePlan,
)
    requires
        is_case(cfg, name, auto_pad, reading, labelled, k, invalid_sep, plan),
    ensures
        says(plan.xml@, "Number"@, reading.number@),
{
    lemma_planned_lookups(cfg, name, reading, labelled, k);
    lemma_tag_names();
    lemma_plan_says(cfg, name, reading, labelled, k, invalid_sep, plan, "Number"@, reading.number@);
}

/// Where volume numbers are on, a file that is itself a volume has its own number for its volume,
/// whatever the rules are.
pub proof fn lemma_volume_has_its_own_number(
    cfg: WorkerConfig,
    name: FileName,
    auto_pad: Option<usize>,
    reading: FileReading,
    labelled: Seq<char>,
    k: usize,
    invalid_sep: bool,
    plan: FilePlan,
)
    requires
        is_case(cfg, name, auto_pad, reading, labelled, k, invalid_sep, plan),
        cfg.use_vol,
        name.kind@ == "volume"@,
        trimmed(reading.number@).len() > 0,
    ensures
        says(plan.xml@, "Volume"@, reading.number@),
        says(plan.xml@, "Number"@, reading.number@),
{
    lemma_planned_lookups(cfg, name, reading, labelled, k);
    lemma_tag_names();
    lemma_plan_says(cfg, name, reading, labelled, k, invalid_sep, plan, "Volume"@, reading.number@);
    lemma_plan_says(cfg, name, reading, labelled, k, invalid_sep, plan, "Number"@, reading.number@);
}

/// Whether one of some rules covers a number, and none before it does.
pub open spec fn is_first_rule(rules: Seq<Row>, i: int, n: Number, width: nat) -> bool {
    &&& 0 <= i < rules.len()
    &&& rules[i].len() >= width
    &&& covers(rules[i], n)
    &&& forall|j: int|
        0 <= j < i ==> !((#[trigger] rules[j]).len() >= width && covers(rules[j], n))
}

/// Whether none of some rules covers a number.
pub open spec fn is_uncovered(rules: Seq<Row>, n: Number, width: nat) -> bool {
    forall|j: int|
        0 <= j < rules.len() ==> !((#[trigger] rules[j]).len() >= width && covers(rules[j], n))
}

proof fn lemma_rule_matches(number: Seq<char>, rules: Seq<Row>, i: int, n: Number, width: nat)
    requires
        number_of(number) == Some(n),
        is_first_rule(rules, i, n, width),
    ensures
        matching_rule(number, rules, width) == Some(rules[i]),
{
    lemma_first_rule_wins(rules, n, width, i as nat);
}

proof fn lemma_no_rule_matches(number: Seq<char>, rules: Seq<Row>, width: nat)
    requires
        number_of(number) matches Some(n) ==> is_uncovered(rules, n, width),
    ensures
        matching_rule(number, rules, width) is None,
{
    if number_of(number) is Some {
        lemma_first_rule_wins(rules, number_of(number)->0, width, rules.len());
    }
}

/// A chapter has the volume of the first rule that covers its number, where volume numbers are on.
pub proof fn lemma_chapter_has_volume_of_rule(
    cfg: WorkerConfig,
    name: FileName,
    auto_pad: Option<usize>,
    reading: FileReading,
    labelled: Seq<char>,
    k: usize,
    invalid_sep: bool,
    plan: FilePlan,
    i: int,
    n: Number,
)
    requires
        is_case(cfg, name, auto_pad, reading, labelled, k, invalid_sep, plan),
        cfg.use_vol,
        name.kind@ != "volume"@,
        number_of(reading.orig_num@) == Some(n),
        is_first_rule(cfg.volume_rules.deep_view(), i, n, 3),
        trimmed(cfg.volume_rules.deep_view()[i][2]).len() > 0,
    ensures
        says(plan.xml@, "Volume"@, cfg.volume_rules.deep_view()[i][2]),
{
    lemma_planned_lookups(cfg, name, reading, labelled, k);
    lemma_tag_names();
    lemma_rule_matches(reading.orig_num@, cfg.volume_rules.deep_view(), i, n, 3);
    lemma_plan_says(cfg, name, reading, labelled, k, invalid_sep, plan, "Volume"@, cfg.volume_rules.deep_view()[i][2]);
}

/// Where volume numbers are off, or no rule covers the number of a chapter, the volume is that of the
/// constant metadata.
pub proof fn lemma_volume_is_constant(
    cfg: WorkerConfig,
    name: FileName,
    auto_pad: Option<usize>,
    reading: FileReading,
    labelled: Seq<char>,
    k: usize,
    invalid_sep: bool,
    plan: FilePlan,
    value: Seq<char>,
)
    requires
        is_case(cfg, name, auto_pad, reading, labelled, k, invalid_sep, plan),
        cfg.use_vol ==> name.kind@ != "volume"@ && (number_of(reading.orig_num@) matches Some(n)
            ==> is_uncovered(cfg.volume_rules.deep_view(), n, 3)),
        lookup(cfg.metadata_fields@, "Volume"@) == Some(value),
        trimmed(value).len() > 0,
    ensures
        says(plan.xml@, "Volume"@, value),
{
    lemma_planned_lookups(cfg, name, reading, labelled, k);
    lemma_tag_names();
    if cfg.use_vol {
        lemma_no_rule_matches(reading.orig_num@, cfg.volume_rules.deep_view(), 3);
    }
    lemma_constant_fields(cfg, "Volume"@);
    lemma_plan_says(cfg, name, reading, labelled, k, invalid_sep, plan, "Volume"@, value);
}

/// The constant metadata but for the rating is taken as it was given.
proof fn lemma_constant_fields(cfg: WorkerConfig, tag: Seq<char>)
    requires
        tag != "CommunityRating"@ || !cfg.community_rating_10_scale,
    ensures
        lookup(constant_fields(cfg), tag) == lookup(cfg.metadata_fields@, tag),
{
    let fields = cfg.metadata_fields@;
    if constant_fields(cfg) != fields {
        let n = number_of(lookup(fields, "CommunityRating"@)->0)->0;
        lemma_lookup_inserted(
            fields,
            "CommunityRating"@,
            number_text(halved_rating(n), 1),
            tag,
        );
    }
}

/// Constant metadata is written with the values that were given, whatever the file.
pub proof fn lemma_constant_tag_is_written(
    cfg: WorkerConfig,
    name: FileName,
    auto_pad: Option<usize>,
    reading: FileReading,
    labelled: Seq<char>,
    k: usize,
    invalid_sep: bool,
    plan: FilePlan,
    tag: Seq<char>,
    value: Seq<char>,
)
    requires
        is_case(cfg, name, auto_pad, reading, labelled, k, invalid_sep, plan),
        !is_worked_out(tag),
        tag == "CommunityRating"@ ==> !cfg.community_rating_10_scale,
        lookup(cfg.metadata_fields@, tag) == Some(value),
    ensures
        says(plan.xml@, tag, value),
{
    lemma_planned_lookups(cfg, name, reading, labelled, k);
    lemma_tag_names();
    lemma_constant_fields(cfg, tag);
    lemma_plan_says(cfg, name, reading, labelled, k, invalid_sep, plan, tag, value);
}

// ── Summaries and dates ─────────────────────────────────────────────────────────────────────────
/// Whether a file belongs to the volume `v`: it is that volume, or the rules for volumes give it.
pub open spec fn belongs_to(
    cfg: WorkerConfig,
    name: FileName,
    reading: FileReading,
    v: Seq<char>,
) -> bool {
    &&& cfg.use_vol
    &&& if name.kind@ == "volume"@ {
        v == reading.number@
    } else {
        exists|i: int, n: Number|
            number_of(reading.orig_num@) == Some(n) && #[trigger] is_first_rule(
                cfg.volume_rules.deep_view(),
                i,
                n,
                3,
            ) && cfg.volume_rules.deep_view()[i][2] == v
    }
}

proof fn lemma_belongs(cfg: WorkerConfig, name: FileName, reading: FileReading, v: Seq<char>)
    requires
        belongs_to(cfg, name, reading, v),
    ensures
        volume_of(cfg, name.kind@, reading.orig_num@, reading.number@) == Some(v),
{
    if name.kind@ != "volume"@ {
        let rules = cfg.volume_rules.deep_view();
        let (i, n) = choose|i: int, n: Number|
            number_of(reading.orig_num@) == Some(n) && #[trigger] is_first_rule(rules, i, n, 3)
                && rules[i][2] == v;
        lemma_rule_matches(reading.orig_num@, rules, i, n, 3);
    }
}

/// Whether a file is chapter 1.
pub open spec fn is_chapter_one(name: FileName, reading: FileReading) -> bool {
    name.kind@ == "chapter"@ && reading.orig_num@ == "1"@
}

/// A file but chapter 1 has the summary of its volume: that of the first rule that covers the number of
/// the volume, whatever its own number is.
pub proof fn lemma_summary_of_volume(
    cfg: WorkerConfig,
    name: FileName,
    auto_pad: Option<usize>,
    reading: FileReading,
    labelled: Seq<char>,
    k: usize,
    invalid_sep: bool,
    plan: FilePlan,
    v: Seq<char>,
    i: int,
    m: Number,
)
    requires
        is_case(cfg, name, auto_pad, reading, labelled, k, invalid_sep, plan),
        cfg.use_vol_summ,
        !is_chapter_one(name, reading),
        belongs_to(cfg, name, reading, v),
        number_of(v) == Some(m),
        is_first_rule(cfg.summ_rules.deep_view(), i, m, 3),
    ensures
        says(plan.xml@, "Summary"@, cfg.summ_rules.deep_view()[i][2]),
{
    lemma_planned_lookups(cfg, name, reading, labelled, k);
    lemma_tag_names();
    lemma_belongs(cfg, name, reading, v);
    lemma_rule_matches(v, cfg.summ_rules.deep_view(), i, m, 3);
    lemma_plan_says(cfg, name, reading, labelled, k, invalid_sep, plan, "Summary"@, cfg.summ_rules.deep_view()[i][2]);
}

/// Files of one volume, but chapter 1, have one summary.
pub proof fn lemma_files_of_a_volume_share_its_summary(
    cfg: WorkerConfig,
    v: Seq<char>,
    name: FileName,
    auto_pad: Option<usize>,
    reading: FileReading,
    labelled: Seq<char>,
    k: usize,
    invalid_sep: bool,
    plan: FilePlan,
    name2: FileName,
    reading2: FileReading,
    labelled2: Seq<char>,
    k2: usize,
    plan2: FilePlan,
)
    requires
        is_case(cfg, name, auto_pad, reading, labelled, k, invalid_sep, plan),
        is_case(cfg, name2, auto_pad, reading2, labelled2, k2, invalid_sep, plan2),
        belongs_to(cfg, name, reading, v),
        belongs_to(cfg, name2, reading2, v),
        !is_chapter_one(name, reading),
        !is_chapter_one(name2, reading2),
    ensures
        exists|summary: Seq<char>| #[trigger]
            says(plan.xml@, "Summary"@, summary) && says(plan2.xml@, "Summary"@, summary),
{
    lemma_planned_lookups(cfg, name, reading, labelled, k);
    lemma_planned_lookups(cfg, name2, reading2, labelled2, k2);
    lemma_tag_names();
    lemma_belongs(cfg, name, reading, v);
    lemma_belongs(cfg, name2, reading2, v);
    let summary = summary_of(cfg, rule_summary(cfg, name.kind@, reading.orig_num@, Some(v)));
    lemma_plan_says(cfg, name, reading, labelled, k, invalid_sep, plan, "Summary"@, summary);
    lemma_plan_says(
        cfg,
        name2,
        reading2,
        labelled2,
        k2,
        invalid_sep,
        plan2,
        "Summary"@,
        summary,
    );
}

/// The default summary is written for chapter 1, where summaries by volume are off, where a file belongs
/// to no volume, and where no rule covers the number of its volume.
pub proof fn lemma_default_summary(
    cfg: WorkerConfig,
    name: FileName,
    auto_pad: Option<usize>,
    reading: FileReading,
    labelled: Seq<char>,
    k: usize,
    invalid_sep: bool,
    plan: FilePlan,
)
    requires
        is_case(cfg, name, auto_pad, reading, labelled, k, invalid_sep, plan),
        is_chapter_one(name, reading) || !cfg.use_vol_summ || !cfg.use_vol || (name.kind@
            != "volume"@ && (number_of(reading.orig_num@) matches Some(n) ==> is_uncovered(
            cfg.volume_rules.deep_view(),
            n,
            3,
        ))) || (exists|v: Seq<char>| #[trigger]
            belongs_to(cfg, name, reading, v) && (number_of(v) matches Some(m) ==> is_uncovered(
                cfg.summ_rules.deep_view(),
                m,
                3,
            ))),
    ensures
        says(plan.xml@, "Summary"@, cfg.summary@),
{
    lemma_planned_lookups(cfg, name, reading, labelled, k);
    lemma_tag_names();
    if is_chapter_one(name, reading) || !cfg.use_vol_summ || !cfg.use_vol {
    } else if name.kind@ != "volume"@ && (number_of(reading.orig_num@) matches Some(n)
        ==> is_uncovered(cfg.volume_rules.deep_view(), n, 3)) {
        lemma_no_rule_matches(reading.orig_num@, cfg.volume_rules.deep_view(), 3);
    } else {
        let v = choose|v: Seq<char>| #[trigger]
            belongs_to(cfg, name, reading, v) && (number_of(v) matches Some(m) ==> is_uncovered(
                cfg.summ_rules.deep_view(),
                m,
                3,
            ));
        lemma_belongs(cfg, name, reading, v);
        lemma_no_rule_matches(v, cfg.summ_rules.deep_view(), 3);
    }
    lemma_plan_says(cfg, name, reading, labelled, k, invalid_sep, plan, "Summary"@, cfg.summary@);
}

/// A file has the date of its volume where dates by volume are on: that of the first rule that covers the
/// number of the volume, whatever its own number is.
pub proof fn lemma_date_of_volume(
    cfg: WorkerConfig,
    name: FileName,
    auto_pad: Option<usize>,
    reading: FileReading,
    labelled: Seq<char>,
    k: usize,
    invalid_sep: bool,
    plan: FilePlan,
    v: Seq<char>,
    i: int,
    m: Number,
    year: int,
    month: int,
    day: int,
)
    requires
        is_case(cfg, name, auto_pad, reading, labelled, k, invalid_sep, plan),
        cfg.use_vol_date,
        belongs_to(cfg, name, reading, v),
        number_of(v) == Some(m),
        is_first_rule(cfg.date_rules.deep_view(), i, m, 5),
        integer_of(cfg.date_rules.deep_view()[i][2]) == Some(year),
        integer_of(cfg.date_rules.deep_view()[i][3]) == Some(month),
        integer_of(cfg.date_rules.deep_view()[i][4]) == Some(day),
        0 <= year <= i32::MAX,
        0 <= month <= i32::MAX,
        0 <= day <= i32::MAX,
    ensures
        says(plan.xml@, "Year"@, decimal_text(year as nat)),
        says(plan.xml@, "Month"@, decimal_text(month as nat)),
        says(plan.xml@, "Day"@, decimal_text(day as nat)),
{
    lemma_planned_lookups(cfg, name, reading, labelled, k);
    lemma_tag_names();
    lemma_belongs(cfg, name, reading, v);
    lemma_rule_matches(v, cfg.date_rules.deep_view(), i, m, 5);
    lemma_plan_says(cfg, name, reading, labelled, k, invalid_sep, plan, "Year"@, decimal_text(year as nat));
    lemma_plan_says(cfg, name, reading, labelled, k, invalid_sep, plan, "Month"@, decimal_text(month as nat));
    lemma_plan_says(cfg, name, reading, labelled, k, invalid_sep, plan, "Day"@, decimal_text(day as nat));
}

/// A file has the date that the file of dates holds under its number where dates by volume are off.
pub proof fn lemma_date_of_its_own(
    cfg: WorkerConfig,
    name: FileName,
    auto_pad: Option<usize>,
    reading: FileReading,
    labelled: Seq<char>,
    k: usize,
    invalid_sep: bool,
    plan: FilePlan,
    text: Seq<char>,
    year: i32,
    month: u32,
    day: u32,
)
    requires
        is_case(cfg, name, auto_pad, reading, labelled, k, invalid_sep, plan),
        !cfg.use_vol_date,
        lookup(cfg.dates_json@, reading.orig_num@) == Some(text),
        parsed_date(text, "%b %d, %Y"@) == Some((year, month, day)),
        year >= 0,
    ensures
        says(plan.xml@, "Year"@, decimal_text(year as nat)),
        says(plan.xml@, "Month"@, decimal_text(month as nat)),
        says(plan.xml@, "Day"@, decimal_text(day as nat)),
{
    lemma_planned_lookups(cfg, name, reading, labelled, k);
    lemma_tag_names();
    lemma_plan_says(cfg, name, reading, labelled, k, invalid_sep, plan, "Year"@, decimal_text(year as nat));
    lemma_plan_says(cfg, name, reading, labelled, k, invalid_sep, plan, "Month"@, decimal_text(month as nat));
    lemma_plan_says(cfg, name, reading, labelled, k, invalid_sep, plan, "Day"@, decimal_text(day as nat));
}

/// Whether neither the rules nor the file of dates give a date for a file.
pub open spec fn has_no_date(cfg: WorkerConfig, name: FileName, reading: FileReading) -> bool {
    if !cfg.use_vol_date {
        lookup(cfg.dates_json@, reading.orig_num@) is None
    } else {
        ||| !cfg.use_vol
        ||| exists|v: Seq<char>| #[trigger]
            belongs_to(cfg, name, reading, v) && (number_of(v) matches Some(m) ==> is_uncovered(
                cfg.date_rules.deep_view(),
                m,
                5,
            ))
    }
}

/// A file without a date has that of the constant metadata.
pub proof fn lemma_date_is_constant(
    cfg: WorkerConfig,
    name: FileName,
    auto_pad: Option<usize>,
    reading: FileReading,
    labelled: Seq<char>,
    k: usize,
    invalid_sep: bool,
    plan: FilePlan,
    tag: Seq<char>,
    value: Seq<char>,
)
    requires
        is_case(cfg, name, auto_pad, reading, labelled, k, invalid_sep, plan),
        has_no_date(cfg, name, reading),
        tag == "Year"@ || tag == "Month"@ || tag == "Day"@,
        lookup(cfg.metadata_fields@, tag) == Some(value),
    ensures
        says(plan.xml@, tag, value),
{
    lemma_planned_lookups(cfg, name, reading, labelled, k);
    lemma_tag_names();
    if cfg.use_vol_date && cfg.use_vol {
        let v = choose|v: Seq<char>| #[trigger]
            belongs_to(cfg, name, reading, v) && (number_of(v) matches Some(m) ==> is_uncovered(
                cfg.date_rules.deep_view(),
                m,
                5,
            ));
        lemma_belongs(cfg, name, reading, v);
        lemma_no_rule_matches(v, cfg.date_rules.deep_view(), 5);
    }
    lemma_constant_fields(cfg, tag);
    lemma_plan_says(cfg, name, reading, labelled, k, invalid_sep, plan, tag, value);
}

// ── Ratings ─────────────────────────────────────────────────────────────────────────────────────
/// Five is five times one.
proof fn lemma_five()
    ensures
        units(FIVE as nat) == 5 * pow2(1074),
        FIVE < INFINITE,
{
    let b = BLOCK as nat;
    let n = FIVE as nat;
    assert(n / b == 1025);
    assert(n % b == 0x4_0000_0000_0000);
    assert(significand(n) == 0x14_0000_0000_0000);
    assert(scale(n) == 1024);
    lemma_pow2_adds(50, 1024);
    lemma2_to64_rest();
    let w = pow2(1024);
    assert(pow2(50) == 0x4_0000_0000_0000);
    assert(0x14_0000_0000_0000 * w == 5 * (0x4_0000_0000_0000 * w)) by (nonlinear_arith);
}

/// A rating is halved up to the rounding of its format.
proof fn lemma_halved(o: u64) -> (r: u64)
    requires
        o < INFINITE,
        units(o as nat) <= 10 * pow2(1074),
    ensures
        halved_rating(Number::Real { negative: false, ordinal: o }) == (Number::Real {
            negative: false,
            ordinal: r,
        }),
        r <= FIVE,
        units(r as nat) <= 5 * pow2(1074),
        -pow2(1028) <= 2 * units(r as nat) - units(o as nat) <= pow2(1028),
{
    let x = units(o as nat);
    let w = pow2(1074);
    let v = pow2(1024);
    lemma_pow2_pos(1074);
    lemma_pow2_pos(1024);
    lemma_pow2_unfold(1075);
    lemma_pow2_unfold(1028);
    lemma_pow2_unfold(1027);
    lemma_pow2_unfold(1026);
    lemma_pow2_unfold(1025);
    assert(pow2(1027) == 8 * v && pow2(1028) == 16 * v);
    assert(BLOCK * v == 4 * w && BLOCK * (8 * v) == 32 * w) by {
        lemma_pow2_adds(50, 1024);
        lemma2_to64_rest();
        assert(pow2(50) == 0x4_0000_0000_0000);
        assert(0x10_0000_0000_0000 * v == 4 * (0x4_0000_0000_0000 * v)) by (nonlinear_arith);
        assert(0x10_0000_0000_0000 * (8 * v) == 32 * (0x4_0000_0000_0000 * v)) by (nonlinear_arith);
    }
    lemma_five();
    // A tenth.
    let q = 10 * w;
    let t = tenth(o as nat);
    lemma_nearest(x, q);
    lemma_nearest_at_most_double(x, q, t);
    let y = units(t);
    assert(y <= 2 * w) by (nonlinear_arith)
        requires
            y * q <= x * (2 * w),
            q == 10 * w,
            x <= 10 * w,
            w > 0,
    ;
    assert(t < INFINITE) by {
        if t >= FIVE {
            if t > FIVE {
                lemma_units_increase(FIVE as nat, t);
            }
        }
    }
    lemma_scale_bound(t, 1024);
    lemma_nearest_error(x, q, t);
    let g = pow2(scale(t));
    assert(2 * (10 * y) <= 2 * x + 10 * v && 2 * x <= 2 * (10 * y) + 10 * v) by (nonlinear_arith)
        requires
            2 * y * q <= x * (2 * w) + g * q,
            x * (2 * w) <= 2 * y * q + g * q,
            q == 10 * w,
            g <= v,
            w > 0,
    ;
    // Five times that.
    let f = fivefold(t);
    lemma_nearest(y * 5, w);
    lemma_nearest_at_most_double(y * 5, w, f);
    let z = units(f);
    assert(z <= 20 * w) by (nonlinear_arith)
        requires
            z * w <= (y * 5) * (2 * w),
            y <= 2 * w,
            w > 0,
    ;
    assert(f < INFINITE) by {
        if f >= INFINITE {
            lemma_infinite_is_large();
            if f > INFINITE {
                lemma_units_increase(INFINITE as nat, f);
            }
        }
    }
    lemma_scale_bound(f, 1027);
    lemma_nearest_error(y * 5, w, f);
    let h = pow2(scale(f));
    assert(2 * z <= 10 * y + 8 * v && 10 * y <= 2 * z + 8 * v) by (nonlinear_arith)
        requires
            2 * z * w <= (y * 5) * (2 * w) + h * w,
            (y * 5) * (2 * w) <= 2 * z * w + h * w,
            h <= 8 * v,
            w > 0,
    ;
    assert(tenth(o as nat) as u64 == t && fivefold(t) as u64 == f);
    if f > FIVE {
        lemma_units_increase(FIVE as nat, f);
        FIVE
    } else {
        if f < FIVE {
            lemma_units_increase(f, FIVE as nat);
        }
        f as u64
    }
}

/// Beyond all finite values is more than any rating.
proof fn lemma_infinite_is_large()
    ensures
        units(INFINITE as nat) > 20 * pow2(1074),
{
    let b = BLOCK as nat;
    let n = INFINITE as nat;
    assert(n / b == 2047);
    assert(n % b == 0);
    assert(significand(n) == b);
    assert(scale(n) == 2046);
    lemma_pow2_strictly_increases(1074, 2046);
    lemma_pow2_pos(1074);
    let w = pow2(1074);
    let v = pow2(2046);
    assert(0x10_0000_0000_0000 * v > 20 * w) by (nonlinear_arith)
        requires
            v > w,
            w > 0,
    ;
}

/// A number of tenths, written with a point.
pub open spec fn tenths_text(w: nat) -> Seq<char> {
    decimal_text(w / 10) + "."@ + decimal_text(w % 10)
}

/// A value with one place is written as its tenths.
pub proof fn lemma_one_place(n: nat)
    ensures
        fixed_text(n, 1) == tenths_text(fixed_point(n, 1)),
{
    let w = fixed_point(n, 1);
    reveal_strlit(".");
    reveal_with_fuel(decimal_text, 3);
    let digits = zero_padded(decimal_text(w), 2);
    let whole = digits.len() - 1;
    if w < 10 {
        assert(digits =~= decimal_text(0) + decimal_text(w));
        assert(digits.take(whole) =~= decimal_text(w / 10));
        assert(digits.skip(whole) =~= decimal_text(w % 10));
    } else {
        lemma_decimal_text(w / 10);
        assert(decimal_text(w) =~= decimal_text(w / 10) + decimal_text(w % 10));
        assert(digits =~= decimal_text(w));
        assert(digits.take(whole) =~= decimal_text(w / 10));
        assert(digits.skip(whole) =~= decimal_text(w % 10));
    }
    assert("."@ =~= seq!['.']);
}

/// A rounded quotient is no further from the quotient than one half.
proof fn lemma_half_even_error(a: nat, b: nat)
    requires
        b > 0,
    ensures
        -(b as int) <= 2 * (half_even(a, b) * b) - 2 * a <= b,
{
    let q = a / b;
    let r = a % b;
    lemma_fundamental_div_mod(a as int, b as int);
    assert(b * q == q * b) by (nonlinear_arith);
    assert((q + 1) * b == q * b + b) by (nonlinear_arith);
}

/// A rating on a scale up to 10 is written as its half: with one place, never above 5, and no further
/// from the half than one twentieth, up to the rounding of the format. `units` counts in `2^-1074`.
pub proof fn lemma_rating_is_halved(
    cfg: WorkerConfig,
    name: FileName,
    auto_pad: Option<usize>,
    reading: FileReading,
    labelled: Seq<char>,
    k: usize,
    invalid_sep: bool,
    plan: FilePlan,
    value: Seq<char>,
    o: u64,
) -> (w: nat)
    requires
        is_case(cfg, name, auto_pad, reading, labelled, k, invalid_sep, plan),
        cfg.community_rating_10_scale,
        lookup(cfg.metadata_fields@, "CommunityRating"@) == Some(value),
        number_of(value) == Some(Number::Real { negative: false, ordinal: o }),
        o < INFINITE,
        units(o as nat) <= 10 * pow2(1074),
    ensures
        says(plan.xml@, "CommunityRating"@, tenths_text(w)),
        w <= 50,
        2 * (w * pow2(1074)) <= 10 * units(o as nat) + pow2(1074) + pow2(1032),
        10 * units(o as nat) <= 2 * (w * pow2(1074)) + pow2(1074) + pow2(1032),
{
    let n = Number::Real { negative: false, ordinal: o };
    let r = lemma_halved(o);
    let w = fixed_point(r as nat, 1);
    let one = pow2(1074);
    let u = units(r as nat);
    lemma_pow2_pos(1074);
    lemma_pow1(10);
    lemma_half_even_error(u * 10, one);
    lemma_pow2_unfold(1032);
    lemma_pow2_unfold(1031);
    lemma_pow2_unfold(1030);
    lemma_pow2_unfold(1029);
    assert(pow2(1032) == 16 * pow2(1028));
    assert(w <= 50) by (nonlinear_arith)
        requires
            2 * (w * one) <= 2 * (u * 10) + one,
            u <= 5 * one,
            one > 0,
    ;
    lemma_five();
    lemma_one_place(r as nat);
    reveal_strlit("");
    assert(number_text(Number::Real { negative: false, ordinal: r }, 1) =~= tenths_text(w));
    lemma_planned_lookups(cfg, name, reading, labelled, k);
    lemma_tag_names();
    lemma_lookup_inserted(
        cfg.metadata_fields@,
        "CommunityRating"@,
        tenths_text(w),
        "CommunityRating"@,
    );
    lemma_plan_says(cfg, name, reading, labelled, k, invalid_sep, plan, "CommunityRating"@, tenths_text(w));
    w
}

/// A rating that is given in tenths is written as its half in tenths: exactly where it has one, and as
/// one of the two next to it else.
pub proof fn lemma_rating_in_tenths_is_halved(
    cfg: WorkerConfig,
    name: FileName,
    auto_pad: Option<usize>,
    reading: FileReading,
    labelled: Seq<char>,
    k: usize,
    invalid_sep: bool,
    plan: FilePlan,
    whole: Seq<char>,
    digit: char,
) -> (w: nat)
    requires
        is_case(cfg, name, auto_pad, reading, labelled, k, invalid_sep, plan),
        cfg.community_rating_10_scale,
        whole.len() > 0,
        all_digits(whole),
        is_digit(digit),
        digits_value(whole.push(digit)) <= 100,
        lookup(cfg.metadata_fields@, "CommunityRating"@) == Some(whole + "."@ + seq![digit]),
    ensures
        says(plan.xml@, "CommunityRating"@, tenths_text(w)),
        w <= 50,
        -1 <= 2 * w - digits_value(whole.push(digit)) <= 1,
{
    let m = digits_value(whole.push(digit));
    let one = pow2(1074);
    let n = nearest(m, 10);
    lemma_tenths_are_read(whole, digit);
    lemma_nearest(m, 10);
    lemma_nearest_at_most_double(m, 10, n);
    lemma_pow2_pos(1074);
    lemma_pow2_unfold(1075);
    let x = units(n);
    assert(x <= 20 * one) by (nonlinear_arith)
        requires
            x * 10 <= m * (2 * one),
            m <= 100,
    ;
    assert(n < INFINITE) by {
        if n >= INFINITE {
            lemma_infinite_is_large();
            if n > INFINITE {
                lemma_units_increase(INFINITE as nat, n);
            }
        }
    }
    let v = pow2(1024);
    lemma_pow2_unfold(1027);
    lemma_pow2_unfold(1026);
    lemma_pow2_unfold(1025);
    assert(BLOCK * (8 * v) == 32 * one) by {
        lemma_pow2_adds(50, 1024);
        lemma2_to64_rest();
        assert(pow2(50) == 0x4_0000_0000_0000);
        assert(0x10_0000_0000_0000 * (8 * v) == 32 * (0x4_0000_0000_0000 * v)) by (nonlinear_arith);
    }
    lemma_scale_bound(n, 1027);
    lemma_nearest_error(m, 10, n);
    let g = pow2(scale(n));
    let mw = m * one;
    assert(m * (2 * one) == 2 * mw) by (nonlinear_arith)
        requires
            mw == m * one,
    ;
    assert(20 * x <= 2 * mw + 80 * v && 2 * mw <= 20 * x + 80 * v);
    // Halves of tenths are far apart.
    lemma_tenths_are_apart();
    assert(x <= 10 * one) by {
        lemma_ten_is_exact(m, n);
    }
    let w = lemma_rating_is_halved(
        cfg,
        name,
        auto_pad,
        reading,
        labelled,
        k,
        invalid_sep,
        plan,
        whole + "."@ + seq![digit],
        n as u64,
    );
    let ww = w * one;
    assert(2 * ww - mw < 2 * one && mw - 2 * ww < 2 * one);
    assert(-2 < 2 * w - m < 2) by (nonlinear_arith)
        requires
            ww == w * one,
            mw == m * one,
            2 * ww - mw < 2 * one,
            mw - 2 * ww < 2 * one,
            one > 0,
    ;
    w
}

/// What rounding makes of a rating is far less than one twentieth.
proof fn lemma_tenths_are_apart()
    ensures
        pow2(1032) + 40 * pow2(1024) < pow2(1074),
{
    lemma_pow2_strictly_increases(1024, 1032);
    lemma_pow2_pos(1032);
    lemma_pow2_adds(42, 1032);
    lemma2_to64_rest();
    let w = pow2(1032);
    assert(pow2(42) == 0x400_0000_0000);
    assert(0x400_0000_0000 * w > 41 * w) by (nonlinear_arith)
        requires
            w > 0,
    ;
}

/// No value nearest to at most ten is above ten.
proof fn lemma_ten_is_exact(m: nat, n: nat)
    requires
        m <= 100,
        is_nearest(m, 10, n),
        n < INFINITE,
    ensures
        units(n) <= 10 * pow2(1074),
{
    let one = pow2(1074);
    lemma_pow2_pos(1074);
    lemma_pow2_unfold(1075);
    let ten: nat = 0x4024_0000_0000_0000;
    let b = BLOCK as nat;
    assert(ten / b == 1026);
    assert(ten % b == 0x4_0000_0000_0000);
    assert(units(ten) == 10 * one) by {
        lemma_pow2_adds(49, 1025);
        lemma2_to64_rest();
        assert(pow2(49) == 0x2_0000_0000_0000);
        let w = pow2(1025);
        assert(0x14_0000_0000_0000 * w == 10 * (0x2_0000_0000_0000 * w)) by (nonlinear_arith);
    }
    if n > ten {
        let below = (n - 1) as nat;
        lemma_units_increase(ten, n);
        if ten < below {
            lemma_units_increase(ten, below);
        }
        let x = units(n);
        let y = units(below);
        assert((y + x) * 10 > m * (2 * one)) by (nonlinear_arith)
            requires
                y >= 10 * one,
                x > 10 * one,
                m <= 100,
                one > 0,
        ;
    } else if n < ten {
        lemma_units_increase(n, ten);
    }
}

/// What is nearest to a ratio that is at least a value is not below it.
proof fn lemma_nearest_at_least(p: nat, q: nat, n: nat, m: nat)
    requires
        q > 0,
        is_nearest(p, q, n),
        m <= INFINITE,
        p * pow2(1074) >= units(m) * q,
    ensures
        n >= m,
{
    if n < m {
        lemma_pow2_unfold(1075);
        let w = pow2(1074);
        let x = units(n);
        let y = units(n + 1);
        let z = units(m);
        lemma_units_increase(n, m);
        if n + 1 < m {
            lemma_units_increase(n + 1, m);
        }
        assert(p * (2 * w) > (x + y) * q) by (nonlinear_arith)
            requires
                p * w >= z * q,
                x < z,
                y <= z,
                q > 0,
        ;
    }
}

proof fn lemma_one()
    ensures
        units(0x3ff0_0000_0000_0000) == pow2(1074),
{
    let b = BLOCK as nat;
    let n: nat = 0x3ff0_0000_0000_0000;
    assert(n / b == 1023);
    assert(n % b == 0);
    lemma_pow2_adds(52, 1022);
    lemma2_to64_rest();
    assert(pow2(52) == 0x10_0000_0000_0000);
}

/// A rating of 10 or more is brought to 5.
proof fn lemma_large_rating(o: u64)
    requires
        o < INFINITE ==> units(o as nat) >= 10 * pow2(1074),
    ensures
        halved_rating(Number::Real { negative: false, ordinal: o }) == (Number::Real {
            negative: false,
            ordinal: FIVE,
        }),
{
    if o < INFINITE {
        let x = units(o as nat);
        let w = pow2(1074);
        lemma_pow2_pos(1074);
        lemma_one();
        lemma_five();
        let t = tenth(o as nat);
        lemma_nearest(x, 10 * w);
        assert(x * w >= w * (10 * w)) by (nonlinear_arith)
            requires
                x >= 10 * w,
        ;
        lemma_nearest_at_least(x, 10 * w, t, 0x3ff0_0000_0000_0000);
        if t < INFINITE {
            let u = units(t);
            if t > 0x3ff0_0000_0000_0000 {
                lemma_units_increase(0x3ff0_0000_0000_0000, t);
            }
            lemma_nearest(u * 5, w);
            assert((u * 5) * w >= (5 * w) * w) by (nonlinear_arith)
                requires
                    u >= w,
            ;
            lemma_nearest_at_least(u * 5, w, fivefold(t), FIVE as nat);
        }
    }
}

/// A rating of 10 or more, on a scale up to 10, is written as 5, however large it is.
pub proof fn lemma_large_rating_is_five(
    cfg: WorkerConfig,
    name: FileName,
    auto_pad: Option<usize>,
    reading: FileReading,
    labelled: Seq<char>,
    k: usize,
    invalid_sep: bool,
    plan: FilePlan,
    value: Seq<char>,
    o: u64,
)
    requires
        is_case(cfg, name, auto_pad, reading, labelled, k, invalid_sep, plan),
        cfg.community_rating_10_scale,
        lookup(cfg.metadata_fields@, "CommunityRating"@) == Some(value),
        number_of(value) == Some(Number::Real { negative: false, ordinal: o }),
        o < INFINITE ==> units(o as nat) >= 10 * pow2(1074),
    ensures
        says(plan.xml@, "CommunityRating"@, tenths_text(50)),
{
    lemma_large_rating(o);
    lemma_five();
    lemma_one_place(FIVE as nat);
    lemma_pow1(10);
    lemma_pow2_pos(1074);
    let w = pow2(1074);
    assert((5 * w) * 10 == 50 * w) by (nonlinear_arith);
    lemma_half_even_error((5 * w) * 10, w);
    assert(fixed_point(FIVE as nat, 1) == 50) by {
        let h = half_even((5 * w) * 10, w);
        assert(h == 50) by (nonlinear_arith)
            requires
                -(w as int) <= 2 * (h * w) - 100 * w <= w,
                w > 0,
        ;
    }
    reveal_strlit("");
    assert(number_text(Number::Real { negative: false, ordinal: FIVE }, 1) =~= tenths_text(50));
    lemma_planned_lookups(cfg, name, reading, labelled, k);
    lemma_tag_names();
    lemma_lookup_inserted(
        cfg.metadata_fields@,
        "CommunityRating"@,
        tenths_text(50),
        "CommunityRating"@,
    );
    lemma_plan_says(
        cfg,
        name,
        reading,
        labelled,
        k,
        invalid_sep,
        plan,
        "CommunityRating"@,
        tenths_text(50),
    );
}

/// A rating of minus one or less is brought to zero.
proof fn lemma_negative_rating(o: u64)
    requires
        units(o as nat) >= pow2(1074),
    ensures
        halved_rating(Number::Real { negative: true, ordinal: o }) == (Number::Real {
            negative: false,
            ordinal: 0,
        }),
{
    if o < INFINITE {
        let x = units(o as nat);
        let w = pow2(1074);
        lemma_pow2_pos(1074);
        lemma_pow2_unfold(1074);
        lemma_pow2_unfold(1073);
        lemma_pow2_unfold(1072);
        lemma_pow2_unfold(1071);
        lemma_pow2_pos(1070);
        assert(w >= 16);
        let t = tenth(o as nat);
        lemma_nearest(x, 10 * w);
        lemma2_to64();
        assert(units(1) == 1);
        assert(x * w >= 1 * (10 * w)) by (nonlinear_arith)
            requires
                x >= w,
                w >= 16,
        ;
        lemma_nearest_at_least(x, 10 * w, t, 1);
        if t < INFINITE {
            let u = units(t);
            if t > 1 {
                lemma_units_increase(1, t);
            }
            lemma_nearest(u * 5, w);
            assert((u * 5) * w >= 1 * w) by (nonlinear_arith)
                requires
                    u >= 1,
            ;
            lemma_nearest_at_least(u * 5, w, fivefold(t), 1);
            assert(fivefold(t) <= INFINITE);
        }
    }
}

/// A rating of minus one or less, on a scale up to 10, is written as 0.
pub proof fn lemma_negative_rating_is_zero(
    cfg: WorkerConfig,
    name: FileName,
    auto_pad: Option<usize>,
    reading: FileReading,
    labelled: Seq<char>,
    k: usize,
    invalid_sep: bool,
    plan: FilePlan,
    value: Seq<char>,
    o: u64,
)
    requires
        is_case(cfg, name, auto_pad, reading, labelled, k, invalid_sep, plan),
        cfg.community_rating_10_scale,
        lookup(cfg.metadata_fields@, "CommunityRating"@) == Some(value),
        number_of(value) == Some(Number::Real { negative: true, ordinal: o }),
        units(o as nat) >= pow2(1074),
    ensures
        says(plan.xml@, "CommunityRating"@, tenths_text(0)),
{
    lemma_negative_rating(o);
    lemma_one_place(0);
    let w = pow2(1074);
    lemma_pow2_pos(1074);
    assert(units(0) == 0) by {
        assert(0 * pow2(scale(0)) == 0);
    }
    assert(fixed_point(0, 1) == 0) by {
        lemma_pow1(10);
        lemma_half_even_error(0, w);
        let h = half_even(0, w);
        assert(h == 0) by (nonlinear_arith)
            requires
                2 * (h * w) <= w,
                w > 0,
                h >= 0,
        ;
        assert(units(0) * 10 == 0);
        assert(fixed_point(0, 1) == half_even(units(0) * (pow(10, 1) as nat), w));
    }
    reveal_strlit("");
    assert(number_text(Number::Real { negative: false, ordinal: 0 }, 1) =~= tenths_text(0));
    lemma_planned_lookups(cfg, name, reading, labelled, k);
    lemma_tag_names();
    lemma_lookup_inserted(
        cfg.metadata_fields@,
        "CommunityRating"@,
        tenths_text(0),
        "CommunityRating"@,
    );
    lemma_plan_says(
        cfg,
        name,
        reading,
        labelled,
        k,
        invalid_sep,
        plan,
        "CommunityRating"@,
        tenths_text(0),
    );
}

/// A rating that is no number is written as it was given.
pub proof fn lemma_rating_without_number_is_kept(
    cfg: WorkerConfig,
    name: FileName,
    auto_pad: Option<usize>,
    reading: FileReading,
    labelled: Seq<char>,
    k: usize,
    invalid_sep: bool,
    plan: FilePlan,
    value: Seq<char>,
)
    requires
        is_case(cfg, name, auto_pad, reading, labelled, k, invalid_sep, plan),
        lookup(cfg.metadata_fields@, "CommunityRating"@) == Some(value),
        number_of(value) is None,
    ensures
        says(plan.xml@, "CommunityRating"@, value),
{
    lemma_planned_lookups(cfg, name, reading, labelled, k);
    lemma_tag_names();
    lemma_plan_says(
        cfg,
        name,
        reading,
        labelled,
        k,
        invalid_sep,
        plan,
        "CommunityRating"@,
        value,
    );
}

// ── Numbers that are shown ──────────────────────────────────────────────────────────────────────
/// A whole number that is filled up keeps its value, and is as wide as is asked for unless its own digits
/// are more: by the width that was found in the names where there is one, else by the one that is set.
pub proof fn lemma_shown_number_keeps_value(
    cfg: WorkerConfig,
    name: FileName,
    auto_pad: Option<usize>,
    reading: FileReading,
    width: nat,
)
    requires
        reading.is_of(cfg, name, auto_pad, reading.orig_num@),
        cfg.zero_pad,
        reading.orig_num@.len() > 0,
        all_digits(reading.orig_num@),
        digits_value(reading.orig_num@) <= u64::MAX,
        auto_pad matches Some(w) ==> width == w,
        auto_pad is None ==> width == cfg.pad_width,
    ensures
        all_digits(reading.number@),
        digits_value(reading.number@) == digits_value(reading.orig_num@),
        reading.number@.len() >= width,
        width > 0 && digits_value(reading.orig_num@) < pow(10, width) ==> reading.number@.len() == width,
{
    let s = reading.orig_num@;
    let n = digits_value(s);
    assert forall|i: int| 0 <= i < s.len() implies #[trigger] s[i] != '.' by {
        assert(is_digit(s[i]));
    }
    assert(is_digit(s[0]));
    assert(natural_of(s) == Some(n));
    lemma_decimal_text(n);
    lemma_zero_padded_value(decimal_text(n), width);
    if width > 0 && n < pow(10, width) {
        lemma_decimal_text_length(n, width);
    }
}

/// A number is shown as it stands in the name where it is not to be filled up, or has a fraction.
pub proof fn lemma_number_is_shown_as_it_stands(
    cfg: WorkerConfig,
    name: FileName,
    auto_pad: Option<usize>,
    reading: FileReading,
)
    requires
        reading.is_of(cfg, name, auto_pad, reading.orig_num@),
        !cfg.zero_pad || reading.orig_num@.contains('.'),
    ensures
        reading.number@ == reading.orig_num@,
{
}

/// Two files with the same whole number are shown under the same number, whatever zeros the names hold.
pub proof fn lemma_equal_numbers_are_shown_alike(
    cfg: WorkerConfig,
    name: FileName,
    auto_pad: Option<usize>,
    reading: FileReading,
    other: FileName,
    other_reading: FileReading,
)
    requires
        reading.is_of(cfg, name, auto_pad, reading.orig_num@),
        other_reading.is_of(cfg, other, auto_pad, other_reading.orig_num@),
        cfg.zero_pad,
        reading.orig_num@.len() > 0,
        all_digits(reading.orig_num@),
        other_reading.orig_num@.len() > 0,
        all_digits(other_reading.orig_num@),
        digits_value(reading.orig_num@) == digits_value(other_reading.orig_num@) <= u64::MAX,
    ensures
        reading.number@ == other_reading.number@,
{
    let s = reading.orig_num@;
    let t = other_reading.orig_num@;
    assert forall|i: int| 0 <= i < s.len() implies #[trigger] s[i] != '.' by {
        assert(is_digit(s[i]));
    }
    assert forall|i: int| 0 <= i < t.len() implies #[trigger] t[i] != '.' by {
        assert(is_digit(t[i]));
    }
    assert(is_digit(s[0]) && is_digit(t[0]));
    assert(natural_of(s) == natural_of(t));
}

// ── New names ───────────────────────────────────────────────────────────────────────────────────
/// A file with a title is named by prefix, number and title, with a dash or the separator of one's own
/// between them, as far as a name can hold it. The title is the one that the titles hold, whatever label
/// was given, and the name does not depend on what became of the final chapter.
pub proof fn lemma_new_name(
    cfg: WorkerConfig,
    name: FileName,
    auto_pad: Option<usize>,
    reading: FileReading,
    labelled: Seq<char>,
    k: usize,
    invalid_sep: bool,
    plan: FilePlan,
    title: Seq<char>,
)
    requires
        is_case(cfg, name, auto_pad, reading, labelled, k, invalid_sep, plan),
        has_title(cfg, name, reading, title),
    ensures
        !cfg.use_csep || invalid_sep ==> plan.new_name@ == trimmed(reading.prefix@) + " "@
            + reading.number@ + " - "@ + safe_name(nfkc(title)) + ".cbz"@,
        cfg.use_csep && !invalid_sep ==> plan.new_name@ == trimmed(reading.prefix@) + " "@
            + reading.number@ + (" "@ + trimmed(cfg.csep@) + " "@) + safe_name(nfkc(title)) + ".cbz"@,
{
}

/// A new name holds nothing that a file name cannot hold, unless the prefix or the separator brings it, and
/// it is that of an archive.
pub proof fn lemma_new_name_is_safe(
    cfg: WorkerConfig,
    name: FileName,
    auto_pad: Option<usize>,
    reading: FileReading,
    labelled: Seq<char>,
    k: usize,
    invalid_sep: bool,
    plan: FilePlan,
    stem: Seq<char>,
)
    requires
        is_case(cfg, name, auto_pad, reading, labelled, k, invalid_sep, plan),
        name.safe_stem@ == safe_name(nfkc(stem)),
        has_none(trimmed(reading.prefix@), |c: char| is_unsafe(c)),
        has_none(reading.number@, |c: char| is_unsafe(c)),
        !invalid_sep ==> has_none(trimmed(cfg.csep@), |c: char| is_unsafe(c)),
    ensures
        has_none(plan.new_name@, |c: char| is_unsafe(c)),
        ends_with(plan.new_name@, ".cbz"@),
{
    reveal_strlit(" ");
    reveal_strlit(" - ");
    reveal_strlit(".cbz");
    lemma_safe_name(nfkc(reading.raw_title@));
    lemma_safe_name(nfkc(stem));
    let n = plan.new_name@;
    assert(n.subrange(n.len() - 4, n.len() as int) =~= ".cbz"@);
    assert forall|i: int| 0 <= i < n.len() implies !is_unsafe(#[trigger] n[i]) by {
        let p = trimmed(reading.prefix@);
        let d = reading.number@;
        let t = safe_name(nfkc(reading.raw_title@));
        let c = trimmed(cfg.csep@);
        if reading.reliable {
            let m = if cfg.use_csep && !invalid_sep {
                " "@ + c + " "@
            } else {
                " - "@
            };
            assert(n == p + " "@ + d + m + t + ".cbz"@);
            let x = p.len() + 1 + d.len();
            let y = x + m.len();
            if i < p.len() {
                assert(n[i] == p[i]);
            } else if i == p.len() {
                assert(n[i] == ' ');
            } else if i < x {
                assert(n[i] == d[i - p.len() - 1]);
            } else if i < y {
                assert(n[i] == m[i - x]);
                if cfg.use_csep && !invalid_sep && 0 < i - x < m.len() - 1 {
                    assert(m[i - x] == c[i - x - 1]);
                }
            } else if i < y + t.len() {
                assert(n[i] == t[i - y]);
            }
        } else {
            assert(n == name.safe_stem@ + ".cbz"@);
        }
    }
}

// ── What is logged ──────────────────────────────────────────────────────────────────────────────
/// Unless all is to be logged, nothing but a warning about a missing title is told of how a file was worked
/// out.
pub proof fn lemma_quiet_plan_tells_warnings_only(
    cfg: WorkerConfig,
    name: FileName,
    auto_pad: Option<usize>,
    reading: FileReading,
    labelled: Seq<char>,
    k: usize,
    invalid_sep: bool,
    plan: FilePlan,
)
    requires
        is_case(cfg, name, auto_pad, reading, labelled, k, invalid_sep, plan),
        !cfg.verbose,
    ensures
        reading.warning is None ==> plan.lines.deep_view().len() == 0,
        reading.warning.deep_view() matches Some(text) ==> plan.lines.deep_view() == seq![
            (text, LogLevel::Warn),
        ],
{
    match reading.warning.deep_view() {
        Some(text) => {
            assert(plan.lines.deep_view() =~= seq![(text, LogLevel::Warn)]);
        },
        None => {},
    }
}

} // verus!
