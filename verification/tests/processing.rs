use comicinfo_generator::naming::{
    detect_file_type, get_prefix, is_decimal_file, is_sep_invalid_for_filename, natural_sort_key,
    sanitize_filename,
};
use comicinfo_generator::rules::{find_date, find_summary, find_volume};
use comicinfo_generator::schema::{
    canonical_index, canonical_tags, comicinfo_fields, default_tag_order, field_spec,
};
use comicinfo_generator::tags::TagMap;
use comicinfo_generator::xml::build_comic_info_xml;

// ── detect_file_type ───────────────────────────────────────────────────
#[test]
fn detect_type_volume_keyword() {
    assert_eq!(detect_file_type("Volume 3.cbz"), "volume");
    assert_eq!(detect_file_type("vol 3.cbz"), "volume");
    assert_eq!(detect_file_type("v3.cbz"), "volume");
}

#[test]
fn detect_type_chapter_keyword() {
    assert_eq!(detect_file_type("Chapter 12.cbz"), "chapter");
    assert_eq!(detect_file_type("ch 12.cbz"), "chapter");
}

#[test]
fn detect_type_episode_keyword() {
    assert_eq!(detect_file_type("Episode 5.cbz"), "episode");
    assert_eq!(detect_file_type("ep 5.cbz"), "episode");
}

#[test]
fn detect_type_decimal_with_no_keyword_is_chapter() {
    // No vol/ch/ep keyword, but has a decimal number -- treated as chapter.
    assert_eq!(detect_file_type("Series 2.5.cbz"), "chapter");
}

#[test]
fn detect_type_bare_number_is_chapter() {
    assert_eq!(detect_file_type("Series 5.cbz"), "chapter");
}

#[test]
fn detect_type_no_number_is_unknown() {
    assert_eq!(detect_file_type("Cover.cbz"), "unknown");
}

#[test]
fn detect_type_volume_keyword_takes_priority_over_bare_number() {
    // Even though "5" alone would be "chapter", the Vol keyword wins.
    assert_eq!(detect_file_type("My Series Vol 5.cbz"), "volume");
}

// ── is_decimal_file ──────────────────────────────────────────────────────
#[test]
fn decimal_file_detection() {
    assert!(is_decimal_file("Episode 2.5.cbz"));
    assert!(!is_decimal_file("Episode 2.cbz"));
    assert!(!is_decimal_file("Episode.cbz"));
}

// ── get_prefix ───────────────────────────────────────────────────────────
#[test]
fn prefix_auto_detects_volume_keyword() {
    assert_eq!(get_prefix("My Series Vol 5.cbz", "auto", ""), "Volume");
}

#[test]
fn prefix_auto_detects_chapter_keyword() {
    assert_eq!(get_prefix("My Series Ch 5.cbz", "auto", ""), "Chapter");
}

#[test]
fn prefix_auto_falls_back_to_episode() {
    // No vol/ch keyword anywhere in the filename -- defaults to Episode.
    assert_eq!(get_prefix("My Series 5.cbz", "auto", ""), "Episode");
}

#[test]
fn prefix_explicit_modes_override_filename_content() {
    // Even though the filename says "Vol", explicit mode wins.
    assert_eq!(get_prefix("My Series Vol 5.cbz", "chapter", ""), "Chapter");
    assert_eq!(get_prefix("My Series.cbz", "episode", ""), "Episode");
    assert_eq!(get_prefix("My Series.cbz", "volume", ""), "Volume");
}

#[test]
fn prefix_custom_mode_uses_given_text() {
    assert_eq!(get_prefix("My Series.cbz", "custom", "Break"), "Break");
}

#[test]
fn prefix_custom_mode_falls_back_to_episode_if_blank() {
    assert_eq!(get_prefix("My Series.cbz", "custom", ""), "Episode");
}

// ── find_volume (boundary conditions) ────────────────────────────────────
#[test]
fn find_volume_matches_within_range() {
    let rules = vec![
        vec!["1".into(), "3.5".into(), "1".into()],
        vec!["4".into(), "8.5".into(), "2".into()],
    ];
    assert_eq!(find_volume("1", &rules), Some("1".to_string()));
    assert_eq!(find_volume("3.5", &rules), Some("1".to_string())); // upper bound inclusive
    assert_eq!(find_volume("4", &rules), Some("2".to_string()));   // lower bound inclusive
    assert_eq!(find_volume("8.5", &rules), Some("2".to_string()));
}

#[test]
fn find_volume_no_match_outside_all_ranges() {
    let rules = vec![vec!["1".into(), "3.5".into(), "1".into()]];
    assert_eq!(find_volume("3.6", &rules), None);
    assert_eq!(find_volume("100", &rules), None);
}

#[test]
fn find_volume_handles_decimal_chapter_inside_range() {
    let rules = vec![vec!["1".into(), "3.5".into(), "1".into()]];
    assert_eq!(find_volume("2.5", &rules), Some("1".to_string()));
}

#[test]
fn find_volume_invalid_number_returns_none() {
    let rules = vec![vec!["1".into(), "3.5".into(), "1".into()]];
    assert_eq!(find_volume("not_a_number", &rules), None);
}

#[test]
fn find_volume_malformed_rule_row_is_skipped() {
    // A row with fewer than 3 columns must not panic -- just skip it.
    let rules = vec![vec!["1".into(), "2".into()]];
    assert_eq!(find_volume("1", &rules), None);
}

// ── find_date ─────────────────────────────────────────────────────────────
#[test]
fn find_date_matches_within_range() {
    let rules = vec![vec!["1".into(), "1".into(), "2020".into(), "6".into(), "16".into()]];
    assert_eq!(find_date("1", &rules), Some((2020, 6, 16)));
}

#[test]
fn find_date_no_match_returns_none() {
    let rules = vec![vec!["1".into(), "1".into(), "2020".into(), "6".into(), "16".into()]];
    assert_eq!(find_date("2", &rules), None);
}

// ── find_summary ──────────────────────────────────────────────────────────
#[test]
fn find_summary_matches_within_range() {
    let rules = vec![vec!["1".into(), "3".into(), "Test summary".into()]];
    assert_eq!(find_summary("2", &rules), Some("Test summary".to_string()));
}

#[test]
fn find_summary_no_match_returns_none() {
    let rules = vec![vec!["1".into(), "3".into(), "Test summary".into()]];
    assert_eq!(find_summary("4", &rules), None);
}

// ── natural_sort_key ──────────────────────────────────────────────────────
#[test]
fn natural_sort_orders_numbers_not_lexicographically() {
    // Plain string sort would put "10" before "2"; natural sort must not.
    let mut files = vec!["Episode 10.cbz", "Episode 2.cbz", "Episode 1.cbz"];
    files.sort_by(|a, b| natural_sort_key(a).cmp(&natural_sort_key(b)));
    assert_eq!(files, vec!["Episode 1.cbz", "Episode 2.cbz", "Episode 10.cbz"]);
}

#[test]
fn natural_sort_places_decimal_chapter_between_integers() {
    let mut files = vec!["Episode 3.cbz", "Episode 2.5.cbz", "Episode 2.cbz"];
    files.sort_by(|a, b| natural_sort_key(a).cmp(&natural_sort_key(b)));
    assert_eq!(files, vec!["Episode 2.cbz", "Episode 2.5.cbz", "Episode 3.cbz"]);
}

#[test]
fn natural_sort_handles_zero_padded_numbers_equivalently() {
    // "Episode 02" and "Episode 2" should compare as the same number.
    let mut files = vec!["Episode 02.cbz", "Episode 1.cbz"];
    files.sort_by(|a, b| natural_sort_key(a).cmp(&natural_sort_key(b)));
    assert_eq!(files, vec!["Episode 1.cbz", "Episode 02.cbz"]);
}

// ── sanitize_filename ─────────────────────────────────────────────────────
#[test]
fn sanitize_strips_filesystem_unsafe_characters() {
    let result = sanitize_filename(r#"Title: "Quoted" / Slashed * Star?"#);
    assert!(!result.contains(['/', '*', '?']));
}

#[test]
fn sanitize_converts_angle_brackets_to_parens() {
    let result = sanitize_filename("Title <bracketed>");
    assert_eq!(result, "Title (bracketed)");
}

#[test]
fn sanitize_collapses_repeated_spaces() {
    let result = sanitize_filename("Too    many     spaces");
    assert!(!result.contains("  "));
}

#[test]
fn sanitize_trims_trailing_dot_and_whitespace() {
    let result = sanitize_filename("Trailing dot.   ");
    assert!(!result.ends_with('.'));
    assert!(!result.ends_with(' '));
}

// ── is_sep_invalid_for_filename ────────────────────────────────────────────
#[test]
fn separator_validity() {
    assert!(is_sep_invalid_for_filename(":"));
    assert!(is_sep_invalid_for_filename("/"));
    assert!(!is_sep_invalid_for_filename("-"));
    assert!(!is_sep_invalid_for_filename("~"));
}

// ── ComicInfo schema registry ─────────────────────────────────────────────
#[test]
fn canonical_order_known_tags_come_before_unknown() {
    assert!(canonical_index("Series") < canonical_index("Writer"));
    assert_eq!(canonical_index("NotARealTag"), usize::MAX);
}

#[test]
fn field_spec_lookup_finds_known_tags() {
    assert!(field_spec("Series").is_some());
    assert!(field_spec("CommunityRating").is_some());
    assert!(field_spec("NotARealTag").is_none());
}

#[test]
fn every_canonical_order_entry_except_per_file_fields_has_a_spec() {
    // Title/Number/Volume/Summary are deliberately excluded from
    // the registry of fields (computed per-file or handled separately) --
    // every other canonical tag must have a real FieldSpec, or the
    // Add Tag picker can never offer it.
    let excluded = ["Title", "Number", "Volume", "Summary"];
    for tag in canonical_tags() {
        if excluded.contains(&tag) { continue; }
        assert!(field_spec(tag).is_some(), "tag '{tag}' is in CANONICAL_ORDER but missing from COMICINFO_FIELDS");
    }
}

#[test]
fn every_comicinfo_field_has_a_canonical_position() {
    for spec in comicinfo_fields() {
        assert_ne!(
            canonical_index(spec.tag), usize::MAX,
            "tag '{}' is in COMICINFO_FIELDS but missing from CANONICAL_ORDER", spec.tag
        );
    }
}

// ── build_comic_info_xml ──────────────────────────────────────────────────
#[test]
fn xml_builder_escapes_special_characters() {
    let mut data = TagMap::new();
    data.insert("Series".to_string(), "Tom & Jerry's \"Big\" Day <2>".to_string());
    let xml = build_comic_info_xml(&data, &default_tag_order());
    assert!(xml.contains("&amp;"));
    assert!(xml.contains("&apos;"));
    assert!(xml.contains("&quot;"));
    assert!(xml.contains("&lt;2&gt;"));
    assert!(!xml.contains("Tom & Jerry")); // raw & must not survive unescaped
}

#[test]
fn xml_builder_omits_empty_volume_tag() {
    let mut data = TagMap::new();
    data.insert("Title".to_string(), "Episode 1".to_string());
    data.insert("Volume".to_string(), "".to_string());
    let xml = build_comic_info_xml(&data, &default_tag_order());
    assert!(!xml.contains("<Volume>"));
}

#[test]
fn xml_builder_sorts_into_canonical_order_regardless_of_insertion_order() {
    // Insert Writer before Series -- output must still have Series first,
    // matching the schema sequence, not insertion order.
    let mut data = TagMap::new();
    data.insert("Writer".to_string(), "A".to_string());
    data.insert("Series".to_string(), "B".to_string());
    let xml = build_comic_info_xml(&data, &default_tag_order());
    let series_pos = xml.find("<Series>").unwrap();
    let writer_pos  = xml.find("<Writer>").unwrap();
    assert!(series_pos < writer_pos);
}

#[test]
fn xml_builder_only_emits_tags_actually_present() {
    let mut data = TagMap::new();
    data.insert("Series".to_string(), "Only This".to_string());
    let xml = build_comic_info_xml(&data, &default_tag_order());
    assert!(xml.contains("<Series>"));
    assert!(!xml.contains("<Writer>"));
    assert!(!xml.contains("<Genre>"));
}

#[test]
fn xml_builder_respects_a_custom_tag_order() {
    // Same two tags as the canonical-order test above, but with a custom
    // order that deliberately reverses their usual relationship -- proves
    // the Tag Order feature actually reaches the XML output, not just the
    // UI's own display sort.
    let mut data = TagMap::new();
    data.insert("Writer".to_string(), "A".to_string());
    data.insert("Series".to_string(), "B".to_string());
    let custom_order = vec!["Writer".to_string(), "Series".to_string()];
    let xml = build_comic_info_xml(&data, &custom_order);
    let series_pos = xml.find("<Series>").unwrap();
    let writer_pos  = xml.find("<Writer>").unwrap();
    assert!(writer_pos < series_pos);
}

#[test]
fn xml_builder_falls_back_to_canonical_order_for_tags_missing_from_a_custom_order() {
    // A custom order saved before a field existed in the registry (or
    // simply never touched) shouldn't crash or silently tie every
    // unlisted tag together -- unlisted tags keep their relative
    // canonical ordering, appended after everything explicitly ordered.
    let mut data = TagMap::new();
    data.insert("Series".to_string(), "A".to_string());
    data.insert("Writer".to_string(), "B".to_string());
    data.insert("Genre".to_string(), "C".to_string());
    let custom_order = vec!["Genre".to_string()]; // Series/Writer not listed
    let xml = build_comic_info_xml(&data, &custom_order);
    let genre_pos  = xml.find("<Genre>").unwrap();
    let series_pos = xml.find("<Series>").unwrap();
    let writer_pos = xml.find("<Writer>").unwrap();
    assert!(genre_pos < series_pos, "explicitly-ordered tag should sort first");
    assert!(series_pos < writer_pos, "unlisted tags keep canonical relative order");
}
