use comicinfo_generator::forms::{
    commit_decimal, decimal_bounds, field_places, flatten, keep_decimal, keep_digits,
    list_addable_fields, padded, rule_columns, tag_in_use, toggle_row, unquote, RuleCheck,
};
use comicinfo_generator::rules::find_volume;
use comicinfo_generator::session::{ComicInfoApp, DecimalState, Dialog, RuleEditState, RuleTarget};
use comicinfo_generator::state::ComicMode;

fn row(cells: &[&str]) -> Vec<String> {
    cells.iter().map(|s| s.to_string()).collect()
}

fn edited(app: &ComicInfoApp) -> RuleEditState {
    match &app.dialog {
        Some(Dialog::EditRule(s)) => s.clone(),
        other => panic!("{other:?}"),
    }
}

#[test]
fn rules_are_added() {
    let mut app = ComicInfoApp::new();
    app.add_rule(RuleTarget::Volume);
    let mut s = edited(&app);
    assert_eq!(s.labels, row(&["Ch Start", "Ch End", "Volume"]));
    assert_eq!(s.values, row(&["", "", ""]));
    assert!(s.is_new);
    assert_eq!(app.save_rule(s.clone()), RuleCheck::NoRange);
    assert_eq!(
        edited(&app).check_message(RuleCheck::NoRange).as_deref(),
        Some("Ch Start and Ch End are required and must be numbers.")
    );
    s.values = row(&["13", "20", "4"]);
    assert_eq!(app.save_rule(s.clone()), RuleCheck::Overlap);
    assert!(s.check_message(RuleCheck::Overlap).unwrap().starts_with("This Ch Start/Ch End range overlaps"));
    s.values = row(&["14", "20", " 3"]);
    assert_eq!(app.save_rule(s.clone()), RuleCheck::VolumeTaken);
    assert!(s.check_message(RuleCheck::VolumeTaken).unwrap().contains("already used"));
    s.values = row(&["14", "20", "4"]);
    assert_eq!(app.save_rule(s.clone()), RuleCheck::Fine);
    assert_eq!(s.check_message(RuleCheck::Fine), None);
    assert_eq!(app.cfg.volume_rules[3], row(&["14", "20", "4"]));
    assert!(app.dialog.is_none());
}

#[test]
fn rules_are_changed_and_removed() {
    let mut app = ComicInfoApp::new();
    app.edit_rule(RuleTarget::Date);
    assert!(app.dialog.is_none());
    app.choose_rule(RuleTarget::Date, 1);
    assert_eq!(app.selected_rule(RuleTarget::Date), Some(1));
    app.edit_rule(RuleTarget::Date);
    let mut s = edited(&app);
    assert!(s.same_start_end && !s.is_new);
    assert_eq!(s.row_idx, Some(1));
    // The row itself does not count as another rule.
    s.values[0] = "4".to_string();
    s.mirror_end();
    assert_eq!(s.values[1], "4");
    assert_eq!(app.save_rule(s), RuleCheck::Fine);
    assert_eq!(app.cfg.date_rules[1], row(&["4", "4", "2021", "1", "19"]));
    app.remove_rule(RuleTarget::Date);
    assert_eq!(app.cfg.date_rules.len(), 2);
    assert_eq!(app.date_sel, None);
    app.remove_rule(RuleTarget::Date);
    assert!(matches!(app.dialog, Some(Dialog::ConfirmClearAllRules(RuleTarget::Date))));
    app.clear_rules(RuleTarget::Date);
    assert!(app.cfg.date_rules.is_empty() && app.dialog.is_none());
    app.remove_rule(RuleTarget::Date);
    assert!(app.dialog.is_none());
    app.choose_rule(RuleTarget::Volume, 0);
    app.choose_rule(RuleTarget::Volume, 0);
    assert_eq!(app.vol_sel, None);
}

#[test]
fn a_single_volume_needs_one_number() {
    let mut app = ComicInfoApp::new();
    app.add_rule(RuleTarget::Summary);
    let mut s = edited(&app);
    s.same_start_end = true;
    assert_eq!(app.check_rule(&s), RuleCheck::NoRange);
    assert_eq!(
        s.check_message(RuleCheck::NoRange).as_deref(),
        Some("Vol No. is required and must be a number.")
    );
    s.values[0] = " 7 ".to_string();
    assert_eq!(app.check_rule(&s), RuleCheck::Fine);
}

#[test]
fn rows_are_filled_up() {
    assert_eq!(padded(&row(&["1"]), 3), row(&["1", "", ""]));
    assert_eq!(padded(&row(&["1", "2"]), 1), row(&["1", "2"]));
    assert_eq!(rule_columns(RuleTarget::Date).len(), 5);
    assert_eq!(rule_columns(RuleTarget::Summary)[2], "Summary");
    assert_eq!(toggle_row(None, 1), Some(1));
    assert_eq!(toggle_row(Some(1), 1), None);
    assert_eq!(toggle_row(Some(1), 2), Some(2));
}

#[test]
fn labels_are_put_before_titles() {
    let label = |choice: u8, custom: &str| {
        DecimalState {
            filename: "f".to_string(),
            raw_title: "T".to_string(),
            choice,
            custom: custom.to_string(),
        }
        .result()
    };
    assert_eq!(label(1, "x"), "T");
    assert_eq!(label(2, ""), "Bonus Manga: T");
    assert_eq!(label(3, ""), "Bonus Chapter: T");
    assert_eq!(label(4, ""), "Extra Chapter: T");
    assert_eq!(label(5, " Part:: "), "Part: T");
    assert_eq!(label(5, " : "), "T");
    assert_eq!(label(9, "x"), "T");
}

#[test]
fn numbers_are_kept_within_their_fields() {
    assert_eq!(keep_digits("a1b2\u{663}c345", 3), "123");
    assert_eq!(keep_digits("", 3), "");
    assert_eq!(keep_decimal("1.2.3a"), "1.23");
    assert_eq!(keep_decimal("..5"), ".5");
    assert_eq!(commit_decimal("7", 0, 5), "5.0");
    assert_eq!(commit_decimal("4.25", 0, 5), "4.2");
    assert_eq!(commit_decimal("4.35", 0, 5), format!("{:.1}", 4.35f64));
    assert_eq!(commit_decimal("-3", 0, 5), "0.0");
    assert_eq!(commit_decimal("x", 0, 5), "");
    assert_eq!(commit_decimal(" ", 0, 5), " ");
    assert_eq!(commit_decimal("", 0, 5), "");
    assert_eq!(commit_decimal("nan", 0, 5), "NaN");
    assert_eq!(decimal_bounds("CommunityRating", true, 0, 5), (0, 10));
    assert_eq!(decimal_bounds("CommunityRating", false, 0, 5), (0, 5));
    assert_eq!(decimal_bounds("Other", true, 1, 2), (1, 2));
}

#[test]
fn texts_are_shown_on_one_line() {
    for s in ["a\n\n b\t c ", "\n", "\na", "a\u{3000}\nb"] {
        assert_eq!(flatten(s), s.split_whitespace().collect::<Vec<_>>().join(" "), "{s:?}");
    }
    assert_eq!(flatten("a  b"), "a  b");
    assert_eq!(unquote("\"/a b\""), "/a b");
    assert_eq!(unquote("\"\""), "\"\"");
    assert_eq!(unquote("\"a"), "\"a");
}

#[test]
fn fields_are_added_and_removed() {
    let mut app = ComicInfoApp::new();
    let before = list_addable_fields(&app.cfg);
    assert!(before.iter().all(|f| f.tag != "Series"));
    let labels: Vec<&str> = before.iter().map(|f| f.label).collect();
    let mut sorted = labels.clone();
    sorted.sort();
    assert_eq!(labels, sorted);
    app.add_metadata_tag("Imprint");
    assert_eq!(app.cfg.metadata_fields.last().unwrap().0, "Imprint");
    assert_eq!(list_addable_fields(&app.cfg).len(), before.len() - 1);
    assert!(tag_in_use(&app.cfg, "Imprint") && tag_in_use(&app.cfg, "Title"));
    assert!(!tag_in_use(&app.cfg, "Editor"));
    app.choose_field("Imprint");
    app.remove_field();
    assert!(!tag_in_use(&app.cfg, "Imprint"));
    assert_eq!(app.meta_field_sel, None);
    app.choose_field("Series");
    app.choose_field("Series");
    let count = app.cfg.metadata_fields.len();
    app.remove_field();
    assert_eq!(app.cfg.metadata_fields.len(), count);
}

#[test]
fn fields_are_shown_in_the_order_of_tags() {
    let mut app = ComicInfoApp::new();
    app.cfg.metadata_fields = vec![
        ("Writer".to_string(), String::new()),
        ("Zebra".to_string(), String::new()),
        ("Series".to_string(), String::new()),
    ];
    assert_eq!(field_places(&app.cfg), vec![2, 0, 1]);
    app.cfg.tag_order = row(&["Zebra", "Writer"]);
    assert_eq!(field_places(&app.cfg), vec![1, 0, 2]);
    app.prefer_tag_order();
    assert_eq!(app.settings.preferred_tag_order, Some(row(&["Zebra", "Writer"])));
    assert_eq!(app.status, "Tag order saved as default.");
    app.reset_tag_order();
    assert_eq!(app.cfg.tag_order[0], "Title");
    app.apply_preferred_order();
    assert_eq!(app.cfg.tag_order, row(&["Zebra", "Writer"]));
}

#[test]
fn the_kind_of_comic_sets_the_use_of_volumes() {
    let mut app = ComicInfoApp::new();
    app.cfg.use_vol = false;
    app.set_comic_mode(ComicMode::Manga);
    assert!(!app.cfg.use_vol);
    app.set_comic_mode(ComicMode::Manhwa);
    assert!(!app.cfg.use_vol && !app.cfg.use_vol_date && !app.cfg.use_vol_summ);
    app.set_comic_mode(ComicMode::Manga);
    assert!(app.cfg.use_vol && app.cfg.use_vol_date && app.cfg.use_vol_summ);
}

#[test]
fn a_saved_rule_takes_effect() {
    let mut app = ComicInfoApp::new();
    app.add_rule(RuleTarget::Volume);
    let mut s = edited(&app);
    s.values = row(&["14", "20.5", "4"]);
    assert_eq!(app.save_rule(s), RuleCheck::Fine);
    for (chapter, volume) in [("14", "4"), ("20.5", "4"), ("13.5", "3"), ("1", "1")] {
        assert_eq!(find_volume(chapter, &app.cfg.volume_rules), Some(volume.to_string()));
    }
    assert_eq!(find_volume("21", &app.cfg.volume_rules), None);
}
