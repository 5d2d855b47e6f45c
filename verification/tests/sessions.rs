use comicinfo_generator::actions::{
    finale_mode, DialogFade, Mood, PickStep, ResumeChoice, SettingsFade, Shortcut, ShortcutAction,
    WindowView,
};
use comicinfo_generator::session::{
    find_finale, is_cbz_extension, progress_entries, ComicInfoApp, Dialog, FinaleStep, PathPick,
    PollStep, StartStep, Tab,
};
use comicinfo_generator::state::{AppConfig, LogEntry, LogLevel, PrefixMode, RunStats};
use comicinfo_generator::tags::TagMap;
use comicinfo_generator::worker::WorkerMsg;

fn texts(list: &[&str]) -> Vec<String> {
    list.iter().map(|s| s.to_string()).collect()
}

fn notice(app: &ComicInfoApp) -> &str {
    match &app.dialog {
        Some(Dialog::Notice(text)) => text,
        other => panic!("{other:?}"),
    }
}

fn lines(entries: &[LogEntry]) -> Vec<&str> {
    entries.iter().map(|e| e.text.as_str()).collect()
}

/// A session in which no field is empty.
fn filled() -> ComicInfoApp {
    let mut app = ComicInfoApp::new();
    app.cfg.folder = "/comics".to_string();
    app.cfg.summary = "About".to_string();
    app.cfg.metadata_fields = vec![("Series".to_string(), "S".to_string())];
    app
}

#[test]
fn a_session_starts_empty() {
    let app = ComicInfoApp::new();
    assert_eq!(app.status, "Ready.");
    assert_eq!(app.tab, Tab::Paths);
    assert_eq!(app.cfg.workers, 4);
    assert!(app.log.is_empty() && app.dialog.is_none() && !app.running);
}

#[test]
fn the_last_session_is_restored() {
    let mut app = ComicInfoApp::new();
    let mut cfg = AppConfig::default();
    cfg.folder = "/x".to_string();
    app.restore_autosave(cfg.clone());
    assert_eq!((app.status.as_str(), app.cfg.folder.as_str()), ("Session restored.", "/x"));
    cfg.config_version = 0;
    app.restore_autosave(cfg);
    assert!(app.status.starts_with("Session restored (from an older app version"));
    assert_eq!(app.cfg.config_version, 1);
}

#[test]
fn configurations_are_loaded() {
    let mut app = ComicInfoApp::new();
    let mut cfg = AppConfig::default();
    app.config_loaded(cfg.clone(), "{}", "a.json");
    assert_eq!(app.status, "Loaded: a.json");
    assert_eq!(
        notice(&app),
        "Loaded 'a.json'.\n\nThe entire session was replaced with this file's settings."
    );
    cfg.config_version = 0;
    app.config_loaded(cfg.clone(), "{}", "a.json");
    assert!(notice(&app).contains("older version of this app (config v0 vs current v1)"));
    cfg.config_version = 7;
    app.config_loaded(cfg, "{}", "a.json");
    assert!(notice(&app).contains("NEWER version of this app (config v7 vs current v1)"));
    app.config_invalid("b.json");
    assert!(notice(&app).starts_with("Could not load 'b.json': "));
    app.file_unreadable("/b.json");
    assert_eq!(notice(&app), "Could not read file:\n/b.json");
    app.config_saved("c.json");
    assert_eq!(app.status, "Saved: c.json");
}

#[test]
fn imports_are_reported() {
    let mut app = ComicInfoApp::new();
    app.import_finished("m.py", vec![]);
    assert!(notice(&app).starts_with("No recognised metadata fields found"));
    app.import_finished("m.py", vec![("Series".to_string(), "S".to_string())]);
    assert_eq!(app.status, "Imported 1 field(s) from m.py");
    assert!(matches!(&app.dialog, Some(Dialog::ImportResult { items, .. }) if items.len() == 1));
    app.import_not_json();
    assert!(notice(&app).starts_with("Could not parse file as JSON."));
    app.import_config_failed("bad");
    assert!(notice(&app).ends_with("couldn't load it:\nbad"));
}

#[test]
fn a_reset_keeps_the_preferred_order() {
    let mut app = filled();
    app.settings.preferred_tag_order = Some(texts(&["Writer", "Series"]));
    app.reset_all();
    assert_eq!(app.cfg.tag_order, texts(&["Writer", "Series"]));
    assert!(app.cfg.volume_rules.is_empty() && app.cfg.date_rules.is_empty());
    assert_eq!(app.cfg.folder, "");
    assert_eq!(app.status, "Reset to defaults.");
}

#[test]
fn file_names_are_suggested() {
    let mut app = ComicInfoApp::new();
    assert_eq!(app.smart_filename(""), "metadata_gui.json");
    app.cfg.metadata_fields = vec![("Series".to_string(), "My  Series: \u{c9}".to_string())];
    assert_eq!(app.smart_filename("ignored"), "my_series_\u{e9}_gui.json");
    app.cfg.folder = "/x".to_string();
    assert_eq!(app.smart_filename("A-B c"), "a-b_c_gui.json");
}

#[test]
fn a_preview_is_made() {
    let mut app = ComicInfoApp::new();
    app.rebuild_sep_preview(&texts(&[]));
    assert_eq!(app.sep_preview, "Episode 1 - My Title");
    app.rebuild_sep_preview(&texts(&["z 1.txt", "Vol 10.CBZ", "Vol 2.cbz"]));
    assert_eq!(app.sep_preview, "Volume 2: My Title");
    app.cfg.zero_pad = true;
    app.cfg.prefix_mode = PrefixMode::Custom;
    app.rebuild_sep_preview(&texts(&["Vol 2.cbz"]));
    assert_eq!(app.sep_preview, "Break 02 - My Title");
    app.cfg.csep_on = true;
    app.cfg.csep = " ~ ".to_string();
    app.rebuild_sep_preview(&texts(&["Vol 2.5.cbz"]));
    assert_eq!(app.sep_preview, "Break 2.5 ~ My Title");
}

#[test]
fn starting_is_checked() {
    let mut app = ComicInfoApp::new();
    assert_eq!(app.on_start(true, &texts(&["a"])), StartStep::Wait);
    assert_eq!(notice(&app), "Set a valid CBZ folder in Paths & Config first.");
    let mut app = filled();
    assert_eq!(app.on_start(false, &texts(&["a"])), StartStep::Wait);
    assert_eq!(app.on_start(true, &texts(&[])), StartStep::Wait);
    assert_eq!(notice(&app), "No .cbz files found in the selected folder.");
    app.dialog = None;
    assert_eq!(app.on_start(true, &texts(&["a"])), StartStep::Go);
    assert!(app.dialog.is_none());
    app.cfg.metadata_fields.push(("LanguageISO".to_string(), " ".to_string()));
    app.cfg.metadata_fields.push(("Year".to_string(), "".to_string()));
    app.cfg.summary = "".to_string();
    assert_eq!(app.empty_metadata_fields(), texts(&["Language ISO", "Summary"]));
    assert_eq!(app.on_start(true, &texts(&["a"])), StartStep::Wait);
    assert!(matches!(&app.dialog, Some(Dialog::EmptyFieldsWarning { fields, .. }) if fields.len() == 2));
    app.go_to_metadata();
    assert_eq!(app.tab, Tab::Metadata);
    app.cfg.use_vol_date = false;
    assert_eq!(app.empty_metadata_fields(), texts(&["Language ISO", "Year", "Summary"]));
    app.running = true;
    assert_eq!(app.on_start(true, &texts(&["a"])), StartStep::Wait);
    assert!(app.dialog.is_none());
}

#[test]
fn an_interrupted_run_is_found() {
    assert_eq!(progress_entries("a\n\n b \na\r\n"), texts(&["a", "b"]));
    let mut app = filled();
    assert_eq!(app.ask_resume(&texts(&["x"]), None), StartStep::Go);
    assert_eq!(app.ask_resume(&texts(&["x"]), Some(" \n")), StartStep::Go);
    assert_eq!(app.ask_resume(&texts(&["x"]), Some("a\nb\n")), StartStep::Wait);
    assert!(matches!(&app.dialog, Some(Dialog::ResumeSession { count: 2, .. })));
    assert!(!app.answer_resume(ResumeChoice::Resume, texts(&["x"]), texts(&["a", "b"])));
    let pending = app.pending_start.take().unwrap();
    assert!(pending.resume && pending.processed_set == texts(&["a", "b"]));
    assert!(app.answer_resume(ResumeChoice::Fresh, texts(&["x"]), texts(&["a"])));
    let pending = app.pending_start.take().unwrap();
    assert!(!pending.resume && pending.processed_set.is_empty());
    assert_eq!(lines(&app.log), ["[Fresh start]"]);
    assert!(!app.answer_resume(ResumeChoice::Cancel, texts(&["x"]), texts(&["a"])));
    assert!(app.pending_start.is_none() && app.dialog.is_none());
    // A dry run leaves the log of what was done alone.
    app.cfg.dry_run = true;
    assert!(!app.answer_resume(ResumeChoice::Fresh, texts(&["x"]), texts(&["a"])));
    assert!(app.pending_start.is_some());
}

#[test]
fn the_final_chapter_is_the_largest_whole_number() {
    let names = texts(&["ch 9.cbz", "ch 10.cbz", "ch 10.5.cbz", "x 10.cbz", "cover.cbz"]);
    assert_eq!(find_finale(&names), Some((3, "10".to_string())));
    assert_eq!(find_finale(&texts(&["ch 1.5.cbz", "ch 0.5.cbz"])), Some((0, "1.5".to_string())));
    assert_eq!(find_finale(&texts(&["cover.cbz"])), None);
    let mut app = filled();
    let mut titles = TagMap::new();
    match app.check_finale(names.clone(), &names, vec![], false, &titles) {
        FinaleStep::Start { finale_index, finale_number, .. } => {
            assert_eq!(finale_index, Some(3));
            assert_eq!(finale_number, Some("10".to_string()));
        }
        other => panic!("{other:?}"),
    }
    titles.insert("10".to_string(), "End".to_string());
    assert!(matches!(app.check_finale(names.clone(), &names, vec![], true, &titles), FinaleStep::Asked));
    assert!(matches!(&app.dialog, Some(Dialog::FinalChapter { finale_idx: 3, resume: true, .. })));
    assert_eq!((finale_mode(true), finale_mode(false)), ("final", "normal"));
}

#[test]
fn a_run_is_followed() {
    let mut app = filled();
    app.cfg.dry_run = true;
    app.begin_run(2);
    assert!(app.running);
    assert_eq!(app.tab, Tab::Run);
    assert_eq!(app.progress, (0, 2));
    assert_eq!(lines(&app.log), ["  [DRY RUN] -- no files will be modified"]);
    let batch = |idx: usize, text: &str| WorkerMsg::LogBatch {
        idx,
        lines: vec![(text.to_string(), LogLevel::Dim)],
    };
    assert_eq!(app.handle_message(batch(1, "second"), "t"), PollStep::Next { repaint: true });
    app.handle_message(batch(0, "first"), "t");
    app.handle_message(batch(9, "lost"), "t");
    app.handle_message(WorkerMsg::Progress { done: 1, total: 2 }, "t");
    assert_eq!(app.progress, (1, 2));
    assert_eq!(lines(app.file_slots[0].as_ref().unwrap()), ["first"]);
    assert_eq!(app.log.last().unwrap().text, "lost");
    let ask = WorkerMsg::DecimalRequest { filename: "f".to_string(), raw_title: "r".to_string() };
    assert_eq!(app.handle_message(ask, "t"), PollStep::Pause);
    assert!(matches!(&app.dialog, Some(Dialog::Decimal(d)) if d.choice == 1));
    let mut stats = RunStats::default();
    stats.processed = 2;
    stats.renamed = 1;
    assert_eq!(
        app.handle_message(WorkerMsg::Done { stats }, "12:00:00"),
        PollStep::Finished { sound: true }
    );
    assert_eq!(app.status, "Done.");
    assert_eq!(
        app.log_footer[1].text,
        "  [DONE] 12:00:00  -  2 processed  -  1 renamed  -  0 errors"
    );
    assert_eq!(app.disp_stats.renamed, 1);
    // The next run keeps what was shown.
    app.archive_previous_run_log();
    assert!(app.file_slots.is_empty() && app.log_footer.is_empty());
    assert_eq!(lines(&app.log)[2..4], ["first", "second"]);
    stats.errors = 3;
    app.handle_message(WorkerMsg::Done { stats }, "t");
    assert_eq!(app.status, "Done  -  3 error(s).");
    assert_eq!(app.log_footer[1].text, "  [DONE] t  -  3 errors");
    assert_eq!(app.mood(), Mood::Failed);
}

#[test]
fn an_interrupted_run_ends_with_a_line() {
    let mut app = filled();
    app.begin_run(1);
    app.run_disconnected();
    assert!(!app.running);
    app.archive_previous_run_log();
    assert_eq!(lines(&app.log), ["-".repeat(60)]);
    app.ask_clear_log();
    assert!(matches!(app.dialog, Some(Dialog::ConfirmClearLog)));
    app.clear_log();
    assert!(app.log.is_empty() && app.dialog.is_none());
    app.ask_clear_log();
    assert!(app.dialog.is_none());
}

#[test]
fn paths_are_taken_over() {
    let mut app = ComicInfoApp::new();
    assert_eq!(app.path_picked(&PathPick::Folder, "/a".to_string()), PickStep::Preview);
    assert_eq!(app.path_picked(&PathPick::TitlesJson, "/t".to_string()), PickStep::Done);
    assert_eq!(app.path_picked(&PathPick::DateJson, "/d".to_string()), PickStep::Done);
    assert_eq!(app.path_picked(&PathPick::OutputPath, "/o".to_string()), PickStep::Done);
    assert_eq!(
        (app.cfg.folder.as_str(), app.cfg.titles_json.as_str(), app.cfg.date_json.as_str(), app.cfg.output_path.as_str()),
        ("/a", "/t", "/d", "/o")
    );
    assert_eq!(app.path_picked(&PathPick::LoadConfig, "/x".to_string()), PickStep::LoadConfig);
    assert_eq!(
        app.path_picked(&PathPick::SaveConfig("n".to_string()), "/x".to_string()),
        PickStep::SaveConfig
    );
    assert_eq!(app.path_picked(&PathPick::ImportMeta, "/x".to_string()), PickStep::ImportMeta);
    assert_eq!(app.path_picked(&PathPick::SfmFile, "/x".to_string()), PickStep::OpenFile);
    assert_eq!(app.path_picked(&PathPick::SfmFolder, "/x".to_string()), PickStep::OpenFolder);
    assert!(is_cbz_extension("CBZ") && !is_cbz_extension("zip"));
}

#[test]
fn keys_depend_on_the_mode() {
    let mut app = ComicInfoApp::new();
    assert_eq!(app.handle_shortcuts(Shortcut::Save), ShortcutAction::SaveConfig);
    assert_eq!(app.handle_shortcuts(Shortcut::Open), ShortcutAction::LoadConfig);
    assert_eq!(app.handle_shortcuts(Shortcut::Import), ShortcutAction::ImportMeta);
    assert_eq!(app.handle_shortcuts(Shortcut::Reset), ShortcutAction::AskReset);
    assert_eq!(app.handle_shortcuts(Shortcut::Undo), ShortcutAction::Nothing);
    app.settings.single_file_mode = true;
    assert_eq!(app.handle_shortcuts(Shortcut::Save), ShortcutAction::Nothing);
    assert_eq!(app.handle_shortcuts(Shortcut::Undo), ShortcutAction::Undo);
    assert_eq!(app.handle_shortcuts(Shortcut::Redo), ShortcutAction::Redo);
    assert_eq!(app.handle_shortcuts(Shortcut::Reset), ShortcutAction::Nothing);
}

#[test]
fn the_status_shows_how_things_are() {
    let mut app = ComicInfoApp::new();
    assert_eq!(app.mood(), Mood::Idle);
    app.status = "Error".to_string();
    assert_eq!(app.mood(), Mood::Failed);
    app.running = true;
    assert_eq!(app.mood(), Mood::Busy);
    app.note_stopping();
    assert_eq!(app.status, "Stopping after current file...");
}

#[test]
fn dialogs_fade_in_and_out() {
    let mut fade = DialogFade::new();
    assert_eq!(fade.frame(false, 1), WindowView::Hidden);
    assert_eq!(fade.frame(true, 10), WindowView::Open(0));
    assert_eq!(fade.frame(true, 60), WindowView::Open(50));
    assert_eq!(fade.frame(false, 100), WindowView::Closing(0));
    assert_eq!(fade.frame(false, 249), WindowView::Closing(149));
    assert_eq!(fade.frame(false, 250), WindowView::Hidden);
}

#[test]
fn the_settings_fade_in_and_out() {
    let mut fade = SettingsFade::new();
    assert_eq!(fade.frame(0), WindowView::Hidden);
    fade.request_open(5);
    assert_eq!(fade.frame(10), WindowView::Open(0));
    fade.request_close(20);
    assert_eq!(fade.frame(30), WindowView::Closing(10));
    fade.request_close(40);
    assert_eq!(fade.frame(169), WindowView::Closing(149));
    assert_eq!(fade.frame(170), WindowView::Hidden);
    assert!(!fade.open);
    // A click that closes the window does not open it again.
    fade.request_open(200);
    fade.frame(200);
    fade.request_close(300);
    fade.open = false;
    fade.request_open(340);
    assert!(!fade.open);
    fade.request_open(350);
    assert!(fade.open);
}

#[test]
fn a_saved_configuration_comes_back() {
    let mut app = ComicInfoApp::new();
    let mut saved = AppConfig::default();
    saved.folder = "/comics".to_string();
    saved.summary = "About".to_string();
    saved.metadata_fields = vec![("Series".to_string(), "S".to_string())];
    let data = "{\"config_version\": 1, \"folder\": \"/comics\", \"ch_json\": \"\", \"vol_json\": \"\", \
        \"titles_json\": \"\", \"date_json\": \"\", \"output_path\": \"\", \"mode\": \"manga\", \
        \"prefix_mode\": \"auto\", \"custom_pfx\": \"\", \"post_finale\": \"strip\", \"csep\": \"\", \
        \"summary\": \"About\", \"metadata_fields\": [[\"Series\", \"S\"]]}";
    app.config_loaded(saved.clone(), data, "a.json");
    assert_eq!(format!("{:?}", app.cfg), format!("{saved:?}"));
    // An older name is taken over.
    app.config_loaded(saved, "{\"series\": \"Old\"}", "a.json");
    assert_eq!(app.cfg.metadata_fields, vec![("Series".to_string(), "Old".to_string())]);
}
