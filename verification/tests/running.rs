use comicinfo_generator::job::{
    advance_file, begin_file, FileJob, FileMove, FileReply, FileStage, FileTask,
};
use comicinfo_generator::session::ComicInfoApp;
use comicinfo_generator::state::{LogLevel, RunStats};
use comicinfo_generator::tags::TagMap;
use comicinfo_generator::worker::{
    build_xml_title, bump_done, count_begun, count_ended, describe_file, error_log_header,
    error_log_line, file_index, flush_batch, is_resumed, logq, new_file_name,
    output_place, partition_files, reports_first, show_number, start_lines, write_mode, Outcome, OutputPlace,
    WorkerConfig, WorkerMsg, WriteMode,
};

fn texts(list: &[&str]) -> Vec<String> {
    list.iter().map(|s| s.to_string()).collect()
}

fn titles(pairs: &[(&str, &str)]) -> TagMap {
    let mut map = TagMap::new();
    for (k, v) in pairs {
        map.insert(k.to_string(), v.to_string());
    }
    map
}

/// A run over files with the given titles and dates, written in place without copies.
fn config(names: &[(&str, &str)], dates: &[(&str, &str)]) -> WorkerConfig {
    let app = ComicInfoApp::new();
    let mut cfg = app.make_worker_cfg(
        &titles(names),
        titles(dates),
        vec![],
        false,
        None,
        None,
        "normal".to_string(),
        "progress".to_string(),
        "errors".to_string(),
    );
    cfg.backup_before_overwrite = false;
    cfg.summary = "About".to_string();
    cfg
}

fn job(file: &str) -> FileJob {
    let stem = file.strip_suffix(".cbz").unwrap_or(file);
    FileJob {
        name: describe_file(file, stem),
        index: 0,
        total: 2,
        auto_pad: None,
        invalid_sep: false,
        can_ask: true,
    }
}

fn xml_of(m: &FileMove) -> String {
    match &m.task {
        FileTask::Overwrite { xml } => xml.clone(),
        FileTask::WriteNew { xml, .. } => xml.clone(),
        other => panic!("{other:?}"),
    }
}

fn end_of(m: FileMove) -> (Vec<(String, LogLevel)>, Outcome, bool) {
    match m.task {
        FileTask::End { report, outcome, mark } => (report, outcome, mark),
        other => panic!("{other:?}"),
    }
}

#[test]
fn a_file_is_written_and_renamed() {
    let cfg = config(&[("5", "The End")], &[]);
    let job = job("My Series 5.cbz");
    let first = begin_file(&cfg, &job);
    let xml = xml_of(&first);
    assert!(xml.contains("<Title>Episode 5 - The End</Title>"));
    assert!(xml.contains("<Number>5</Number>"));
    assert!(xml.contains("<Volume>2</Volume>"));
    assert!(xml.contains("<Year>2021</Year>"));
    assert!(xml.contains("<Summary>About</Summary>"));
    let second = advance_file(&cfg, &job, first.stage, FileReply::Written(None));
    assert!(matches!(&second.task, FileTask::Look { new_name } if new_name == "Episode 5 - The End.cbz"));
    let third =
        advance_file(&cfg, &job, second.stage, FileReply::Found { differs: true, exists: false });
    assert!(matches!(third.task, FileTask::Rename { .. }));
    let (report, outcome, mark) =
        end_of(advance_file(&cfg, &job, third.stage, FileReply::Renamed(None)));
    assert_eq!(outcome, Outcome::Written { renamed: true, skipped: false });
    assert!(mark);
    assert_eq!(
        report,
        vec![
            ("  [OK] [1/2]  My Series 5.cbz".to_string(), LogLevel::Success),
            ("           ->  Episode 5 - The End.cbz".to_string(), LogLevel::Renamed),
        ]
    );
}

#[test]
fn a_name_that_is_taken_is_left_alone() {
    let cfg = config(&[("5", "The End")], &[]);
    let job = job("My Series 5.cbz");
    let first = begin_file(&cfg, &job);
    let second = advance_file(&cfg, &job, first.stage, FileReply::Written(None));
    let found = FileReply::Found { differs: true, exists: true };
    let (_, outcome, mark) = end_of(advance_file(&cfg, &job, second.stage, found));
    assert_eq!(outcome, Outcome::Written { renamed: false, skipped: true });
    assert!(!reports_first(outcome) && !reports_first(Outcome::Previewed));
    assert!(reports_first(Outcome::Failed) && reports_first(Outcome::NoNumber));
    assert!(mark);
}

#[test]
fn a_file_that_cannot_be_renamed_is_still_done() {
    let cfg = config(&[("5", "The End")], &[]);
    let job = job("My Series 5.cbz");
    let first = begin_file(&cfg, &job);
    let second = advance_file(&cfg, &job, first.stage, FileReply::Written(None));
    let third =
        advance_file(&cfg, &job, second.stage, FileReply::Found { differs: true, exists: false });
    let last = advance_file(&cfg, &job, third.stage, FileReply::Renamed(Some("locked".to_string())));
    let message = "  [WARN] My Series 5.cbz  -  rename failed: locked";
    assert_eq!(last.complaint.as_deref(), Some(message));
    let (report, outcome, mark) = end_of(last);
    assert_eq!(outcome, Outcome::Written { renamed: false, skipped: false });
    assert_eq!(report.last(), Some(&(message.to_string(), LogLevel::Warn)));
    assert!(mark);
}

#[test]
fn errors_end_the_work_on_a_file() {
    let mut cfg = config(&[], &[]);
    let job = job("My Series 5.cbz");
    let first = begin_file(&cfg, &job);
    let failed = advance_file(&cfg, &job, first.stage, FileReply::Written(Some("full".to_string())));
    assert_eq!(failed.complaint.as_deref(), Some("  [ERR] My Series 5.cbz  -  full"));
    let (report, outcome, mark) = end_of(failed);
    assert_eq!(outcome, Outcome::Failed);
    assert_eq!(report[0], ("  [ERR] My Series 5.cbz  -  full".to_string(), LogLevel::Failure));
    assert!(!mark);

    // Without a copy nothing is overwritten.
    cfg.backup_before_overwrite = true;
    let first = begin_file(&cfg, &job);
    assert!(matches!(first.task, FileTask::Copy));
    let failed = advance_file(&cfg, &job, first.stage, FileReply::Copied(Some("full".to_string())));
    assert_eq!(
        failed.complaint.as_deref(),
        Some("  [ERR] My Series 5.cbz  -  backup failed, skipped: full")
    );
    assert_eq!(end_of(failed).1, Outcome::Failed);
    let first = begin_file(&cfg, &job);
    let second = advance_file(&cfg, &job, first.stage, FileReply::Copied(None));
    assert!(matches!(second.task, FileTask::Overwrite { .. }));
}

#[test]
fn a_dry_run_only_reports() {
    let mut cfg = config(&[("5", "The End")], &[]);
    cfg.dry_run = true;
    let job = job("My Series 5.cbz");
    let (report, outcome, mark) = end_of(begin_file(&cfg, &job));
    assert_eq!(outcome, Outcome::Previewed);
    assert!(!mark);
    assert_eq!(
        report,
        vec![
            (
                "  [DRY] [1/2]  My Series 5.cbz  ->  Episode 5 - The End.cbz".to_string(),
                LogLevel::Warn
            ),
            ("           XML title: Episode 5 - The End".to_string(), LogLevel::Dim),
        ]
    );
    // A title is missing, and nothing is noted of it.
    let quiet = begin_file(&cfg, &self::job("My Series 6.cbz"));
    assert!(quiet.complaint.is_none());
    cfg.write_new_cbz = true;
    let first = begin_file(&cfg, &job);
    assert!(first.complaint.is_none());
    assert!(matches!(first.task, FileTask::Show { .. }));
    let (report, outcome, _) =
        end_of(advance_file(&cfg, &job, first.stage, FileReply::Shown("/out/x.cbz".to_string())));
    assert_eq!(outcome, Outcome::Previewed);
    assert_eq!(report[0].0, "  [DRY] [1/2]  My Series 5.cbz  ->  /out/x.cbz");
}

#[test]
fn a_new_archive_leaves_the_source_alone() {
    let mut cfg = config(&[], &[]);
    cfg.write_new_cbz = true;
    let job = job("My Series 5.cbz");
    let first = begin_file(&cfg, &job);
    assert!(matches!(&first.task, FileTask::WriteNew { new_name, .. } if new_name == "My Series 5.cbz"));
    let (_, outcome, mark) = end_of(advance_file(&cfg, &job, first.stage, FileReply::Written(None)));
    assert_eq!(outcome, Outcome::Written { renamed: false, skipped: false });
    assert!(mark);

    // In a folder that was chosen it could be the source itself.
    cfg.output_same_path = false;
    let first = begin_file(&cfg, &job);
    assert!(matches!(&first.task, FileTask::Look { new_name } if new_name == "My Series 5.cbz"));
    assert!(matches!(first.stage, FileStage::Comparing(_)));
    let found = FileReply::Found { differs: true, exists: true };
    let second = advance_file(&cfg, &job, first.stage, found);
    assert!(matches!(&second.task, FileTask::WriteNew { new_name, .. } if new_name == "My Series 5.cbz"));
    let first = begin_file(&cfg, &job);
    let found = FileReply::Found { differs: false, exists: true };
    let failed = advance_file(&cfg, &job, first.stage, found);
    let message = "  [ERR] My Series 5.cbz  -  the new archive would replace the original";
    assert_eq!(failed.complaint.as_deref(), Some(message));
    let (report, outcome, mark) = end_of(failed);
    assert_eq!(outcome, Outcome::Failed);
    assert_eq!(report[0], (message.to_string(), LogLevel::Failure));
    assert!(!mark);
}

#[test]
fn a_label_is_asked_for_where_the_number_has_a_fraction() {
    let mut cfg = config(&[("2.5", "Side")], &[]);
    let mut job = job("Chapter 2.5.cbz");
    let first = begin_file(&cfg, &job);
    assert!(matches!(&first.task, FileTask::Ask { raw_title } if raw_title == "Side"));
    let second =
        advance_file(&cfg, &job, first.stage, FileReply::Label(Some("Bonus: Side".to_string())));
    assert!(xml_of(&second).contains("<Title>Bonus: Side</Title>"));
    let first = begin_file(&cfg, &job);
    let second = advance_file(&cfg, &job, first.stage, FileReply::Label(None));
    assert!(xml_of(&second).contains("<Title>Side</Title>"));
    job.can_ask = false;
    assert!(xml_of(&begin_file(&cfg, &job)).contains("<Title>Side</Title>"));
    // A reply to something else changes nothing.
    job.can_ask = true;
    cfg.verbose = true;
    let first = begin_file(&cfg, &job);
    let wrong = advance_file(&cfg, &job, first.stage, FileReply::Copied(None));
    assert!(matches!(wrong.task, FileTask::Wait));
    assert!(matches!(wrong.stage, FileStage::Asking(_)));
}

#[test]
fn a_file_without_a_number_is_skipped() {
    let cfg = config(&[], &[]);
    let (report, outcome, mark) = end_of(begin_file(&cfg, &job("Cover.cbz")));
    assert_eq!(outcome, Outcome::NoNumber);
    assert_eq!(
        report,
        vec![("[WARN] no number found - skipping: Cover.cbz".to_string(), LogLevel::Warn)]
    );
    assert!(!mark);
}

#[test]
fn a_missing_title_is_complained_of() {
    let cfg = config(&[("1", "One"), ("5", "")], &[]);
    let first = begin_file(&cfg, &job("My Series 5.cbz"));
    assert_eq!(
        first.complaint.as_deref(),
        Some("  [WARN] My Series 5.cbz  -  empty title for \"5\" in titles JSON, using filename as-is")
    );
    let first = begin_file(&cfg, &job("My Series 6.cbz"));
    assert_eq!(
        first.complaint.as_deref(),
        Some("  [WARN] My Series 6.cbz  -  no entry for \"6\" in titles JSON, using filename as-is")
    );
    assert!(xml_of(&first).contains("<Title>My Series 6</Title>"));
}

#[test]
fn dates_come_from_rules_or_from_the_file_of_dates() {
    let mut cfg = config(&[], &[("5", "Jul 25, 2019"), ("6", "2019-07-25")]);
    cfg.use_vol_date = false;
    let xml = xml_of(&begin_file(&cfg, &job("My Series 5.cbz")));
    assert!(xml.contains("<Year>2019</Year>"));
    assert!(xml.contains("<Month>7</Month>"));
    assert!(xml.contains("<Day>25</Day>"));
    // A date in another format is passed over.
    assert!(xml_of(&begin_file(&cfg, &job("My Series 6.cbz"))).contains("<Year></Year>"));
}

#[test]
fn verbose_reports_tell_how_things_were_found() {
    let mut cfg = config(&[], &[]);
    cfg.verbose = true;
    cfg.dry_run = true;
    cfg.zero_pad = true;
    let (report, _, _) = end_of(begin_file(&cfg, &job("My Series 5.cbz")));
    let lines: Vec<&str> = report.iter().map(|l| l.0.as_str()).collect();
    assert_eq!(
        lines[2..],
        [
            "  -  My Series 5.cbz  ->  chapter",
            "       number=5 -> 05 (zero-padded)  prefix=\"Episode\" (mode=auto)",
            "       title=\"My Series 5\"  (source: fallback -- using original filename as title)",
            "       volume=2 (matched a volume rule)",
            "       date=2021-1-19  (matched a date rule)",
            "       summary=no rule matched (using default summary)",
        ]
    );
}

#[test]
fn titles_depend_on_the_final_chapter() {
    let mut cfg = config(&[("10", "Farewell")], &[]);
    cfg.finale_number = Some("10".to_string());
    let title = |cfg: &WorkerConfig, orig: &str, after: bool| {
        build_xml_title(orig, "Chapter 10", ": ", "L", "R", "chapter", false, after, true, cfg)
    };
    assert_eq!(title(&cfg, "0", false), "R");
    assert_eq!(title(&cfg, "10", false), "Chapter 10: L");
    cfg.final_ch_mode = "final".to_string();
    assert_eq!(title(&cfg, "10", false), "Final Chapter: L");
    assert_eq!(title(&cfg, "11", true), "R");
    cfg.post_finale_mode = "keep".to_string();
    assert_eq!(title(&cfg, "11", true), "Chapter 10: L");
}

#[test]
fn names_are_made_from_titles() {
    let mut cfg = config(&[], &[]);
    assert_eq!(new_file_name(&cfg, "Episode 1", "T", "S", true, false), "Episode 1 - T.cbz");
    assert_eq!(new_file_name(&cfg, "Episode 1", "T", "S", false, false), "S.cbz");
    cfg.use_csep = true;
    cfg.csep = " ~ ".to_string();
    assert_eq!(new_file_name(&cfg, "Episode 1", "T", "S", true, false), "Episode 1 ~ T.cbz");
    assert_eq!(new_file_name(&cfg, "Episode 1", "T", "S", true, true), "Episode 1 - T.cbz");
}

#[test]
fn numbers_are_padded() {
    assert_eq!(show_number("5", true, 3), "005");
    assert_eq!(show_number("5", false, 3), "5");
    assert_eq!(show_number("5.5", true, 3), "5.5");
    assert_eq!(show_number("0005", true, 2), "05");
    assert_eq!(show_number("99999999999999999999", true, 30), "99999999999999999999");
}

#[test]
fn places_and_modes_of_writing() {
    let mut cfg = config(&[], &[]);
    assert_eq!(output_place(&cfg), OutputPlace::Beside);
    assert_eq!(write_mode(&cfg), WriteMode::Overwrite);
    cfg.write_new_cbz = true;
    assert_eq!(output_place(&cfg), OutputPlace::Below);
    assert_eq!(write_mode(&cfg), WriteMode::NewFile);
    cfg.output_same_path = false;
    assert_eq!(output_place(&cfg), OutputPlace::Chosen);
    cfg.dry_run = true;
    assert_eq!(write_mode(&cfg), WriteMode::DryRun);
}

#[test]
fn counters_add_up() {
    let mut stats = RunStats::default();
    for outcome in [
        Outcome::NoNumber,
        Outcome::Previewed,
        Outcome::Failed,
        Outcome::Written { renamed: true, skipped: false },
        Outcome::Written { renamed: false, skipped: true },
    ] {
        count_begun(&mut stats);
        count_ended(&mut stats, outcome);
    }
    assert_eq!(
        stats,
        RunStats { total: 5, processed: 3, renamed: 1, rename_skipped: 1, xml_updated: 2, errors: 1 }
    );
    assert_eq!(stats.processed + stats.errors + 1, stats.total);
    let mut done = 1;
    let (progress, told) = bump_done(&mut done, 5, stats);
    assert_eq!(done, 2);
    assert!(matches!(progress, WorkerMsg::Progress { done: 2, total: 5 }));
    assert!(matches!(told, WorkerMsg::Stats { stats: s } if s == stats));
}

#[test]
fn files_are_listed_and_parted() {
    let names = texts(&["a 1.cbz", "a 1.5.cbz", "b 2.cbz", "a 1.cbz"]);
    assert_eq!(file_index(&names, "a 1.cbz"), 3);
    assert_eq!(file_index(&names, "b 2.cbz"), 2);
    assert_eq!(file_index(&names, "c"), 4);
    assert_eq!(partition_files(&names), (vec![1], vec![0, 2, 3]));
    let lines = start_lines("12:00:00", 4, 3, 1);
    assert_eq!(lines[1].0, "  [START] 12:00:00  -  4 files  (3 normal  -  1 decimal)");
    assert_eq!(lines[0].0, "-".repeat(60));
}

#[test]
fn finished_files_are_left_out_when_a_run_is_resumed() {
    let mut cfg = config(&[], &[]);
    cfg.processed_files = texts(&["a 1.cbz"]);
    assert!(!is_resumed(&cfg, "a 1.cbz"));
    cfg.resume_mode = true;
    assert!(is_resumed(&cfg, "a 1.cbz") && !is_resumed(&cfg, "a 2.cbz"));
}

#[test]
fn messages_and_log_lines() {
    assert!(matches!(logq("x".to_string(), LogLevel::Dim), WorkerMsg::Log { text, .. } if text == "x"));
    assert!(flush_batch(3, vec![]).is_none());
    let batch = flush_batch(3, vec![("x".to_string(), LogLevel::Dim)]);
    assert!(matches!(batch, Some(WorkerMsg::LogBatch { idx: 3, .. })));
    assert_eq!(error_log_header("now"), "=== Run started now ===");
    assert_eq!(error_log_line("now", "m"), "[now] m");
}
