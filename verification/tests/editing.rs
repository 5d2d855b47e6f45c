use comicinfo_generator::reader::read_comic_info;
use comicinfo_generator::session::{ComicInfoApp, Dialog};
use comicinfo_generator::sfm::{
    copy_tags, ends_word, foreign_notice, SfmFileEntry, SfmNavTarget, SfmPanelState, SfmStep,
    SfmTagRow, SfmThen, UnsavedChoice,
};
use comicinfo_generator::xml::ComicInfoReadResult;

fn entry(name: &str) -> SfmFileEntry {
    SfmFileEntry {
        path: format!("/comics/{name}"),
        name: name.to_string(),
        is_cbz: name.ends_with(".cbz"),
    }
}

fn pairs(list: &[(&str, &str)]) -> Vec<(String, String)> {
    list.iter().map(|p| (p.0.to_string(), p.1.to_string())).collect()
}

fn found(list: &[(&str, &str)]) -> Result<ComicInfoReadResult, String> {
    Ok(ComicInfoReadResult::Found(pairs(list)))
}

fn shown(app: &ComicInfoApp) -> Vec<(String, String)> {
    app.sfm.tags.iter().map(|r| (r.tag.clone(), r.value.clone())).collect()
}

fn path_to_read(step: &SfmStep) -> &str {
    match step {
        SfmStep::Read { path, .. } => path,
        other => panic!("{other:?}"),
    }
}

/// Answers a request to read a file.
fn load(app: &mut ComicInfoApp, step: SfmStep, tags: &[(&str, &str)]) -> SfmStep {
    match step {
        SfmStep::Read { then, .. } => app.sfm_loaded(found(tags), then),
        other => panic!("{other:?}"),
    }
}

/// A session with two archives, of which the first one is open.
fn opened() -> ComicInfoApp {
    let mut app = ComicInfoApp::new();
    app.settings.single_file_mode = true;
    let files = vec![entry("ch 10.cbz"), entry("notes.txt"), entry("ch 2.cbz")];
    let step = app.sfm_open_path("/comics".to_string(), true, &files, None);
    assert_eq!(path_to_read(&step), "/comics/ch 2.cbz");
    load(&mut app, step, &[("Title", "Two"), ("Mood", "Dark")]);
    app
}

/// Changes the value of the first tag as if it was typed.
fn type_title(app: &mut ComicInfoApp, value: &str, ended: bool) {
    let before = copy_tags(&app.sfm.tags);
    app.sfm.tags[0].value = value.to_string();
    app.sfm_edited(before, None, ended);
}

#[test]
fn files_are_listed_in_order_and_the_first_archive_is_opened() {
    let app = opened();
    let names: Vec<&str> = app.sfm.files.iter().map(|f| f.name.as_str()).collect();
    assert_eq!(names, ["ch 2.cbz", "ch 10.cbz", "notes.txt"]);
    assert_eq!(app.sfm.selected, Some(0));
    assert!(matches!(app.sfm.panel, SfmPanelState::Editing));
    assert_eq!(shown(&app), pairs(&[("Title", "Two"), ("Mood", "Dark")]));
    assert_eq!(app.sfm.foreign_tags_notice, Some(vec!["Mood".to_string()]));
    assert_eq!(
        foreign_notice(app.sfm.foreign_tags_notice.as_ref().unwrap()),
        "This file has 1 tag not recognized by this app: Mood. They're shown below and will be kept \
         if you save."
    );
    assert_eq!(app.settings.sfm_last_selected.as_deref(), Some("/comics/ch 2.cbz"));
    assert!(!app.sfm.dirty());
    assert_eq!(app.sfm.open_name(), "ch 2.cbz");
}

#[test]
fn what_was_open_last_is_opened_again() {
    let mut app = ComicInfoApp::new();
    assert!(matches!(app.sfm_restore_last_session(), SfmStep::Done));
    app.settings.sfm_last_root = Some("/comics".to_string());
    app.settings.sfm_last_is_folder = true;
    app.settings.sfm_last_selected = Some("/comics/ch 10.cbz".to_string());
    assert!(matches!(
        app.sfm_restore_last_session(),
        SfmStep::Look { root, is_folder: true, wanted }
            if root == "/comics" && wanted.as_deref() == Some("/comics/ch 10.cbz")
    ));
    let wanted = app.settings.sfm_last_selected.clone();
    let files = vec![entry("ch 2.cbz"), entry("ch 10.cbz")];
    let step = app.sfm_open_path("/comics".to_string(), true, &files, wanted);
    assert_eq!(path_to_read(&step), "/comics/ch 10.cbz");
    assert_eq!(app.sfm.selected, Some(1));
    // A file that is gone leaves the first one selected.
    let gone = Some("/comics/ch 3.cbz".to_string());
    let step = app.sfm_open_path("/comics".to_string(), true, &files, gone);
    assert_eq!(path_to_read(&step), "/comics/ch 2.cbz");
    app.sfm_last_session_lost();
    assert!(matches!(&app.dialog, Some(Dialog::Notice(text))
        if text == "The Single File Mode item you had open last time is no longer there:\n/comics"));
    assert!(app.settings.sfm_last_root.is_none() && app.settings.sfm_last_selected.is_none());
}

#[test]
fn a_folder_without_archives_shows_nothing() {
    let mut app = ComicInfoApp::new();
    let step = app.sfm_open_path("/x".to_string(), true, &vec![entry("a.txt")], None);
    assert!(matches!(step, SfmStep::Done));
    assert_eq!(app.sfm.selected, None);
    assert!(matches!(app.sfm.panel, SfmPanelState::Empty));
    let step = app.sfm_request_select(0);
    assert!(matches!(step, SfmStep::Done));
    assert!(matches!(app.sfm.panel, SfmPanelState::Empty));
}

#[test]
fn files_without_metadata_or_that_cannot_be_read() {
    let mut app = opened();
    match app.sfm_request_select(1) {
        SfmStep::Read { then, .. } => {
            app.sfm_loaded(Ok(ComicInfoReadResult::Missing), then);
        }
        other => panic!("{other:?}"),
    }
    assert!(matches!(app.sfm.panel, SfmPanelState::NoComicInfo));
    app.sfm_create_default("ch 10", "comics");
    assert_eq!(shown(&app), pairs(&[("Title", "ch 10"), ("Series", "comics")]));
    assert!(app.sfm.dirty());
    app.sfm_loaded(Err("broken".to_string()), SfmThen::Stay);
    assert!(matches!(&app.sfm.panel, SfmPanelState::LoadError(text) if text == "broken"));
}

#[test]
fn tags_are_saved_and_read_again() {
    let mut app = opened();
    type_title(&mut app, "T & T", true);
    assert!(app.sfm.dirty());
    let (xml, then) = match app.sfm_save_current() {
        SfmStep::Write { path, xml, then } => {
            assert_eq!(path, "/comics/ch 2.cbz");
            (xml, then)
        }
        other => panic!("{other:?}"),
    };
    let read = read_comic_info(&xml).unwrap();
    assert_eq!(read, pairs(&[("Title", "T & T"), ("Mood", "Dark")]));
    let step = app.sfm_written(None, then);
    assert_eq!(app.status, "Saved ComicInfo.xml in ch 2.cbz");
    match step {
        SfmStep::Read { then, .. } => {
            app.sfm_loaded(Ok(ComicInfoReadResult::Found(read)), then);
        }
        other => panic!("{other:?}"),
    }
    assert!(!app.sfm.dirty());
    assert_eq!(shown(&app), pairs(&[("Title", "T & T"), ("Mood", "Dark")]));
}

#[test]
fn a_failed_save_keeps_the_edits() {
    let mut app = opened();
    type_title(&mut app, "New", true);
    if let SfmStep::Write { then, .. } = app.sfm_save_current() {
        assert!(matches!(app.sfm_written(Some("full".to_string()), then), SfmStep::Done));
    }
    assert!(matches!(&app.dialog, Some(Dialog::Notice(t)) if t == "Couldn't save ch 2.cbz: full"));
    assert!(app.sfm.dirty());
}

#[test]
fn unsaved_changes_are_asked_about() {
    let mut app = opened();
    type_title(&mut app, "New", false);
    assert!(matches!(app.sfm_request_select(1), SfmStep::Done));
    assert!(matches!(app.dialog, Some(Dialog::SfmUnsavedChanges)));
    assert_eq!(app.sfm.pending_nav, Some(SfmNavTarget::File(1)));
    assert_eq!(app.sfm.selected, Some(0));
    app.sfm_answer_unsaved(UnsavedChoice::Cancel);
    assert!(app.dialog.is_none() && app.sfm.dirty());
    assert_eq!(app.sfm.pending_nav, Some(SfmNavTarget::File(1)));
    let step = app.sfm_answer_unsaved(UnsavedChoice::Discard);
    assert_eq!(path_to_read(&step), "/comics/ch 10.cbz");
    load(&mut app, step, &[("Title", "Ten")]);
    assert_eq!(app.sfm.selected, Some(1));
    assert!(app.sfm.pending_undo_word.is_none() && app.sfm.pending_nav.is_none());
    // To save writes first, and goes on then.
    type_title(&mut app, "Eleven", true);
    app.sfm_request_select(0);
    let step = app.sfm_answer_unsaved(UnsavedChoice::Save);
    let then = match step {
        SfmStep::Write { then, .. } => then,
        other => panic!("{other:?}"),
    };
    let step = app.sfm_written(None, then);
    let step = load(&mut app, step, &[("Title", "Eleven")]);
    assert_eq!(path_to_read(&step), "/comics/ch 2.cbz");
}

#[test]
fn changes_are_saved_without_asking_where_that_is_chosen() {
    let mut app = opened();
    app.settings.sfm_autosave_on_focus_change = true;
    type_title(&mut app, "New", true);
    let then = match app.sfm_request_select(1) {
        SfmStep::Write { then, .. } => then,
        other => panic!("{other:?}"),
    };
    let step = app.sfm_written(None, then);
    let step = load(&mut app, step, &[("Title", "New"), ("Mood", "Dark")]);
    load(&mut app, step, &[("Title", "Ten")]);
    assert_eq!(app.sfm.selected, Some(1));
    type_title(&mut app, "X", true);
    let then = match app.sfm_set_mode(false) {
        SfmStep::Write { then, .. } => then,
        other => panic!("{other:?}"),
    };
    let step = app.sfm_written(None, then);
    load(&mut app, step, &[("Title", "X")]);
    assert!(!app.settings.single_file_mode);
}

#[test]
fn the_mode_is_left_and_entered() {
    let mut app = opened();
    type_title(&mut app, "New", true);
    app.sfm_set_mode(false);
    assert!(app.settings.single_file_mode);
    assert_eq!(app.sfm.pending_nav, Some(SfmNavTarget::ExitMode));
    app.sfm_answer_unsaved(UnsavedChoice::Discard);
    assert!(!app.settings.single_file_mode && !app.sfm.dirty());
    assert_eq!(app.sfm.selected, Some(0));
    assert!(matches!(app.sfm_set_mode(true), SfmStep::Done));
    assert!(app.settings.single_file_mode);
    let mut fresh = ComicInfoApp::new();
    fresh.settings.sfm_last_root = Some("/x".to_string());
    assert!(matches!(fresh.sfm_set_mode(true), SfmStep::Look { .. }));
}

#[test]
fn changes_are_undone_and_redone() {
    let mut app = opened();
    type_title(&mut app, "A", false);
    assert!(app.sfm.pending_undo_word.is_some());
    type_title(&mut app, "A ", true);
    assert_eq!(app.sfm_undo_stack.len(), 1);
    type_title(&mut app, "A B", true);
    assert_eq!(app.sfm_undo_cursor, 2);
    assert!(matches!(app.sfm_undo(), SfmStep::Done));
    assert_eq!(app.sfm.tags[0].value, "A ");
    app.sfm_undo();
    assert_eq!(app.sfm.tags[0].value, "Two");
    assert!(!app.sfm.dirty());
    app.sfm_undo();
    assert_eq!(app.sfm_undo_cursor, 0);
    app.sfm_redo();
    app.sfm_redo();
    app.sfm_redo();
    assert_eq!(app.sfm.tags[0].value, "A B");
    // A new change ends what could be redone.
    app.sfm_undo();
    type_title(&mut app, "C", true);
    assert_eq!((app.sfm_undo_stack.len(), app.sfm_undo_cursor), (2, 2));
    app.sfm_redo();
    assert_eq!(app.sfm.tags[0].value, "C");
}

#[test]
fn removing_moving_and_adding_rows_are_changes() {
    let mut app = opened();
    let before = copy_tags(&app.sfm.tags);
    app.sfm.tags.swap(0, 1);
    app.sfm_edited(before, None, false);
    assert_eq!(app.sfm_undo_stack.len(), 1);
    let before = copy_tags(&app.sfm.tags);
    app.sfm_edited(copy_tags(&before), None, false);
    assert_eq!(app.sfm_undo_stack.len(), 1);
    let id = app.sfm.tags[0].id;
    app.sfm_edited(before, Some(id), false);
    assert_eq!(shown(&app), pairs(&[("Title", "Two")]));
    let before = copy_tags(&app.sfm.tags);
    app.sfm_add_tag("Writer", before);
    assert_eq!(shown(&app), pairs(&[("Title", "Two"), ("Writer", "")]));
    app.sfm_undo();
    app.sfm_undo();
    app.sfm_undo();
    assert_eq!(shown(&app), pairs(&[("Title", "Two"), ("Mood", "Dark")]));
}

#[test]
fn undoing_goes_to_the_file_of_the_change() {
    let mut app = opened();
    type_title(&mut app, "New", true);
    if let SfmStep::Write { then, .. } = app.sfm_save_current() {
        let step = app.sfm_written(None, then);
        load(&mut app, step, &[("Title", "New"), ("Mood", "Dark")]);
    }
    let step = app.sfm_request_select(1);
    load(&mut app, step, &[("Title", "Ten")]);
    let step = app.sfm_undo();
    assert_eq!(path_to_read(&step), "/comics/ch 2.cbz");
    load(&mut app, step, &[("Title", "New"), ("Mood", "Dark")]);
    assert_eq!(shown(&app), pairs(&[("Title", "Two"), ("Mood", "Dark")]));
    // In another folder the file is not there.
    let files = vec![entry("other.cbz")];
    app.sfm_open_path("/other".to_string(), true, &files, None);
    assert!(matches!(app.sfm_redo(), SfmStep::Done));
    assert!(matches!(&app.dialog, Some(Dialog::Notice(t)) if t.starts_with("Can't jump to that change")));
}

#[test]
fn tags_that_are_not_there_can_be_added() {
    let app = opened();
    let addable = app.sfm.addable_tags();
    assert!(addable.contains(&"Volume".to_string()) && !addable.contains(&"Title".to_string()));
    let mut sorted = addable.clone();
    sorted.sort();
    assert_eq!(addable, sorted);
}

#[test]
fn words_end_with_blanks() {
    assert!(ends_word("a ", false) && !ends_word("a", false) && ends_word("a", true));
    assert!(!ends_word("", false) && ends_word("a\u{3000}", false));
}

#[test]
fn rows_have_numbers_of_their_own() {
    let app = opened();
    assert_eq!(app.sfm.tags[0], SfmTagRow { tag: "Title".to_string(), value: "Two".to_string(), id: 0 });
    assert_eq!(app.sfm.tags[1].id, 1);
    assert_eq!(app.sfm.next_row_id, 2);
}
