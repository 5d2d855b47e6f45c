//! What the user chooses: answers, paths, keys and windows.

use crate::session::{ComicInfoApp, Dialog, PathPick, PendingStart, Tab};
use crate::state::{AppConfig, Line, LogEntry, LogLevel};
use crate::text::{contains, contains_text};
use vstd::prelude::*;

verus! {

/// What is to be done with the files of an earlier run.
#[derive(Clone, Copy, Debug, PartialEq, Eq, Structural)]
pub enum ResumeChoice {
    /// Files that are done are left out.
    Resume,
    /// All files are worked on.
    Fresh,
    Cancel,
}

/// What shows how the application is doing.
#[derive(Clone, Copy, Debug, PartialEq, Eq, Structural)]
pub enum Mood {
    Busy,
    Failed,
    Idle,
}

/// What is to be done with a path that was chosen.
#[derive(Clone, Copy, Debug, PartialEq, Eq, Structural)]
pub enum PickStep {
    Done,
    /// The preview is to be made anew.
    Preview,
    LoadConfig,
    SaveConfig,
    ImportMeta,
    OpenFile,
    OpenFolder,
}

/// A key that does something.
#[derive(Clone, Copy, Debug, PartialEq, Eq, Structural)]
pub enum Shortcut {
    Save,
    Open,
    Import,
    Reset,
    Undo,
    Redo,
}

/// What a key does.
#[derive(Clone, Copy, Debug, PartialEq, Eq, Structural)]
pub enum ShortcutAction {
    Nothing,
    /// The tags of the selected file are saved.
    SaveTags,
    Undo,
    Redo,
    SaveConfig,
    LoadConfig,
    ImportMeta,
    AskReset,
}

impl ComicInfoApp {
    /// Goes on as the user chose after an earlier run was found. The run starts with the next frame. Tells
    /// whether the log of what was done is to be emptied: to start afresh, unless it is a dry run.
    pub fn answer_resume(
        &mut self,
        choice: ResumeChoice,
        cbz_files: Vec<String>,
        processed_set: Vec<String>,
    ) -> (r: bool)
        ensures
            r == (choice is Fresh && !old(self).cfg.dry_run),
            match choice {
                ResumeChoice::Resume => {
                    &&& final(self).pending_start == Some(
                        PendingStart { cbz_files, processed_set, resume: true },
                    )
                    &&& final(self).log.deep_view() == old(self).log.deep_view()
                },
                ResumeChoice::Fresh => {
                    &&& final(self).pending_start matches Some(p) && p.cbz_files == cbz_files
                        && p.processed_set@.len() == 0 && !p.resume
                    &&& final(self).log.deep_view() == old(self).log.deep_view().push(
                        ("[Fresh start]"@, LogLevel::Dim),
                    )
                },
                ResumeChoice::Cancel => {
                    &&& final(self).pending_start == old(self).pending_start
                    &&& final(self).log.deep_view() == old(self).log.deep_view()
                },
            },
            *final(self) == (ComicInfoApp {
                pending_start: final(self).pending_start,
                log: final(self).log,
                dialog: None,
                ..*old(self)
            }),
    {
        self.dialog = None;
        match choice {
            ResumeChoice::Resume => {
                self.pending_start = Some(
                    PendingStart { cbz_files, processed_set, resume: true },
                );
                false
            },
            ResumeChoice::Fresh => {
                let ghost before = self.log.deep_view();
                self.log.push(
                    LogEntry { text: String::from_str("[Fresh start]"), level: LogLevel::Dim },
                );
                assert(self.log.deep_view() =~= before.push(("[Fresh start]"@, LogLevel::Dim)));
                self.pending_start = Some(
                    PendingStart { cbz_files, processed_set: Vec::new(), resume: false },
                );
                !self.cfg.dry_run
            },
            ResumeChoice::Cancel => false,
        }
    }

    /// Shows the page with the metadata, where fields are empty.
    pub fn go_to_metadata(&mut self)
        ensures
            *final(self) == (ComicInfoApp { tab: Tab::Metadata, dialog: None, ..*old(self) }),
    {
        self.tab = Tab::Metadata;
        self.dialog = None;
    }

    /// Asks whether the log is to be cleared, where it holds anything.
    pub fn ask_clear_log(&mut self)
        ensures
            *final(self) == if old(self).log@.len() > 0 || old(self).file_slots@.len() > 0 || old(
                self,
            ).log_footer@.len() > 0 {
                ComicInfoApp { dialog: Some(Dialog::ConfirmClearLog), ..*old(self) }
            } else {
                *old(self)
            },
    {
        if self.log.len() > 0 || self.file_slots.len() > 0 || self.log_footer.len() > 0 {
            self.dialog = Some(Dialog::ConfirmClearLog);
        }
    }

    /// Clears the log.
    pub fn clear_log(&mut self)
        ensures
            crate::session::shown_log(*final(self)) == Seq::<Line>::empty(),
            final(self).log@.len() == 0,
            final(self).file_slots@.len() == 0,
            final(self).log_footer@.len() == 0,
            *final(self) == (ComicInfoApp {
                log: final(self).log,
                file_slots: final(self).file_slots,
                log_footer: final(self).log_footer,
                dialog: None,
                ..*old(self)
            }),
    {
        self.log = Vec::new();
        self.file_slots = Vec::new();
        self.log_footer = Vec::new();
        self.dialog = None;
        assert(crate::session::shown_log(*self) =~= Seq::<Line>::empty());
    }

    /// Notes that the run is to stop.
    pub fn note_stopping(&mut self)
        ensures
            final(self).status@ == "Stopping after current file..."@,
            *final(self) == (ComicInfoApp { status: final(self).status, ..*old(self) }),
    {
        self.status = String::from_str("Stopping after current file...");
    }

    /// How the application is doing.
    pub fn mood(&self) -> (r: Mood)
        ensures
            r == if self.running {
                Mood::Busy
            } else if contains_text(self.status@, "error"@) || contains_text(
                self.status@,
                "Error"@,
            ) {
                Mood::Failed
            } else {
                Mood::Idle
            },
    {
        if self.running {
            Mood::Busy
        } else if contains(self.status.as_str(), "error") || contains(
            self.status.as_str(),
            "Error",
        ) {
            Mood::Failed
        } else {
            Mood::Idle
        }
    }

    /// Takes over a path that was chosen, and tells what else is to be done with it.
    pub fn path_picked(&mut self, pick: &PathPick, path: String) -> (r: PickStep)
        ensures
            match *pick {
                PathPick::Folder => {
                    &&& r == PickStep::Preview
                    &&& *final(self) == (ComicInfoApp {
                        cfg: AppConfig { folder: path, ..old(self).cfg },
                        ..*old(self)
                    })
                },
                PathPick::TitlesJson => {
                    &&& r == PickStep::Done
                    &&& *final(self) == (ComicInfoApp {
                        cfg: AppConfig { titles_json: path, ..old(self).cfg },
                        ..*old(self)
                    })
                },
                PathPick::DateJson => {
                    &&& r == PickStep::Done
                    &&& *final(self) == (ComicInfoApp {
                        cfg: AppConfig { date_json: path, ..old(self).cfg },
                        ..*old(self)
                    })
                },
                PathPick::OutputPath => {
                    &&& r == PickStep::Done
                    &&& *final(self) == (ComicInfoApp {
                        cfg: AppConfig { output_path: path, ..old(self).cfg },
                        ..*old(self)
                    })
                },
                PathPick::LoadConfig => r == PickStep::LoadConfig && *final(self) == *old(self),
                PathPick::SaveConfig(_) => r == PickStep::SaveConfig && *final(self) == *old(self),
                PathPick::ImportMeta => r == PickStep::ImportMeta && *final(self) == *old(self),
                PathPick::SfmFile => r == PickStep::OpenFile && *final(self) == *old(self),
                PathPick::SfmFolder => r == PickStep::OpenFolder && *final(self) == *old(self),
            },
    {
        match pick {
            PathPick::Folder => {
                self.cfg.folder = path;
                PickStep::Preview
            },
            PathPick::TitlesJson => {
                self.cfg.titles_json = path;
                PickStep::Done
            },
            PathPick::DateJson => {
                self.cfg.date_json = path;
                PickStep::Done
            },
            PathPick::OutputPath => {
                self.cfg.output_path = path;
                PickStep::Done
            },
            PathPick::LoadConfig => PickStep::LoadConfig,
            PathPick::SaveConfig(_) => PickStep::SaveConfig,
            PathPick::ImportMeta => PickStep::ImportMeta,
            PathPick::SfmFile => PickStep::OpenFile,
            PathPick::SfmFolder => PickStep::OpenFolder,
        }
    }

    /// What a key does. While single archives are edited, keys are about the tags alone.
    pub fn handle_shortcuts(&self, key: Shortcut) -> (r: ShortcutAction)
        ensures
            r == if self.settings.single_file_mode {
                match key {
                    Shortcut::Save => if crate::sfm::is_dirty(self.sfm@) {
                        ShortcutAction::SaveTags
                    } else {
                        ShortcutAction::Nothing
                    },
                    Shortcut::Undo => ShortcutAction::Undo,
                    Shortcut::Redo => ShortcutAction::Redo,
                    _ => ShortcutAction::Nothing,
                }
            } else {
                match key {
                    Shortcut::Save => ShortcutAction::SaveConfig,
                    Shortcut::Open => ShortcutAction::LoadConfig,
                    Shortcut::Import => ShortcutAction::ImportMeta,
                    Shortcut::Reset => ShortcutAction::AskReset,
                    _ => ShortcutAction::Nothing,
                }
            },
    {
        if self.settings.single_file_mode {
            match key {
                Shortcut::Save => if self.sfm.dirty() {
                    ShortcutAction::SaveTags
                } else {
                    ShortcutAction::Nothing
                },
                Shortcut::Undo => ShortcutAction::Undo,
                Shortcut::Redo => ShortcutAction::Redo,
                _ => ShortcutAction::Nothing,
            }
        } else {
            match key {
                Shortcut::Save => ShortcutAction::SaveConfig,
                Shortcut::Open => ShortcutAction::LoadConfig,
                Shortcut::Import => ShortcutAction::ImportMeta,
                Shortcut::Reset => ShortcutAction::AskReset,
                _ => ShortcutAction::Nothing,
            }
        }
    }
}

/// How the title of the final chapter is made.
pub fn finale_mode(as_final: bool) -> (r: &'static str)
    ensures
        r@ == if as_final {
            "final"@
        } else {
            "normal"@
        },
{
    if as_final {
        "final"
    } else {
        "normal"
    }
}

// ── Windows that fade ───────────────────────────────────────────────────────────────────────────
/// How long a window takes to fade in or out, in milliseconds.
pub const WINDOW_FADE_MILLIS: u64 = 150;

/// How long after it was closed a window cannot be opened again, in milliseconds.
pub const REOPEN_MILLIS: u64 = 50;

/// The time between two moments, in milliseconds.
pub open spec fn since(then: u64, now: u64) -> u64 {
    if now >= then {
        (now - then) as u64
    } else {
        0
    }
}

fn elapsed(then: u64, now: u64) -> (r: u64)
    ensures
        r == since(then, now),
{
    if now >= then {
        now - then
    } else {
        0
    }
}

/// How a window is shown.
#[derive(Clone, Copy, Debug, PartialEq, Eq, Structural)]
pub enum WindowView {
    Hidden,
    /// For so many milliseconds it has been open.
    Open(u64),
    /// For so many milliseconds it has been closing. It takes no input.
    Closing(u64),
}

/// A dialog that fades in and out.
#[derive(Clone, Copy, Debug, PartialEq, Eq, Structural)]
pub struct DialogFade {
    pub was_open: bool,
    pub closing: bool,
    pub opened_at: u64,
    pub closed_at: u64,
}

impl DialogFade {
    /// Nothing is shown.
    pub fn new() -> (r: DialogFade)
        ensures
            r == (DialogFade { was_open: false, closing: false, opened_at: 0, closed_at: 0 }),
    {
        DialogFade { was_open: false, closing: false, opened_at: 0, closed_at: 0 }
    }

    /// How the dialog is after a frame, given whether one is open.
    pub open spec fn after_frame(self, open: bool, now: u64) -> DialogFade {
        if open {
            DialogFade {
                was_open: true,
                closing: false,
                opened_at: if self.was_open {
                    self.opened_at
                } else {
                    now
                },
                ..self
            }
        } else if self.was_open {
            DialogFade { was_open: false, closing: true, closed_at: now, ..self }
        } else if self.closing && since(self.closed_at, now) >= WINDOW_FADE_MILLIS {
            DialogFade { closing: false, ..self }
        } else {
            self
        }
    }

    /// How the dialog is shown.
    pub open spec fn view_at(self, now: u64) -> WindowView {
        if self.was_open {
            WindowView::Open(since(self.opened_at, now))
        } else if self.closing {
            WindowView::Closing(since(self.closed_at, now))
        } else {
            WindowView::Hidden
        }
    }

    /// Goes on by a frame, given whether a dialog is open.
    pub fn frame(&mut self, open: bool, now: u64) -> (r: WindowView)
        ensures
            *final(self) == old(self).after_frame(open, now),
            r == final(self).view_at(now),
    {
        if open {
            if !self.was_open {
                self.opened_at = now;
            }
            self.was_open = true;
            self.closing = false;
        } else if self.was_open {
            self.was_open = false;
            self.closing = true;
            self.closed_at = now;
        } else if self.closing && elapsed(self.closed_at, now) >= WINDOW_FADE_MILLIS {
            self.closing = false;
        }
        if self.was_open {
            WindowView::Open(elapsed(self.opened_at, now))
        } else if self.closing {
            WindowView::Closing(elapsed(self.closed_at, now))
        } else {
            WindowView::Hidden
        }
    }
}

/// The window with the settings, which fades in and out.
#[derive(Clone, Copy, Debug, PartialEq, Eq, Structural)]
pub struct SettingsFade {
    pub open: bool,
    pub was_open: bool,
    pub closing: bool,
    pub opened_at: u64,
    pub closed_at: u64,
}

impl SettingsFade {
    /// The window is closed.
    pub fn new() -> (r: SettingsFade)
        ensures
            r == (SettingsFade {
                open: false,
                was_open: false,
                closing: false,
                opened_at: 0,
                closed_at: 0,
            }),
    {
        SettingsFade { open: false, was_open: false, closing: false, opened_at: 0, closed_at: 0 }
    }

    /// Opens the window, but not where it was closed just now.
    pub fn request_open(&mut self, now: u64)
        ensures
            *final(self) == if old(self).closing && since(old(self).closed_at, now) < REOPEN_MILLIS {
                *old(self)
            } else {
                SettingsFade { open: true, ..*old(self) }
            },
    {
        if !(self.closing && elapsed(self.closed_at, now) < REOPEN_MILLIS) {
            self.open = true;
        }
    }

    /// How the window is after the start of a frame.
    pub open spec fn after_frame(self, now: u64) -> SettingsFade {
        if !self.open && !self.closing {
            SettingsFade { was_open: false, ..self }
        } else {
            let opened = if self.open && !self.was_open {
                SettingsFade { was_open: true, closing: false, opened_at: now, ..self }
            } else {
                self
            };
            if opened.closing && since(opened.closed_at, now) >= WINDOW_FADE_MILLIS {
                SettingsFade { open: false, was_open: false, closing: false, ..opened }
            } else {
                opened
            }
        }
    }

    /// How the window is shown.
    pub open spec fn view_at(self, now: u64) -> WindowView {
        if self.closing {
            WindowView::Closing(since(self.closed_at, now))
        } else if self.open {
            WindowView::Open(since(self.opened_at, now))
        } else {
            WindowView::Hidden
        }
    }

    /// Goes on by a frame.
    pub fn frame(&mut self, now: u64) -> (r: WindowView)
        ensures
            *final(self) == old(self).after_frame(now),
            r == final(self).view_at(now),
    {
        if !self.open && !self.closing {
            self.was_open = false;
            return WindowView::Hidden;
        }
        if self.open && !self.was_open {
            self.opened_at = now;
            self.closing = false;
            self.was_open = true;
        }
        if self.closing && elapsed(self.closed_at, now) >= WINDOW_FADE_MILLIS {
            self.closing = false;
            self.was_open = false;
            self.open = false;
        }
        if self.closing {
            WindowView::Closing(elapsed(self.closed_at, now))
        } else if self.open {
            WindowView::Open(elapsed(self.opened_at, now))
        } else {
            WindowView::Hidden
        }
    }

    /// Starts to close the window.
    pub fn request_close(&mut self, now: u64)
        ensures
            *final(self) == if old(self).closing {
                *old(self)
            } else {
                SettingsFade { closing: true, closed_at: now, ..*old(self) }
            },
    {
        if !self.closing {
            self.closing = true;
            self.closed_at = now;
        }
    }
}

/// A dialog that is closed is shown for a while, without taking input, and is then gone. Nothing but
/// another dialog brings it back.
pub proof fn lemma_closed_dialog_goes(f: DialogFade, now: u64, later: u64)
    requires
        f.was_open,
        later >= now + WINDOW_FADE_MILLIS,
    ensures
        f.after_frame(false, now).view_at(now) == WindowView::Closing(0),
        f.after_frame(false, now).after_frame(false, later).view_at(later) == WindowView::Hidden,
{
}

/// The window with the settings goes in the same way.
pub proof fn lemma_closed_settings_go(f: SettingsFade, later: u64)
    requires
        f.closing,
        f.was_open,
        later >= f.closed_at + WINDOW_FADE_MILLIS,
    ensures
        f.after_frame(later).view_at(later) == WindowView::Hidden,
        !f.after_frame(later).open,
{
}

} // verus!
