//! The work on one file of a run, step by step.

use crate::planning::{fits, lemma_number_is_written};
use crate::state::{Line, LogLevel};
use crate::worker::{
    add_warning,
    backup_error,
    counter,
    done_lines,
    done_report,
    dry_run_report,
    error_report,
    is_planned,
    kind_line,
    line_if,
    needs_label,
    no_number_line,
    no_number_report,
    number_in,
    output_place,
    pad_width,
    plan_file,
    read_file,
    rename_error,
    rename_step,
    shown_number,
    write_error,
    write_mode,
    FileName,
    FilePlan,
    FileReading,
    Outcome,
    OutputPlace,
    RenameStep,
    WorkerConfig,
    WriteMode,
};
use crate::xml::says;
use vstd::prelude::*;

verus! {

/// A file of a run.
#[derive(Debug)]
pub struct FileJob {
    pub name: FileName,
    /// The place of the file in the sorted list.
    pub index: usize,
    /// How many files the run has.
    pub total: usize,
    /// The width of numbers that the files suggest.
    pub auto_pad: Option<usize>,
    /// Whether the custom separator cannot stand in a file name.
    pub invalid_sep: bool,
    /// Whether the user can be asked for a label.
    pub can_ask: bool,
}

/// How far the work on a file has come.
#[derive(Debug)]
pub enum FileStage {
    /// A label was asked for.
    Asking(FileReading),
    /// What would be written is being shown.
    Showing(FilePlan),
    /// The new archive is being compared with the archive itself.
    Comparing(FilePlan),
    /// The archive is being copied.
    Copying(FilePlan),
    /// The metadata is being written.
    Writing(FilePlan),
    /// The new name is being looked for.
    Looking(FilePlan),
    /// The archive is being renamed.
    Renaming(FilePlan),
    Ended,
}

/// What is to be done for a file.
#[derive(Debug)]
pub enum FileTask {
    /// The user is to be asked for a label.
    Ask { raw_title: String },
    /// The path that a new archive with this name would get is to be told.
    Show { new_name: String },
    /// The archive is to be copied.
    Copy,
    /// The metadata is to be written to a new archive with this name.
    WriteNew { new_name: String, xml: String },
    /// The metadata is to be written to the archive.
    Overwrite { xml: String },
    /// Whether the archive is another file than the one that this name stands for, and whether there is
    /// such a file, is to be told.
    Look { new_name: String },
    /// The archive is to be renamed.
    Rename { new_name: String },
    /// The work has ended. Where `mark` is set, the file is to be noted as done.
    End { report: Vec<(String, LogLevel)>, outcome: Outcome, mark: bool },
    /// The reply was not to what was asked.
    Wait,
}

/// What came of a task.
#[derive(Debug)]
pub enum FileReply {
    Label(Option<String>),
    Shown(String),
    Copied(Option<String>),
    Written(Option<String>),
    Found { differs: bool, exists: bool },
    Renamed(Option<String>),
}

/// A step of the work on a file: how far it has come, what is to be done next, and what is to be noted
/// in the log of errors.
#[derive(Debug)]
pub struct FileMove {
    pub stage: FileStage,
    pub task: FileTask,
    pub complaint: Option<String>,
}

/// Whether a task changes the archive, or any other file.
pub open spec fn writes(task: FileTask) -> bool {
    task is Copy || task is WriteNew || task is Overwrite || task is Rename
}

/// Whether a task changes the archive.
pub open spec fn changes_source(task: FileTask) -> bool {
    task is Overwrite || task is Rename
}

/// Whether this is what is reported at the end of the work on a file.
pub open spec fn is_end(task: FileTask, report: Seq<Line>, outcome: Outcome, mark: bool) -> bool {
    &&& task matches FileTask::End { report: r, outcome: o, mark: m }
    &&& r.deep_view() == report
    &&& o == outcome
    &&& m == mark
}

/// What is reported of a file that was only previewed.
pub open spec fn preview_report(job: FileJob, plan: FilePlan, dest: Seq<char>) -> Seq<Line> {
    seq![
        (
            "  [DRY] "@ + counter(job.index, job.total) + "  "@ + job.name.file@ + "  ->  "@
                + dest,
            LogLevel::Warn,
        ),
        ("           XML title: "@ + plan.xml_title@, LogLevel::Dim),
    ] + plan.lines.deep_view()
}

/// Whether a step writes a new archive.
pub open spec fn is_writing_new(plan: FilePlan, m: FileMove) -> bool {
    &&& m.stage == FileStage::Writing(plan)
    &&& m.task matches FileTask::WriteNew { new_name, xml } && new_name@ == plan.new_name@ && xml@
        == plan.xml@
}

/// Whether a new archive could take the place of the archive itself: in a folder of its own below that
/// of the archive it cannot.
pub open spec fn may_meet_source(cfg: WorkerConfig) -> bool {
    cfg.write_new_cbz && !cfg.output_same_path
}

/// Whether a step starts what is planned for a file: shows it, writes a new archive, after it was
/// compared with the archive itself where it could take its place, or writes in place, after a copy was
/// made where one is wanted.
pub open spec fn is_started(cfg: WorkerConfig, job: FileJob, plan: FilePlan, m: FileMove) -> bool {
    if cfg.dry_run {
        if cfg.write_new_cbz {
            &&& m.stage == FileStage::Showing(plan)
            &&& m.task matches FileTask::Show { new_name } && new_name@ == plan.new_name@
        } else {
            &&& m.stage == FileStage::Ended
            &&& is_end(
                m.task,
                preview_report(job, plan, plan.new_name@),
                Outcome::Previewed,
                false,
            )
        }
    } else if may_meet_source(cfg) {
        &&& m.stage == FileStage::Comparing(plan)
        &&& m.task matches FileTask::Look { new_name } && new_name@ == plan.new_name@
    } else if cfg.write_new_cbz {
        is_writing_new(plan, m)
    } else if cfg.backup_before_overwrite {
        &&& m.stage == FileStage::Copying(plan)
        &&& m.task is Copy
    } else {
        &&& m.stage == FileStage::Writing(plan)
        &&& m.task matches FileTask::Overwrite { xml } && xml@ == plan.xml@
    }
}

/// Whether this is the plan for a file with a given label.
pub open spec fn is_plan_for(
    cfg: WorkerConfig,
    job: FileJob,
    reading: FileReading,
    labelled: Seq<char>,
    plan: FilePlan,
) -> bool {
    is_planned(cfg, job.name, reading, labelled, job.index, job.invalid_sep, plan)
}

/// Whether a step starts what is planned for a file with a given label.
pub open spec fn starts_plan(
    cfg: WorkerConfig,
    job: FileJob,
    reading: FileReading,
    labelled: Seq<char>,
    m: FileMove,
) -> bool {
    exists|plan: FilePlan|
        #[trigger] is_plan_for(cfg, job, reading, labelled, plan) && is_started(cfg, job, plan, m)
}

/// Whether a label is asked for.
pub open spec fn asks_label(job: FileJob, reading: FileReading) -> bool {
    job.can_ask && reading.is_decimal && job.name.kind@ != "volume"@
}

/// Whether a step is the first one for a file that was read. In a dry run nothing is noted in the log of
/// errors.
pub open spec fn is_first_read(
    cfg: WorkerConfig,
    job: FileJob,
    reading: FileReading,
    m: FileMove,
) -> bool {
    &&& if cfg.dry_run {
        m.complaint is None
    } else {
        m.complaint.deep_view() == reading.warning.deep_view()
    }
    &&& if asks_label(job, reading) {
        &&& m.stage == FileStage::Asking(reading)
        &&& m.task matches FileTask::Ask { raw_title } && raw_title@ == reading.raw_title@
    } else {
        starts_plan(cfg, job, reading, reading.raw_title@, m)
    }
}

/// Whether a step is the first one for a file: a file without a number is left alone.
pub open spec fn is_first(cfg: WorkerConfig, job: FileJob, m: FileMove) -> bool {
    match number_in(job.name.file@) {
        None => {
            &&& m.stage == FileStage::Ended
            &&& m.complaint is None
            &&& is_end(
                m.task,
                seq![no_number_line(job.name.file@)] + line_if(
                    cfg.verbose,
                    kind_line(job.name.file@, job.name.kind@),
                ),
                Outcome::NoNumber,
                false,
            )
        },
        Some(orig) => exists|reading: FileReading|
            #[trigger] reading.is_of(cfg, job.name, job.auto_pad, orig) && is_first_read(
                cfg,
                job,
                reading,
                m,
            ),
    }
}

/// The message on a file that could not be copied.
pub open spec fn copy_complaint(job: FileJob, error: Seq<char>) -> Seq<char> {
    "  [ERR] "@ + job.name.file@ + "  -  backup failed, skipped: "@ + error
}

/// The message on a file that could not be written.
pub open spec fn write_complaint(job: FileJob, error: Seq<char>) -> Seq<char> {
    "  [ERR] "@ + job.name.file@ + "  -  "@ + error
}

/// Why a new archive is not written in place of the archive itself.
pub open spec fn meets_source() -> Seq<char> {
    "the new archive would replace the original"@
}

/// The message on a file that could not be renamed.
pub open spec fn rename_complaint(job: FileJob, error: Seq<char>) -> Seq<char> {
    "  [WARN] "@ + job.name.file@ + "  -  rename failed: "@ + error
}

/// Whether a step ends the work on a file because something failed.
pub open spec fn is_failure(plan: FilePlan, message: Seq<char>, m: FileMove) -> bool {
    &&& m.stage == FileStage::Ended
    &&& m.complaint.deep_view() == Some(message)
    &&& is_end(
        m.task,
        seq![(message, LogLevel::Failure)] + plan.lines.deep_view(),
        Outcome::Failed,
        false,
    )
}

/// Whether a step ends the work on a file that was written.
pub open spec fn is_success(
    job: FileJob,
    plan: FilePlan,
    renamed: bool,
    skipped: bool,
    m: FileMove,
) -> bool {
    &&& m.stage == FileStage::Ended
    &&& m.complaint is None
    &&& is_end(
        m.task,
        done_lines(job.name.file@, plan.new_name@, job.index, job.total) + plan.lines.deep_view(),
        Outcome::Written { renamed, skipped },
        true,
    )
}

/// Whether a step ends the work on a file that was written and could not be renamed.
pub open spec fn is_not_renamed(
    job: FileJob,
    plan: FilePlan,
    error: Seq<char>,
    m: FileMove,
) -> bool {
    let message = rename_complaint(job, error);
    &&& m.stage == FileStage::Ended
    &&& m.complaint.deep_view() == Some(message)
    &&& is_end(
        m.task,
        done_lines(job.name.file@, plan.new_name@, job.index, job.total)
            + plan.lines.deep_view().push((message, LogLevel::Warn)),
        Outcome::Written { renamed: false, skipped: false },
        true,
    )
}

/// Whether a step follows a reply.
pub open spec fn is_next(
    cfg: WorkerConfig,
    job: FileJob,
    stage: FileStage,
    reply: FileReply,
    m: FileMove,
) -> bool {
    match (stage, reply) {
        (FileStage::Asking(reading), FileReply::Label(label)) => {
            &&& m.complaint is None
            &&& starts_plan(
                cfg,
                job,
                reading,
                match label {
                    Some(text) => text@,
                    None => reading.raw_title@,
                },
                m,
            )
        },
        (FileStage::Showing(plan), FileReply::Shown(dest)) => {
            &&& m.stage == FileStage::Ended
            &&& m.complaint is None
            &&& is_end(m.task, preview_report(job, plan, dest@), Outcome::Previewed, false)
        },
        (FileStage::Comparing(plan), FileReply::Found { differs, exists }) => if differs {
            &&& m.complaint is None
            &&& is_writing_new(plan, m)
        } else {
            is_failure(plan, write_complaint(job, meets_source()), m)
        },
        (FileStage::Copying(plan), FileReply::Copied(None)) => {
            &&& m.stage == FileStage::Writing(plan)
            &&& m.complaint is None
            &&& m.task matches FileTask::Overwrite { xml } && xml@ == plan.xml@
        },
        (FileStage::Copying(plan), FileReply::Copied(Some(error))) => is_failure(
            plan,
            copy_complaint(job, error@),
            m,
        ),
        (FileStage::Writing(plan), FileReply::Written(Some(error))) => is_failure(
            plan,
            write_complaint(job, error@),
            m,
        ),
        (FileStage::Writing(plan), FileReply::Written(None)) => if cfg.write_new_cbz {
            is_success(job, plan, false, false, m)
        } else {
            &&& m.stage == FileStage::Looking(plan)
            &&& m.complaint is None
            &&& m.task matches FileTask::Look { new_name } && new_name@ == plan.new_name@
        },
        (FileStage::Looking(plan), FileReply::Found { differs, exists }) => if differs && !exists {
            &&& m.stage == FileStage::Renaming(plan)
            &&& m.complaint is None
            &&& m.task matches FileTask::Rename { new_name } && new_name@ == plan.new_name@
        } else {
            is_success(job, plan, false, differs && exists, m)
        },
        (FileStage::Renaming(plan), FileReply::Renamed(None)) => is_success(
            job,
            plan,
            true,
            false,
            m,
        ),
        (FileStage::Renaming(plan), FileReply::Renamed(Some(error))) => is_not_renamed(
            job,
            plan,
            error@,
            m,
        ),
        (stage, reply) => m.stage == stage && m.task is Wait && m.complaint is None,
    }
}

/// Writes a new archive.
fn write_new(plan: FilePlan, complaint: Option<String>) -> (r: FileMove)
    ensures
        is_writing_new(plan, r),
        r.complaint == complaint,
{
    let task = FileTask::WriteNew { new_name: plan.new_name.clone(), xml: plan.xml.clone() };
    FileMove { stage: FileStage::Writing(plan), task, complaint }
}

/// Starts what is planned for a file.
fn start_plan(
    cfg: &WorkerConfig,
    job: &FileJob,
    plan: FilePlan,
    complaint: Option<String>,
) -> (r: FileMove)
    requires
        job.index < usize::MAX,
    ensures
        is_started(*cfg, *job, plan, r),
        r.complaint == complaint,
{
    let new_name = plan.new_name.clone();
    match write_mode(cfg) {
        WriteMode::DryRun => if cfg.write_new_cbz {
            FileMove {
                stage: FileStage::Showing(plan),
                task: FileTask::Show { new_name },
                complaint,
            }
        } else {
            let report = dry_run_report(
                job.name.file.as_str(),
                new_name.as_str(),
                plan.xml_title.as_str(),
                job.index,
                job.total,
                &plan.lines,
            );
            let task = FileTask::End { report, outcome: Outcome::Previewed, mark: false };
            FileMove { stage: FileStage::Ended, task, complaint }
        },
        WriteMode::NewFile => match output_place(cfg) {
            OutputPlace::Chosen => FileMove {
                stage: FileStage::Comparing(plan),
                task: FileTask::Look { new_name },
                complaint,
            },
            _ => write_new(plan, complaint),
        },
        WriteMode::BackupThenOverwrite => FileMove {
            stage: FileStage::Copying(plan),
            task: FileTask::Copy,
            complaint,
        },
        WriteMode::Overwrite => {
            let task = FileTask::Overwrite { xml: plan.xml.clone() };
            FileMove { stage: FileStage::Writing(plan), task, complaint }
        },
    }
}

/// The first step for a file.
pub fn begin_file(cfg: &WorkerConfig, job: &FileJob) -> (r: FileMove)
    requires
        job.index < usize::MAX,
    ensures
        is_first(*cfg, *job, r),
{
    match read_file(cfg, &job.name, job.auto_pad) {
        Some(reading) => {
            let complaint: Option<String> = match &reading.warning {
                Some(text) if !cfg.dry_run => Some(text.clone()),
                _ => None,
            };
            let ghost orig = number_in(job.name.file@)->0;
            assert(reading.is_of(*cfg, job.name, job.auto_pad, orig));
            if job.can_ask && needs_label(&job.name, &reading) {
                let raw_title = reading.raw_title.clone();
                let r = FileMove {
                    stage: FileStage::Asking(reading),
                    task: FileTask::Ask { raw_title },
                    complaint,
                };
                assert(is_first_read(*cfg, *job, reading, r));
                r
            } else {
                let plan = plan_file(
                    cfg,
                    &job.name,
                    &reading,
                    reading.raw_title.as_str(),
                    job.index,
                    job.invalid_sep,
                );
                let r = start_plan(cfg, job, plan, complaint);
                assert(is_plan_for(*cfg, *job, reading, reading.raw_title@, plan));
                assert(is_first_read(*cfg, *job, reading, r));
                r
            }
        },
        None => {
            let report = no_number_report(cfg, &job.name);
            let task = FileTask::End { report, outcome: Outcome::NoNumber, mark: false };
            FileMove { stage: FileStage::Ended, task, complaint: None }
        },
    }
}

/// Ends the work on a file because something failed.
fn fail_file(plan: FilePlan, message: String) -> (r: FileMove)
    ensures
        is_failure(plan, message@, r),
{
    let report = error_report(message.as_str(), &plan.lines);
    let task = FileTask::End { report, outcome: Outcome::Failed, mark: false };
    FileMove { stage: FileStage::Ended, task, complaint: Some(message) }
}

/// Ends the work on a file that was written.
fn end_file(job: &FileJob, plan: FilePlan, renamed: bool, skipped: bool) -> (r: FileMove)
    requires
        job.index < usize::MAX,
    ensures
        is_success(*job, plan, renamed, skipped, r),
{
    let report = done_report(
        job.name.file.as_str(),
        plan.new_name.as_str(),
        job.index,
        job.total,
        &plan.lines,
    );
    let outcome = Outcome::Written { renamed, skipped };
    let task = FileTask::End { report, outcome, mark: true };
    FileMove { stage: FileStage::Ended, task, complaint: None }
}

/// Ends the work on a file that was written and could not be renamed.
fn end_without_rename(job: &FileJob, plan: FilePlan, error: &str) -> (r: FileMove)
    requires
        job.index < usize::MAX,
    ensures
        is_not_renamed(*job, plan, error@, r),
{
    let message = rename_error(job.name.file.as_str(), error);
    let mut plan = plan;
    add_warning(&mut plan.lines, message.as_str());
    let ended = end_file(job, plan, false, false);
    FileMove { stage: ended.stage, task: ended.task, complaint: Some(message) }
}

/// The step that follows a reply.
pub fn advance_file(
    cfg: &WorkerConfig,
    job: &FileJob,
    stage: FileStage,
    reply: FileReply,
) -> (r: FileMove)
    requires
        job.index < usize::MAX,
    ensures
        is_next(*cfg, *job, stage, reply, r),
{
    match (stage, reply) {
        (FileStage::Asking(reading), FileReply::Label(label)) => {
            let labelled = match label {
                Some(text) => text,
                None => reading.raw_title.clone(),
            };
            let plan = plan_file(
                cfg,
                &job.name,
                &reading,
                labelled.as_str(),
                job.index,
                job.invalid_sep,
            );
            let r = start_plan(cfg, job, plan, None);
            assert(is_plan_for(*cfg, *job, reading, labelled@, plan));
            r
        },
        (FileStage::Showing(plan), FileReply::Shown(dest)) => {
            let report = dry_run_report(
                job.name.file.as_str(),
                dest.as_str(),
                plan.xml_title.as_str(),
                job.index,
                job.total,
                &plan.lines,
            );
            let task = FileTask::End { report, outcome: Outcome::Previewed, mark: false };
            FileMove { stage: FileStage::Ended, task, complaint: None }
        },
        (FileStage::Comparing(plan), FileReply::Found { differs, .. }) => if differs {
            write_new(plan, None)
        } else {
            let why = "the new archive would replace the original";
            fail_file(plan, write_error(job.name.file.as_str(), why))
        },
        (FileStage::Copying(plan), FileReply::Copied(error)) => match error {
            None => {
                let task = FileTask::Overwrite { xml: plan.xml.clone() };
                FileMove { stage: FileStage::Writing(plan), task, complaint: None }
            },
            Some(text) => fail_file(plan, backup_error(job.name.file.as_str(), text.as_str())),
        },
        (FileStage::Writing(plan), FileReply::Written(error)) => match error {
            Some(text) => fail_file(plan, write_error(job.name.file.as_str(), text.as_str())),
            None => if cfg.write_new_cbz {
                end_file(job, plan, false, false)
            } else {
                let task = FileTask::Look { new_name: plan.new_name.clone() };
                FileMove { stage: FileStage::Looking(plan), task, complaint: None }
            },
        },
        (FileStage::Looking(plan), FileReply::Found { differs, exists }) => match rename_step(
            differs,
            exists,
        ) {
            RenameStep::Rename => {
                let task = FileTask::Rename { new_name: plan.new_name.clone() };
                FileMove { stage: FileStage::Renaming(plan), task, complaint: None }
            },
            RenameStep::Skip => end_file(job, plan, false, true),
            RenameStep::Keep => end_file(job, plan, false, false),
        },
        (FileStage::Renaming(plan), FileReply::Renamed(error)) => match error {
            None => end_file(job, plan, true, false),
            Some(text) => end_without_rename(job, plan, text.as_str()),
        },
        (stage, _) => FileMove { stage, task: FileTask::Wait, complaint: None },
    }
}

// ── Laws ────────────────────────────────────────────────────────────────────────────────────────
/// Whether nothing was written so far.
pub open spec fn is_untouched(stage: FileStage) -> bool {
    stage is Asking || stage is Showing || stage is Ended
}

/// In a dry run no file is touched: neither the first step nor any that follows writes anything, nor is
/// anything noted in the log of errors, nor the file as done.
pub proof fn lemma_dry_run_writes_nothing(
    cfg: WorkerConfig,
    job: FileJob,
    stage: FileStage,
    reply: FileReply,
    first: FileMove,
    next: FileMove,
)
    requires
        cfg.dry_run,
        is_first(cfg, job, first),
        is_untouched(stage),
        is_next(cfg, job, stage, reply, next),
    ensures
        !writes(first.task),
        is_untouched(first.stage),
        first.complaint is None,
        !(first.task matches FileTask::End { mark: true, .. }),
        !writes(next.task),
        is_untouched(next.stage),
        next.complaint is None,
        !(next.task matches FileTask::End { mark: true, .. }),
{
}

/// Whether a new archive is being written, or nothing was written so far.
pub open spec fn is_new_file_stage(stage: FileStage) -> bool {
    is_untouched(stage) || stage is Comparing || stage is Writing
}

/// Where new archives are written, the archive itself is never overwritten or renamed. Nor does a new
/// archive take its place: where it could, it is written only after it was found to be another file, and
/// where it is the archive itself, the work ends with a failure.
pub proof fn lemma_source_stays_as_it_is(
    cfg: WorkerConfig,
    job: FileJob,
    stage: FileStage,
    reply: FileReply,
    first: FileMove,
    next: FileMove,
)
    requires
        cfg.write_new_cbz,
        is_first(cfg, job, first),
        is_new_file_stage(stage),
        is_next(cfg, job, stage, reply, next),
    ensures
        !changes_source(first.task),
        is_new_file_stage(first.stage),
        !changes_source(next.task),
        is_new_file_stage(next.stage),
        first.task is WriteNew ==> !may_meet_source(cfg),
        next.task is WriteNew ==> !may_meet_source(cfg) || (stage is Comparing && reply is Found
            && reply->differs),
        stage is Comparing && reply is Found && !reply->differs ==> (next.task matches FileTask::End {
            outcome,
            mark,
            ..
        } && outcome is Failed && !mark),
{
}

/// Where a copy is wanted, an archive is overwritten only after it was copied.
pub proof fn lemma_copy_comes_first(
    cfg: WorkerConfig,
    job: FileJob,
    stage: FileStage,
    reply: FileReply,
    first: FileMove,
    next: FileMove,
)
    requires
        cfg.backup_before_overwrite,
        is_first(cfg, job, first),
        is_next(cfg, job, stage, reply, next),
    ensures
        !(first.task is Overwrite),
        next.task is Overwrite ==> stage is Copying && reply == FileReply::Copied(None),
{
}

/// A file is noted as done only after it was written.
pub proof fn lemma_done_means_written(
    cfg: WorkerConfig,
    job: FileJob,
    stage: FileStage,
    reply: FileReply,
    first: FileMove,
    next: FileMove,
)
    requires
        is_first(cfg, job, first),
        is_next(cfg, job, stage, reply, next),
    ensures
        !(first.task matches FileTask::End { mark: true, .. }),
        next.task matches FileTask::End { mark: true, outcome, .. } ==> outcome is Written && (
        stage is Writing || stage is Looking || stage is Renaming),
{
}

/// A label is asked for exactly where the number of a file has a fraction and it is no volume, as far as the
/// user can be asked. A file without a number is left alone, and no other one ends as such.
pub proof fn lemma_who_is_asked(cfg: WorkerConfig, job: FileJob, first: FileMove)
    requires
        is_first(cfg, job, first),
    ensures
        first.task is Ask <==> (job.can_ask && job.name.kind@ != "volume"@ && number_in(job.name.file@)
            is Some && number_in(job.name.file@)->0.contains('.')),
        number_in(job.name.file@) is None <==> (first.task matches FileTask::End { outcome, .. }
            && outcome is NoNumber),
{
}

/// The plan that a stage of the work holds.
pub open spec fn plan_at(stage: FileStage) -> Option<FilePlan> {
    match stage {
        FileStage::Showing(p) => Some(p),
        FileStage::Comparing(p) => Some(p),
        FileStage::Copying(p) => Some(p),
        FileStage::Writing(p) => Some(p),
        FileStage::Looking(p) => Some(p),
        FileStage::Renaming(p) => Some(p),
        _ => None,
    }
}

/// What is written for a file is what was planned for it, through every step: the plan stays the same, and
/// the metadata and the name of each task are those of the plan.
pub proof fn lemma_plan_is_carried_out(
    cfg: WorkerConfig,
    job: FileJob,
    stage: FileStage,
    reply: FileReply,
    next: FileMove,
)
    requires
        is_next(cfg, job, stage, reply, next),
    ensures
        plan_at(stage) is Some && !(next.stage is Ended) ==> plan_at(next.stage) == plan_at(stage),
        next.task matches FileTask::WriteNew { new_name, xml } ==> plan_at(next.stage) matches Some(p)
            && new_name@ == p.new_name@ && xml@ == p.xml@,
        next.task matches FileTask::Overwrite { xml } ==> plan_at(next.stage) matches Some(p) && xml@
            == p.xml@,
        next.task matches FileTask::Rename { new_name } ==> plan_at(next.stage) matches Some(p)
            && new_name@ == p.new_name@,
{
}

/// An archive is renamed only after it was written, to a name that is not taken. It counts as renamed only
/// where that worked, and as not renamed for want of a free name only where another file has it.
pub proof fn lemma_rename_takes_no_name(
    cfg: WorkerConfig,
    job: FileJob,
    stage: FileStage,
    reply: FileReply,
    next: FileMove,
)
    requires
        is_next(cfg, job, stage, reply, next),
    ensures
        next.task is Rename <==> (stage is Looking && reply is Found && reply->differs
            && !reply->exists),
        next.task matches FileTask::End { outcome: Outcome::Written { renamed, skipped }, .. } ==> {
            &&& renamed <==> (stage is Renaming && reply == FileReply::Renamed(None))
            &&& skipped <==> (stage is Looking && reply is Found && reply->differs && reply->exists)
        },
        stage is Writing && reply == FileReply::Written(None) ==> !(next.task matches FileTask::End {
            outcome: Outcome::Failed,
            ..
        }),
{
}

/// What failed is noted and reported as a failure, and no failed file is noted as done.
pub proof fn lemma_failures_are_told(
    cfg: WorkerConfig,
    job: FileJob,
    stage: FileStage,
    reply: FileReply,
    next: FileMove,
    error: String,
)
    requires
        is_next(cfg, job, stage, reply, next),
        (stage is Copying && reply == FileReply::Copied(Some(error))) || (stage is Writing && reply
            == FileReply::Written(Some(error))),
    ensures
        next.complaint is Some,
        next.task matches FileTask::End { outcome, mark, report } && outcome is Failed && !mark
            && report.deep_view().len() > 0 && report.deep_view()[0] == (
            next.complaint.deep_view()->0,
            LogLevel::Failure,
        ),
{
}

/// The document that is written for a file without a fraction that is overwritten says the number under
/// which the file is shown.
pub proof fn lemma_first_write_says_number(cfg: WorkerConfig, job: FileJob, first: FileMove)
    requires
        is_first(cfg, job, first),
        fits(cfg),
    ensures
        first.task matches FileTask::Overwrite { xml } ==> number_in(job.name.file@) matches Some(orig)
            && says(xml@, "Number"@, shown_number(orig, cfg.zero_pad, pad_width(cfg, job.auto_pad))),
{
    if first.task is Overwrite {
        let orig = number_in(job.name.file@)->0;
        let reading = choose|reading: FileReading|
            #[trigger] reading.is_of(cfg, job.name, job.auto_pad, orig) && is_first_read(
                cfg,
                job,
                reading,
                first,
            );
        let labelled = reading.raw_title@;
        let plan = choose|plan: FilePlan|
            #[trigger] is_plan_for(cfg, job, reading, labelled, plan) && is_started(
                cfg,
                job,
                plan,
                first,
            );
        lemma_number_is_written(
            cfg,
            job.name,
            job.auto_pad,
            reading,
            labelled,
            job.index,
            job.invalid_sep,
            plan,
        );
    }
}

} // verus!
