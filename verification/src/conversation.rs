//! The palette commands as conversations: each asks, plans, confirms and
//! runs in turn. `Conversation` decides; whoever drives it asks the user,
//! looks at the file system and runs the work each `Action` names, and
//! hands back what came of it. Every conversation ends in `Action::Done`
//! (or, for the two that only act, `Unbin` and `Help`). Work on existing
//! files runs only after a yes; only a contact sheet, a new file, is drawn
//! without one.

use vstd::prelude::*;

use crate::cli::name_or_empty;
use crate::commands::{default_dir_text, name_list_text, preview_text, transfer_words, candidate_name};
use crate::fsops::{Op, Outcome, Plan, Step, step_model};
use crate::montage::ContactSheet;
use crate::paths::parent;
use crate::shell::{Job, expanded_to, refused, suggestion_list, PLACEHOLDERS};
use crate::text::{cat, decimal, decimal_string, trim};
use crate::theme::{color_of, Theme};

verus! {

/// A command of the palette.
#[derive(Clone, Copy, Debug, PartialEq, Eq, Structural)]
pub enum Command {
    /// Move, copy, symlink or hard-link the shown images into a folder.
    Transfer(Op),
    /// Rename the shown images in place, in display order.
    Rename,
    ContactSheet,
    SaveRotations,
    Shell,
    Trash,
    OpenFolder,
    /// Take the selected image out of its workspace.
    Unbin,
    Help,
}

/// The command behind the `index`th title of `commands::titles`.
pub open spec fn command_spec(index: int) -> Option<Command> {
    if index == 0 {
        Some(Command::Transfer(Op::Move))
    } else if index == 1 {
        Some(Command::Transfer(Op::Copy))
    } else if index == 2 {
        Some(Command::Transfer(Op::Symlink))
    } else if index == 3 {
        Some(Command::Transfer(Op::Hardlink))
    } else if index == 4 {
        Some(Command::Rename)
    } else if index == 5 {
        Some(Command::ContactSheet)
    } else if index == 6 {
        Some(Command::SaveRotations)
    } else if index == 7 {
        Some(Command::Shell)
    } else if index == 8 {
        Some(Command::Trash)
    } else if index == 9 {
        Some(Command::OpenFolder)
    } else if index == 10 {
        Some(Command::Unbin)
    } else if index == 11 {
        Some(Command::Help)
    } else {
        None
    }
}

/// The command behind the `index`th title of `commands::titles`.
pub fn command_at(index: usize) -> (r: Option<Command>)
    ensures
        r == command_spec(index as int),
{
    match index {
        0 => Some(Command::Transfer(Op::Move)),
        1 => Some(Command::Transfer(Op::Copy)),
        2 => Some(Command::Transfer(Op::Symlink)),
        3 => Some(Command::Transfer(Op::Hardlink)),
        4 => Some(Command::Rename),
        5 => Some(Command::ContactSheet),
        6 => Some(Command::SaveRotations),
        7 => Some(Command::Shell),
        8 => Some(Command::Trash),
        9 => Some(Command::OpenFolder),
        10 => Some(Command::Unbin),
        11 => Some(Command::Help),
        _ => None,
    }
}

/// How the palette title of `command` begins: a transfer's with the verb
/// its question uses, the others with what they do.
pub open spec fn title_begins(command: Command) -> Seq<char> {
    match command {
        Command::Transfer(op) => transfer_words(op).0 + " workspace "@ + if op == Op::Symlink || op
            == Op::Hardlink {
            "into folder"@
        } else {
            "to folder"@
        },
        Command::Rename => "Rename files"@,
        Command::ContactSheet => "Create contact sheet"@,
        Command::SaveRotations => "Save rotations"@,
        Command::Shell => "Run shell command"@,
        Command::Trash => "Move workspace to trash"@,
        Command::OpenFolder => "Open containing folder"@,
        Command::Unbin => "Remove selected image"@,
        Command::Help => "Keyboard shortcuts"@,
    }
}

/// Every row of the palette runs the command its title names, each row a
/// different command, and there is no command past the last row.
pub proof fn rows_run_what_their_titles_say(i: int, j: int)
    ensures
        0 <= i < crate::commands::command_titles().len() <==> command_spec(i) is Some,
        command_spec(i) matches Some(c) ==> crate::text::begins(crate::commands::command_titles()[i], title_begins(c)),
        command_spec(i) is Some && i != j ==> command_spec(i) != command_spec(j),
        command_spec(i) matches Some(Command::Transfer(op)) ==> op != Op::Rename,
{
    let t = crate::commands::command_titles();
    reveal_strlit("Move workspace to folder…");
    reveal_strlit("Copy workspace to folder…");
    reveal_strlit("Symlink workspace into folder…");
    reveal_strlit("Hard-link workspace into folder…");
    reveal_strlit("Rename files in workspace according to current order…");
    reveal_strlit("Create contact sheet…");
    reveal_strlit("Save rotations to files…");
    reveal_strlit("Run shell command on workspace…");
    reveal_strlit("Move workspace to trash…");
    reveal_strlit("Open containing folder");
    reveal_strlit("Remove selected image from workspace");
    reveal_strlit("Keyboard shortcuts");
    reveal_strlit("Move");
    reveal_strlit("Copy");
    reveal_strlit("Symlink");
    reveal_strlit("Hard-link");
    reveal_strlit(" workspace ");
    reveal_strlit("to folder");
    reveal_strlit("into folder");
    reveal_strlit("Rename files");
    reveal_strlit("Create contact sheet");
    reveal_strlit("Save rotations");
    reveal_strlit("Run shell command");
    reveal_strlit("Move workspace to trash");
    reveal_strlit("Open containing folder");
    reveal_strlit("Remove selected image");
    reveal_strlit("Keyboard shortcuts");
    if 0 <= i < 12 {
        let c = command_spec(i)->0;
        let p = title_begins(c);
        assert(t[i].subrange(0, p.len() as int) =~= p);
    }
}

/// A question for the user.
#[derive(Debug)]
pub enum Prompt {
    /// A line of text; with `complete_dirs`, tab completes folder names.
    Line { title: String, initial: String, complete_dirs: bool },
    /// A line, with lines offered to pick from, each with a note.
    Pick { title: String, detail: String, offers: Vec<(String, String)> },
    /// Yes or no, with `detail` spelling out what would happen; an empty
    /// answer means `default`.
    YesNo { question: String, detail: String, default: bool },
}

/// Work that takes a while, off the user interface's thread.
#[derive(Debug)]
pub enum Work {
    /// Carry out a checked plan.
    Transfer(Plan),
    /// Put `remember` at the top of the shell history, then run the jobs.
    Shell { remember: String, jobs: Vec<Job> },
    /// Move these files to the desktop's trash.
    Trash(Vec<String>),
    /// Draw a contact sheet of these files.
    Montage(ContactSheet, Vec<String>),
    /// Write into each file the quarter turns clockwise given with it: the
    /// image, its path, the turns.
    Rotate(Vec<(usize, String, u8)>),
}

/// How a conversation ends.
#[derive(Debug)]
pub struct Report {
    /// `Ok(None)`: cancelled or nothing to say; `Ok(Some(..))` a note,
    /// `Err(..)` a problem.
    pub result: Result<Option<String>, String>,
    /// Images whose files now lie elsewhere: the image and its new path.
    pub moved: Vec<(usize, String)>,
    /// Images whose files changed or went.
    pub changed: Vec<usize>,
    /// Images whose pending rotation went into their files: the image and
    /// the quarter turns written.
    pub rotated: Vec<(usize, u8)>,
}

/// What the driver is to do next.
#[derive(Debug)]
pub enum Action {
    /// Ask; hand the answer to `answered` (lines) or `decided` (yes/no).
    Ask(Prompt),
    /// Expand the path typed (home directory, made absolute) and say what
    /// is there, to `located`.
    Locate(String),
    /// Say whether anything, even a dangling link, has this path, to `probed`.
    Probe(String),
    /// Plan the transfer of `files` to `dest` and check it against the file
    /// system, to `planned`.
    Plan { op: Op, files: Vec<String>, dest: String, prefix: bool },
    /// Read the shell history, most recent first, to `recalled`.
    History,
    /// Read the theme and find the label font, to `styled`.
    Style,
    /// Do the work, showing the note meanwhile if there is one; the result
    /// goes to `transferred`, `ran`, `trashed`, `drawn` or `rotated`.
    Run(Option<String>, Work),
    /// Show the folder holding this file, then call `opened`.
    Open(String),
    /// Take the selected image out of its workspace; the conversation is over.
    Unbin,
    /// Show the keyboard shortcuts; the conversation is over.
    Help,
    /// The conversation is over.
    Done(Report),
}

/// What a conversation waits for.
#[derive(Clone, Copy, Debug, PartialEq, Eq, Structural)]
pub enum Stage {
    /// Nothing: it is over.
    Over,
    /// Transfer: the folder typed.
    Folder,
    /// Transfer: what is at the folder.
    Place,
    /// Transfer: whether to keep the manual order with prefixes.
    Prefix,
    /// Transfer and rename: the checked plan.
    Planning,
    /// Transfer and rename: whether to carry the plan out.
    Confirm,
    /// Transfer and rename: how it went.
    Moving,
    /// Shell: the history lines.
    Recall,
    /// Shell: the command typed.
    Template,
    /// Shell: whether to run the commands.
    ConfirmRun,
    /// Shell: the commands that failed.
    Running,
    /// Trash: whether to trash the files.
    ConfirmTrash,
    /// Trash: how it went.
    Trashing,
    /// Contact sheet: whether the name tried is taken.
    Naming,
    /// Contact sheet: the output file typed.
    Output,
    /// Contact sheet: what is at the output path.
    OutputPlace,
    /// Contact sheet: the number of columns typed.
    Columns,
    /// Contact sheet: the thumbnail size typed.
    Size,
    /// Contact sheet: whether to label the thumbnails.
    Labels,
    /// Contact sheet: the theme and the font.
    Styling,
    /// Contact sheet: how drawing it went.
    Drawing,
    /// Open folder: the folder shown.
    Opening,
    /// Save rotations: whether to write them.
    ConfirmRotate,
    /// Save rotations: how writing each went.
    Rotating,
}

/// One palette command under way, and what it has learnt so far.
pub struct Conversation {
    pub command: Command,
    /// The name of the view shown: "all images" or "workspace 3".
    pub view: String,
    /// The view is sorted by hand.
    pub manual: bool,
    /// The images shown, in display order: the image and its path.
    pub files: Vec<(usize, String)>,
    pub stage: Stage,
    /// The folder, output file or selected file the conversation is about.
    pub target: String,
    /// The folder exists already.
    pub target_is_dir: bool,
    /// The plan awaiting confirmation.
    pub plan: Option<Plan>,
    /// Where the planned steps put the files, in order.
    pub dsts: Vec<String>,
    /// The shell command typed.
    pub template: String,
    /// The shell jobs awaiting confirmation.
    pub jobs: Vec<Job>,
    /// How many shell jobs run.
    pub total: usize,
    /// Which free name is being tried for the contact sheet, from 1.
    pub candidate: usize,
    pub columns: u32,
    pub size: u32,
    pub labels: bool,
    /// The rotations to write: the image, its path, the quarter turns.
    pub rotations: Vec<(usize, String, u8)>,
}

// ── what the texts say ──────────────────────────────────────────────────

/// The paths of `files`.
pub open spec fn paths_of(files: Seq<(usize, String)>) -> Seq<Seq<char>> {
    files.map_values(|f: (usize, String)| f.1@)
}

/// A report as plain values.
pub open spec fn result_view(r: Result<Option<String>, String>) -> Result<Option<Seq<char>>, Seq<char>> {
    match r {
        Ok(Some(s)) => Ok(Some(s@)),
        Ok(None) => Ok(None),
        Err(e) => Err(e@),
    }
}

/// `a` ends the conversation with `result`, no image moved or changed.
pub open spec fn ends(a: Action, result: Result<Option<Seq<char>>, Seq<char>>) -> bool {
    &&& a matches Action::Done(rep)
    &&& result_view(rep.result) == result
    &&& rep.moved@.len() == 0
    &&& rep.changed@.len() == 0
    &&& rep.rotated@.len() == 0
}

/// `a` asks for a line of text.
pub open spec fn asks_line(a: Action, title: Seq<char>, initial: Seq<char>, complete_dirs: bool) -> bool {
    a matches Action::Ask(Prompt::Line { title: t, initial: i, complete_dirs: c }) && t@ == title && i@
        == initial && c == complete_dirs
}

/// `a` asks a yes/no question.
pub open spec fn asks_yes_no(a: Action, question: Seq<char>, detail: Seq<char>, default: bool) -> bool {
    a matches Action::Ask(Prompt::YesNo { question: q, detail: d, default: b }) && q@ == question && d@
        == detail && b == default
}

/// "… is empty".
pub open spec fn empty_text(view: Seq<char>) -> Seq<char> {
    view + " is empty"@
}

/// The question of a transfer: where to.
pub open spec fn folder_title(op: Op, view: Seq<char>, count: nat) -> Seq<char> {
    transfer_words(op).0 + " "@ + view + " ("@ + decimal(count) + " files) to folder"@
}

/// The question before keeping a manual order.
pub open spec fn prefix_question() -> Seq<char> {
    "Keep the manual order with numeric prefixes (001_name.jpg)?"@
}

/// The confirmation of a transfer.
pub open spec fn transfer_question(op: Op, count: nat, dest: Seq<char>, is_dir: bool) -> Seq<char> {
    transfer_words(op).0 + " "@ + decimal(count) + " files to "@ + dest + (if is_dir {
        ""@
    } else {
        " (will be created)"@
    }) + "?"@
}

/// The confirmation of a renaming, with the first new name as example.
pub open spec fn rename_question(count: nat, view: Seq<char>, manual: bool, example: Seq<char>) -> Seq<char> {
    "Rename "@ + decimal(count) + " files of "@ + view + " in place, in "@ + (if manual {
        "manual"@
    } else {
        "natural"@
    }) + " order ("@ + example + ", …)?"@
}

/// The first new name of a plan, where it has steps.
pub open spec fn first_name(dsts: Seq<Seq<char>>) -> Seq<char> {
    if dsts.len() > 0 {
        name_or_empty(dsts[0])
    } else {
        Seq::empty()
    }
}

/// The word a finished transfer or renaming is reported with.
pub open spec fn done_word(command: Command) -> Seq<char> {
    match command {
        Command::Transfer(op) => transfer_words(op).1,
        _ => "renamed"@,
    }
}

/// The operation a transfer or renaming plans.
pub open spec fn op_of(command: Command) -> Op {
    match command {
        Command::Transfer(op) => op,
        _ => Op::Rename,
    }
}

/// The folder the files went to, as reported: that of the first new path.
pub open spec fn place_of(dsts: Seq<Seq<char>>) -> Seq<char> {
    if dsts.len() > 0 && parent(dsts[0]) is Some {
        parent(dsts[0])->0
    } else {
        Seq::empty()
    }
}

/// The report of a transfer or renaming.
pub open spec fn moved_report(
    word: Seq<char>,
    count: nat,
    total: nat,
    error: Option<Seq<char>>,
    place: Seq<char>,
) -> Result<Option<Seq<char>>, Seq<char>> {
    match error {
        Some(e) => Err(word + " "@ + decimal(count) + " of "@ + decimal(total) + ", then stopped: "@ + e),
        None => Ok(Some(word + " "@ + decimal(count) + " files → "@ + place)),
    }
}

/// The question of the shell command.
pub open spec fn shell_title(view: Seq<char>, count: nat) -> Seq<char> {
    "Shell command on "@ + view + " ("@ + decimal(count) + " files, in display order)"@
}

/// The lines offered for a shell command: the history, then the
/// ready-made lines it does not hold.
pub open spec fn offers_of(history: Seq<Seq<char>>) -> Seq<(Seq<char>, Seq<char>)> {
    history.map_values(|l: Seq<char>| (l, "history"@)) + suggestion_list().filter(
        |s: (Seq<char>, Seq<char>)| !history.contains(s.0),
    )
}

/// How many shell lines a confirmation shows.
pub open spec fn shell_shown() -> nat {
    3
}

/// The detail of a shell confirmation: the first lines, how many more
/// there are, and the directory the first runs in.
pub open spec fn shell_lines(lines: Seq<Seq<char>>, cwd: Seq<char>) -> Seq<Seq<char>> {
    let first = if lines.len() > shell_shown() {
        lines.subrange(0, 3).push("… and "@ + decimal((lines.len() - 3) as nat) + " more"@)
    } else {
        lines
    };
    first.push("in "@ + cwd)
}

/// The question before running shell commands.
pub open spec fn run_question(count: nat) -> Seq<char> {
    if count == 1 {
        "Run this command?"@
    } else {
        "Run these "@ + decimal(count) + " commands?"@
    }
}

/// The report of shell commands, the failures' complaints given.
pub open spec fn shell_report(total: nat, failures: Seq<Seq<char>>) -> Result<Option<Seq<char>>, Seq<char>> {
    if failures.len() > 0 {
        Err(decimal(failures.len()) + " of "@ + decimal(total) + " failed: "@ + failures[0])
    } else if total == 1 {
        Ok(Some("command finished"@))
    } else {
        Ok(Some(decimal(total) + " commands finished"@))
    }
}

/// The question before trashing.
pub open spec fn trash_question(count: nat, view: Seq<char>) -> Seq<char> {
    "Move the "@ + decimal(count) + " files of "@ + view + " to the trash?"@
}

/// The report of trashing.
pub open spec fn trash_report(gone: nat, total: nat, error: Option<Seq<char>>) -> Result<Option<Seq<char>>, Seq<char>> {
    match error {
        Some(e) => Err("trashed "@ + decimal(gone) + " of "@ + decimal(total) + ": "@ + e),
        None => Ok(Some(decimal(gone) + " files moved to the trash"@)),
    }
}

/// The name offered for the `n`th try of a contact sheet.
pub open spec fn sheet_name(files: Seq<Seq<char>>, n: nat) -> Seq<char> {
    candidate_name(default_dir_text(files), "contact-sheet"@, "jpg"@, n)
}

/// The question of the contact sheet's output file.
pub open spec fn sheet_title(view: Seq<char>, count: nat) -> Seq<char> {
    "Contact sheet of "@ + view + " ("@ + decimal(count) + " images) — output file"@
}

/// A number typed, trimmed, if it lies in `low..=high`.
pub open spec fn number_in(s: Seq<char>, low: u32, high: u32) -> Option<u32> {
    match crate::text::parsed_u32(trim(s)) {
        Some(n) => if low <= n <= high {
            Some(n)
        } else {
            None
        },
        None => None,
    }
}

/// The rotations of `files` to write, as far as `k`: each image with a
/// pending rotation (`turns`, in the same order), its path and its turns.
pub open spec fn pending_upto(files: Seq<(usize, String)>, turns: Seq<u8>, k: nat) -> Seq<(usize, Seq<char>, u8)>
    decreases k,
{
    if k == 0 {
        Seq::empty()
    } else {
        let i = k - 1;
        let p = pending_upto(files, turns, i as nat);
        if turns[i] != 0 {
            p.push((files[i].0, files[i].1@, turns[i]))
        } else {
            p
        }
    }
}

/// The rotations of `files` to write.
pub open spec fn pending(files: Seq<(usize, String)>, turns: Seq<u8>) -> Seq<(usize, Seq<char>, u8)> {
    pending_upto(files, turns, files.len())
}

/// Rotations to write as plain values.
pub open spec fn rotation_jobs(v: Seq<(usize, String, u8)>) -> Seq<(usize, Seq<char>, u8)> {
    v.map_values(|j: (usize, String, u8)| (j.0, j.1@, j.2))
}

/// The question before writing rotations.
pub open spec fn rotation_question(count: nat, view: Seq<char>) -> Seq<char> {
    "Write the rotation of "@ + decimal(count) + " JPEGs in "@ + view
        + " to the files (EXIF orientation, lossless)?"@
}

/// The rotations of `jobs` written, as far as `k`: the image and the
/// turns of each whose result is `Ok`.
pub open spec fn saved_upto(jobs: Seq<(usize, String, u8)>, results: Seq<Result<(), String>>, k: nat) -> Seq<(usize, u8)>
    decreases k,
{
    if k == 0 {
        Seq::empty()
    } else {
        let i = k - 1;
        let p = saved_upto(jobs, results, i as nat);
        if results[i] is Ok {
            p.push((jobs[i].0, jobs[i].2))
        } else {
            p
        }
    }
}

/// The rotations of `jobs` written.
pub open spec fn saved_of(jobs: Seq<(usize, String, u8)>, results: Seq<Result<(), String>>) -> Seq<(usize, u8)> {
    saved_upto(jobs, results, results.len())
}

/// The first problem among `results`.
pub open spec fn first_problem(results: Seq<Result<(), String>>) -> Option<Seq<char>>
    decreases results.len(),
{
    if results.len() == 0 {
        None
    } else {
        match results[0] {
            Err(e) => Some(e@),
            Ok(_) => first_problem(results.drop_first()),
        }
    }
}

/// The report of writing rotations: how many were saved, and the first
/// problem, if any.
pub open spec fn rotation_report(saved: nat, problem: Option<Seq<char>>) -> Result<Option<Seq<char>>, Seq<char>> {
    match problem {
        Some(p) => Err("saved "@ + decimal(saved) + ", but "@ + p),
        None => Ok(Some("rotation of "@ + decimal(saved) + " files saved"@)),
    }
}

// ── building the texts ──────────────────────────────────────────────────

fn paths(files: &Vec<(usize, String)>) -> (r: Vec<String>)
    ensures
        r@.map_values(|p: String| p@) == paths_of(files@),
{
    let mut r: Vec<String> = Vec::new();
    let mut k: usize = 0;
    while k < files.len()
        invariant
            k <= files.len(),
            r@.map_values(|p: String| p@) == paths_of(files@).subrange(0, k as int),
        decreases files.len() - k,
    {
        let ghost before = r@;
        let p = files[k].1.clone();
        r.push(p);
        proof {
            crate::text::lemma_map_push(before, p, |p: String| p@);
        }
        k = k + 1;
        assert(r@.map_values(|p: String| p@) =~= paths_of(files@).subrange(0, k as int));
    }
    assert(paths_of(files@).subrange(0, files.len() as int) =~= paths_of(files@));
    r
}

fn number(n: usize) -> (r: String)
    ensures
        r@ == decimal(n as nat),
{
    decimal_string(n)
}

fn end(result: Result<Option<String>, String>) -> (a: Action)
    ensures
        ends(a, result_view(result)),
{
    Action::Done(Report { result, moved: Vec::new(), changed: Vec::new(), rotated: Vec::new() })
}

fn fail(message: String) -> (a: Action)
    ensures
        ends(a, Err(message@)),
{
    end(Err(message))
}

fn quiet() -> (a: Action)
    ensures
        ends(a, Ok(None)),
{
    end(Ok(None))
}

fn ask_line(title: String, initial: String, complete_dirs: bool) -> (a: Action)
    ensures
        asks_line(a, title@, initial@, complete_dirs),
{
    Action::Ask(Prompt::Line { title, initial, complete_dirs })
}

fn ask_yes_no(question: String, detail: String, default: bool) -> (a: Action)
    ensures
        asks_yes_no(a, question@, detail@, default),
{
    Action::Ask(Prompt::YesNo { question, detail, default })
}


/// A number typed, trimmed, if it lies in `low..=high`.
fn number_typed(t: &str, low: u32, high: u32) -> (r: Option<u32>)
    ensures
        r == number_in(t@, low, high),
{
    let chars = crate::text::trimmed(&crate::text::chars_of(t));
    match crate::text::parse_u32(&chars) {
        Some(n) => if low <= n && n <= high {
            Some(n)
        } else {
            None
        },
        None => None,
    }
}

/// The lines of `jobs`.
pub open spec fn job_lines(jobs: Seq<Job>) -> Seq<Seq<char>> {
    jobs.map_values(|j: Job| j.line@)
}

/// `lines` separated by line feeds.
fn join_lines(lines: &Vec<Vec<char>>) -> (r: String)
    ensures
        r@ == crate::commands::joined_lines(lines@.map_values(|l: Vec<char>| l@)),
{
    let ghost all = lines@.map_values(|l: Vec<char>| l@);
    let mut out: Vec<char> = Vec::new();
    let mut k: usize = 0;
    while k < lines.len()
        invariant
            k <= lines.len(),
            all == lines@.map_values(|l: Vec<char>| l@),
            out@ == crate::commands::joined_lines(all.subrange(0, k as int)),
        decreases lines.len() - k,
    {
        assert(all.subrange(0, k + 1).drop_last() =~= all.subrange(0, k as int));
        if k > 0 {
            out.push('\n');
        } else {
            assert(out@ =~= Seq::<char>::empty());
        }
        crate::text::push_all(&mut out, &lines[k]);
        k = k + 1;
        assert(out@ =~= crate::commands::joined_lines(all.subrange(0, k as int)));
    }
    assert(all.subrange(0, lines.len() as int) =~= all);
    crate::text::string_of(&out)
}

/// The detail of a shell confirmation.
fn shell_detail(jobs: &Vec<Job>) -> (r: String)
    requires
        jobs.len() > 0,
    ensures
        r@ == crate::commands::joined_lines(shell_lines(job_lines(jobs@), jobs@[0].cwd@)),
{
    let ghost all = job_lines(jobs@);
    let n: usize = if jobs.len() > 3 {
        3
    } else {
        jobs.len()
    };
    let mut lines: Vec<Vec<char>> = Vec::new();
    let mut k: usize = 0;
    while k < n
        invariant
            k <= n <= jobs.len(),
            n == (if jobs.len() > 3 { 3 } else { jobs.len() }),
            all == job_lines(jobs@),
            lines@.map_values(|l: Vec<char>| l@) == all.subrange(0, k as int),
        decreases n - k,
    {
        let ghost before = lines@;
        let line = crate::text::chars_of(jobs[k].line.as_str());
        lines.push(line);
        proof {
            crate::text::lemma_map_push(before, line, |l: Vec<char>| l@);
        }
        k = k + 1;
        assert(lines@.map_values(|l: Vec<char>| l@) =~= all.subrange(0, k as int));
    }
    if jobs.len() > 3 {
        let more = cat(cat("… and ", number(jobs.len() - 3).as_str()).as_str(), " more");
        let ghost before = lines@;
        let line = crate::text::chars_of(more.as_str());
        lines.push(line);
        proof {
            crate::text::lemma_map_push(before, line, |l: Vec<char>| l@);
        }
    } else {
        assert(all.subrange(0, jobs.len() as int) =~= all);
    }
    let ghost before = lines@;
    let last = crate::text::chars_of(cat("in ", jobs[0].cwd.as_str()).as_str());
    lines.push(last);
    proof {
        crate::text::lemma_map_push(before, last, |l: Vec<char>| l@);
    }
    assert(lines@.map_values(|l: Vec<char>| l@) =~= shell_lines(all, jobs@[0].cwd@));
    join_lines(&lines)
}

/// The question before running `count` shell commands.
fn run_text(count: usize) -> (r: String)
    ensures
        r@ == run_question(count as nat),
{
    if count == 1 {
        "Run this command?".to_owned()
    } else {
        cat(cat("Run these ", number(count).as_str()).as_str(), " commands?")
    }
}

/// The rotations of `files` to write, `turns` giving each its pending turns.
fn pending_jobs(files: &Vec<(usize, String)>, turns: &Vec<u8>) -> (r: Vec<(usize, String, u8)>)
    requires
        turns.len() == files.len(),
    ensures
        rotation_jobs(r@) == pending(files@, turns@),
{
    let mut r: Vec<(usize, String, u8)> = Vec::new();
    let mut k: usize = 0;
    while k < files.len()
        invariant
            k <= files.len(),
            turns.len() == files.len(),
            rotation_jobs(r@) == pending_upto(files@, turns@, k as nat),
        decreases files.len() - k,
    {
        if turns[k] != 0 {
            let ghost before = r@;
            let job = (files[k].0, files[k].1.clone(), turns[k]);
            r.push(job);
            proof {
                crate::text::lemma_map_push(before, job, |j: (usize, String, u8)| (j.0, j.1@, j.2));
            }
        }
        k = k + 1;
    }
    r
}

/// A copy of `v`.
fn copy_jobs(v: &Vec<(usize, String, u8)>) -> (r: Vec<(usize, String, u8)>)
    ensures
        rotation_jobs(r@) == rotation_jobs(v@),
{
    let mut r: Vec<(usize, String, u8)> = Vec::new();
    let mut k: usize = 0;
    while k < v.len()
        invariant
            k <= v.len(),
            rotation_jobs(r@) == rotation_jobs(v@).subrange(0, k as int),
        decreases v.len() - k,
    {
        let ghost before = r@;
        let job = (v[k].0, v[k].1.clone(), v[k].2);
        r.push(job);
        proof {
            crate::text::lemma_map_push(before, job, |j: (usize, String, u8)| (j.0, j.1@, j.2));
        }
        k = k + 1;
        assert(rotation_jobs(r@) =~= rotation_jobs(v@).subrange(0, k as int));
    }
    assert(rotation_jobs(v@).subrange(0, v.len() as int) =~= rotation_jobs(v@));
    r
}

/// The question before writing `count` rotations in `view`.
fn rotation_text(count: usize, view: &str) -> (r: String)
    ensures
        r@ == rotation_question(count as nat, view@),
{
    let head = cat(cat("Write the rotation of ", number(count).as_str()).as_str(), " JPEGs in ");
    cat(cat(head.as_str(), view).as_str(), " to the files (EXIF orientation, lossless)?")
}

/// `c` with only its stage changed.
pub open spec fn at(c: Conversation, stage: Stage) -> Conversation {
    Conversation { stage, ..c }
}

impl Conversation {
    /// The conversation as it starts: nothing learnt yet.
    pub open spec fn fresh(self, command: Command, view: Seq<char>, manual: bool, files: Seq<(usize, String)>, target: Seq<char>) -> bool {
        &&& self.command == command
        &&& self.view@ == view
        &&& self.manual == manual
        &&& self.files@ == files
        &&& self.target@ == target
        &&& !self.target_is_dir
        &&& self.plan is None
        &&& self.dsts@.len() == 0
        &&& self.template@ == Seq::<char>::empty()
        &&& self.jobs@.len() == 0
        &&& self.total == 0
        &&& self.candidate == 1
        &&& self.columns == 0
        &&& self.size == 0
        &&& !self.labels
    }

    /// Start `command` on the images `files` shown in the view named
    /// `view`, `manual` if it is sorted by hand; `turns`: the pending
    /// rotation of each shown image, in the same order; `selected`: the
    /// path of the selected image. A command that needs images and has
    /// none ends at once with "… is empty"; saving rotations with none
    /// pending ends with "no unsaved rotations in …".
    pub fn begin(
        command: Command,
        view: String,
        manual: bool,
        files: Vec<(usize, String)>,
        turns: Vec<u8>,
        selected: Option<String>,
    ) -> (r: (Conversation, Action))
        requires
            turns.len() == files.len(),
        ensures
            !(r.1 is Run),
            r.0.fresh(command, view@, manual, files@, match (command, selected) {
                (Command::OpenFolder, Some(p)) => p@,
                _ => Seq::empty(),
            }),
            ({
                let (c, a) = r;
                let fs = paths_of(files@);
                let n = files.len() as nat;
                match command {
                    Command::Transfer(op) => if n == 0 {
                        ends(a, Err(empty_text(view@))) && c.stage == Stage::Over
                    } else {
                        asks_line(a, folder_title(op, view@, n), default_dir_text(fs), true) && c.stage == Stage::Folder
                    },
                    Command::Rename => if n == 0 {
                        ends(a, Err(empty_text(view@))) && c.stage == Stage::Over
                    } else {
                        &&& a matches Action::Plan { op, files: planned, dest, prefix }
                        &&& op == Op::Rename
                        &&& planned@.map_values(|p: String| p@) == fs
                        &&& dest@ == Seq::<char>::empty()
                        &&& prefix
                        &&& c.stage == Stage::Planning
                    },
                    Command::ContactSheet => if n == 0 {
                        ends(a, Err(empty_text(view@))) && c.stage == Stage::Over
                    } else {
                        a matches Action::Probe(p) && p@ == sheet_name(fs, 1) && c.stage == Stage::Naming
                    },
                    Command::SaveRotations => {
                        let jobs = pending(files@, turns@);
                        if jobs.len() == 0 {
                            ends(a, Err("no unsaved rotations in "@ + view@ + " (r / R rotate)"@)) && c.stage
                                == Stage::Over
                        } else {
                            &&& asks_yes_no(a, rotation_question(jobs.len(), view@), Seq::empty(), false)
                            &&& c.stage == Stage::ConfirmRotate
                            &&& rotation_jobs(c.rotations@) == jobs
                        }
                    },
                    Command::Shell => if n == 0 {
                        ends(a, Err(empty_text(view@))) && c.stage == Stage::Over
                    } else {
                        a is History && c.stage == Stage::Recall
                    },
                    Command::Trash => if n == 0 {
                        ends(a, Err(empty_text(view@))) && c.stage == Stage::Over
                    } else {
                        asks_yes_no(a, trash_question(n, view@), name_list_text(fs), false) && c.stage
                            == Stage::ConfirmTrash
                    },
                    Command::OpenFolder => match selected {
                        Some(p) => a matches Action::Open(q) && q@ == p@ && c.stage == Stage::Opening,
                        None => ends(a, Err("no image selected"@)) && c.stage == Stage::Over,
                    },
                    Command::Unbin => a is Unbin && c.stage == Stage::Over,
                    Command::Help => a is Help && c.stage == Stage::Over,
                }
            }),
    {
        let empty = files.len() == 0;
        let mut stage = Stage::Over;
        let mut target = String::new();
        let mut rotations: Vec<(usize, String, u8)> = Vec::new();
        let action = match command {
            Command::Transfer(op) => if empty {
                fail(cat(view.as_str(), " is empty"))
            } else {
                let (verb, _) = crate::commands::transfer_verbs(op);
                let count = number(files.len());
                let title = cat(cat(cat(cat(verb, " ").as_str(), view.as_str()).as_str(), " (").as_str(), count.as_str());
                let title = cat(title.as_str(), " files) to folder");
                stage = Stage::Folder;
                ask_line(title, crate::commands::default_dir(files.as_slice()), true)
            },
            Command::Rename => if empty {
                fail(cat(view.as_str(), " is empty"))
            } else {
                stage = Stage::Planning;
                Action::Plan { op: Op::Rename, files: paths(&files), dest: String::new(), prefix: true }
            },
            Command::ContactSheet => if empty {
                fail(cat(view.as_str(), " is empty"))
            } else {
                stage = Stage::Naming;
                let dir = crate::commands::default_dir(files.as_slice());
                Action::Probe(crate::commands::free_name(dir.as_str(), "contact-sheet", "jpg", 1))
            },
            Command::SaveRotations => {
                rotations = pending_jobs(&files, &turns);
                if rotations.len() == 0 {
                    fail(cat(cat("no unsaved rotations in ", view.as_str()).as_str(), " (r / R rotate)"))
                } else {
                    stage = Stage::ConfirmRotate;
                    ask_yes_no(rotation_text(rotations.len(), view.as_str()), String::new(), false)
                }
            },
            Command::Shell => if empty {
                fail(cat(view.as_str(), " is empty"))
            } else {
                stage = Stage::Recall;
                Action::History
            },
            Command::Trash => if empty {
                fail(cat(view.as_str(), " is empty"))
            } else {
                let count = number(files.len());
                let question = cat(cat(cat(cat("Move the ", count.as_str()).as_str(), " files of ").as_str(), view.as_str()).as_str(), " to the trash?");
                stage = Stage::ConfirmTrash;
                ask_yes_no(question, crate::commands::name_list(files.as_slice()), false)
            },
            Command::OpenFolder => match selected {
                Some(p) => {
                    target = p.clone();
                    stage = Stage::Opening;
                    Action::Open(p)
                },
                None => fail("no image selected".to_owned()),
            },
            Command::Unbin => Action::Unbin,
            Command::Help => Action::Help,
        };
        let c = Conversation {
            command,
            view,
            manual,
            files,
            stage,
            target,
            target_is_dir: false,
            plan: None,
            dsts: Vec::new(),
            template: String::new(),
            jobs: Vec::new(),
            total: 0,
            candidate: 1,
            columns: 0,
            size: 0,
            labels: false,
            rotations,
        };
        (c, action)
    }

    /// The user answered a line of text (`None`: cancelled). Cancelling
    /// ends any conversation quietly, as does an empty folder or command.
    pub fn answered(&mut self, answer: Option<String>) -> (a: Action)
        requires
            old(self).stage == Stage::Folder || old(self).stage == Stage::Template || old(self).stage
                == Stage::Output || old(self).stage == Stage::Columns || old(self).stage == Stage::Size,
        ensures
            !(a is Run),
            answer is None ==> ends(a, Ok(None)) && final(self).stage == Stage::Over,
            answer matches Some(t) ==> {
                let fs = paths_of(old(self).files@);
                match old(self).stage {
                    Stage::Folder => if trim(t@).len() == 0 {
                        ends(a, Ok(None)) && final(self).stage == Stage::Over
                    } else {
                        a matches Action::Locate(p) && p@ == t@ && *final(self) == at(*old(self), Stage::Place)
                    },
                    Stage::Template => if trim(t@).len() == 0 {
                        ends(a, Ok(None)) && final(self).stage == Stage::Over
                    } else {
                        ||| {
                            &&& a matches Action::Done(rep)
                            &&& rep.result matches Err(e)
                            &&& refused(t@, fs, e@)
                            &&& rep.moved@.len() == 0
                            &&& rep.changed@.len() == 0
                            &&& final(self).stage == Stage::Over
                        }
                        ||| {
                            let jobs = final(self).jobs@;
                            &&& expanded_to(t@, fs, jobs)
                            &&& jobs.len() > 0
                            &&& asks_yes_no(
                                a,
                                run_question(jobs.len()),
                                crate::commands::joined_lines(shell_lines(job_lines(jobs), jobs[0].cwd@)),
                                false,
                            )
                            &&& *final(self) == (Conversation {
                                stage: Stage::ConfirmRun,
                                template: t,
                                jobs: final(self).jobs,
                                ..*old(self)
                            })
                        }
                    },
                    Stage::Output => a matches Action::Locate(p) && p@ == t@ && *final(self) == at(
                        *old(self),
                        Stage::OutputPlace,
                    ),
                    Stage::Columns => match number_in(t@, 1, 100) {
                        Some(n) => asks_line(a, "Thumbnail size (px)"@, "256"@, false) && *final(self) == (
                        Conversation { stage: Stage::Size, columns: n, ..*old(self) }),
                        None => ends(a, Err("columns: 1–100"@)) && final(self).stage == Stage::Over,
                    },
                    _ => match number_in(t@, 16, 4096) {
                        Some(n) => asks_yes_no(a, "Label thumbnails with file names?"@, Seq::empty(), true)
                            && *final(self) == (Conversation { stage: Stage::Labels, size: n, ..*old(self) }),
                        None => ends(a, Err("size: 16–4096 px"@)) && final(self).stage == Stage::Over,
                    },
                }
            },
    {
        let t = match answer {
            None => {
                self.stage = Stage::Over;
                return quiet();
            },
            Some(t) => t,
        };
        let blank = crate::text::trimmed(&crate::text::chars_of(t.as_str())).len() == 0;
        match self.stage {
            Stage::Folder => {
                if blank {
                    self.stage = Stage::Over;
                    return quiet();
                }
                self.stage = Stage::Place;
                Action::Locate(t)
            },
            Stage::Template => {
                if blank {
                    self.stage = Stage::Over;
                    return quiet();
                }
                let fs = paths(&self.files);
                match crate::shell::expand(t.as_str(), fs.as_slice()) {
                    Err(e) => {
                        self.stage = Stage::Over;
                        fail(e)
                    },
                    Ok(jobs) => {
                        proof {
                            assert(fs@.map_values(|f: String| f@) == paths_of(self.files@));
                        }
                        let question = run_text(jobs.len());
                        let detail = shell_detail(&jobs);
                        self.stage = Stage::ConfirmRun;
                        self.template = t;
                        self.jobs = jobs;
                        ask_yes_no(question, detail, false)
                    },
                }
            },
            Stage::Output => {
                self.stage = Stage::OutputPlace;
                Action::Locate(t)
            },
            Stage::Columns => match number_typed(t.as_str(), 1, 100) {
                Some(n) => {
                    self.stage = Stage::Size;
                    self.columns = n;
                    ask_line("Thumbnail size (px)".to_owned(), "256".to_owned(), false)
                },
                None => {
                    self.stage = Stage::Over;
                    fail("columns: 1–100".to_owned())
                },
            },
            _ => match number_typed(t.as_str(), 16, 4096) {
                Some(n) => {
                    self.stage = Stage::Labels;
                    self.size = n;
                    ask_yes_no("Label thumbnails with file names?".to_owned(), String::new(), true)
                },
                None => {
                    self.stage = Stage::Over;
                    fail("size: 16–4096 px".to_owned())
                },
            },
        }
    }

    /// The user answered a yes/no question (`None`: cancelled).
    /// Cancelling ends any conversation quietly; so does anything but yes
    /// to carrying out a plan, running commands or trashing.
    pub fn decided(&mut self, choice: Option<bool>) -> (a: Action)
        requires
            old(self).stage == Stage::Prefix || old(self).stage == Stage::Confirm || old(self).stage
                == Stage::ConfirmRun || old(self).stage == Stage::ConfirmTrash || old(self).stage
                == Stage::ConfirmRotate || old(self).stage == Stage::Labels,
            old(self).stage == Stage::Confirm ==> old(self).plan is Some,
        ensures
            a is Run ==> choice == Some(true),
            match old(self).stage {
                Stage::Prefix => match choice {
                    Some(b) => {
                        &&& a matches Action::Plan { op, files, dest, prefix }
                        &&& op == op_of(old(self).command)
                        &&& files@.map_values(|p: String| p@) == paths_of(old(self).files@)
                        &&& dest@ == old(self).target@
                        &&& prefix == b
                        &&& *final(self) == at(*old(self), Stage::Planning)
                    },
                    None => ends(a, Ok(None)) && final(self).stage == Stage::Over,
                },
                Stage::Confirm => if choice == Some(true) {
                    &&& a matches Action::Run(Some(note), Work::Transfer(plan))
                    &&& note@ == "working…"@
                    &&& old(self).plan == Some(plan)
                    &&& *final(self) == (Conversation { stage: Stage::Moving, plan: None, ..*old(self) })
                } else {
                    ends(a, Ok(None)) && final(self).stage == Stage::Over
                },
                Stage::ConfirmRun => if choice == Some(true) {
                    &&& a matches Action::Run(Some(note), Work::Shell { remember, jobs })
                    &&& note@ == "running…"@
                    &&& remember@ == old(self).template@
                    &&& jobs == old(self).jobs
                    &&& final(self).jobs@.len() == 0
                    &&& *final(self) == (Conversation {
                        stage: Stage::Running,
                        total: old(self).jobs.len(),
                        jobs: final(self).jobs,
                        ..*old(self)
                    })
                } else {
                    ends(a, Ok(None)) && final(self).stage == Stage::Over
                },
                Stage::ConfirmTrash => if choice == Some(true) {
                    &&& a matches Action::Run(None, Work::Trash(files))
                    &&& files@.map_values(|p: String| p@) == paths_of(old(self).files@)
                    &&& *final(self) == at(*old(self), Stage::Trashing)
                } else {
                    ends(a, Ok(None)) && final(self).stage == Stage::Over
                },
                Stage::ConfirmRotate => if choice == Some(true) {
                    &&& a matches Action::Run(None, Work::Rotate(jobs))
                    &&& rotation_jobs(jobs@) == rotation_jobs(old(self).rotations@)
                    &&& *final(self) == at(*old(self), Stage::Rotating)
                } else {
                    ends(a, Ok(None)) && final(self).stage == Stage::Over
                },
                _ => match choice {
                    Some(b) => a is Style && *final(self) == (Conversation {
                        stage: Stage::Styling,
                        labels: b,
                        ..*old(self)
                    }),
                    None => ends(a, Ok(None)) && final(self).stage == Stage::Over,
                },
            },
    {
        match self.stage {
            Stage::Prefix => match choice {
                Some(b) => {
                    self.stage = Stage::Planning;
                    let op = match self.command {
                        Command::Transfer(op) => op,
                        _ => Op::Rename,
                    };
                    Action::Plan { op, files: paths(&self.files), dest: self.target.clone(), prefix: b }
                },
                None => {
                    self.stage = Stage::Over;
                    quiet()
                },
            },
            Stage::Confirm => {
                if choice != Some(true) {
                    self.stage = Stage::Over;
                    return quiet();
                }
                let mut plan: Option<Plan> = None;
                std::mem::swap(&mut plan, &mut self.plan);
                self.stage = Stage::Moving;
                match plan {
                    Some(p) => Action::Run(Some("working…".to_owned()), Work::Transfer(p)),
                    None => quiet(),
                }
            },
            Stage::ConfirmRun => {
                if choice != Some(true) {
                    self.stage = Stage::Over;
                    return quiet();
                }
                let mut jobs: Vec<Job> = Vec::new();
                std::mem::swap(&mut jobs, &mut self.jobs);
                self.total = jobs.len();
                self.stage = Stage::Running;
                Action::Run(Some("running…".to_owned()), Work::Shell { remember: self.template.clone(), jobs })
            },
            Stage::ConfirmTrash => {
                if choice != Some(true) {
                    self.stage = Stage::Over;
                    return quiet();
                }
                self.stage = Stage::Trashing;
                Action::Run(None, Work::Trash(paths(&self.files)))
            },
            Stage::ConfirmRotate => {
                if choice != Some(true) {
                    self.stage = Stage::Over;
                    return quiet();
                }
                self.stage = Stage::Rotating;
                Action::Run(None, Work::Rotate(copy_jobs(&self.rotations)))
            },
            _ => match choice {
                Some(b) => {
                    self.stage = Stage::Styling;
                    self.labels = b;
                    Action::Style
                },
                None => {
                    self.stage = Stage::Over;
                    quiet()
                },
            },
        }
    }

    /// What is at the path typed: `exists` (following links), `is_dir`,
    /// and `taken` (anything at all, even a dangling link).
    pub fn located(&mut self, path: String, exists: bool, is_dir: bool, taken: bool) -> (a: Action)
        requires
            old(self).stage == Stage::Place || old(self).stage == Stage::OutputPlace,
        ensures
            !(a is Run),
            old(self).stage == Stage::Place ==> if exists && !is_dir {
                ends(a, Err("not a folder: "@ + path@)) && final(self).stage == Stage::Over
            } else if old(self).manual {
                &&& asks_yes_no(a, prefix_question(), Seq::empty(), true)
                &&& *final(self) == (Conversation {
                    stage: Stage::Prefix,
                    target: path,
                    target_is_dir: is_dir,
                    ..*old(self)
                })
            } else {
                &&& a matches Action::Plan { op, files, dest, prefix }
                &&& op == op_of(old(self).command)
                &&& files@.map_values(|p: String| p@) == paths_of(old(self).files@)
                &&& dest@ == path@
                &&& !prefix
                &&& *final(self) == (Conversation {
                    stage: Stage::Planning,
                    target: path,
                    target_is_dir: is_dir,
                    ..*old(self)
                })
            },
            old(self).stage == Stage::OutputPlace ==> if taken {
                ends(a, Err("exists: "@ + path@)) && final(self).stage == Stage::Over
            } else {
                asks_line(a, "Columns"@, "6"@, false) && *final(self) == (Conversation {
                    stage: Stage::Columns,
                    target: path,
                    ..*old(self)
                })
            },
    {
        if self.stage == Stage::Place {
            if exists && !is_dir {
                self.stage = Stage::Over;
                return fail(cat("not a folder: ", path.as_str()));
            }
            let dest = path.clone();
            self.target = path;
            self.target_is_dir = is_dir;
            if self.manual {
                self.stage = Stage::Prefix;
                return ask_yes_no(
                    "Keep the manual order with numeric prefixes (001_name.jpg)?".to_owned(),
                    String::new(),
                    true,
                );
            }
            self.stage = Stage::Planning;
            let op = match self.command {
                Command::Transfer(op) => op,
                _ => Op::Rename,
            };
            Action::Plan { op, files: paths(&self.files), dest, prefix: false }
        } else {
            if taken {
                self.stage = Stage::Over;
                return fail(cat("exists: ", path.as_str()));
            }
            self.target = path;
            self.stage = Stage::Columns;
            ask_line("Columns".to_owned(), "6".to_owned(), false)
        }
    }

    /// Whether the name tried for the contact sheet is taken: if so, the
    /// next is tried; the first free one is offered.
    pub fn probed(&mut self, taken: bool) -> (a: Action)
        requires
            old(self).stage == Stage::Naming,
        ensures
            !(a is Run),
            ({
                let fs = paths_of(old(self).files@);
                if taken && old(self).candidate < usize::MAX {
                    &&& a matches Action::Probe(p)
                    &&& p@ == sheet_name(fs, (old(self).candidate + 1) as nat)
                    &&& *final(self) == (Conversation { candidate: (old(self).candidate + 1) as usize, ..*old(self) })
                } else {
                    &&& asks_line(
                        a,
                        sheet_title(old(self).view@, old(self).files.len() as nat),
                        sheet_name(fs, old(self).candidate as nat),
                        true,
                    )
                    &&& *final(self) == at(*old(self), Stage::Output)
                }
            }),
    {
        let dir = crate::commands::default_dir(self.files.as_slice());
        if taken && self.candidate < usize::MAX {
            self.candidate = self.candidate + 1;
            return Action::Probe(crate::commands::free_name(dir.as_str(), "contact-sheet", "jpg", self.candidate));
        }
        let count = number(self.files.len());
        let title = cat(cat(cat(cat("Contact sheet of ", self.view.as_str()).as_str(), " (").as_str(), count.as_str()).as_str(), " images) — output file");
        self.stage = Stage::Output;
        ask_line(title, crate::commands::free_name(dir.as_str(), "contact-sheet", "jpg", self.candidate), true)
    }

    /// The checked plan of a transfer or renaming, or why there is none.
    pub fn planned(&mut self, result: Result<Plan, String>) -> (a: Action)
        requires
            old(self).stage == Stage::Planning,
        ensures
            !(a is Run),
            match result {
                Err(e) => ends(a, Err(e@)) && final(self).stage == Stage::Over,
                Ok(plan) => {
                    let steps = plan.steps@.map_values(|s: Step| step_model(s));
                    let dsts = steps.map_values(|s: (Seq<char>, Seq<char>)| s.1);
                    let n = old(self).files.len() as nat;
                    let question = match old(self).command {
                        Command::Transfer(op) => transfer_question(op, n, old(self).target@, old(self).target_is_dir),
                        _ => rename_question(n, old(self).view@, old(self).manual, first_name(dsts)),
                    };
                    &&& asks_yes_no(a, question, preview_text(steps), false)
                    &&& final(self).dsts@.map_values(|d: String| d@) == dsts
                    &&& *final(self) == (Conversation {
                        stage: Stage::Confirm,
                        plan: Some(plan),
                        dsts: final(self).dsts,
                        ..*old(self)
                    })
                },
            },
    {
        let plan = match result {
            Err(e) => {
                self.stage = Stage::Over;
                return fail(e);
            },
            Ok(plan) => plan,
        };
        let ghost steps = plan.steps@.map_values(|s: Step| step_model(s));
        let ghost want = steps.map_values(|s: (Seq<char>, Seq<char>)| s.1);
        let mut dsts: Vec<String> = Vec::new();
        let mut k: usize = 0;
        while k < plan.steps.len()
            invariant
                k <= plan.steps.len(),
                steps == plan.steps@.map_values(|s: Step| step_model(s)),
                want == steps.map_values(|s: (Seq<char>, Seq<char>)| s.1),
                dsts@.map_values(|d: String| d@) == want.subrange(0, k as int),
            decreases plan.steps.len() - k,
        {
            let ghost before = dsts@;
            let d = plan.steps[k].dst.clone();
            dsts.push(d);
            proof {
                crate::text::lemma_map_push(before, d, |d: String| d@);
            }
            k = k + 1;
            assert(dsts@.map_values(|d: String| d@) =~= want.subrange(0, k as int));
        }
        assert(want.subrange(0, plan.steps.len() as int) =~= want);
        let count = number(self.files.len());
        let question = match self.command {
            Command::Transfer(op) => {
                let (verb, _) = crate::commands::transfer_verbs(op);
                let head = cat(cat(cat(cat(verb, " ").as_str(), count.as_str()).as_str(), " files to ").as_str(), self.target.as_str());
                let created = if self.target_is_dir {
                    ""
                } else {
                    " (will be created)"
                };
                cat(cat(head.as_str(), created).as_str(), "?")
            },
            _ => {
                let example = if dsts.len() > 0 {
                    crate::cli::file_name(dsts[0].as_str())
                } else {
                    String::new()
                };
                let order = if self.manual {
                    "manual"
                } else {
                    "natural"
                };
                let head = cat(cat(cat(cat("Rename ", count.as_str()).as_str(), " files of ").as_str(), self.view.as_str()).as_str(), " in place, in ");
                let head = cat(cat(cat(head.as_str(), order).as_str(), " order (").as_str(), example.as_str());
                cat(head.as_str(), ", …)?")
            },
        };
        let detail = crate::commands::preview(&plan);
        self.stage = Stage::Confirm;
        self.plan = Some(plan);
        self.dsts = dsts;
        ask_yes_no(question, detail, false)
    }

    /// How carrying out the plan went: `outcome.done` are the indices of
    /// the files done, in order.
    pub fn transferred(&mut self, outcome: Outcome) -> (a: Action)
        requires
            old(self).stage == Stage::Moving,
            forall|k: int|
                0 <= k < outcome.done.len() ==> #[trigger] outcome.done@[k] < old(self).files.len()
                    && outcome.done@[k] < old(self).dsts.len(),
        ensures
            ({
                let fs = old(self).files@;
                let ds = old(self).dsts@;
                let error = match outcome.error {
                    Some(e) => Some(e@),
                    None => None,
                };
                &&& a matches Action::Done(rep)
                &&& result_view(rep.result) == moved_report(
                    done_word(old(self).command),
                    outcome.done.len() as nat,
                    fs.len(),
                    error,
                    place_of(ds.map_values(|d: String| d@)),
                )
                &&& rep.moved@.map_values(|m: (usize, String)| (m.0, m.1@)) == (if op_of(old(self).command)
                    == Op::Move || op_of(old(self).command) == Op::Rename {
                    outcome.done@.map_values(|i: usize| (fs[i as int].0, ds[i as int]@))
                } else {
                    Seq::empty()
                })
                &&& rep.changed@.len() == 0
                &&& final(self).stage == Stage::Over
            }),
    {
        let op = match self.command {
            Command::Transfer(op) => op,
            _ => Op::Rename,
        };
        let ghost fs = self.files@;
        let ghost ds = self.dsts@;
        let ghost want = outcome.done@.map_values(|i: usize| (fs[i as int].0, ds[i as int]@));
        let mut moved: Vec<(usize, String)> = Vec::new();
        if op == Op::Move || op == Op::Rename {
            let mut k: usize = 0;
            while k < outcome.done.len()
                invariant
                    k <= outcome.done.len(),
                    fs == self.files@,
                    ds == self.dsts@,
                    want == outcome.done@.map_values(|i: usize| (fs[i as int].0, ds[i as int]@)),
                    forall|j: int|
                        0 <= j < outcome.done.len() ==> #[trigger] outcome.done@[j] < self.files.len()
                            && outcome.done@[j] < self.dsts.len(),
                    moved@.map_values(|m: (usize, String)| (m.0, m.1@)) == want.subrange(0, k as int),
                decreases outcome.done.len() - k,
            {
                let i = outcome.done[k];
                let entry = (self.files[i].0, self.dsts[i].clone());
                let ghost before = moved@;
                moved.push(entry);
                proof {
                    crate::text::lemma_map_push(before, entry, |m: (usize, String)| (m.0, m.1@));
                }
                k = k + 1;
                assert(moved@.map_values(|m: (usize, String)| (m.0, m.1@)) =~= want.subrange(0, k as int));
            }
            assert(want.subrange(0, outcome.done.len() as int) =~= want);
        } else {
            assert(moved@.map_values(|m: (usize, String)| (m.0, m.1@)) =~= Seq::<(usize, Seq<char>)>::empty());
        }
        let word: &str = match self.command {
            Command::Transfer(op) => crate::commands::transfer_verbs(op).1,
            _ => "renamed",
        };
        let count = number(outcome.done.len());
        let head = cat(cat(word, " ").as_str(), count.as_str());
        let result = match outcome.error {
            Some(e) => {
                let total = number(self.files.len());
                let text = cat(cat(cat(cat(head.as_str(), " of ").as_str(), total.as_str()).as_str(), ", then stopped: ").as_str(), e.as_str());
                Err(text)
            },
            None => {
                let place = if self.dsts.len() > 0 {
                    match crate::paths::parent_of(&crate::text::chars_of(self.dsts[0].as_str())) {
                        Some(p) => crate::text::string_of(&p),
                        None => String::new(),
                    }
                } else {
                    String::new()
                };
                Ok(Some(cat(cat(head.as_str(), " files → ").as_str(), place.as_str())))
            },
        };
        self.stage = Stage::Over;
        Action::Done(Report { result, moved, changed: Vec::new(), rotated: Vec::new() })
    }

    /// The shell history, most recent first: the command is asked for,
    /// with the history and the ready-made lines it lacks offered.
    pub fn recalled(&mut self, history: Vec<String>) -> (a: Action)
        requires
            old(self).stage == Stage::Recall,
        ensures
            !(a is Run),
            a matches Action::Ask(Prompt::Pick { title, detail, offers }) && title@ == shell_title(
                old(self).view@,
                old(self).files.len() as nat,
            ) && detail@ == PLACEHOLDERS@ && offers@.map_values(|o: (String, String)| (o.0@, o.1@))
                == offers_of(history@.map_values(|h: String| h@)),
            *final(self) == at(*old(self), Stage::Template),
    {
        let ghost hs = history@.map_values(|h: String| h@);
        let ghost first = hs.map_values(|l: Seq<char>| (l, "history"@));
        let mut offers: Vec<(String, String)> = Vec::new();
        let mut k: usize = 0;
        while k < history.len()
            invariant
                k <= history.len(),
                hs == history@.map_values(|h: String| h@),
                first == hs.map_values(|l: Seq<char>| (l, "history"@)),
                offers@.map_values(|o: (String, String)| (o.0@, o.1@)) == first.subrange(0, k as int),
            decreases history.len() - k,
        {
            let entry = (history[k].clone(), "history".to_owned());
            let ghost before = offers@;
            offers.push(entry);
            proof {
                crate::text::lemma_map_push(before, entry, |o: (String, String)| (o.0@, o.1@));
            }
            k = k + 1;
            assert(offers@.map_values(|o: (String, String)| (o.0@, o.1@)) =~= first.subrange(0, k as int));
        }
        assert(first.subrange(0, history.len() as int) =~= first);
        let ready = crate::shell::suggestions();
        let ghost all = suggestion_list();
        let ghost keep = |s: (Seq<char>, Seq<char>)| !hs.contains(s.0);
        let mut m: usize = 0;
        while m < ready.len()
            invariant
                m <= ready.len(),
                hs == history@.map_values(|h: String| h@),
                first == hs.map_values(|l: Seq<char>| (l, "history"@)),
                all == suggestion_list(),
                ready@.map_values(|p: (&'static str, &'static str)| (p.0@, p.1@)) == all,
                keep == (|s: (Seq<char>, Seq<char>)| !hs.contains(s.0)),
                offers@.map_values(|o: (String, String)| (o.0@, o.1@)) == first + all.subrange(0, m as int).filter(keep),
            decreases ready.len() - m,
        {
            proof {
                all.subrange(0, m as int).lemma_filter_push(all[m as int], keep);
                assert(all.subrange(0, m + 1) =~= all.subrange(0, m as int).push(all[m as int]));
            }
            let (line, note) = ready[m];
            assert(all[m as int] == (line@, note@));
            let mut known = false;
            let l = crate::text::chars_of(line);
            let mut j: usize = 0;
            while j < history.len()
                invariant
                    j <= history.len(),
                    hs == history@.map_values(|h: String| h@),
                    l@ == line@,
                    known <==> exists|i: int| 0 <= i < j && hs[i] == line@,
                decreases history.len() - j,
            {
                let h = crate::text::chars_of(history[j].as_str());
                assert(hs[j as int] == h@);
                if crate::text::same(&h, &l) {
                    known = true;
                }
                assert(forall|i: int| 0 <= i < j + 1 && hs[i] == line@ ==> (0 <= i < j && hs[i] == line@) || i == j);
                j = j + 1;
            }
            assert(known == hs.contains(line@));
            if !known {
                let entry = (line.to_owned(), note.to_owned());
                let ghost before = offers@;
                offers.push(entry);
                proof {
                    crate::text::lemma_map_push(before, entry, |o: (String, String)| (o.0@, o.1@));
                }
            }
            m = m + 1;
            assert(offers@.map_values(|o: (String, String)| (o.0@, o.1@)) =~= first + all.subrange(0, m as int).filter(keep));
        }
        assert(all.subrange(0, ready.len() as int) =~= all);
        let count = number(self.files.len());
        let title = cat(cat(cat(cat("Shell command on ", self.view.as_str()).as_str(), " (").as_str(), count.as_str()).as_str(), " files, in display order)");
        self.stage = Stage::Template;
        Action::Ask(Prompt::Pick { title, detail: PLACEHOLDERS.to_owned(), offers })
    }

    /// The complaints of the shell commands that failed, in order.
    pub fn ran(&mut self, failures: Vec<String>) -> (a: Action)
        requires
            old(self).stage == Stage::Running,
        ensures
            a matches Action::Done(rep) && result_view(rep.result) == shell_report(
                old(self).total as nat,
                failures@.map_values(|f: String| f@),
            ) && rep.moved@.len() == 0 && rep.changed@ == old(self).files@.map_values(
                |f: (usize, String)| f.0,
            ),
            final(self).stage == Stage::Over,
    {
        let mut changed: Vec<usize> = Vec::new();
        let mut k: usize = 0;
        while k < self.files.len()
            invariant
                k <= self.files.len(),
                changed@ == self.files@.map_values(|f: (usize, String)| f.0).subrange(0, k as int),
            decreases self.files.len() - k,
        {
            changed.push(self.files[k].0);
            k = k + 1;
            assert(changed@ =~= self.files@.map_values(|f: (usize, String)| f.0).subrange(0, k as int));
        }
        assert(changed@ =~= self.files@.map_values(|f: (usize, String)| f.0));
        let total = number(self.total);
        let result = if failures.len() > 0 {
            let head = cat(cat(cat(number(failures.len()).as_str(), " of ").as_str(), total.as_str()).as_str(), " failed: ");
            Err(cat(head.as_str(), failures[0].as_str()))
        } else if self.total == 1 {
            Ok(Some("command finished".to_owned()))
        } else {
            Ok(Some(cat(total.as_str(), " commands finished")))
        };
        self.stage = Stage::Over;
        Action::Done(Report { result, moved: Vec::new(), changed, rotated: Vec::new() })
    }

    /// How trashing went: `outcome.done` are the indices of the files
    /// trashed, in order.
    pub fn trashed(&mut self, outcome: Outcome) -> (a: Action)
        requires
            old(self).stage == Stage::Trashing,
            forall|k: int| 0 <= k < outcome.done.len() ==> #[trigger] outcome.done@[k] < old(self).files.len(),
        ensures
            ({
                let fs = old(self).files@;
                let error = match outcome.error {
                    Some(e) => Some(e@),
                    None => None,
                };
                &&& a matches Action::Done(rep)
                &&& result_view(rep.result) == trash_report(outcome.done.len() as nat, fs.len(), error)
                &&& rep.moved@.len() == 0
                &&& rep.changed@ == outcome.done@.map_values(|i: usize| fs[i as int].0)
                &&& final(self).stage == Stage::Over
            }),
    {
        let ghost fs = self.files@;
        let mut gone: Vec<usize> = Vec::new();
        let mut k: usize = 0;
        while k < outcome.done.len()
            invariant
                k <= outcome.done.len(),
                fs == self.files@,
                forall|j: int| 0 <= j < outcome.done.len() ==> #[trigger] outcome.done@[j] < self.files.len(),
                gone@ == outcome.done@.map_values(|i: usize| fs[i as int].0).subrange(0, k as int),
            decreases outcome.done.len() - k,
        {
            gone.push(self.files[outcome.done[k]].0);
            k = k + 1;
            assert(gone@ =~= outcome.done@.map_values(|i: usize| fs[i as int].0).subrange(0, k as int));
        }
        assert(gone@ =~= outcome.done@.map_values(|i: usize| fs[i as int].0));
        let count = number(gone.len());
        let result = match outcome.error {
            Some(e) => {
                let head = cat(cat(cat("trashed ", count.as_str()).as_str(), " of ").as_str(), number(self.files.len()).as_str());
                Err(cat(cat(head.as_str(), ": ").as_str(), e.as_str()))
            },
            None => Ok(Some(cat(count.as_str(), " files moved to the trash"))),
        };
        self.stage = Stage::Over;
        Action::Done(Report { result, moved: Vec::new(), changed: gone, rotated: Vec::new() })
    }

    /// How writing each rotation went, in the order handed out: the
    /// images written lose their pending rotation, the first problem is
    /// reported.
    pub fn rotated(&mut self, results: Vec<Result<(), String>>) -> (a: Action)
        requires
            old(self).stage == Stage::Rotating,
            results.len() == old(self).rotations.len(),
        ensures
            ({
                let saved = saved_of(old(self).rotations@, results@);
                &&& a matches Action::Done(rep)
                &&& result_view(rep.result) == rotation_report(saved.len(), first_problem(results@))
                &&& rep.moved@.len() == 0
                &&& rep.rotated@ == saved
                &&& rep.changed@ == saved.map_values(|p: (usize, u8)| p.0)
                &&& final(self).stage == Stage::Over
            }),
    {
        let ghost jobs = self.rotations@;
        let mut rotated: Vec<(usize, u8)> = Vec::new();
        let mut changed: Vec<usize> = Vec::new();
        let mut problem: Option<String> = None;
        let mut k: usize = 0;
        assert(results@.subrange(0, results.len() as int) =~= results@);
        while k < results.len()
            invariant
                k <= results.len(),
                results.len() == jobs.len(),
                jobs == self.rotations@,
                rotated@ == saved_upto(jobs, results@, k as nat),
                changed@ == rotated@.map_values(|p: (usize, u8)| p.0),
                first_problem(results@) == match problem {
                    Some(p) => Some(p@),
                    None => first_problem(results@.subrange(k as int, results.len() as int)),
                },
            decreases results.len() - k,
        {
            let ghost rest = results@.subrange(k as int, results.len() as int);
            assert(rest.drop_first() =~= results@.subrange(k + 1, results.len() as int));
            assert(rest[0] == results@[k as int]);
            match &results[k] {
                Ok(_) => {
                    let ghost before = rotated@;
                    rotated.push((self.rotations[k].0, self.rotations[k].2));
                    changed.push(self.rotations[k].0);
                    proof {
                        crate::text::lemma_map_push(before, (jobs[k as int].0, jobs[k as int].2), |p: (usize, u8)| p.0);
                    }
                },
                Err(e) => {
                    if problem.is_none() {
                        problem = Some(e.clone());
                    }
                },
            }
            k = k + 1;
        }
        let count = number(rotated.len());
        let result = match problem {
            Some(p) => Err(cat(cat(cat("saved ", count.as_str()).as_str(), ", but ").as_str(), p.as_str())),
            None => Ok(Some(cat(cat("rotation of ", count.as_str()).as_str(), " files saved"))),
        };
        self.stage = Stage::Over;
        Action::Done(Report { result, moved: Vec::new(), changed, rotated })
    }

    /// The theme and the label font (`None`: ImageMagick's default): the
    /// contact sheet is drawn.
    pub fn styled(&mut self, theme: &Theme, font: Option<String>) -> (a: Action)
        requires
            old(self).stage == Stage::Styling,
        ensures
            a matches Action::Run(Some(note), Work::Montage(sheet, files)) && note@ == "magick montage…"@
                && sheet.output@ == old(self).target@ && sheet.columns == old(self).columns
                && sheet.thumb_size == old(self).size && sheet.labels == old(self).labels
                && sheet.background@ == color_of(theme.entries(), "background"@) && sheet.foreground@
                == color_of(theme.entries(), "foreground"@) && sheet.font == font && files@.map_values(
                |p: String| p@,
            ) == paths_of(old(self).files@),
            *final(self) == at(*old(self), Stage::Drawing),
    {
        let sheet = ContactSheet {
            output: self.target.clone(),
            columns: self.columns,
            thumb_size: self.size,
            labels: self.labels,
            background: theme.color("background").to_owned(),
            foreground: theme.color("foreground").to_owned(),
            font,
        };
        self.stage = Stage::Drawing;
        Action::Run(Some("magick montage…".to_owned()), Work::Montage(sheet, paths(&self.files)))
    }

    /// How drawing the contact sheet went.
    pub fn drawn(&mut self, result: Result<(), String>) -> (a: Action)
        requires
            old(self).stage == Stage::Drawing,
        ensures
            match result {
                Ok(()) => ends(a, Ok(Some("contact sheet → "@ + old(self).target@))),
                Err(e) => ends(a, Err(e@)),
            },
            final(self).stage == Stage::Over,
    {
        self.stage = Stage::Over;
        match result {
            Ok(()) => end(Ok(Some(cat("contact sheet → ", self.target.as_str())))),
            Err(e) => fail(e),
        }
    }

    /// The folder of the selected file is shown.
    pub fn opened(&mut self) -> (a: Action)
        requires
            old(self).stage == Stage::Opening,
        ensures
            ends(a, Ok(Some("opened folder of "@ + name_or_empty(old(self).target@)))),
            final(self).stage == Stage::Over,
    {
        self.stage = Stage::Over;
        let name = crate::cli::file_name(self.target.as_str());
        end(Ok(Some(cat("opened folder of ", name.as_str()))))
    }
}

} // verus!
