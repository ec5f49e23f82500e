//! The palette commands' own texts: their titles, what a confirmation
//! shows of a plan or a file list, the folder offered by default, and the
//! names tried for a new file. The conversations themselves run in the
//! user interface.

use vstd::prelude::*;

use crate::cli::name_or_empty;
use crate::fsops::{Op, Plan, Step, StepModel, step_model};
use crate::paths::{join, parent};
use crate::text::decimal;

verus! {

/// How many lines of a plan or file list a confirmation shows.
pub const SHOWN: usize = 5;

/// The commands the palette offers, in order.
pub open spec fn command_titles() -> Seq<Seq<char>> {
    seq![
        "Move workspace to folder…"@,
        "Copy workspace to folder…"@,
        "Symlink workspace into folder…"@,
        "Hard-link workspace into folder…"@,
        "Rename files in workspace according to current order…"@,
        "Create contact sheet…"@,
        "Save rotations to files…"@,
        "Run shell command on workspace…"@,
        "Move workspace to trash…"@,
        "Open containing folder"@,
        "Remove selected image from workspace"@,
        "Keyboard shortcuts"@,
    ]
}

/// The commands the palette offers, in order.
pub fn titles() -> (r: Vec<&'static str>)
    ensures
        r@.map_values(|t: &'static str| t@) == command_titles(),
{
    let r = vec![
        "Move workspace to folder…",
        "Copy workspace to folder…",
        "Symlink workspace into folder…",
        "Hard-link workspace into folder…",
        "Rename files in workspace according to current order…",
        "Create contact sheet…",
        "Save rotations to files…",
        "Run shell command on workspace…",
        "Move workspace to trash…",
        "Open containing folder",
        "Remove selected image from workspace",
        "Keyboard shortcuts",
    ];
    assert(r@.map_values(|t: &'static str| t@) =~= command_titles());
    r
}

/// The verb a transfer is asked with, and the word its report uses.
pub open spec fn transfer_words(op: Op) -> (Seq<char>, Seq<char>) {
    match op {
        Op::Move => ("Move"@, "moved"@),
        Op::Symlink => ("Symlink"@, "symlinked"@),
        Op::Hardlink => ("Hard-link"@, "hard-linked"@),
        _ => ("Copy"@, "copied"@),
    }
}

/// The verb a transfer is asked with, and the word its report uses.
pub fn transfer_verbs(op: Op) -> (r: (&'static str, &'static str))
    ensures
        (r.0@, r.1@) == transfer_words(op),
{
    match op {
        Op::Move => ("Move", "moved"),
        Op::Symlink => ("Symlink", "symlinked"),
        Op::Hardlink => ("Hard-link", "hard-linked"),
        _ => ("Copy", "copied"),
    }
}

/// `lines` separated by line feeds.
pub open spec fn joined_lines(lines: Seq<Seq<char>>) -> Seq<char>
    decreases lines.len(),
{
    if lines.len() == 0 {
        Seq::empty()
    } else if lines.len() == 1 {
        lines[0]
    } else {
        joined_lines(lines.drop_last()).push('\n') + lines.last()
    }
}

/// The line that says how many more there are than shown.
pub open spec fn more_line(count: nat) -> Seq<char> {
    "… and "@ + decimal((count - SHOWN) as nat) + " more"@
}

/// The lines shown of `items`: the first few, and how many more there are.
pub open spec fn shown_lines(items: Seq<Seq<char>>) -> Seq<Seq<char>> {
    if items.len() > SHOWN {
        items.subrange(0, SHOWN as int).push(more_line(items.len()))
    } else {
        items
    }
}

/// One line of a plan's preview: the file's name and the name it gets.
pub open spec fn step_line(s: StepModel) -> Seq<char> {
    name_or_empty(s.0) + "  →  "@ + name_or_empty(s.1)
}

/// The first lines of a plan, for the confirmation prompt.
pub open spec fn preview_text(steps: Seq<StepModel>) -> Seq<char> {
    joined_lines(shown_lines(steps.map_values(|s: StepModel| step_line(s))))
}

/// The names of `files`, for confirmations that have no target side.
pub open spec fn name_list_text(files: Seq<Seq<char>>) -> Seq<char> {
    joined_lines(shown_lines(files.map_values(|p: Seq<char>| name_or_empty(p))))
}

fn push_str(out: &mut Vec<char>, s: &str)
    ensures
        final(out)@ == old(out)@ + s@,
{
    crate::text::push_all(out, &crate::text::chars_of(s));
}

/// `lines` shown as a confirmation shows them: at most `SHOWN`, then how
/// many more there are, separated by line feeds.
fn show(lines: &Vec<Vec<char>>) -> (r: String)
    ensures
        r@ == joined_lines(shown_lines(lines@.map_values(|l: Vec<char>| l@))),
{
    let ghost all = lines@.map_values(|l: Vec<char>| l@);
    let ghost shown = shown_lines(all);
    let n = if lines.len() > SHOWN {
        SHOWN
    } else {
        lines.len()
    };
    let mut out: Vec<char> = Vec::new();
    let mut k: usize = 0;
    while k < n
        invariant
            k <= n <= lines.len(),
            n <= SHOWN,
            n == (if lines.len() > SHOWN { SHOWN } else { lines.len() }),
            all == lines@.map_values(|l: Vec<char>| l@),
            out@ == joined_lines(all.subrange(0, k as int)),
        decreases n - k,
    {
        assert(all.subrange(0, k + 1).drop_last() =~= all.subrange(0, k as int));
        if k > 0 {
            out.push('\n');
        } else {
            assert(out@ =~= Seq::<char>::empty());
        }
        crate::text::push_all(&mut out, &lines[k]);
        k = k + 1;
        assert(out@ =~= joined_lines(all.subrange(0, k as int)));
    }
    if lines.len() > SHOWN {
        let mut more: Vec<char> = Vec::new();
        push_str(&mut more, "… and ");
        let count = crate::text::decimal_string(lines.len() - SHOWN);
        push_str(&mut more, count.as_str());
        push_str(&mut more, " more");
        let ghost body = all.subrange(0, SHOWN as int);
        assert(shown == body.push(more@));
        assert(shown.drop_last() =~= body);
        out.push('\n');
        crate::text::push_all(&mut out, &more);
        assert(out@ =~= joined_lines(shown));
    } else {
        assert(all.subrange(0, lines.len() as int) =~= all);
    }
    crate::text::string_of(&out)
}

/// The name of `path`, empty where it has none.
fn name_chars(path: &String) -> (r: Vec<char>)
    ensures
        r@ == name_or_empty(path@),
{
    let name = crate::cli::file_name(path.as_str());
    crate::text::chars_of(name.as_str())
}

/// The first lines of a plan, for the confirmation prompt: each shown
/// file's name and the name it gets, and how many more there are.
pub fn preview(plan: &Plan) -> (r: String)
    ensures
        r@ == preview_text(plan.steps@.map_values(|s: Step| step_model(s))),
{
    let ghost steps = plan.steps@.map_values(|s: Step| step_model(s));
    let ghost want = steps.map_values(|s: StepModel| step_line(s));
    let mut lines: Vec<Vec<char>> = Vec::new();
    let mut k: usize = 0;
    while k < plan.steps.len()
        invariant
            k <= plan.steps.len(),
            steps == plan.steps@.map_values(|s: Step| step_model(s)),
            want == steps.map_values(|s: StepModel| step_line(s)),
            lines@.map_values(|l: Vec<char>| l@) == want.subrange(0, k as int),
        decreases plan.steps.len() - k,
    {
        let mut line = name_chars(&plan.steps[k].src);
        push_str(&mut line, "  →  ");
        crate::text::push_all(&mut line, &name_chars(&plan.steps[k].dst));
        assert(line@ == want[k as int]);
        let ghost before = lines@;
        lines.push(line);
        proof {
            crate::text::lemma_map_push(before, line, |l: Vec<char>| l@);
            assert(want.subrange(0, k + 1) =~= want.subrange(0, k as int).push(want[k as int]));
        }
        k = k + 1;
    }
    assert(want.subrange(0, plan.steps.len() as int) =~= want);
    show(&lines)
}

/// The names of `files`, for confirmations that have no target side: the
/// first few, and how many more there are.
pub fn name_list(files: &[(usize, String)]) -> (r: String)
    ensures
        r@ == name_list_text(files@.map_values(|f: (usize, String)| f.1@)),
{
    let ghost paths = files@.map_values(|f: (usize, String)| f.1@);
    let ghost want = paths.map_values(|p: Seq<char>| name_or_empty(p));
    let mut lines: Vec<Vec<char>> = Vec::new();
    let mut k: usize = 0;
    while k < files.len()
        invariant
            k <= files.len(),
            paths == files@.map_values(|f: (usize, String)| f.1@),
            want == paths.map_values(|p: Seq<char>| name_or_empty(p)),
            lines@.map_values(|l: Vec<char>| l@) == want.subrange(0, k as int),
        decreases files.len() - k,
    {
        let line = name_chars(&files[k].1);
        assert(line@ == want[k as int]);
        let ghost before = lines@;
        lines.push(line);
        proof {
            crate::text::lemma_map_push(before, line, |l: Vec<char>| l@);
            assert(want.subrange(0, k + 1) =~= want.subrange(0, k as int).push(want[k as int]));
        }
        k = k + 1;
    }
    assert(want.subrange(0, files.len() as int) =~= want);
    show(&lines)
}

/// `s` without `/` at its end.
pub open spec fn without_trailing_slashes(s: Seq<char>) -> Seq<char>
    decreases s.len(),
{
    if s.len() > 0 && s.last() == '/' {
        without_trailing_slashes(s.drop_last())
    } else {
        s
    }
}

/// The folder first offered for files: that of the first file (the root
/// where there is none), ending in one `/`.
pub open spec fn default_dir_text(files: Seq<Seq<char>>) -> Seq<char> {
    let dir = if files.len() > 0 && parent(files[0]) is Some {
        parent(files[0])->0
    } else {
        seq!['/']
    };
    without_trailing_slashes(dir).push('/')
}

/// The folder first offered for `files`: that of the first one, ending in
/// one `/`.
pub fn default_dir(files: &[(usize, String)]) -> (r: String)
    ensures
        r@ == default_dir_text(files@.map_values(|f: (usize, String)| f.1@)),
{
    let ghost paths = files@.map_values(|f: (usize, String)| f.1@);
    let dir: Vec<char> = if files.len() > 0 {
        let first = crate::text::chars_of(files[0].1.as_str());
        assert(first@ == paths[0]);
        match crate::paths::parent_of(&first) {
            Some(d) => d,
            None => {
                let mut root: Vec<char> = Vec::new();
                root.push('/');
                root
            },
        }
    } else {
        let mut root: Vec<char> = Vec::new();
        root.push('/');
        root
    };
    assert(dir@ == (if paths.len() > 0 && parent(paths[0]) is Some {
        parent(paths[0])->0
    } else {
        seq!['/']
    }));
    let mut end: usize = dir.len();
    assert(dir@.subrange(0, dir.len() as int) =~= dir@);
    while end > 0 && dir[end - 1] == '/'
        invariant
            end <= dir.len(),
            without_trailing_slashes(dir@) == without_trailing_slashes(dir@.subrange(0, end as int)),
        decreases end,
    {
        assert(dir@.subrange(0, end as int).drop_last() =~= dir@.subrange(0, end - 1));
        end = end - 1;
    }
    proof {
        assert(dir@.subrange(0, dir.len() as int) =~= dir@);
    }
    let mut out = crate::text::slice_chars(&dir, 0, end);
    out.push('/');
    crate::text::string_of(&out)
}

/// The `n`th name tried for a new file: `stem.extension`, then
/// `stem-2.extension`, `stem-3.extension` and so on, in `dir`.
pub open spec fn candidate_name(dir: Seq<char>, stem: Seq<char>, extension: Seq<char>, n: nat) -> Seq<char> {
    if n <= 1 {
        join(dir, stem + seq!['.'] + extension)
    } else {
        join(dir, stem + seq!['-'] + decimal(n) + seq!['.'] + extension)
    }
}

/// The `n`th name tried for a new file (from 1): `stem.extension`, then
/// `stem-2.extension` and so on, in `dir`. The first that does not exist
/// yet is the one to use.
pub fn free_name(dir: &str, stem: &str, extension: &str, n: usize) -> (r: String)
    ensures
        r@ == candidate_name(dir@, stem@, extension@, n as nat),
{
    let mut name = crate::text::chars_of(stem);
    if n > 1 {
        name.push('-');
        let digits = crate::text::decimal_string(n);
        push_str(&mut name, digits.as_str());
    }
    name.push('.');
    push_str(&mut name, extension);
    let d = crate::text::chars_of(dir);
    let path = crate::paths::join_of(&d, &name);
    proof {
        if n <= 1 {
            assert(name@ =~= stem@ + seq!['.'] + extension@);
        } else {
            assert(name@ =~= stem@ + seq!['-'] + decimal(n as nat) + seq!['.'] + extension@);
        }
    }
    crate::text::string_of(&path)
}

} // verus!
