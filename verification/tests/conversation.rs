use omapic::text::parse_u32;
use omapic::conversation::{command_at, Action, Command, Conversation, Prompt, Report, Stage, Work};
use omapic::fsops::{Op, Outcome, Plan, Step};
use omapic::shell::suggestions;
use omapic::theme::Theme;

fn shown() -> Vec<(usize, String)> {
    vec![(3, "/pics/a.jpg".to_string()), (5, "/pics/b.jpg".to_string())]
}

fn start(command: Command) -> (Conversation, Action) {
    Conversation::begin(command, "all images".to_string(), false, shown(), vec![0, 0], None)
}

fn line(a: &Action) -> (String, String, bool) {
    match a {
        Action::Ask(Prompt::Line { title, initial, complete_dirs }) => (title.clone(), initial.clone(), *complete_dirs),
        other => panic!("not a line prompt: {other:?}"),
    }
}

fn yes_no(a: &Action) -> (String, String, bool) {
    match a {
        Action::Ask(Prompt::YesNo { question, detail, default }) => (question.clone(), detail.clone(), *default),
        other => panic!("not a yes/no prompt: {other:?}"),
    }
}

fn report(a: Action) -> Report {
    match a {
        Action::Done(report) => report,
        other => panic!("not over: {other:?}"),
    }
}

fn chars(s: &str) -> Vec<char> {
    s.chars().collect()
}

fn step(src: &str, dst: &str) -> Step {
    Step { src: src.to_string(), dst: dst.to_string() }
}

#[test]
fn commands_follow_the_titles() {
    assert_eq!(command_at(0), Some(Command::Transfer(Op::Move)));
    assert_eq!(command_at(3), Some(Command::Transfer(Op::Hardlink)));
    assert_eq!(command_at(4), Some(Command::Rename));
    assert_eq!(command_at(7), Some(Command::Shell));
    assert_eq!(command_at(11), Some(Command::Help));
    assert_eq!(command_at(12), None);
}

#[test]
fn numbers_parse_as_rust_does() {
    assert_eq!(parse_u32(&chars("42")), Some(42));
    assert_eq!(parse_u32(&chars("+7")), Some(7));
    assert_eq!(parse_u32(&chars("007")), Some(7));
    assert_eq!(parse_u32(&chars("4294967295")), Some(u32::MAX));
    assert_eq!(parse_u32(&chars("4294967296")), None);
    for bad in ["", "+", "-1", "1 2", "x", "12a"] {
        assert_eq!(parse_u32(&chars(bad)), None, "{bad:?}");
        assert!(bad.parse::<u32>().is_err());
    }
}

#[test]
fn empty_views_and_missing_pieces_are_refused() {
    let (_, a) = Conversation::begin(Command::Transfer(Op::Copy), "workspace 2".to_string(), false, Vec::new(), Vec::new(), None);
    assert_eq!(report(a).result, Err("workspace 2 is empty".to_string()));
    let (_, a) = start(Command::SaveRotations);
    assert_eq!(report(a).result, Err("no unsaved rotations in all images (r / R rotate)".to_string()));
    let (_, a) = start(Command::OpenFolder);
    assert_eq!(report(a).result, Err("no image selected".to_string()));
}

#[test]
fn a_move_asks_plans_confirms_and_reports() {
    let (mut c, a) = start(Command::Transfer(Op::Move));
    assert_eq!(line(&a), ("Move all images (2 files) to folder".to_string(), "/pics/".to_string(), true));
    let a = c.answered(Some("/tmp/out".to_string()));
    assert!(matches!(&a, Action::Locate(p) if p == "/tmp/out"));
    let a = c.located("/tmp/out".to_string(), false, false, false);
    match &a {
        Action::Plan { op, files, dest, prefix } => {
            assert_eq!((*op, dest.as_str(), *prefix), (Op::Move, "/tmp/out", false));
            assert_eq!(files, &vec!["/pics/a.jpg".to_string(), "/pics/b.jpg".to_string()]);
        }
        other => panic!("no plan: {other:?}"),
    }
    let plan = Plan { op: Op::Move, steps: vec![step("/pics/a.jpg", "/tmp/out/a.jpg"), step("/pics/b.jpg", "/tmp/out/b.jpg")] };
    let a = c.planned(Ok(plan));
    assert_eq!(
        yes_no(&a),
        (
            "Move 2 files to /tmp/out (will be created)?".to_string(),
            "a.jpg  →  a.jpg\nb.jpg  →  b.jpg".to_string(),
            false
        )
    );
    let a = c.decided(Some(true));
    match &a {
        Action::Run(Some(note), Work::Transfer(plan)) => {
            assert_eq!(note, "working…");
            assert_eq!(plan.steps.len(), 2);
        }
        other => panic!("nothing to run: {other:?}"),
    }
    let done = report(c.transferred(Outcome { done: vec![0, 1], error: None }));
    assert_eq!(done.result, Ok(Some("moved 2 files → /tmp/out".to_string())));
    assert_eq!(done.moved, vec![(3, "/tmp/out/a.jpg".to_string()), (5, "/tmp/out/b.jpg".to_string())]);
    assert!(done.changed.is_empty());
    assert_eq!(c.stage, Stage::Over);
}

#[test]
fn a_copy_that_stops_says_how_far_it_got_and_moves_nothing() {
    let (mut c, _) = start(Command::Transfer(Op::Copy));
    c.answered(Some("/out".to_string()));
    c.located("/out".to_string(), true, true, true);
    let plan = Plan { op: Op::Copy, steps: vec![step("/pics/a.jpg", "/out/a.jpg"), step("/pics/b.jpg", "/out/b.jpg")] };
    let (question, _, _) = yes_no(&c.planned(Ok(plan)));
    assert_eq!(question, "Copy 2 files to /out?");
    c.decided(Some(true));
    let done = report(c.transferred(Outcome { done: vec![0], error: Some("disk full".to_string()) }));
    assert_eq!(done.result, Err("copied 1 of 2, then stopped: disk full".to_string()));
    assert!(done.moved.is_empty());
}

#[test]
fn transfers_end_quietly_when_cancelled_or_refused() {
    let (mut c, _) = start(Command::Transfer(Op::Symlink));
    assert_eq!(report(c.answered(Some("   ".to_string()))).result, Ok(None));
    let (mut c, _) = start(Command::Transfer(Op::Symlink));
    assert_eq!(report(c.answered(None)).result, Ok(None));
    let (mut c, _) = start(Command::Transfer(Op::Hardlink));
    c.answered(Some("/etc/hosts".to_string()));
    assert_eq!(report(c.located("/etc/hosts".to_string(), true, false, true)).result, Err("not a folder: /etc/hosts".to_string()));
    let (mut c, _) = start(Command::Transfer(Op::Move));
    c.answered(Some("/out".to_string()));
    c.located("/out".to_string(), true, true, true);
    assert_eq!(report(c.planned(Err("exists: /out/a.jpg".to_string()))).result, Err("exists: /out/a.jpg".to_string()));
    let (mut c, _) = start(Command::Transfer(Op::Move));
    c.answered(Some("/out".to_string()));
    c.located("/out".to_string(), true, true, true);
    c.planned(Ok(Plan { op: Op::Move, steps: vec![step("/pics/a.jpg", "/out/a.jpg")] }));
    assert_eq!(report(c.decided(Some(false))).result, Ok(None));
}

#[test]
fn a_manual_order_may_keep_its_prefixes() {
    let (mut c, _) = Conversation::begin(Command::Transfer(Op::Copy), "workspace 1".to_string(), true, shown(), vec![0, 0], None);
    c.answered(Some("~/picked".to_string()));
    let a = c.located("/home/u/picked".to_string(), false, false, false);
    assert_eq!(
        yes_no(&a),
        ("Keep the manual order with numeric prefixes (001_name.jpg)?".to_string(), String::new(), true)
    );
    match c.decided(Some(true)) {
        Action::Plan { op, dest, prefix, .. } => assert_eq!((op, dest.as_str(), prefix), (Op::Copy, "/home/u/picked", true)),
        other => panic!("no plan: {other:?}"),
    }
}

#[test]
fn renaming_shows_an_example_and_reports() {
    let (mut c, a) = Conversation::begin(Command::Rename, "workspace 3".to_string(), true, shown(), vec![0, 0], None);
    match &a {
        Action::Plan { op, dest, prefix, .. } => assert_eq!((*op, dest.as_str(), *prefix), (Op::Rename, "", true)),
        other => panic!("no plan: {other:?}"),
    }
    let plan = Plan { op: Op::Rename, steps: vec![step("/pics/a.jpg", "/pics/1_a.jpg"), step("/pics/b.jpg", "/pics/2_b.jpg")] };
    let (question, _, default) = yes_no(&c.planned(Ok(plan)));
    assert_eq!(question, "Rename 2 files of workspace 3 in place, in manual order (1_a.jpg, …)?");
    assert!(!default);
    c.decided(Some(true));
    let done = report(c.transferred(Outcome { done: vec![1], error: None }));
    assert_eq!(done.result, Ok(Some("renamed 1 files → /pics".to_string())));
    assert_eq!(done.moved, vec![(5, "/pics/2_b.jpg".to_string())]);
}

#[test]
fn shell_commands_offer_history_first_then_run() {
    let (mut c, a) = start(Command::Shell);
    assert!(matches!(a, Action::History));
    let a = c.recalled(vec!["magick mogrify -strip {}".to_string(), "echo {}".to_string()]);
    match &a {
        Action::Ask(Prompt::Pick { title, offers, .. }) => {
            assert_eq!(title, "Shell command on all images (2 files, in display order)");
            assert_eq!(offers[0], ("magick mogrify -strip {}".to_string(), "history".to_string()));
            assert_eq!(offers[1], ("echo {}".to_string(), "history".to_string()));
            assert_eq!(offers.len(), 2 + suggestions().len() - 1);
            assert!(offers[2..].iter().all(|(l, n)| l != "magick mogrify -strip {}" && n != "history"));
        }
        other => panic!("no pick: {other:?}"),
    }
    let a = c.answered(Some("echo {}".to_string()));
    assert_eq!(
        yes_no(&a),
        ("Run these 2 commands?".to_string(), "echo '/pics/a.jpg'\necho '/pics/b.jpg'\nin /pics".to_string(), false)
    );
    match c.decided(Some(true)) {
        Action::Run(Some(note), Work::Shell { remember, jobs }) => {
            assert_eq!((note.as_str(), remember.as_str(), jobs.len()), ("running…", "echo {}", 2));
        }
        other => panic!("nothing to run: {other:?}"),
    }
    let done = report(c.ran(vec!["no such file".to_string()]));
    assert_eq!(done.result, Err("1 of 2 failed: no such file".to_string()));
    assert_eq!(done.changed, vec![3, 5]);
}

#[test]
fn one_shell_command_for_all_files() {
    let (mut c, _) = start(Command::Shell);
    c.recalled(Vec::new());
    let (question, detail, _) = yes_no(&c.answered(Some("zip x.zip {+}".to_string())));
    assert_eq!(question, "Run this command?");
    assert_eq!(detail, "zip x.zip '/pics/a.jpg' '/pics/b.jpg'\nin /pics");
    c.decided(Some(true));
    assert_eq!(report(c.ran(Vec::new())).result, Ok(Some("command finished".to_string())));
    let (mut c, _) = start(Command::Shell);
    c.recalled(Vec::new());
    assert_eq!(
        report(c.answered(Some("ls".to_string()))).result,
        Err("say where the files go: {} for each file, {+} for all at once".to_string())
    );
}

#[test]
fn many_shell_lines_are_cut_short() {
    let files: Vec<(usize, String)> = (0..5).map(|i| (i, format!("/p/{i}.jpg"))).collect();
    let (mut c, _) = Conversation::begin(Command::Shell, "all images".to_string(), false, files, vec![0; 5], None);
    c.recalled(Vec::new());
    let (question, detail, _) = yes_no(&c.answered(Some("rm {}".to_string())));
    assert_eq!(question, "Run these 5 commands?");
    assert_eq!(detail, "rm '/p/0.jpg'\nrm '/p/1.jpg'\nrm '/p/2.jpg'\n… and 2 more\nin /p");
    c.decided(Some(true));
    assert_eq!(report(c.ran(Vec::new())).result, Ok(Some("5 commands finished".to_string())));
}

#[test]
fn trashing_asks_and_reports_what_went() {
    let (mut c, a) = start(Command::Trash);
    assert_eq!(yes_no(&a), ("Move the 2 files of all images to the trash?".to_string(), "a.jpg\nb.jpg".to_string(), false));
    match c.decided(Some(true)) {
        Action::Run(None, Work::Trash(paths)) => assert_eq!(paths, vec!["/pics/a.jpg".to_string(), "/pics/b.jpg".to_string()]),
        other => panic!("nothing to run: {other:?}"),
    }
    let done = report(c.trashed(Outcome { done: vec![1], error: Some("permission denied".to_string()) }));
    assert_eq!(done.result, Err("trashed 1 of 2: permission denied".to_string()));
    assert_eq!(done.changed, vec![5]);
    let (mut c, _) = start(Command::Trash);
    c.decided(Some(true));
    assert_eq!(report(c.trashed(Outcome { done: vec![0, 1], error: None })).result, Ok(Some("2 files moved to the trash".to_string())));
}

#[test]
fn a_contact_sheet_finds_a_free_name_and_asks_for_its_layout() {
    let (mut c, a) = start(Command::ContactSheet);
    assert!(matches!(&a, Action::Probe(p) if p == "/pics/contact-sheet.jpg"));
    let a = c.probed(true);
    assert!(matches!(&a, Action::Probe(p) if p == "/pics/contact-sheet-2.jpg"));
    let a = c.probed(false);
    assert_eq!(
        line(&a),
        ("Contact sheet of all images (2 images) — output file".to_string(), "/pics/contact-sheet-2.jpg".to_string(), true)
    );
    assert!(matches!(c.answered(Some("/out/s.jpg".to_string())), Action::Locate(_)));
    let a = c.located("/out/s.jpg".to_string(), false, false, false);
    assert_eq!(line(&a), ("Columns".to_string(), "6".to_string(), false));
    let a = c.answered(Some(" +12 ".to_string()));
    assert_eq!(line(&a), ("Thumbnail size (px)".to_string(), "256".to_string(), false));
    let a = c.answered(Some("300".to_string()));
    assert_eq!(yes_no(&a), ("Label thumbnails with file names?".to_string(), String::new(), true));
    assert!(matches!(c.decided(Some(false)), Action::Style));
    let theme = Theme::parse("background = \"#101010\"\n");
    match c.styled(&theme, Some("/fonts/mono.ttf".to_string())) {
        Action::Run(Some(note), Work::Montage(sheet, files)) => {
            assert_eq!(note, "magick montage…");
            assert_eq!((sheet.output.as_str(), sheet.columns, sheet.thumb_size, sheet.labels), ("/out/s.jpg", 12, 300, false));
            assert_eq!((sheet.background.as_str(), sheet.foreground.as_str()), ("#101010", theme.color("foreground")));
            assert_eq!(sheet.font.as_deref(), Some("/fonts/mono.ttf"));
            assert_eq!(files.len(), 2);
        }
        other => panic!("nothing to draw: {other:?}"),
    }
    assert_eq!(report(c.drawn(Ok(()))).result, Ok(Some("contact sheet → /out/s.jpg".to_string())));
}

#[test]
fn contact_sheet_answers_out_of_range_are_refused() {
    let (mut c, _) = start(Command::ContactSheet);
    c.probed(false);
    c.answered(Some("/out/s.jpg".to_string()));
    assert_eq!(report(c.located("/out/s.jpg".to_string(), true, false, true)).result, Err("exists: /out/s.jpg".to_string()));
    let (mut c, _) = start(Command::ContactSheet);
    c.probed(false);
    c.answered(Some("/out/s.jpg".to_string()));
    c.located("/out/s.jpg".to_string(), false, false, false);
    assert_eq!(report(c.answered(Some("0".to_string()))).result, Err("columns: 1–100".to_string()));
    let (mut c, _) = start(Command::ContactSheet);
    c.probed(false);
    c.answered(Some("/out/s.jpg".to_string()));
    c.located("/out/s.jpg".to_string(), false, false, false);
    c.answered(Some("100".to_string()));
    assert_eq!(report(c.answered(Some("15".to_string()))).result, Err("size: 16–4096 px".to_string()));
    let (mut c, _) = start(Command::ContactSheet);
    c.probed(false);
    c.answered(Some("/out/s.jpg".to_string()));
    c.located("/out/s.jpg".to_string(), false, false, false);
    c.answered(Some("1".to_string()));
    c.answered(Some("4096".to_string()));
    c.decided(Some(true));
    c.styled(&Theme::parse(""), None);
    assert_eq!(report(c.drawn(Err("magick failed".to_string()))).result, Err("magick failed".to_string()));
}

#[test]
fn opening_the_folder_names_the_file() {
    let (mut c, a) =
        Conversation::begin(Command::OpenFolder, "all images".to_string(), false, shown(), vec![0, 0], Some("/pics/a.jpg".to_string()));
    assert!(matches!(&a, Action::Open(p) if p == "/pics/a.jpg"));
    assert_eq!(report(c.opened()).result, Ok(Some("opened folder of a.jpg".to_string())));
    let (_, a) = start(Command::Unbin);
    assert!(matches!(a, Action::Unbin));
    let (_, a) = start(Command::Help);
    assert!(matches!(a, Action::Help));
}

fn three_shown() -> Vec<(usize, String)> {
    vec![(3, "/pics/a.jpg".to_string()), (5, "/pics/b.jpg".to_string()), (8, "/pics/c.jpg".to_string())]
}

#[test]
fn saving_rotations_asks_then_writes_the_pending_ones() {
    let (mut c, a) =
        Conversation::begin(Command::SaveRotations, "workspace 2".to_string(), false, three_shown(), vec![1, 0, 3], None);
    assert_eq!(
        yes_no(&a),
        ("Write the rotation of 2 JPEGs in workspace 2 to the files (EXIF orientation, lossless)?".to_string(), String::new(), false)
    );
    assert_eq!(c.stage, Stage::ConfirmRotate);
    match c.decided(Some(true)) {
        Action::Run(None, Work::Rotate(jobs)) => {
            assert_eq!(jobs, vec![(3, "/pics/a.jpg".to_string(), 1), (8, "/pics/c.jpg".to_string(), 3)]);
        }
        other => panic!("not a rotation: {other:?}"),
    }
    assert_eq!(c.stage, Stage::Rotating);
    let rep = report(c.rotated(vec![Ok(()), Ok(())]));
    assert_eq!(rep.result, Ok(Some("rotation of 2 files saved".to_string())));
    assert_eq!(rep.rotated, vec![(3, 1), (8, 3)]);
    assert_eq!(rep.changed, vec![3, 8]);
    assert!(rep.moved.is_empty());
}

#[test]
fn a_failed_rotation_is_reported_with_what_was_saved() {
    let (mut c, _) =
        Conversation::begin(Command::SaveRotations, "all images".to_string(), false, three_shown(), vec![2, 1, 1], None);
    c.decided(Some(true));
    let rep = report(c.rotated(vec![
        Ok(()),
        Err("/pics/b.jpg: only JPEG files can be rotated".to_string()),
        Err("/pics/c.jpg: gone".to_string()),
    ]));
    assert_eq!(rep.result, Err("saved 1, but /pics/b.jpg: only JPEG files can be rotated".to_string()));
    assert_eq!(rep.rotated, vec![(3, 2)]);
    assert_eq!(rep.changed, vec![3]);
}

#[test]
fn saving_rotations_needs_a_yes() {
    let (mut c, _) =
        Conversation::begin(Command::SaveRotations, "all images".to_string(), false, three_shown(), vec![0, 1, 0], None);
    let rep = report(c.decided(Some(false)));
    assert_eq!(rep.result, Ok(None));
    assert!(rep.rotated.is_empty());
    let (mut c, _) =
        Conversation::begin(Command::SaveRotations, "all images".to_string(), false, three_shown(), vec![0, 1, 0], None);
    assert_eq!(report(c.decided(None)).result, Ok(None));
}
