use omapic::fsops::{execute, Action, Op, Plan, Step};

fn step(src: &str, dst: &str) -> Step {
    Step { src: src.into(), dst: dst.into() }
}

/// Run `plan`, answering each transfer with `answer` and recording the actions.
fn run(plan: &Plan, answer: impl Fn(&Action) -> Result<(), String>) -> (Vec<Action>, Vec<usize>, Option<String>) {
    let mut e = execute(plan, 42);
    let mut actions = Vec::new();
    let mut last = Ok(());
    loop {
        let a = e.next(last);
        if a == Action::Finish {
            break;
        }
        last = answer(&a);
        actions.push(a);
    }
    let o = e.outcome();
    (actions, o.done, o.error)
}

#[test]
fn a_copy_makes_the_folder_then_copies_in_order() {
    let plan = Plan { op: Op::Copy, steps: vec![step("/d/b.jpg", "/o/n/001_b.jpg"), step("/d/a.jpg", "/o/n/002_a.jpg")] };
    let (actions, done, error) = run(&plan, |_| Ok(()));
    assert_eq!(
        actions,
        vec![
            Action::CreateDirs("/o/n".into()),
            Action::Transfer(Op::Copy, "/d/b.jpg".into(), "/o/n/001_b.jpg".into()),
            Action::Transfer(Op::Copy, "/d/a.jpg".into(), "/o/n/002_a.jpg".into()),
        ]
    );
    assert_eq!(done, vec![0, 1]);
    assert_eq!(error, None);
}

#[test]
fn a_failure_stops_the_rest() {
    let plan = Plan {
        op: Op::Move,
        steps: vec![step("/d/a.jpg", "/o/a.jpg"), step("/d/b.jpg", "/o/b.jpg"), step("/d/c.jpg", "/o/c.jpg")],
    };
    let (actions, done, error) =
        run(&plan, |a| if matches!(a, Action::Transfer(_, s, _) if s == "/d/b.jpg") { Err("exists: /o/b.jpg".into()) } else { Ok(()) });
    assert_eq!(actions.len(), 3);
    assert_eq!(done, vec![0]);
    assert_eq!(error.as_deref(), Some("exists: /o/b.jpg"));
}

#[test]
fn renumbering_parks_the_files_first() {
    let plan = Plan {
        op: Op::Rename,
        steps: vec![step("/d/002_x.jpg", "/d/001_x.jpg"), step("/d/001_x.jpg", "/d/002_x.jpg"), step("/d/c.jpg", "/d/c.jpg")],
    };
    let (actions, done, error) = run(&plan, |_| Ok(()));
    assert_eq!(
        actions,
        vec![
            Action::Transfer(Op::Rename, "/d/002_x.jpg".into(), "/d/.omapic-42-0.tmp".into()),
            Action::Transfer(Op::Rename, "/d/001_x.jpg".into(), "/d/.omapic-42-1.tmp".into()),
            Action::Transfer(Op::Rename, "/d/.omapic-42-0.tmp".into(), "/d/001_x.jpg".into()),
            Action::Transfer(Op::Rename, "/d/.omapic-42-1.tmp".into(), "/d/002_x.jpg".into()),
        ]
    );
    assert_eq!(done, vec![0, 1, 2]);
    assert_eq!(error, None);
}

#[test]
fn failed_parking_is_rolled_back() {
    let plan = Plan {
        op: Op::Rename,
        steps: vec![step("/d/a.jpg", "/d/b.jpg"), step("/d/b.jpg", "/d/c.jpg"), step("/d/c.jpg", "/d/a.jpg")],
    };
    let (actions, done, error) = run(&plan, |a| {
        if matches!(a, Action::Transfer(_, s, _) if s == "/d/c.jpg") { Err("busy".into()) } else { Ok(()) }
    });
    assert_eq!(
        actions[3..],
        [
            Action::PutBack("/d/.omapic-42-1.tmp".into(), "/d/b.jpg".into()),
            Action::PutBack("/d/.omapic-42-0.tmp".into(), "/d/a.jpg".into()),
        ]
    );
    assert!(done.is_empty());
    assert_eq!(error.as_deref(), Some("busy"));
}

#[test]
fn a_failed_unpark_puts_the_file_back_and_goes_on() {
    let plan = Plan { op: Op::Rename, steps: vec![step("/d/a.jpg", "/d/b.jpg"), step("/d/b.jpg", "/d/a.jpg")] };
    let (actions, done, error) = run(&plan, |a| {
        if matches!(a, Action::Transfer(_, s, d) if s.ends_with("-0.tmp") && d == "/d/b.jpg") { Err("no".into()) } else { Ok(()) }
    });
    assert_eq!(actions[3], Action::PutBack("/d/.omapic-42-0.tmp".into(), "/d/a.jpg".into()));
    assert_eq!(done, vec![1]);
    assert_eq!(error.as_deref(), Some("no"));
}
