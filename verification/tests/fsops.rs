use omapic::fsops;
use omapic::fsops::{check, completion_parts, expand, plan, prefix_width, steps, strip_order_prefix, Op, Probe, Step};

#[test]
fn prefixes() {
    assert_eq!(prefix_width(1), 3);
    assert_eq!(prefix_width(999), 3);
    assert_eq!(prefix_width(1000), 4);
    assert_eq!(strip_order_prefix("001_a.jpg"), "a.jpg");
    assert_eq!(strip_order_prefix("0012_a.jpg"), "a.jpg");
    assert_eq!(strip_order_prefix("01_a.jpg"), "01_a.jpg");
    assert_eq!(strip_order_prefix("2024_"), "2024_");
    assert_eq!(strip_order_prefix("holiday.jpg"), "holiday.jpg");
}

fn fine(n: usize) -> Vec<Probe> {
    vec![Probe { source_is_file: true, target_exists: false }; n]
}

#[test]
fn copy_with_order_prefix_plans_numbered_names() {
    let files = vec!["/d/b.jpg".to_string(), "/d/a.jpg".to_string()];
    let p = plan(Op::Copy, &files, "/d/out/nested", true, &fine(2)).unwrap();
    assert_eq!(p.op, Op::Copy);
    assert_eq!(
        p.steps,
        vec![
            Step { src: "/d/b.jpg".into(), dst: "/d/out/nested/001_b.jpg".into() },
            Step { src: "/d/a.jpg".into(), dst: "/d/out/nested/002_a.jpg".into() },
        ]
    );
}

#[test]
fn renumbering_in_place_strips_old_prefixes() {
    let files = vec!["/d/002_x.jpg".to_string(), "/d/001_x.jpg".to_string()];
    let probes = vec![Probe { source_is_file: true, target_exists: true }; 2];
    let p = plan(Op::Rename, &files, "", true, &probes).unwrap();
    assert_eq!(p.steps[0].dst, "/d/001_x.jpg");
    assert_eq!(p.steps[1].dst, "/d/002_x.jpg");
}

#[test]
fn collisions_are_refused_before_anything_moves() {
    let files = vec!["/d/a.jpg".to_string(), "/d/b.jpg".to_string()];
    let probes = vec![
        Probe { source_is_file: true, target_exists: false },
        Probe { source_is_file: true, target_exists: true },
    ];
    assert_eq!(plan(Op::Move, &files, "/d/out", false, &probes).unwrap_err(), "exists: /d/out/b.jpg");

    let twins = vec!["/d/a.jpg".to_string(), "/e/a.jpg".to_string()];
    assert_eq!(
        plan(Op::Copy, &twins, "/n", false, &fine(2)).unwrap_err(),
        "/d/a.jpg and /e/a.jpg would both become /n/a.jpg"
    );
}

#[test]
fn every_kind_of_problem_is_reported() {
    assert_eq!(plan(Op::Move, &[], "/x", false, &[]).unwrap_err(), "no images in this workspace");
    let bad = vec!["/d/a.jpg".to_string(), "/".to_string()];
    assert_eq!(steps(Op::Move, &bad, "/x", false).unwrap_err(), "unusable file name: /");
    let files = vec!["/d/a.jpg".to_string()];
    let missing = vec![Probe { source_is_file: false, target_exists: false }];
    assert_eq!(plan(Op::Copy, &files, "/x", false, &missing).unwrap_err(), "missing: /d/a.jpg");
    assert_eq!(plan(Op::Copy, &files, "/d/", false, &fine(1)).unwrap_err(), "/d/a.jpg is already there");
    // A rename that leaves a name as it is is fine.
    assert!(plan(Op::Rename, &files, "", false, &fine(1)).is_ok());
}

#[test]
fn long_reports_name_three_problems_and_count_the_rest() {
    let files: Vec<String> = (0..5).map(|i| format!("/d/{i}.jpg")).collect();
    let missing = vec![Probe { source_is_file: false, target_exists: false }; 5];
    assert_eq!(
        plan(Op::Copy, &files, "/x", false, &missing).unwrap_err(),
        "missing: /d/0.jpg; missing: /d/1.jpg; missing: /d/2.jpg; and 2 more"
    );
}

#[test]
fn same_path_means_same_components() {
    let s = vec![Step { src: "/d/a.jpg".into(), dst: "/d//./a.jpg".into() }];
    assert_eq!(check(Op::Move, &s, &fine(1)).unwrap_err(), "/d/a.jpg is already there");
    let s = vec![
        Step { src: "/d/a.jpg".into(), dst: "/x/a.jpg".into() },
        Step { src: "/d/b.jpg".into(), dst: "/x/./a.jpg/".into() },
    ];
    assert_eq!(check(Op::Copy, &s, &fine(2)).unwrap_err(), "/d/a.jpg and /d/b.jpg would both become /x/./a.jpg/");
}

#[test]
fn a_rename_may_land_where_another_step_leaves() {
    let s = vec![
        Step { src: "/d/b.jpg".into(), dst: "/d/a.jpg".into() },
        Step { src: "/d/a.jpg".into(), dst: "/d/b.jpg".into() },
    ];
    let busy = vec![Probe { source_is_file: true, target_exists: true }; 2];
    assert!(check(Op::Rename, &s, &busy).is_ok());
    assert_eq!(check(Op::Move, &s, &busy).unwrap_err(), "exists: /d/a.jpg; exists: /d/b.jpg");
}

#[test]
fn home_expansion() {
    assert_eq!(expand("  ~  ", "/home/me"), "/home/me");
    assert_eq!(expand("~/pics", "/home/me"), "/home/me/pics");
    assert_eq!(expand("~other/pics", "/home/me"), "~other/pics");
    assert_eq!(expand("/abs/x", "/home/me"), "/abs/x");
}

#[test]
fn completion() {
    let names: Vec<String> = ["alpha", "alpine", "beta", ".hidden"].iter().map(|s| s.to_string()).collect();
    assert_eq!(fsops::completion("/base", "a", &names), Some("/base/alp".to_string()));
    assert_eq!(fsops::completion("/base", "b", &names), Some("/base/beta/".to_string()));
    assert_eq!(fsops::completion("/base", "z", &names), None);
    assert_eq!(fsops::completion("/base", "", &names), Some("/base/".to_string()));
    assert_eq!(fsops::completion("/base", ".", &names), Some("/base/.hidden/".to_string()));
    assert_eq!(completion_parts("/base/al"), Some(("/base".to_string(), "al".to_string())));
    assert_eq!(completion_parts("nothing"), None);
}
