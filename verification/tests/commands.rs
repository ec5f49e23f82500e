use omapic::commands::{default_dir, free_name, name_list, preview, titles, transfer_verbs};
use omapic::fsops::{Op, Plan, Step};

#[test]
fn twelve_commands() {
    let t = titles();
    assert_eq!(t.len(), 12);
    assert_eq!(t[0], "Move workspace to folder…");
    assert_eq!(t[11], "Keyboard shortcuts");
    assert_eq!(transfer_verbs(Op::Hardlink), ("Hard-link", "hard-linked"));
    assert_eq!(transfer_verbs(Op::Rename), ("Copy", "copied"));
}

#[test]
fn previews_show_five_steps_and_count_the_rest() {
    let steps = (1..=7)
        .map(|i| Step { src: format!("/d/{i}.jpg"), dst: format!("/o/00{i}_{i}.jpg") })
        .collect();
    let text = preview(&Plan { op: Op::Copy, steps });
    let lines: Vec<&str> = text.lines().collect();
    assert_eq!(lines.len(), 6);
    assert_eq!(lines[0], "1.jpg  →  001_1.jpg");
    assert_eq!(lines[5], "… and 2 more");
}

#[test]
fn name_lists_and_default_folders() {
    let files: Vec<(usize, String)> = vec![(3, "/pics/x/a.jpg".into()), (4, "/pics/x/b.jpg".into())];
    assert_eq!(name_list(&files), "a.jpg\nb.jpg");
    assert_eq!(default_dir(&files), "/pics/x/");
    assert_eq!(default_dir(&[]), "/");
    assert_eq!(default_dir(&[(0, "/a.jpg".into())]), "/");
}

#[test]
fn free_names_count_up() {
    assert_eq!(free_name("/o", "contact-sheet", "jpg", 1), "/o/contact-sheet.jpg");
    assert_eq!(free_name("/o/", "contact-sheet", "jpg", 3), "/o/contact-sheet-3.jpg");
}
