use omapic::history::{entries, remembered, render};

#[test]
fn newest_first_without_duplicates_in_text() {
    let mut list: Vec<String> = entries("");
    assert!(list.is_empty());
    for command in ["a {}", "b {}", "a {}", "  c {+} "] {
        list = entries(&render(&remembered(&list, command)));
    }
    assert_eq!(list, ["c {+}", "a {}", "b {}"]);
}

#[test]
fn reading_gives_back_what_was_written() {
    let list: Vec<String> = vec!["x {}".into(), "y {+}".into(), "z".into()];
    assert_eq!(render(&list), "z\ny {+}\nx {}\n");
    assert_eq!(entries(&render(&list)), list);
}

#[test]
fn blank_lines_and_carriage_returns() {
    assert_eq!(entries("old\r\n\n   \nnew\n"), ["new", "old"]);
}

#[test]
fn commands_go_on_one_line_and_at_most_two_hundred_stay() {
    let many: Vec<String> = (0..250).map(|i| format!("cmd {i}")).collect();
    let kept = remembered(&many, " two\nlines ");
    assert_eq!(kept.len(), 200);
    assert_eq!(kept[0], "two lines");
    assert_eq!(kept[1], "cmd 0");
}
