use omapic::shell::{complaint, expand, quote, suggestions, PLACEHOLDERS};

fn files() -> Vec<String> {
    vec!["/pics/a b.jpg".into(), "/pics/it's.png".into()]
}

#[test]
fn per_file_placeholders() {
    let jobs = expand("magick {} -resize 50% {.}_s.jpg # {/} {/.} {//}", &files()).unwrap();
    assert_eq!(jobs.len(), 2);
    assert_eq!(jobs[0].line, "magick '/pics/a b.jpg' -resize 50% '/pics/a b'_s.jpg # 'a b.jpg' 'a b' '/pics'");
    assert_eq!(jobs[1].line.split(" -resize").next().unwrap(), r"magick '/pics/it'\''s.png'");
    assert_eq!((jobs[1].cwd.as_str(), jobs[1].files.as_slice()), ("/pics", &[1][..]));
}

#[test]
fn all_at_once() {
    let jobs = expand("magick {+} out.pdf", &files()).unwrap();
    assert_eq!(jobs.len(), 1);
    assert_eq!(jobs[0].line, r"magick '/pics/a b.jpg' '/pics/it'\''s.png' out.pdf");
    assert_eq!(jobs[0].files, vec![0, 1]);
}

#[test]
fn refuses_unclear_templates() {
    assert!(expand("ls", &files()).is_err());
    assert!(expand("cp {} {+}", &files()).is_err());
    assert!(expand("ls {}", &[]).is_err());
    // Braces that are no placeholder pass through.
    assert_eq!(expand("echo {a,b} ${x} {}", &files()[..1]).unwrap()[0].line, "echo {a,b} ${x} '/pics/a b.jpg'");
}

#[test]
fn suggestions_expand() {
    for (template, _) in suggestions() {
        assert!(expand(template, &files()).is_ok(), "{template}");
    }
}

#[test]
fn each_refusal_says_why() {
    assert_eq!(expand("ls {}", &[]).unwrap_err(), "no images to run this on");
    assert_eq!(
        expand("cp {} {+}", &files()).unwrap_err(),
        "{+} (all at once) cannot be mixed with per-file placeholders"
    );
    assert_eq!(expand("ls", &files()).unwrap_err(), "say where the files go: {} for each file, {+} for all at once");
}

#[test]
fn templates_are_trimmed_and_files_without_folder_run_at_the_root() {
    let jobs = expand("  echo {}\t\n", &["x.jpg".to_string()]).unwrap();
    assert_eq!(jobs[0].line, "echo 'x.jpg'");
    assert_eq!(jobs[0].cwd, "");
    let jobs = expand("echo {//}", &["/".to_string()]).unwrap();
    assert_eq!(jobs[0].line, "echo '/'");
    assert_eq!(jobs[0].cwd, "/");
}

#[test]
fn the_placeholder_help_names_them_all() {
    for token in ["{}", "{.}", "{/}", "{/.}", "{//}", "{+}"] {
        assert!(PLACEHOLDERS.contains(token));
    }
}

fn chars(s: &str) -> Vec<char> {
    s.chars().collect()
}

#[test]
fn quote_wraps_and_escapes_single_quotes() {
    assert_eq!(quote(&chars("it's")), chars(r"'it'\''s'"));
    assert_eq!(quote(&chars("")), chars("''"));
    assert_eq!(quote(&chars("a b")), chars("'a b'"));
}

#[test]
fn complaint_is_the_first_line_with_text() {
    assert_eq!(complaint(b"\n  \nboom\nmore", Some(1)), "boom");
    assert_eq!(complaint(b"x\r\n", Some(1)), "x");
}

#[test]
fn complaint_falls_back_to_the_exit_status() {
    assert_eq!(complaint(b"", Some(2)), "exit status 2");
    assert_eq!(complaint(b" \n\t\n", Some(3)), "exit status 3");
    assert_eq!(complaint(b"", None), "exit status -1");
    assert_eq!(complaint(b"", Some(-4)), "exit status -4");
}
