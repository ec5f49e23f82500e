use omapic::theme::Theme;

#[test]
fn parses_colors_and_falls_back() {
    let t = Theme::parse("mode = \"dark\"\n# c\naccent = \"#ff0000\"\nbroken = \"#xyz\"\n");
    assert_eq!(t.color("accent"), "#ff0000");
    assert_eq!(t.color("background"), "#161616");
    assert!(t.css("").contains("@define-color om_accent #ff0000;"));
}

#[test]
fn later_lines_win_and_unknown_names_are_grey() {
    let t = Theme::parse("accent = '#fff'\naccent=\"#123\"\r\naccent = \"#12345678\"\nfoo = \"#abcdef\"\n");
    assert_eq!(t.color("accent"), "#12345678");
    assert_eq!(t.color("foo"), "#abcdef");
    assert_eq!(t.color("nothing"), "#808080");
}

#[test]
fn css_defines_every_fallback_name_then_the_style() {
    let css = Theme::parse("").css("window {}");
    assert!(css.starts_with("@define-color om_background #161616;\n@define-color om_dark_background #0c0c0c;\n"));
    assert!(css.ends_with("@define-color om_red #ee5396;\nwindow {}"));
    assert_eq!(css.lines().count(), 9);
}
