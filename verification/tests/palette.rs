use omapic::commands::titles;
use omapic::palette::{acceptance, answer_yes, command_list, hint, offer_list, query_matches, reaction, row_after, Acceptance, Mode, PaletteKey, Reaction, OFFERED};

#[test]
fn yes_no_answers() {
    assert!(answer_yes("", true));
    assert!(!answer_yes("", false));
    assert!(answer_yes("  ", true));
    assert!(answer_yes("y", false));
    assert!(answer_yes(" YES ", false));
    assert!(answer_yes("j", false));
    assert!(answer_yes("Ja", false));
    assert!(!answer_yes("n", true));
    assert!(!answer_yes("yep", true));
    assert!(!answer_yes("no", true));
}

#[test]
fn every_word_must_occur() {
    assert!(query_matches("", "anything"));
    assert!(query_matches("move", "Move workspace to folder…"));
    assert!(query_matches("fold MOVE", "Move workspace to folder…"));
    assert!(!query_matches("move trash copy", "Move workspace to trash…"));
    assert!(!query_matches("zip", "Copy workspace to folder…"));
}

#[test]
fn commands_narrow_down_in_order() {
    let commands = titles();
    assert_eq!(command_list("", &commands), (0..commands.len()).collect::<Vec<_>>());
    assert_eq!(command_list("workspace folder", &commands), vec![0, 1, 2, 3]);
    assert_eq!(command_list("trash", &commands), vec![8]);
    assert_eq!(command_list("shortcuts", &commands), vec![11]);
    assert!(command_list("nothing like this", &commands).is_empty());
}

#[test]
fn offers_skip_the_entry_and_stop_at_a_dozen() {
    let offers: Vec<(String, String)> = (0..20)
        .map(|i| (format!("magick line {i}"), if i % 2 == 0 { "history".to_string() } else { "suggested".to_string() }))
        .collect();
    assert_eq!(offer_list("", &offers, "").len(), OFFERED);
    assert_eq!(offer_list("history", &offers, ""), vec![0, 2, 4, 6, 8, 10, 12, 14, 16, 18]);
    assert_eq!(offer_list("line 1", &offers, "magick line 1"), vec![10, 11, 12, 13, 14, 15, 16, 17, 18, 19]);
    assert_eq!(offer_list("suggested 3", &offers, ""), vec![3, 13]);
}

#[test]
fn rows_wrap_around() {
    assert_eq!(row_after(0, None, 1), None);
    assert_eq!(row_after(3, None, 1), Some(0));
    assert_eq!(row_after(3, None, -1), Some(2));
    assert_eq!(row_after(3, Some(2), 1), Some(0));
    assert_eq!(row_after(3, Some(0), -1), Some(2));
    assert_eq!(row_after(3, Some(1), 1), Some(2));
    assert_eq!(row_after(5, Some(1), -7), Some(4));
}

#[test]
fn palette_keys() {
    let folder = Mode::Prompt { complete_dirs: true };
    let plain = Mode::Prompt { complete_dirs: false };
    assert_eq!(reaction(Mode::Help, PaletteKey::Modifier, false), Reaction::Swallow);
    assert_eq!(reaction(Mode::Help, PaletteKey::Char('x'), false), Reaction::Close);
    assert_eq!(reaction(Mode::Help, PaletteKey::Escape, false), Reaction::Close);
    assert_eq!(reaction(Mode::Commands, PaletteKey::Escape, false), Reaction::Close);
    assert_eq!(reaction(Mode::Commands, PaletteKey::Down, false), Reaction::Move(1));
    assert_eq!(reaction(Mode::Pick, PaletteKey::Up, false), Reaction::Move(-1));
    assert_eq!(reaction(Mode::Pick, PaletteKey::Char('n'), true), Reaction::Move(1));
    assert_eq!(reaction(Mode::Commands, PaletteKey::Char('p'), true), Reaction::Move(-1));
    assert_eq!(reaction(Mode::Commands, PaletteKey::Char('p'), false), Reaction::Pass);
    assert_eq!(reaction(Mode::Commands, PaletteKey::BackTab, false), Reaction::Move(-1));
    assert_eq!(reaction(folder, PaletteKey::Tab, false), Reaction::Complete);
    assert_eq!(reaction(plain, PaletteKey::Tab, false), Reaction::Swallow);
    assert_eq!(reaction(plain, PaletteKey::Down, false), Reaction::Pass);
    assert_eq!(reaction(folder, PaletteKey::Char('n'), true), Reaction::Pass);
}

#[test]
fn palette_hints() {
    assert_eq!(hint(Mode::Prompt { complete_dirs: true }), "enter accept · tab complete · esc cancel");
    assert_eq!(hint(Mode::Prompt { complete_dirs: false }), "enter accept · esc cancel");
    assert_eq!(hint(Mode::Pick), "↑↓ pick a line to edit · enter run · esc cancel");
    assert_eq!(hint(Mode::Help), "any key to close");
    assert_eq!(hint(Mode::Commands), "");
}

#[test]
fn enter_in_the_palette() {
    let listed = vec![4, 9];
    assert_eq!(acceptance(Mode::Commands, Some(1), &listed), Acceptance::Run(Some(9)));
    assert_eq!(acceptance(Mode::Commands, None, &listed), Acceptance::Run(None));
    assert_eq!(acceptance(Mode::Commands, Some(2), &listed), Acceptance::Run(None));
    assert_eq!(acceptance(Mode::Pick, Some(0), &listed), Acceptance::Edit(Some(4)));
    assert_eq!(acceptance(Mode::Pick, None, &listed), Acceptance::Reply);
    assert_eq!(acceptance(Mode::Prompt { complete_dirs: true }, Some(0), &listed), Acceptance::Reply);
    assert_eq!(acceptance(Mode::Help, None, &listed), Acceptance::Close);
}
