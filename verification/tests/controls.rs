use omapic::controls::{command, evict, hints, info, unsaved, navigation_target, preview_targets, splice, strip, view_name, Command, HintContext, Key, Mods, Situation};
use std::collections::{HashSet, VecDeque};

const NONE: Mods = Mods { ctrl: false, alt: false, shift: false };
const QUIET: Situation = Situation { palette_open: false, actual_size: false, enlarged: false };

#[test]
fn keys_and_what_they_do() {
    assert_eq!(command(Key::Digit(3), NONE, QUIET), Command::Assign(Some(3)));
    assert_eq!(command(Key::Digit(0), NONE, QUIET), Command::Assign(None));
    let alt = Mods { alt: true, ..NONE };
    let ctrl = Mods { ctrl: true, ..NONE };
    let shift = Mods { shift: true, ..NONE };
    assert_eq!(command(Key::Digit(4), alt, QUIET), Command::ShowWorkspace(4));
    assert_eq!(command(Key::Digit(4), ctrl, QUIET), Command::Pass);
    assert_eq!(command(Key::Char('k'), ctrl, QUIET), Command::OpenCommands);
    assert_eq!(command(Key::Char('r'), ctrl, QUIET), Command::Redo);
    assert_eq!(command(Key::Char('s'), alt, QUIET), Command::Pass);
    assert_eq!(command(Key::Char('k'), NONE, QUIET), Command::Navigate(0, -1));
    assert_eq!(command(Key::Left, shift, QUIET), Command::MoveSelected(-1));
    assert_eq!(command(Key::Char('L'), NONE, QUIET), Command::MoveSelected(1));
    assert_eq!(command(Key::Char(' '), NONE, QUIET), Command::ToggleEnlarged);
    assert_eq!(command(Key::Escape, NONE, QUIET), Command::Pass);
    assert_eq!(command(Key::Escape, NONE, Situation { enlarged: true, ..QUIET }), Command::ToggleEnlarged);
    assert_eq!(
        command(Key::Escape, NONE, Situation { enlarged: true, actual_size: true, ..QUIET }),
        Command::ToggleActualSize
    );
    assert_eq!(command(Key::Char('q'), NONE, Situation { palette_open: true, ..QUIET }), Command::Pass);
}

#[test]
fn hints_follow_the_situation() {
    let grid = HintContext { empty: false, in_workspace: true, enlarged: false, actual_size: false, selected_binned: true, manual: true };
    assert_eq!(
        hints(grid),
        [("?", "keys"), ("1-9", "rebin"), ("0", "unbin"), ("H L", "reorder"), ("s", "unsort"), ("alt+0", "all"), (":", "actions")]
    );
    let empty = HintContext { empty: true, in_workspace: false, ..grid };
    assert_eq!(hints(empty), [("?", "keys")]);
    let big = HintContext { enlarged: true, actual_size: true, ..grid };
    assert_eq!(hints(big), [("?", "keys"), ("drag", "pan"), ("z", "fit"), ("←→", "compare")]);
}

#[test]
fn arrows_in_the_grid() {
    // 10 images in rows of 4: the last row holds 8 and 9.
    assert_eq!(navigation_target(10, None, 0, 1, 4), Some(0));
    assert_eq!(navigation_target(10, Some(0), -1, 0, 4), None);
    assert_eq!(navigation_target(10, Some(9), 1, 0, 4), None);
    assert_eq!(navigation_target(10, Some(2), 0, 1, 4), Some(6));
    assert_eq!(navigation_target(10, Some(6), 0, 1, 4), Some(9)); // short last row
    assert_eq!(navigation_target(10, Some(1), 0, -1, 4), None);
    assert_eq!(navigation_target(0, None, 1, 0, 4), None);
}

#[test]
fn splicing_keeps_both_ends() {
    let have = vec![1, 2, 3, 4, 5];
    let want = vec![1, 2, 9, 5];
    let s = splice(&have, &want);
    assert_eq!((s.prefix, s.removed, s.added.clone()), (2, 2, vec![9]));
    let mut got = have[..s.prefix].to_vec();
    got.extend(&s.added);
    got.extend(&have[s.prefix + s.removed..]);
    assert_eq!(got, want);
}

#[test]
fn status_texts() {
    let counts = [5, 0, 2, 0, 0, 0, 0, 0, 0, 0];
    assert_eq!(
        strip(&counts, 3),
        vec![("all 5".to_string(), false), ("2:2".to_string(), false), ("3:0".to_string(), true)]
    );
    assert_eq!(info(2, 7, true), "2/7  ·  manual");
    assert_eq!(view_name(0), "all images");
    assert_eq!(view_name(4), "workspace 4");
}

#[test]
fn thumbnails_on_screen_are_spared() {
    let mut order: VecDeque<usize> = [1, 2, 3, 4, 5].into_iter().collect();
    let bound: HashSet<usize> = [1, 3].into_iter().collect();
    let dropped = evict(&mut order, &bound, 3);
    assert_eq!(dropped, vec![2, 4]);
    assert_eq!(order, VecDeque::from(vec![5, 1, 3]));
}

#[test]
fn the_preview_follows_the_pointer_and_readies_neighbours() {
    let view = vec![4, 7, 2, 9];
    // Selected image: itself, then the one after and the one before.
    assert_eq!(preview_targets(None, false, Some(2), &view), Some((2, vec![9, 7])));
    assert_eq!(preview_targets(None, false, Some(4), &view), Some((4, vec![7])));
    assert_eq!(preview_targets(None, false, Some(9), &view), Some((9, vec![2])));
    // The pointer wins unless the preview is enlarged; no neighbours then.
    assert_eq!(preview_targets(Some(7), false, Some(2), &view), Some((7, vec![])));
    assert_eq!(preview_targets(Some(7), true, Some(2), &view), Some((2, vec![9, 7])));
    // A selection outside the view has no neighbours; nothing at all, nothing shown.
    assert_eq!(preview_targets(None, false, Some(5), &view), Some((5, vec![])));
    assert_eq!(preview_targets(None, false, None, &view), None);
    assert_eq!(preview_targets(Some(7), true, None, &view), None);
}

#[test]
fn r_turns_right_and_shift_r_left() {
    assert_eq!(command(Key::Char('r'), NONE, QUIET), Command::Rotate(1));
    assert_eq!(command(Key::Char('R'), NONE, QUIET), Command::Rotate(3));
    assert_eq!(command(Key::Char('r'), Mods { alt: true, ..NONE }, QUIET), Command::Pass);
    assert_eq!(command(Key::Char('r'), NONE, Situation { palette_open: true, ..QUIET }), Command::Pass);
}

#[test]
fn unsaved_rotations_are_counted() {
    assert_eq!(unsaved(0), "");
    assert_eq!(unsaved(1), "1 unsaved rotation");
    assert_eq!(unsaved(12), "12 unsaved rotations");
}
