use omapic::model::Session;

fn session(n: usize) -> Session {
    Session::new((0..n).map(|i| format!("/p/{i}.jpg")).collect())
}

#[test]
fn assignment_is_exclusive() {
    let mut s = session(3);
    s.assign(1, Some(1));
    s.assign(1, Some(2));
    assert_eq!(s.image(1).workspace, Some(2));
    assert_eq!(s.workspace_count(1), 0);
    assert_eq!(s.view_order(2), vec![1]);
    s.assign(1, None);
    assert_eq!(s.image(1).workspace, None);
    s.assign(1, Some(0));
    s.assign(1, Some(10));
    assert_eq!(s.image(1).workspace, None);
}

#[test]
fn filter_shows_only_workspace() {
    let mut s = session(5);
    s.assign(4, Some(3));
    s.assign(1, Some(3));
    s.set_active(3);
    assert_eq!(s.visible(), vec![1, 4]); // natural order, not assignment order
    assert_eq!(s.selected(), Some(1));
    s.set_active(0);
    assert_eq!(s.visible().len(), 5);
    assert_eq!(s.selected(), Some(1)); // selection survives when still visible
}

#[test]
fn reassigning_out_of_view_selects_neighbour() {
    let mut s = session(5);
    for id in [0, 2, 4] {
        s.assign(id, Some(1));
    }
    s.set_active(1);
    s.select(Some(2));
    s.assign(2, Some(2));
    assert_eq!(s.visible(), vec![0, 4]);
    assert_eq!(s.selected(), Some(4)); // next one slides into place
    s.assign(4, Some(2));
    assert_eq!(s.selected(), Some(0)); // was last: fall back to new last
    s.assign(0, None);
    assert_eq!(s.selected(), None);
    assert!(s.visible().is_empty());
}

#[test]
fn assigning_in_all_view_keeps_selection() {
    let mut s = session(3);
    s.select(Some(1));
    s.assign(1, Some(5));
    assert_eq!(s.selected(), Some(1));
}

#[test]
fn manual_order_is_per_view_and_remembered() {
    let mut s = session(4);
    for id in 0..4 {
        s.assign(id, Some(1));
    }
    s.set_active(1);
    s.select(Some(0));
    assert!(s.move_selected(1));
    assert!(s.manual_sort());
    assert_eq!(s.visible(), vec![1, 0, 2, 3]);
    assert!(s.move_to(3, 0));
    assert_eq!(s.visible(), vec![3, 1, 0, 2]);

    s.set_active(0);
    assert!(!s.manual_sort());
    assert_eq!(s.visible(), vec![0, 1, 2, 3]);

    s.set_active(1);
    assert!(!s.toggle_manual_sort());
    assert_eq!(s.visible(), vec![0, 1, 2, 3]);
    assert!(s.toggle_manual_sort()); // the arrangement was remembered
    assert_eq!(s.visible(), vec![3, 1, 0, 2]);
}

#[test]
fn undo_and_redo() {
    let mut s = session(4);
    s.select(Some(1));
    s.assign(1, Some(1));
    s.assign(2, Some(1));
    s.set_active(1);
    s.select(Some(2));
    s.assign(2, Some(3)); // leaves the view
    assert_eq!(s.visible(), vec![1]);

    assert!(s.undo());
    assert_eq!(s.visible(), vec![1, 2]);
    assert_eq!(s.selected(), Some(2));
    assert!(s.redo());
    assert_eq!(s.image(2).workspace, Some(3));
    assert!(s.undo());

    s.move_to(2, 0);
    assert_eq!(s.visible(), vec![2, 1]);
    s.set_active(0); // browsing is not an undo step
    assert!(s.undo());
    assert_eq!(s.active(), 1);
    assert!(!s.manual_sort());
    assert_eq!(s.visible(), vec![1, 2]);

    assert!(s.undo() && s.undo());
    assert!(!s.undo());
    assert_eq!(s.workspace_count(1), 0);
    s.assign(0, Some(9)); // a new action drops the redo history
    assert!(!s.redo());
}

#[test]
fn a_move_that_moves_nothing_changes_nothing() {
    let mut s = session(3);
    assert!(!s.move_to(0, 0));
    assert!(!s.manual_sort());
    assert!(!s.undo());
}

#[test]
fn moves_clamp_at_edges() {
    let mut s = session(3);
    s.select(Some(0));
    assert!(!s.move_selected(-1));
    s.select(Some(2));
    assert!(!s.move_selected(1));
    assert!(s.move_to(0, 99));
    assert_eq!(s.visible(), vec![1, 2, 0]);
}

#[test]
fn newly_assigned_images_append_to_manual_order() {
    let mut s = session(4);
    s.assign(2, Some(1));
    s.assign(3, Some(1));
    s.set_active(1);
    s.move_to(3, 0);
    assert_eq!(s.visible(), vec![3, 2]);
    s.assign(0, Some(1));
    assert_eq!(s.visible(), vec![3, 2, 0]);
    s.assign(2, Some(4));
    assert_eq!(s.visible(), vec![3, 0]);
}

#[test]
fn undo_takes_back_each_kind_of_action() {
    let mut s = session(3);
    s.assign(0, Some(2));
    assert!(s.undo());
    assert_eq!(s.image(0).workspace, None);
    assert!(s.toggle_manual_sort());
    assert!(s.undo());
    assert!(!s.manual_sort());
    assert!(s.move_to(2, 0));
    assert_eq!(s.visible(), vec![2, 0, 1]);
    assert!(s.undo());
    assert_eq!(s.visible(), vec![0, 1, 2]);
    assert!(!s.manual_sort());
}

#[test]
fn redo_after_undo_and_back() {
    let mut s = session(3);
    s.assign(1, Some(1));
    s.assign(2, Some(1));
    assert!(s.undo());
    assert!(s.redo());
    assert_eq!(s.workspace_count(1), 2);
    assert!(s.undo());
    assert_eq!(s.workspace_count(1), 1);
    assert!(s.redo());
    assert!(!s.redo());
    assert_eq!(s.workspace_count(1), 2);
}

#[test]
fn undo_keeps_at_most_two_hundred_steps() {
    let mut s = session(2);
    for k in 0..250u32 {
        s.assign(0, Some((k % 2 + 1) as u8));
    }
    let mut undone = 0;
    while s.undo() {
        undone += 1;
    }
    assert_eq!(undone, 200);
}

#[test]
fn each_image_shows_once_in_a_view() {
    let mut s = session(4);
    for id in 0..4 {
        s.assign(id, Some(1));
    }
    s.set_active(1);
    assert!(s.move_to(1, 3));
    s.assign(1, Some(2));
    s.assign(1, Some(1));
    let v = s.visible();
    let mut sorted = v.clone();
    sorted.sort();
    assert_eq!(sorted, vec![0, 1, 2, 3]);
    assert_eq!(v, vec![0, 2, 3, 1]);
}

#[test]
fn toggling_sort_twice_keeps_the_view() {
    let mut s = session(3);
    assert!(s.move_to(2, 0));
    let shown = s.visible();
    assert!(!s.toggle_manual_sort());
    assert!(s.toggle_manual_sort());
    assert_eq!(s.visible(), shown);
}

#[test]
fn paths_follow_files_and_survive_undo() {
    let mut s = session(2);
    s.assign(1, Some(1));
    s.set_path(1, "/q/1.jpg".to_string());
    s.set_path(7, "/nowhere".to_string());
    assert!(s.undo());
    assert_eq!(s.image(1).path, "/q/1.jpg");
    assert_eq!(s.images().len(), 2);
}

#[test]
fn selecting_nothing_or_out_of_range() {
    let mut s = session(2);
    s.select(Some(5));
    assert_eq!(s.selected(), None);
    s.select(Some(1));
    s.set_active(10);
    assert_eq!(s.active(), 0);
    assert_eq!(s.selected(), Some(1));
}

#[test]
fn rotation_is_pending_and_undoable() {
    let mut s = session(3);
    assert_eq!(s.image(1).rotation, 0);
    s.rotate(1, 1);
    assert_eq!(s.image(1).rotation, 1);
    s.rotate(1, 3);
    assert_eq!(s.image(1).rotation, 0);
    s.rotate(1, 3);
    s.rotate(1, 3);
    assert_eq!(s.image(1).rotation, 2);
    assert!(s.undo());
    assert_eq!(s.image(1).rotation, 3);
    assert!(s.redo());
    assert_eq!(s.image(1).rotation, 2);
    s.rotate(1, 4); // a full turn is no step
    s.rotate(7, 1); // no such image
    assert!(s.undo());
    assert_eq!(s.image(1).rotation, 3);
    assert_eq!(s.image(0).rotation, 0);
}

#[test]
fn saving_a_rotation_keeps_what_undo_shows() {
    let mut s = session(2);
    s.rotate(0, 1);
    s.rotate(0, 1);
    assert_eq!(s.image(0).rotation, 2);
    s.rotation_saved(0, 2);
    assert_eq!(s.image(0).rotation, 0);
    // The file now carries two turns: undoing one step shows one turn
    // fewer than the file, three pending.
    assert!(s.undo());
    assert_eq!(s.image(0).rotation, 3);
    assert!(s.undo());
    assert_eq!(s.image(0).rotation, 2);
    assert!(!s.undo());
    s.rotation_saved(5, 1); // no such image: nothing changes
    assert_eq!(s.image(1).rotation, 0);
}
