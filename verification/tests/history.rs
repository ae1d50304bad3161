use score_sync::history::{CropHistory, GuideHistory, CROP_HISTORY_LIMIT};

#[test]
fn undo_returns_the_last_snapshot_and_redo_undoes_it() {
    let mut h: CropHistory<i32> = CropHistory::new();
    h.push(1);
    h.push(2);
    assert_eq!(h.undo_len(), 2);
    assert_eq!(h.peek_undo(), Some(&2));
    assert_eq!(h.undo_step(3), Some(2));
    assert_eq!(h.undo_len(), 1);
    assert_eq!(h.redo_len(), 1);
    assert_eq!(h.peek_redo(), Some(&3));
    assert_eq!(h.redo_step(2), Some(3));
    assert_eq!(h.undo_len(), 2);
    assert_eq!(h.redo_len(), 0);
    assert_eq!(h.peek_undo(), Some(&2));
}

#[test]
fn empty_stacks_do_nothing() {
    let mut h: CropHistory<i32> = CropHistory::new();
    assert_eq!(h.undo_step(5), None);
    assert_eq!(h.redo_step(5), None);
    assert_eq!(h.undo_len(), 0);
    assert_eq!(h.redo_len(), 0);
    assert!(!h.discard_last());
}

#[test]
fn a_new_edit_clears_redo() {
    let mut h: CropHistory<i32> = CropHistory::new();
    h.push(1);
    assert_eq!(h.undo_step(2), Some(1));
    assert_eq!(h.redo_len(), 1);
    h.push(7);
    assert_eq!(h.redo_len(), 0);
    assert!(h.discard_last());
    assert_eq!(h.undo_len(), 0);
}

#[test]
fn history_keeps_the_newest_64() {
    let mut h: CropHistory<usize> = CropHistory::new();
    for i in 0..100 {
        h.push(i);
    }
    assert_eq!(h.undo_len(), CROP_HISTORY_LIMIT);
    assert_eq!(CROP_HISTORY_LIMIT, 64);
    assert_eq!(h.peek_undo(), Some(&99));
    let mut last = None;
    while let Some(v) = h.undo_step(0) {
        last = Some(v);
    }
    assert_eq!(last, Some(36));
}

#[test]
fn guide_tokens_count_up_and_pick_entries() {
    let mut g: GuideHistory<&str> = GuideHistory::new();
    assert_eq!(g.commit("a0", "a1", false), 0);
    assert_eq!(g.commit("b0", "b1", true), 1);
    assert!(g.undo(Some(0)));
    assert_eq!(g.last_undone().map(|e| e.token), Some(0));
    assert_eq!(g.last_undone().map(|e| e.before), Some("a0"));
    assert_eq!(g.last_done().map(|e| e.token), Some(1));
    assert!(!g.undo(Some(0)));
    assert!(g.redo(None));
    assert_eq!(g.last_done().map(|e| e.token), Some(0));
    assert!(g.last_undone().is_none());
    assert!(g.undo(None));
    assert_eq!(g.last_undone().map(|e| e.token), Some(0));
    assert!(g.redo(Some(0)));
    assert!(!g.redo(Some(0)));
}

#[test]
fn guide_commit_clears_redo() {
    let mut g: GuideHistory<u8> = GuideHistory::new();
    g.commit(0, 1, false);
    assert!(g.undo(None));
    g.commit(1, 2, false);
    assert!(g.last_undone().is_none());
    assert!(!g.redo(None));
}

#[test]
fn undo_after_redo_goes_back_again() {
    let mut h: CropHistory<&str> = CropHistory::new();
    h.push("before");
    assert_eq!(h.undo_step("after"), Some("before"));
    assert_eq!(h.redo_step("before"), Some("after"));
    assert_eq!(h.undo_step("after"), Some("before"));
    assert_eq!(h.redo_len(), 1);
}
