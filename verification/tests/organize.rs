use score_sync::organize::{organize_click, organize_moving, OrganizeSelection};

fn ids(n: usize) -> Vec<String> {
    (0..n).map(|i| format!("p{i}")).collect()
}

fn sel() -> OrganizeSelection {
    OrganizeSelection { selected: vec![], anchor: None }
}

fn selected(s: &OrganizeSelection) -> Vec<String> {
    let mut v = s.selected.clone();
    v.sort();
    v.dedup();
    v
}

fn names(v: &[&str]) -> Vec<String> {
    v.iter().map(|s| s.to_string()).collect()
}

#[test]
fn plain_click_selects_one() {
    let ids = ids(5);
    let mut s = sel();
    s.selected.push("p0".into());
    organize_click(&mut s, &ids, 2, false, false);
    assert_eq!(selected(&s), names(&["p2"]));
    assert_eq!(s.anchor.as_deref(), Some("p2"));
}

#[test]
fn shift_click_selects_a_range() {
    let ids = ids(6);
    let mut s = sel();
    organize_click(&mut s, &ids, 4, false, false);
    organize_click(&mut s, &ids, 1, false, true);
    assert_eq!(selected(&s), names(&["p1", "p2", "p3", "p4"]));
    assert_eq!(s.anchor.as_deref(), Some("p4"));
}

#[test]
fn ctrl_shift_adds_a_range() {
    let ids = ids(6);
    let mut s = sel();
    organize_click(&mut s, &ids, 5, false, false);
    organize_click(&mut s, &ids, 0, true, false);
    organize_click(&mut s, &ids, 2, true, true);
    assert_eq!(selected(&s), names(&["p0", "p1", "p2", "p5"]));
}

#[test]
fn ctrl_click_toggles() {
    let ids = ids(3);
    let mut s = sel();
    organize_click(&mut s, &ids, 1, true, false);
    assert_eq!(selected(&s), names(&["p1"]));
    organize_click(&mut s, &ids, 1, true, false);
    assert!(selected(&s).is_empty());
    assert_eq!(s.anchor.as_deref(), Some("p1"));
}

#[test]
fn clicks_outside_do_nothing() {
    let ids = ids(3);
    let mut s = sel();
    organize_click(&mut s, &ids, 7, false, false);
    assert!(s.selected.is_empty());
    assert_eq!(s.anchor, None);
}

#[test]
fn selection_follows_pages_that_moved() {
    let mut ids = ids(4);
    let mut s = sel();
    organize_click(&mut s, &ids, 1, false, false);
    // page p1 moves to the end; a Shift-click extends from where it now is
    ids.remove(1);
    ids.push("p1".into());
    organize_click(&mut s, &ids, 1, false, true);
    assert_eq!(selected(&s), names(&["p1", "p2", "p3"]));
    // an anchor whose page is gone falls back to the clicked page
    let mut t = OrganizeSelection { selected: vec![], anchor: Some("gone".into()) };
    organize_click(&mut t, &ids, 2, false, true);
    assert_eq!(selected(&t), names(&["p3"]));
}

#[test]
fn drags_carry_the_selection() {
    let ids = ids(4);
    let s = OrganizeSelection { selected: names(&["p3", "p1"]), anchor: Some("p1".into()) };
    assert_eq!(organize_moving(&s, &ids, 3), vec![1, 3]);
    assert_eq!(organize_moving(&s, &ids, 0), vec![0]);
    assert_eq!(organize_moving(&s, &ids, 9), vec![9]);
}
