use score_sync::preview::{clamp_band, group_position, resolve_mask_target};

#[test]
fn bands_are_clamped_to_the_page() {
    assert_eq!(clamp_band(10, 20, 100), Some((10, 11)));
    assert_eq!(clamp_band(-5, 20, 100), Some((0, 21)));
    assert_eq!(clamp_band(90, 150, 100), Some((90, 10)));
    assert_eq!(clamp_band(50, 40, 100), None);
    assert_eq!(clamp_band(120, 150, 100), None);
    // a negative end reads as a huge row number and is cut at the last row
    assert_eq!(clamp_band(10, -1, 100), Some((10, 90)));
    assert_eq!(clamp_band(0, 5, 0), Some((0, 1)));
}

fn ids(v: &[&str]) -> Vec<String> {
    v.iter().map(|s| s.to_string()).collect()
}

#[test]
fn mask_target_prefers_active_then_last_then_first() {
    let g = ids(&["a", "b", "c"]);
    assert_eq!(resolve_mask_target(&Some("b".into()), &Some("c".into()), &g), Some("b".to_string()));
    assert_eq!(resolve_mask_target(&Some("x".into()), &Some("c".into()), &g), Some("c".to_string()));
    assert_eq!(resolve_mask_target(&None, &Some("y".into()), &g), Some("a".to_string()));
    assert_eq!(resolve_mask_target(&Some("a".into()), &None, &vec![]), None);
}

#[test]
fn positions() {
    let g = ids(&["a", "b", "b"]);
    assert_eq!(group_position(&g, &Some("b".into())), 1);
    assert_eq!(group_position(&g, &Some("z".into())), 0);
    assert_eq!(group_position(&g, &None), 0);
}
