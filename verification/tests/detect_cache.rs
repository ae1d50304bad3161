use score_sync::detect_cache::{cached_if_current, detect_to_file, new_rid, sidecar_path, Band};

#[test]
fn sidecar_sits_next_to_the_page() {
    assert_eq!(sidecar_path("pages/p001.png"), "pages/p001.png.detect.json");
    assert_eq!(sidecar_path(""), ".detect.json");
}

#[test]
fn block_ids_are_eight_hex_digits() {
    let a = new_rid();
    assert_eq!(a.chars().count(), 8);
    assert!(a.chars().all(|c| c.is_ascii_digit() || ('a'..='f').contains(&c)));
}

#[test]
fn pages_without_bands_get_one_block() {
    let f = detect_to_file(vec![], 100, 50, 128, 4);
    assert_eq!((f.img_w, f.img_h, f.ink_threshold, f.margin), (100, 50, 128, 4));
    assert_eq!(f.regions.len(), 1);
    assert_eq!((f.regions[0].y0, f.regions[0].y1), (0, 49));
    assert_eq!(f.regions[0].kind, "region");
    assert_eq!(f.regions[0].id.len(), 8);
    let g = detect_to_file(vec![], 100, 0, 128, 4);
    assert_eq!((g.regions[0].y0, g.regions[0].y1), (0, 0));
}

#[test]
fn bands_become_blocks_in_order() {
    let bands = vec![
        Band { y0: 10, y1: 90, kind: "staff".to_string() },
        Band { y0: 120, y1: 200, kind: "staff".to_string() },
    ];
    let f = detect_to_file(bands, 300, 400, 100, 6);
    assert_eq!(f.regions.len(), 2);
    assert_eq!((f.regions[0].y0, f.regions[0].y1), (10, 90));
    assert_eq!((f.regions[1].y0, f.regions[1].y1), (120, 200));
    assert_eq!(f.regions[1].kind, "staff");
    assert_eq!(f.regions[0].id.chars().count(), 8);
}

#[test]
fn cache_is_used_only_with_the_same_parameters() {
    let f = detect_to_file(vec![], 10, 10, 128, 4);
    assert!(cached_if_current(Some(f.clone()), 128, 4).is_some());
    assert!(cached_if_current(Some(f.clone()), 127, 4).is_none());
    assert!(cached_if_current(Some(f), 128, 5).is_none());
    assert!(cached_if_current(None, 128, 4).is_none());
}
