use score_sync::export::{export_file_name, export_peak_bytes, export_stem, export_stem_from, UNKNOWN_PAGE_BYTES};

#[test]
fn stem_of_empty_document_is_export() {
    assert_eq!(export_stem(&vec![]), "export");
}

#[test]
fn stem_of_single_page_is_its_file_stem() {
    assert_eq!(export_stem(&vec!["scans/score.png".to_string()]), "score");
    assert_eq!(export_stem(&vec!["page".to_string()]), "page");
}

#[test]
fn stem_counts_pages_when_more_than_one() {
    let pages = vec!["a/b/Moonlight.png".to_string(), "x.png".to_string(), "y.png".to_string()];
    assert_eq!(export_stem(&pages), "Moonlight_x3");
}

#[test]
fn stem_falls_back_to_export_without_file_name() {
    assert_eq!(export_stem(&vec!["".to_string()]), "export");
    assert_eq!(export_stem(&vec!["".to_string(), "b.png".to_string()]), "export_x2");
    assert_eq!(export_stem_from(None, 1), "export");
    assert_eq!(export_stem_from(Some("s".to_string()), 0), "export");
    assert_eq!(export_stem_from(Some("s".to_string()), 12), "s_x12");
}

#[test]
fn file_names_are_padded_to_two_digits() {
    assert_eq!(export_file_name("score", 1), "score_g01.png");
    assert_eq!(export_file_name("score", 10), "score_g10.png");
    assert_eq!(export_file_name("score_x3", 123), "score_x3_g123.png");
    assert_eq!(export_file_name("", 0), "_g00.png");
}

#[test]
fn file_names_differ_per_index() {
    let names: Vec<String> = (1..=150).map(|i| export_file_name("s", i)).collect();
    for i in 0..names.len() {
        for j in (i + 1)..names.len() {
            assert_ne!(names[i], names[j]);
        }
    }
}

#[test]
fn peak_is_twice_the_largest_page() {
    assert_eq!(export_peak_bytes(&vec![10, 30, 20]), 60);
    assert_eq!(export_peak_bytes(&vec![]), UNKNOWN_PAGE_BYTES * 2);
    assert_eq!(UNKNOWN_PAGE_BYTES, 64 * 1024 * 1024);
    assert_eq!(export_peak_bytes(&vec![u64::MAX, 1]), u64::MAX);
    assert_eq!(export_peak_bytes(&vec![u64::MAX / 2 + 1]), u64::MAX);
}
