use score_sync::list_rows::{
    block_row_labels, column_in_page, group_page_no, group_row_label, list_window, member_label,
    members_span_pages,
};

#[test]
fn short_lists_are_built_whole() {
    assert_eq!(list_window(0, 80, 5, 9), (0, 0));
    assert_eq!(list_window(50, 80, 20, 30), (0, 50));
    assert_eq!(list_window(80, 80, 20, 30), (0, 80));
}

#[test]
fn long_lists_build_the_view_and_eight_more_rows() {
    assert_eq!(list_window(200, 80, 20, 30), (12, 38));
    assert_eq!(list_window(200, 80, 3, 5), (0, 13));
    assert_eq!(list_window(200, 80, 195, 210), (187, 200));
    assert_eq!(list_window(100, 80, 150, 160), (100, 100));
    assert_eq!(list_window(100, 80, usize::MAX, usize::MAX), (100, 100));
}

#[test]
fn member_labels() {
    assert_eq!(member_label(2, "staff", 10, 400), "P2:staff:10-400");
    assert_eq!(member_label(1, "region", -3, -1), "P1:region:-3--1");
}

#[test]
fn span_detection() {
    assert!(!members_span_pages(&vec![]));
    assert!(!members_span_pages(&vec![3, 3, 3]));
    assert!(members_span_pages(&vec![3, 4]));
}

#[test]
fn page_numbers() {
    assert_eq!(group_page_no(0), 1);
    assert_eq!(group_page_no(6), 7);
    assert_eq!(group_page_no(usize::MAX), 0);
}

#[test]
fn columns_follow_top_edges_on_each_page() {
    let keys = vec![(0, 10, 20), (1, 0, 5), (0, 5, 30), (0, 10, 20), (0, 10, 15)];
    assert_eq!(column_in_page(&keys, 2), 1);
    assert_eq!(column_in_page(&keys, 4), 2);
    assert_eq!(column_in_page(&keys, 0), 3);
    assert_eq!(column_in_page(&keys, 3), 4);
    assert_eq!(column_in_page(&keys, 1), 1);
}

#[test]
fn group_rows() {
    let members = vec!["P3:staff:1-9".to_string(), "P4:staff:0-5".to_string()];
    assert_eq!(
        group_row_label(0, true, 3, 2, &members),
        "跨页 1. p3c2 | [P3:staff:1-9, P4:staff:0-5]"
    );
    assert_eq!(group_row_label(11, false, 0, 1, &vec![]), "12. p0c1 | []");
    assert_eq!(
        group_row_label(4, false, 2, 1, &vec!["P2:staff:5-80".to_string()]),
        "5. p2c1 | [P2:staff:5-80]"
    );
}

#[test]
fn block_rows() {
    let (a, b, c) = block_row_labels(1, "staff", 94, 371);
    assert_eq!(a, "P1 staff  ");
    assert_eq!(b, "y=94-371");
    assert_eq!(c, "  h=278");
    let (_, b, c) = block_row_labels(2, "region", 10, 5);
    assert_eq!(b, "y=10-5");
    assert_eq!(c, "  h=-4");
}
