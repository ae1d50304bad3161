use score_sync::tabs::{
    ch_cols, format_page_tab_caption, page_tab_png_suffix, str_cols, take_cols, truncate_name,
    TAB_LABEL_NAME_COLS,
};

#[test]
fn truncates_pdf_name_keeps_index_and_page_suffix() {
    let title = "Bach Fantasies, Preludes and Fugues, Henle.pdf_p007.png";
    let (show, full) = format_page_tab_caption("", "7", title);
    assert_eq!(full, format!("7:{title}"));
    assert_eq!(show, "7:Bach Fantas……_p007.png");
}

#[test]
fn short_name_unchanged() {
    let (show, full) = format_page_tab_caption("", "3", "page.png");
    assert_eq!(show, full);
    assert_eq!(show, "3:page.png");
}

#[test]
fn cjk_counts_as_two_cols() {
    let title = "贝多芬钢琴奏鸣曲全集.pdf_p001.png";
    let (show, _) = format_page_tab_caption("", "1", title);
    assert_eq!(show, "1:贝多芬钢琴……_p001.png");
    assert_eq!(str_cols("贝多芬钢琴"), TAB_LABEL_NAME_COLS - 1);
}

#[test]
fn mixed_width_does_not_split_cjk() {
    let title = "Bach贝多芬Fantasies.pdf_p002.png";
    let (show, _) = format_page_tab_caption("", "2", title);
    assert_eq!(show, "2:Bach贝多芬F……_p002.png");
    assert_eq!(str_cols("Bach贝多芬F"), TAB_LABEL_NAME_COLS);
}

#[test]
fn suffix_is_the_last_page_mark() {
    assert_eq!(page_tab_png_suffix("a_p1_b_p2.png"), "_p2.png");
    assert_eq!(page_tab_png_suffix("score_p007_copy.png"), "_p007_copy.png");
    assert_eq!(page_tab_png_suffix("page.png"), "");
    assert_eq!(page_tab_png_suffix("x_p"), "");
    assert_eq!(page_tab_png_suffix("x_pa1"), "");
    assert_eq!(page_tab_png_suffix("_p9"), "_p9");
}

#[test]
fn selection_mark_is_part_of_prefix() {
    let (show, full) = format_page_tab_caption("●", "12", "song.png");
    assert_eq!(show, "●12:song.png");
    assert_eq!(full, "●12:song.png");
}

#[test]
fn long_title_without_page_suffix() {
    let (show, full) = format_page_tab_caption("", "4", "abcdefghijklmnop.png");
    assert_eq!(show, "4:abcdefghijk……");
    assert_eq!(full, "4:abcdefghijklmnop.png");
}

#[test]
fn column_widths() {
    assert_eq!(ch_cols('a'), 1);
    assert_eq!(ch_cols('贝'), 2);
    assert_eq!(ch_cols('가'), 2);
    assert_eq!(ch_cols('Ａ'), 2);
    assert_eq!(ch_cols('é'), 1);
    assert_eq!(ch_cols('\u{1F600}'), 2);
    assert_eq!(str_cols(""), 0);
    assert_eq!(take_cols("贝多芬", 5), "贝多");
    assert_eq!(take_cols("贝多芬", 6), "贝多芬");
    assert_eq!(take_cols("ab贝", 3), "ab");
    assert_eq!(take_cols("abc", 0), "");
}

#[test]
fn truncate_name_keeps_short_names() {
    assert_eq!(truncate_name("page.png", 8), "page.png");
    assert_eq!(truncate_name("page.png", 20), "page.png");
    assert_eq!(truncate_name("page_0001.png", 8), "page_00…");
    assert_eq!(truncate_name("贝多芬钢琴", 3), "贝多…");
    assert_eq!(truncate_name("abc", 0), "…");
}
