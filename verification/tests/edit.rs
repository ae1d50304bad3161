use score_sync::edit::{
    add_block_commit, add_block_preview_ys, add_block_role, apply_param_text, parse_y_range, step_param,
    AddAnchorRole, ParamEdit, YRangeError, ADD_BLOCK_LOCK_PX,
};

#[test]
fn direction_is_fixed_after_two_pixels() {
    assert_eq!(ADD_BLOCK_LOCK_PX, 2);
    assert_eq!(add_block_role(100, None, 101), None);
    assert_eq!(add_block_role(100, None, 99), None);
    assert_eq!(add_block_role(100, None, 102), Some(AddAnchorRole::Top));
    assert_eq!(add_block_role(100, None, 98), Some(AddAnchorRole::Bottom));
    assert_eq!(add_block_role(100, Some(AddAnchorRole::Top), 0), Some(AddAnchorRole::Top));
    assert_eq!(add_block_role(i32::MIN, None, i32::MAX), Some(AddAnchorRole::Top));
}

#[test]
fn preview_and_commit() {
    assert_eq!(add_block_preview_ys(100, None, 140), (100, 100));
    assert_eq!(add_block_preview_ys(100, Some(AddAnchorRole::Top), 140), (100, 140));
    assert_eq!(add_block_preview_ys(100, Some(AddAnchorRole::Top), 90), (100, 100));
    assert_eq!(add_block_preview_ys(100, Some(AddAnchorRole::Bottom), 50), (50, 100));
    assert_eq!(add_block_commit(100, None, 140), None);
    assert_eq!(add_block_commit(100, Some(AddAnchorRole::Bottom), 50), Some((50, 100)));
    assert_eq!(add_block_commit(100, Some(AddAnchorRole::Top), 140), Some((100, 140)));
}

#[test]
fn y_ranges() {
    assert_eq!(parse_y_range("94-371"), Ok((94, 371)));
    assert_eq!(parse_y_range("  94 , 371 "), Ok((94, 371)));
    assert_eq!(parse_y_range("94–371"), Ok((94, 371)));
    assert_eq!(parse_y_range("371-94"), Ok((371, 94)));
    assert_eq!(parse_y_range("94371"), Err(YRangeError::MissingDash));
    assert_eq!(parse_y_range(""), Err(YRangeError::MissingDash));
    assert_eq!(parse_y_range("a-b"), Err(YRangeError::NotInteger));
    assert_eq!(parse_y_range("-5-10"), Err(YRangeError::NotInteger));
    assert_eq!(parse_y_range("5-"), Err(YRangeError::NotInteger));
    assert_eq!(parse_y_range("5-+10"), Ok((5, 10)));
    assert_eq!(parse_y_range("1-2-3"), Err(YRangeError::NotInteger));
    assert_eq!(parse_y_range("0-99999999999"), Err(YRangeError::NotInteger));
}

#[test]
fn parameters_are_clamped() {
    assert_eq!(apply_param_text(ParamEdit::Margin, "100", 5), 80);
    assert_eq!(apply_param_text(ParamEdit::Margin, " 12 ", 5), 12);
    assert_eq!(apply_param_text(ParamEdit::Margin, "-3", 5), 0);
    assert_eq!(apply_param_text(ParamEdit::Threshold, "x", 7), 7);
    assert_eq!(apply_param_text(ParamEdit::Threshold, "0", 7), 1);
    assert_eq!(apply_param_text(ParamEdit::Threshold, "300", 7), 254);
    assert_eq!(apply_param_text(ParamEdit::Threshold, "99999999999", 7), 7);
}

#[test]
fn steps_stay_in_range() {
    assert_eq!(step_param(ParamEdit::Margin, 80, true), 80);
    assert_eq!(step_param(ParamEdit::Margin, 0, false), 0);
    assert_eq!(step_param(ParamEdit::Margin, 10, true), 11);
    assert_eq!(step_param(ParamEdit::Threshold, 10, false), 9);
    assert_eq!(step_param(ParamEdit::Threshold, 1, false), 1);
    assert_eq!(step_param(ParamEdit::Threshold, 254, true), 254);
}
