use score_sync::window::{esc_action, key_context, menu_item_label, window_title, DialogShown, EscAction, SideTool};

#[test]
fn titles() {
    assert_eq!(window_title(Some((0, 3, "p.png"))), "曲谱同步 — [1/3] p.png");
    assert_eq!(window_title(Some((9, 10, "Bach.pdf_p010.png"))), "曲谱同步 — [10/10] Bach.pdf_p010.png");
    assert_eq!(window_title(None), "曲谱同步 / Score Sync");
}

#[test]
fn key_contexts() {
    assert_eq!(key_context(SideTool::Mask), "MaskTool");
    assert_eq!(key_context(SideTool::Video), "ScoreVideo");
    assert_eq!(key_context(SideTool::Crop), "ScoreSync");
    assert_eq!(key_context(SideTool::Project), "ScoreSync");
}

#[test]
fn menu_labels() {
    assert_eq!(menu_item_label(true, "显示参考线"), "✓  显示参考线");
    assert_eq!(menu_item_label(false, "显示参考线"), "    显示参考线");
}

#[test]
fn esc_closes_the_innermost_overlay() {
    assert_eq!(esc_action(true, true, true, true, Some(DialogShown::Help)), EscAction::CloseImport);
    assert_eq!(esc_action(false, true, true, false, None), EscAction::ClosePicker);
    assert_eq!(esc_action(false, false, true, true, None), EscAction::CloseBatch);
    assert_eq!(esc_action(false, false, false, true, None), EscAction::CloseOrganizer);
    assert_eq!(esc_action(false, false, false, false, Some(DialogShown::UnsavedExit)), EscAction::CancelQuestion);
    assert_eq!(esc_action(false, false, false, false, Some(DialogShown::UnsavedNew)), EscAction::CancelQuestion);
    assert_eq!(esc_action(false, false, false, false, Some(DialogShown::Info)), EscAction::DismissDialog);
    assert_eq!(esc_action(false, false, false, false, Some(DialogShown::UpdateAvailable)), EscAction::DismissDialog);
    assert_eq!(esc_action(false, false, false, false, None), EscAction::ClearErrors);
}
