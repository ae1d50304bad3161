use score_sync::file_assoc::{needs_write, prog_id, staffcrop_association};

#[test]
fn command_and_icon_use_backslashes() {
    let a = staffcrop_association("C:/Tools/score sync/score_sync.exe");
    assert_eq!(a.command, "\"C:\\Tools\\score sync\\score_sync.exe\" \"%1\"");
    assert_eq!(a.icon, "\"C:\\Tools\\score sync\\score_sync.exe\",0");
}

#[test]
fn backslash_paths_stay() {
    let a = staffcrop_association("C:\\a\\b.exe");
    assert_eq!(a.command, "\"C:\\a\\b.exe\" \"%1\"");
}

#[test]
fn write_only_when_different() {
    assert!(!needs_write("ScoreSync.staffcrop", prog_id()));
    assert!(needs_write("", prog_id()));
    assert!(needs_write("ScoreSync.staffcroP", prog_id()));
    assert_eq!(prog_id(), "ScoreSync.staffcrop");
}
