use score_sync::config::{parse_legacy_config, remember_last_project, Config};

#[test]
fn legacy_file_gives_last_project() {
    let cfg = parse_legacy_config("# settings\nlast_project=C:\\scores\\bach.staffcrop\n");
    assert_eq!(cfg.last_project, "C:\\scores\\bach.staffcrop");
}

#[test]
fn legacy_last_line_wins_and_comments_are_skipped() {
    let text = "last_project=/a.staffcrop\r\n\n   \n#last_project=/hidden\n  last_project=/b.staffcrop  \r\nother=1";
    assert_eq!(parse_legacy_config(text).last_project, "/b.staffcrop");
}

#[test]
fn legacy_without_key_is_empty() {
    assert_eq!(parse_legacy_config("").last_project, "");
    assert_eq!(parse_legacy_config("foo=bar\n# last_project=x").last_project, "");
    assert_eq!(parse_legacy_config("last_project=").last_project, "");
}

#[test]
fn remembering_replaces_the_project() {
    let mut cfg = Config::default();
    assert_eq!(cfg.last_project, "");
    remember_last_project(&mut cfg, "/x/y.staffcrop");
    assert_eq!(cfg.last_project, "/x/y.staffcrop");
}
