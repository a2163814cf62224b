use herdr_preview::open::{
    browse_overlay_args, file_viewer_bin_path, file_viewer_listed, file_viewer_pane_args,
    file_viewer_root, hint_overlay_args, join_paths, less_pane_args, notification_args,
    open_candidate, open_target_for_cwd, pane_get_args, pane_read_args, pane_run_args,
    pane_zoom_args, parse_tab_create_pane_id, split_open_spec, tab_create_args, OpenBackend,
    ViewerRootError,
};

fn split(s: &str) -> (String, String) {
    split_open_spec(s)
}

#[test]
fn split_open_spec_keeps_line_and_range() {
    assert_eq!(split("src/a.rs:42"), ("src/a.rs".to_string(), ":42".to_string()));
    assert_eq!(split("src/a.rs:10-20"), ("src/a.rs".to_string(), ":10-20".to_string()));
    assert_eq!(split("src/a.rs"), ("src/a.rs".to_string(), "".to_string()));
    assert_eq!(split("/tmp/x:note"), ("/tmp/x:note".to_string(), "".to_string()));
}

#[test]
fn split_open_spec_rejects_half_ranges() {
    assert_eq!(split("a.rs:10-"), ("a.rs:10-".to_string(), "".to_string()));
    assert_eq!(split("a.rs:-3"), ("a.rs:-3".to_string(), "".to_string()));
    assert_eq!(split("a.rs:1-2-3"), ("a.rs:1-2-3".to_string(), "".to_string()));
    assert_eq!(split("a.rs:"), ("a.rs:".to_string(), "".to_string()));
    let (p, s) = split("x:1:2");
    assert_eq!(format!("{p}{s}"), "x:1:2");
    assert_eq!(s, ":2");
}

#[test]
fn open_backend_enum_is_public() {
    let backends = [OpenBackend::FileViewer, OpenBackend::Less];
    assert_eq!(backends.len(), 2);
}

#[test]
fn detects_file_viewer_in_plugin_list() {
    let listed = "2 plugins installed:\n- herdr-file-viewer (herdr-file-viewer) enabled\n- other-plugin (other) enabled\n";
    assert!(file_viewer_listed(listed));
    assert!(!file_viewer_listed("1 plugins installed:\n- other-plugin (other) enabled\n"));
    assert!(!file_viewer_listed("herdr-file-viewer is not a list line\n"));
}

#[test]
fn joins_paths_as_pathbuf_does() {
    assert_eq!(join_paths("/r", "a.rs"), "/r/a.rs");
    assert_eq!(join_paths("/r/", "a.rs"), "/r/a.rs");
    assert_eq!(join_paths("/r", "/abs/a.rs"), "/abs/a.rs");
    assert_eq!(join_paths("", "a.rs"), "a.rs");
    assert_eq!(open_candidate("src/a.rs:42", "/r"), "/r/src/a.rs");
    assert_eq!(file_viewer_bin_path("/p"), "/p/target/release/herdr-file-viewer");
}

#[test]
fn open_target_is_relative_to_root_with_suffix() {
    assert_eq!(open_target_for_cwd("src/a.rs:42", "/r/src/a.rs", "/r"), "src/a.rs:42");
    assert_eq!(open_target_for_cwd("~/x.md", "/home/u/x.md", "/r"), "/home/u/x.md");
}

#[test]
fn less_args_carry_file_and_line() {
    let args = less_pane_args("/r/a.rs", Some(7));
    assert_eq!(
        args,
        vec![
            "plugin", "pane", "open", "--plugin", "herdr-preview", "--entrypoint", "less",
            "--placement", "overlay", "--focus", "--env", "HERDR_PREVIEW_LESS_FILE=/r/a.rs",
            "--env", "HERDR_PREVIEW_LESS_LINE=7",
        ]
    );
    assert_eq!(less_pane_args("/r/a.rs", None).len(), 12);
}

#[test]
fn viewer_and_overlay_args() {
    let fv = file_viewer_pane_args("w1:p2", "src/a.rs:3");
    assert_eq!(fv[12], "w1:p2");
    assert_eq!(fv[15], "HERDR_FILE_VIEWER_OPEN=src/a.rs:3");
    let ov = hint_overlay_args("/t/targets.tsv", "/t/snap.txt", "/r", "w1:p1");
    assert_eq!(ov[6], "hint-overlay");
    assert_eq!(ov[11], "HERDR_PREVIEW_HINT_TARGETS=/t/targets.tsv");
    assert_eq!(ov[17], "HERDR_PREVIEW_HINT_ORIGIN=w1:p1");
}

#[test]
fn tab_create_reply_gives_pane_id() {
    assert_eq!(
        parse_tab_create_pane_id(br#"{"result":{"root_pane":{"pane_id":"w1:p1"}}}"#),
        Ok("w1:p1".to_string())
    );
    assert_eq!(
        parse_tab_create_pane_id(br#"{"result":{"root_pane":{"pane_id":""}}}"#),
        Err("tab create response missing result.root_pane.pane_id".to_string())
    );
    assert!(parse_tab_create_pane_id(b"not json").is_err());
}

#[test]
fn plugin_list_json_gives_viewer_root() {
    let json = br#"{"result":{"plugins":[{"plugin_id":"other","plugin_root":"/o"},{"plugin_id":"herdr-file-viewer","plugin_root":"/fv"}]}}"#;
    assert_eq!(file_viewer_root(json), Ok("/fv".to_string()));
    assert_eq!(
        file_viewer_root(br#"{"result":{"plugins":[]}}"#),
        Err(ViewerRootError::NotFound("herdr-file-viewer plugin_root not found".to_string()))
    );
    assert_eq!(
        file_viewer_root(br#"{"result":{}}"#),
        Err(ViewerRootError::InvalidData(
            "herdr plugin list --json missing result.plugins".to_string()
        ))
    );
    assert!(matches!(file_viewer_root(b"{"), Err(ViewerRootError::InvalidData(_))));
}

#[test]
fn detect_file_viewer_true_when_plugin_listed() {
    // The output of `herdr plugin list`, as detection reads it.
    let listed = "2 plugins installed:\n- herdr-file-viewer (herdr-file-viewer) enabled\n- other-plugin (other) enabled\n";
    assert!(file_viewer_listed(listed));
}

#[test]
fn detect_file_viewer_false_when_absent() {
    assert!(!file_viewer_listed("1 plugins installed:\n- other-plugin (other) enabled\n"));
}

#[test]
fn browse_overlay_passes_only_a_nonempty_origin() {
    let base = vec![
        "plugin", "pane", "open", "--plugin", "herdr-preview", "--entrypoint", "browse",
        "--placement", "overlay", "--focus", "--env", "HERDR_PREVIEW_BROWSE_START=/r/docs",
        "--env", "HERDR_PREVIEW_BROWSE_CWD=/r",
    ];
    assert_eq!(browse_overlay_args("/r/docs", "/r", None), base);
    assert_eq!(browse_overlay_args("/r/docs", "/r", Some("")), base);
    let mut with_origin = base.clone();
    with_origin.extend(["--env", "HERDR_PREVIEW_BROWSE_ORIGIN=w1:p2"]);
    assert_eq!(browse_overlay_args("/r/docs", "/r", Some("w1:p2")), with_origin);
}

#[test]
fn pane_commands_read_only_visible_text() {
    assert_eq!(
        pane_read_args("w1:p2"),
        vec!["pane", "read", "w1:p2", "--source", "visible", "--format", "text"]
    );
    assert_eq!(pane_get_args("w1:p2"), vec!["pane", "get", "w1:p2"]);
}

#[test]
fn focus_zooms_in_then_out() {
    assert_eq!(pane_zoom_args("w1:p2", true), vec!["pane", "zoom", "w1:p2", "--on"]);
    assert_eq!(pane_zoom_args("w1:p2", false), vec!["pane", "zoom", "w1:p2", "--off"]);
}

#[test]
fn file_viewer_tab_commands() {
    assert_eq!(
        tab_create_args("/r", "docs/a.md:3"),
        vec!["tab", "create", "--cwd", "/r", "--focus", "--env", "HERDR_FILE_VIEWER_OPEN=docs/a.md:3"]
    );
    assert_eq!(pane_run_args("w2:p1", "/bin/fv"), vec!["pane", "run", "w2:p1", "/bin/fv"]);
}

#[test]
fn notifications_are_silent() {
    assert_eq!(
        notification_args("herdr-preview", "No paths"),
        vec!["notification", "show", "herdr-preview", "--body", "No paths", "--sound", "none"]
    );
}
