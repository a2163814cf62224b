use herdr_preview::herdr_ipc::{
    focused_meta, focused_snapshot, parse_foreground_cwd, parse_pane_current,
    parse_plugin_context_meta, HerdrIpcError, PaneSnapshot,
};

const PANE_CURRENT_FIXTURE: &str = r#"{"id":"cli:pane:current","result":{"pane":{"pane_id":"w9:p1","cwd":"/tmp/herdr-repo"}},"type":"pane_current"}"#;

#[test]
fn parse_plugin_context_prefers_focused_pane_fields() {
    let raw = r#"{
      "focused_pane_id": "w1:p2",
      "focused_pane_cwd": "/tmp/agent-repo",
      "workspace_cwd": "/tmp/workspace"
    }"#;
    let (id, cwd) = parse_plugin_context_meta(Some(raw)).expect("parse");
    assert_eq!(id, "w1:p2");
    assert_eq!(cwd, "/tmp/agent-repo");
}

#[test]
fn plugin_context_falls_back_to_workspace_cwd() {
    let raw = r#"{"focused_pane_id":"w1:p2","workspace_cwd":"/tmp/workspace"}"#;
    assert_eq!(
        parse_plugin_context_meta(Some(raw)),
        Some(("w1:p2".to_string(), "/tmp/workspace".to_string()))
    );
    let null_cwd = r#"{"focused_pane_id":"w1:p2","focused_pane_cwd":null,"workspace_cwd":"/w"}"#;
    assert_eq!(parse_plugin_context_meta(Some(null_cwd)), None);
    assert_eq!(parse_plugin_context_meta(Some(r#"{"focused_pane_id":""}"#)), None);
    assert_eq!(parse_plugin_context_meta(Some("nope")), None);
    assert_eq!(parse_plugin_context_meta(None), None);
}

#[test]
fn pane_current_gives_id_and_cwd() {
    assert_eq!(
        parse_pane_current(PANE_CURRENT_FIXTURE),
        Ok(("w9:p1".to_string(), "/tmp/herdr-repo".to_string()))
    );
    assert_eq!(
        parse_pane_current(&format!("  {PANE_CURRENT_FIXTURE}\n")),
        Ok(("w9:p1".to_string(), "/tmp/herdr-repo".to_string()))
    );
}

#[test]
fn pane_current_errors() {
    match parse_pane_current("not json") {
        Err(HerdrIpcError::InvalidPaneCurrentJson(m)) => assert!(m.ends_with(": not json")),
        other => panic!("expected InvalidPaneCurrentJson, got {other:?}"),
    }
    assert_eq!(
        parse_pane_current(r#"{"result":{}}"#),
        Err(HerdrIpcError::InvalidPaneCurrentJson("missing .result.pane".to_string()))
    );
    assert_eq!(
        parse_pane_current(r#"{"result":{"pane":{"cwd":"/tmp"}}}"#),
        Err(HerdrIpcError::MissingPaneId)
    );
    assert_eq!(
        parse_pane_current(r#"{"result":{"pane":{"pane_id":"w1:p1","cwd":""}}}"#),
        Err(HerdrIpcError::MissingCwd)
    );
}

#[test]
fn error_messages() {
    assert_eq!(HerdrIpcError::HerdrNotFound.message(), "herdr not found on PATH");
    assert_eq!(
        HerdrIpcError::PaneReadFailed { pane_id: "w1:p1".into(), detail: "boom".into() }.message(),
        "herdr pane read w1:p1 failed: boom"
    );
    assert_eq!(HerdrIpcError::MissingCwd.message(), "pane current JSON missing cwd");
}

#[test]
fn pane_get_gives_live_foreground_cwd() {
    let reply = r#"{"result":{"pane":{"pane_id":"w9:shell","cwd":"/stale","foreground_cwd":"/tmp/live-shell"}}}"#;
    assert_eq!(parse_foreground_cwd(reply), Some("/tmp/live-shell".to_string()));
    assert_eq!(parse_foreground_cwd(r#"{"result":{"pane":{"cwd":"/stale"}}}"#), None);
    assert_eq!(parse_foreground_cwd("unexpected: pane get"), None);
}

#[test]
fn read_focused_snapshot_rejects_invalid_pane_current_json() {
    // What `herdr pane current` printed, as the snapshot reader parses it.
    let err = parse_pane_current("not json\n").unwrap_err();
    assert!(matches!(err, HerdrIpcError::InvalidPaneCurrentJson(_)));
}

#[test]
fn read_focused_snapshot_errors_when_pane_id_missing() {
    let err = parse_pane_current("{\"result\":{\"pane\":{\"cwd\":\"/tmp/repo\"}}}\n").unwrap_err();
    assert!(matches!(err, HerdrIpcError::MissingPaneId));
}

#[test]
fn focused_meta_prefers_plugin_context() {
    let ctx = r#"{"focused_pane_id":"w1:p2","focused_pane_cwd":"/tmp/a"}"#;
    assert_eq!(
        focused_meta(Some(ctx), None),
        Some(Ok(("w1:p2".to_string(), "/tmp/a".to_string())))
    );
    assert_eq!(
        focused_meta(Some(ctx), Some(PANE_CURRENT_FIXTURE)),
        Some(Ok(("w1:p2".to_string(), "/tmp/a".to_string())))
    );
}

#[test]
fn focused_meta_asks_pane_current_without_context() {
    assert_eq!(focused_meta(None, None), None);
    assert_eq!(focused_meta(Some("not json"), None), None);
    assert_eq!(
        focused_meta(None, Some(PANE_CURRENT_FIXTURE)),
        Some(Ok(("w9:p1".to_string(), "/tmp/herdr-repo".to_string())))
    );
    assert_eq!(
        focused_meta(None, Some(r#"{"result":{"pane":{"cwd":"/x"}}}"#)),
        Some(Err(HerdrIpcError::MissingPaneId))
    );
}

#[test]
fn focused_snapshot_prefers_live_cwd() {
    let meta = ("w1:p2".to_string(), "/tmp/a".to_string());
    let live = r#"{"result":{"pane":{"foreground_cwd":"/tmp/live"}}}"#;
    assert_eq!(
        focused_snapshot(meta.clone(), Some(live), "text".to_string()),
        PaneSnapshot {
            cwd: "/tmp/live".to_string(),
            visible_text: "text".to_string(),
            pane_id: "w1:p2".to_string()
        }
    );
    assert_eq!(focused_snapshot(meta.clone(), None, "t".to_string()).cwd, "/tmp/a");
    assert_eq!(focused_snapshot(meta, Some("{}"), "t".to_string()).cwd, "/tmp/a");
}
