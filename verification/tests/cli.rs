use herdr_preview::cli::{
    cli_command, hint_report, overlay_failure, parse_hint_args, CliCommand, HintMode, Report,
};
use herdr_preview::herdr_ipc::HerdrIpcError;
use herdr_preview::hint::HintError;

fn args(a: &[&str]) -> Vec<String> {
    a.iter().map(|s| s.to_string()).collect()
}

#[test]
fn it_compiles() {}

#[test]
fn subcommands() {
    assert_eq!(cli_command(&args(&[])), CliCommand::Usage);
    assert_eq!(cli_command(&args(&["-h"])), CliCommand::Usage);
    assert_eq!(cli_command(&args(&["--version"])), CliCommand::Version);
    assert_eq!(cli_command(&args(&["hint"])), CliCommand::Hint(vec![]));
    assert_eq!(cli_command(&args(&["hint", "--list"])), CliCommand::Hint(args(&["--list"])));
    assert_eq!(cli_command(&args(&["hint-overlay"])), CliCommand::HintOverlay);
    assert_eq!(cli_command(&args(&["browse"])), CliCommand::Browse);
    assert_eq!(cli_command(&args(&["browse", "x"])), CliCommand::Unknown);
    assert_eq!(cli_command(&args(&["--help", "x"])), CliCommand::Unknown);
}

#[test]
fn hint_flags() {
    assert_eq!(parse_hint_args(&args(&[])), Ok(HintMode::Action));
    assert_eq!(parse_hint_args(&args(&["--list"])), Ok(HintMode::ListFocused));
    assert_eq!(
        parse_hint_args(&args(&["--list", "--text", "a.rs", "--cwd", "/r"])),
        Ok(HintMode::ListText { text: "a.rs".into(), cwd: "/r".into() })
    );
    assert_eq!(parse_hint_args(&args(&["--list", "--text", "a.rs"])), Ok(HintMode::ListFocused));
    assert_eq!(
        parse_hint_args(&args(&["--text", "a.rs"])),
        Err("--text/--cwd require --list for headless mode".to_string())
    );
    assert_eq!(parse_hint_args(&args(&["--cwd"])), Err("--cwd requires a value".to_string()));
    assert_eq!(
        parse_hint_args(&args(&["--list", "-x", "--text"])),
        Err("unknown argument `-x`".to_string())
    );
}

#[test]
fn reports() {
    assert_eq!(
        hint_report(&Ok("a\t0\n".to_string()), true),
        Report { stdout: "a\t0\n".into(), stderr: None, code: 0 }
    );
    assert_eq!(
        hint_report(&Ok(String::new()), false),
        Report { stdout: String::new(), stderr: None, code: 0 }
    );
    assert_eq!(
        hint_report(&Err(HintError::NoOpenableTargets), false),
        Report {
            stdout: String::new(),
            stderr: Some("herdr-preview: no openable targets in visible pane text".into()),
            code: 0
        }
    );
    assert_eq!(
        hint_report(&Err(HintError::HerdrIpc(HerdrIpcError::MissingPaneId)), true),
        Report {
            stdout: String::new(),
            stderr: Some("herdr-preview hint: pane current JSON missing pane_id".into()),
            code: 1
        }
    );
}

#[test]
fn overlay_failures() {
    assert_eq!(
        overlay_failure(&HintError::OverlayEnv("HERDR_PREVIEW_HINT_SNAP missing".into())),
        "herdr-preview hint-overlay: HERDR_PREVIEW_HINT_SNAP missing"
    );
    assert_eq!(
        overlay_failure(&HintError::OverlayEnv("bad start: x".into())),
        "herdr-preview hint-overlay: overlay env: bad start: x"
    );
    assert_eq!(
        overlay_failure(&HintError::UnknownKey('z')),
        "herdr-preview hint-overlay: unknown hint key: z"
    );
}

#[test]
fn hint_error_from_ipc_error() {
    let e: HintError = HerdrIpcError::HerdrNotFound.into();
    assert_eq!(e, HintError::HerdrIpc(HerdrIpcError::HerdrNotFound));
    assert_eq!(e.message(), "herdr not found on PATH");
}
