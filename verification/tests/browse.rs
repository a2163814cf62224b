use herdr_preview::browse::{
    click_command, map_browse_key, parse_browse_input, render_browse, take_input, BrowseCommand,
    BrowseKey, BrowseOutcome, BrowseRow, BrowseState, DirEntry,
};

const ROOT: &str = "/tmp/herdr-preview-browse";

fn file(dir: &str, name: &str) -> DirEntry {
    DirEntry { name: name.to_string(), path: format!("{dir}/{name}"), is_dir: false }
}

fn dir(dir: &str, name: &str) -> DirEntry {
    DirEntry { name: name.to_string(), path: format!("{dir}/{name}"), is_dir: true }
}

#[test]
fn lists_parent_dirs_then_files_case_insensitive_including_dots() {
    let root = format!("{ROOT}/sort");
    let listing = vec![
        dir(&root, "docs"),
        dir(&root, ".git"),
        file(&root, "README.md"),
        file(&root, ".hidden"),
        file(&root, "Zed.txt"),
        file(&root, "alpha.txt"),
    ];
    let state = BrowseState::open(root.clone(), Some(listing));
    let names: Vec<String> = state.rows.iter().map(|r| r.display_name()).collect();
    assert_eq!(names[0], "..");
    let children = &names[1..];
    assert_eq!(
        children,
        &[
            ".git/".to_string(),
            "docs/".to_string(),
            ".hidden".to_string(),
            "alpha.txt".to_string(),
            "README.md".to_string(),
            "Zed.txt".to_string(),
        ]
    );
}

#[test]
fn lists_symlink_to_file_and_symlink_to_dir() {
    // Symlinks are listed by what they point at: the caller follows them.
    let root = format!("{ROOT}/symlinks");
    let listing = vec![
        dir(&root, "realdir"),
        file(&root, "realfile.txt"),
        dir(&root, "linkdir"),
        file(&root, "linkfile"),
    ];
    let state = BrowseState::open(root, Some(listing));
    assert!(state
        .rows
        .iter()
        .any(|r| matches!(r, BrowseRow::Dir { name, .. } if name == "linkdir")));
    assert!(state
        .rows
        .iter()
        .any(|r| matches!(r, BrowseRow::File { name, .. } if name == "linkfile")));
}

#[test]
fn empty_directory_shows_parent_and_placeholder() {
    let state = BrowseState::open(format!("{ROOT}/empty-parent/empty"), Some(vec![]));
    assert!(matches!(state.rows[0], BrowseRow::Parent { .. }));
    assert!(matches!(state.rows[1], BrowseRow::EmptyPlaceholder));
    assert_eq!(state.rows[1].display_name(), "(empty)");
    assert!(!state.rows[1].is_activatable());
}

#[test]
fn drill_in_and_parent_walk() {
    let root = format!("{ROOT}/walk");
    let docs = format!("{root}/docs");
    let mut state = BrowseState::open(root.clone(), Some(vec![dir(&root, "docs")]));
    let idx = state
        .rows
        .iter()
        .position(|r| matches!(r, BrowseRow::Dir { name, .. } if name == "docs"))
        .unwrap();
    state.selected = idx;
    match state.apply(BrowseCommand::Activate, 10) {
        BrowseOutcome::ReadDir { path } => {
            assert_eq!(path, docs);
            state.finish_enter(path.clone(), path, Some(vec![dir(&docs, "sub"), file(&docs, "plan.md")]));
        }
        other => panic!("expected ReadDir, got {other:?}"),
    }
    assert_eq!(state.cwd, docs);
    assert!(state
        .rows
        .iter()
        .any(|r| matches!(r, BrowseRow::File { name, .. } if name == "plan.md")));
    match state.apply(BrowseCommand::GoParent, 10) {
        BrowseOutcome::ReadDir { path } => {
            assert_eq!(path, root);
            state.finish_enter(path.clone(), path, Some(vec![dir(&root, "docs")]));
        }
        other => panic!("expected ReadDir, got {other:?}"),
    }
    assert_eq!(state.cwd, root);
}

#[test]
fn activate_file_returns_open_file() {
    let root = format!("{ROOT}/file");
    let mut state = BrowseState::open(root.clone(), Some(vec![file(&root, "a.rs")]));
    let idx = state
        .rows
        .iter()
        .position(|r| matches!(r, BrowseRow::File { name, .. } if name == "a.rs"))
        .unwrap();
    state.selected = idx;
    match state.apply(BrowseCommand::Activate, 10) {
        BrowseOutcome::OpenFile { path } => assert_eq!(path, format!("{root}/a.rs")),
        other => panic!("expected OpenFile, got {other:?}"),
    }
}

#[test]
fn unreadable_dir_keeps_previous_listing() {
    let root = format!("{ROOT}/unreadable");
    let mut state =
        BrowseState::open(root.clone(), Some(vec![dir(&root, "ok"), dir(&root, "secret")]));
    let before = state.rows.clone();
    let idx = state
        .rows
        .iter()
        .position(|r| matches!(r, BrowseRow::Dir { name, .. } if name == "secret"))
        .unwrap();
    state.selected = idx;
    match state.apply(BrowseCommand::Activate, 10) {
        BrowseOutcome::ReadDir { path } => state.finish_enter(path.clone(), path, None),
        other => panic!("expected ReadDir, got {other:?}"),
    }
    assert_eq!(state.rows, before);
    assert_eq!(state.notice.as_deref(), Some("cannot read directory"));
}

#[test]
fn move_and_scroll_keep_selection_visible() {
    let root = format!("{ROOT}/scroll");
    let listing: Vec<DirEntry> = (0..20).map(|i| file(&root, &format!("f{i:02}.txt"))).collect();
    let mut state = BrowseState::open(root, Some(listing));
    for _ in 0..10 {
        state.apply(BrowseCommand::MoveDown, 5);
    }
    assert!(state.selected >= state.scroll);
    assert!(state.selected < state.scroll + 5);
}

#[test]
fn render_shows_path_parent_dirs_files_and_legend() {
    let root = format!("{ROOT}/render");
    let state = BrowseState::open(root.clone(), Some(vec![dir(&root, "docs"), file(&root, "a.rs")]));
    let out = render_browse(&state, 8, 80);
    assert!(out.contains(&root) || out.contains("browse-"));
    assert!(out.contains(".."));
    assert!(out.contains("docs/"));
    assert!(out.contains("a.rs"));
    assert!(out.contains("browse ·"));
}

#[test]
fn render_warns_when_listing_is_outside_origin_cwd() {
    let root = format!("{ROOT}/outside-tab");
    let elsewhere = format!("{root}/elsewhere");
    let mut state = BrowseState::open(elsewhere.clone(), Some(vec![file(&elsewhere, "a.rs")]));
    state.origin_cwd = Some(format!("{root}/here"));
    let out = render_browse(&state, 8, 80);
    assert!(out.contains("outside this tab's cwd"));
    assert!(out.contains("new tab"));
}

#[test]
fn render_keeps_legend_when_listing_is_under_origin_cwd() {
    let root = format!("{ROOT}/inside-tab");
    let src = format!("{root}/src");
    let mut state = BrowseState::open(src.clone(), Some(vec![file(&src, "a.rs")]));
    state.origin_cwd = Some(root);
    let out = render_browse(&state, 8, 80);
    assert!(out.contains("browse ·"));
    assert!(!out.contains("outside this tab's cwd"));
}

#[test]
fn map_keys_match_spec() {
    assert_eq!(map_browse_key(BrowseKey::Char('k')), Some(BrowseCommand::MoveUp));
    assert_eq!(map_browse_key(BrowseKey::Up), Some(BrowseCommand::MoveUp));
    assert_eq!(map_browse_key(BrowseKey::Char('j')), Some(BrowseCommand::MoveDown));
    assert_eq!(map_browse_key(BrowseKey::Down), Some(BrowseCommand::MoveDown));
    assert_eq!(map_browse_key(BrowseKey::Char('h')), Some(BrowseCommand::GoParent));
    assert_eq!(map_browse_key(BrowseKey::Left), Some(BrowseCommand::GoParent));
    assert_eq!(map_browse_key(BrowseKey::Char('l')), Some(BrowseCommand::EnterDir));
    assert_eq!(map_browse_key(BrowseKey::Right), Some(BrowseCommand::EnterDir));
    assert_eq!(map_browse_key(BrowseKey::Enter), Some(BrowseCommand::Activate));
    assert_eq!(map_browse_key(BrowseKey::Char('q')), Some(BrowseCommand::Dismiss));
    assert_eq!(map_browse_key(BrowseKey::Esc), Some(BrowseCommand::Dismiss));
    assert_eq!(map_browse_key(BrowseKey::MouseWheelUp), Some(BrowseCommand::ScrollUp));
    assert_eq!(map_browse_key(BrowseKey::MouseWheelDown), Some(BrowseCommand::ScrollDown));
}

#[test]
fn parse_arrows_and_sgr_mouse() {
    assert_eq!(parse_browse_input(&[b'j']), Some(BrowseKey::Char('j')));
    assert_eq!(parse_browse_input(&[0x0d]), Some(BrowseKey::Enter));
    assert_eq!(parse_browse_input(&[0x1b]), Some(BrowseKey::Esc));
    assert_eq!(parse_browse_input(b"\x1b[A"), Some(BrowseKey::Up));
    assert_eq!(parse_browse_input(b"\x1b[B"), Some(BrowseKey::Down));
    assert_eq!(parse_browse_input(b"\x1b[C"), Some(BrowseKey::Right));
    assert_eq!(parse_browse_input(b"\x1b[D"), Some(BrowseKey::Left));
    assert_eq!(
        parse_browse_input(b"\x1b[<0;1;3M"),
        Some(BrowseKey::MouseClick { row: 2, col: 0 })
    );
    assert_eq!(parse_browse_input(b"\x1b[<64;1;1M"), Some(BrowseKey::MouseWheelUp));
    assert_eq!(parse_browse_input(b"\x1b[<65;1;1M"), Some(BrowseKey::MouseWheelDown));
}

#[test]
fn parse_concatenated_sgr_wheel_burst_yields_first_event() {
    let burst = b"\x1b[<64;1;1M\x1b[<64;1;1M\x1b[<65;1;1M";
    assert_eq!(parse_browse_input(burst), Some(BrowseKey::MouseWheelUp));
}

#[test]
fn click_on_list_row_selects_index() {
    let root = format!("{ROOT}/click");
    let state = BrowseState::open(root.clone(), Some(vec![file(&root, "a.rs")]));
    // row 0 header; row 1 is `..` (index 0); next child starts at row 2
    assert_eq!(click_command(&state, 0, 8), None);
    assert_eq!(click_command(&state, 7, 8), None);
    assert_eq!(click_command(&state, 1, 8), Some(BrowseCommand::SelectIndex(0)));
}

#[test]
fn root_directory_has_no_parent_row() {
    let state = BrowseState::open("/".to_string(), Some(vec![dir("", "tmp")]));
    assert!(matches!(state.rows[0], BrowseRow::Dir { .. }));
    assert_eq!(state.rows.len(), 1);
}

#[test]
fn parent_row_activates_into_parent_directory() {
    let root = format!("{ROOT}/parent");
    let mut state = BrowseState::open(root.clone(), Some(vec![file(&root, "a.rs")]));
    state.selected = 0;
    assert_eq!(
        state.apply(BrowseCommand::Activate, 10),
        BrowseOutcome::ReadDir { path: ROOT.to_string() }
    );
}

#[test]
fn select_index_clamps_to_last_row() {
    let root = format!("{ROOT}/clamp");
    let mut state = BrowseState::open(root.clone(), Some(vec![file(&root, "a.rs")]));
    state.apply(BrowseCommand::SelectIndex(99), 10);
    assert_eq!(state.selected, state.rows.len() - 1);
}

#[test]
fn dismiss_leaves_state_unchanged() {
    let root = format!("{ROOT}/dismiss");
    let mut state = BrowseState::open(root.clone(), Some(vec![file(&root, "a.rs")]));
    let before = state.clone();
    assert_eq!(state.apply(BrowseCommand::Dismiss, 10), BrowseOutcome::Dismiss);
    assert_eq!(state, before);
}

#[test]
fn scroll_down_stops_at_last_page() {
    let root = format!("{ROOT}/scroll-end");
    let listing: Vec<DirEntry> = (0..6).map(|i| file(&root, &format!("f{i}.txt"))).collect();
    let mut state = BrowseState::open(root, Some(listing));
    for _ in 0..20 {
        state.apply(BrowseCommand::ScrollDown, 5);
    }
    // 7 rows (`..` and six files) in a 5-row list
    assert_eq!(state.scroll, 2);
}

#[test]
fn take_input_drains_one_event_at_a_time() {
    let mut pending = b"\x1b[<64;1;1M\x1b[<65;1;1Mj".to_vec();
    assert_eq!(take_input(&mut pending), Some(Some(BrowseKey::MouseWheelUp)));
    assert_eq!(take_input(&mut pending), Some(Some(BrowseKey::MouseWheelDown)));
    assert_eq!(take_input(&mut pending), Some(Some(BrowseKey::Char('j'))));
    assert_eq!(take_input(&mut pending), None);
    let mut partial = b"\x1b[<64;1".to_vec();
    assert_eq!(take_input(&mut partial), None);
    assert_eq!(partial, b"\x1b[<64;1".to_vec());
}

#[test]
fn click_selects_and_activates() {
    let root = format!("{ROOT}/handle");
    let mut state = BrowseState::open(root.clone(), Some(vec![file(&root, "a.rs"), file(&root, "b.rs")]));
    // screen row 3 is list row 2: `..`, a.rs, b.rs
    let out = state.handle_key(BrowseKey::MouseClick { row: 3, col: 0 }, 8);
    assert_eq!(out, BrowseOutcome::OpenFile { path: format!("{root}/b.rs") });
    assert_eq!(state.selected, 2);
    let before = state.clone();
    assert_eq!(state.handle_key(BrowseKey::Char('x'), 8), BrowseOutcome::Continue);
    assert_eq!(state, before);
    assert_eq!(state.handle_key(BrowseKey::Char('k'), 8), BrowseOutcome::Continue);
    assert_eq!(state.selected, 1);
}
