use herdr_preview::classify::{
    classify, classify_request, classify_with_fallbacks, ClassifyRequest, FallbackProbe, Probe,
    Target,
};
use herdr_preview::hint::{
    build_entries, fallback_roots, format_list, hint_key_for_index, line_from_open_spec,
    open_entry, open_preview_file, parse_entries_tsv, route_entry, run_hint_action, run_hint_list,
    serialize_entries, target_kind_label, unique_candidates, HintEntry, HintError, IoKind, OpenAction,
    OpenRoute, HINT_KEYS,
};

type Fs<'a> = &'a [(&'a str, bool)];

fn probe(raw: &str, cwd: &str, fs: Fs) -> Probe {
    match classify_request(raw, cwd, None) {
        ClassifyRequest::Url => Probe { resolved_is_dir: None, walk: vec![] },
        ClassifyRequest::Path { resolved, .. } => Probe {
            resolved_is_dir: fs.iter().find(|(p, _)| *p == resolved).map(|(_, d)| *d),
            walk: vec![],
        },
    }
}

/// The target of each unique candidate of `text`, as the hint action
/// classifies them: against `cwd`, then the worktree roots as fallbacks.
fn targets_for(text: &str, cwd: &str, roots: &[&str], fs: Fs) -> Vec<Target> {
    unique_candidates(text)
        .iter()
        .map(|span| {
            let primary = classify(&span.raw, cwd, None, &probe(&span.raw, cwd, fs));
            let fallbacks: Vec<FallbackProbe> = roots
                .iter()
                .map(|root| {
                    let t = classify(&span.raw, root, None, &probe(&span.raw, root, fs));
                    let canon = match &t {
                        Target::File { path, .. } | Target::Dir { path, .. } => path.clone(),
                        _ => String::new(),
                    };
                    FallbackProbe { root: root.to_string(), target: t, path_canonical: canon }
                })
                .collect();
            classify_with_fallbacks(&span.raw, cwd, cwd, primary, &fallbacks)
        })
        .collect()
}

fn entries_for(text: &str, cwd: &str, fs: Fs) -> Vec<HintEntry> {
    let targets = targets_for(text, cwd, &[], fs);
    build_entries(text, &targets)
}

const CWD: &str = "/tmp/hp-hint/repo";

#[test]
fn hint_keys_exclude_q_and_are_unique() {
    assert!(!HINT_KEYS.contains('q'));
    let mut chars: Vec<char> = HINT_KEYS.chars().collect();
    chars.sort_unstable();
    chars.dedup();
    assert_eq!(chars.len(), HINT_KEYS.len());
}

#[test]
fn hint_keys_are_unique_and_exclude_cancel() {
    assert_eq!(HINT_KEYS.len(), 25);
    assert!(!HINT_KEYS.contains('q'));
}

#[test]
fn hint_key_for_index_follows_hint_keys() {
    for (i, c) in HINT_KEYS.chars().enumerate() {
        assert_eq!(hint_key_for_index(i), Some(c));
    }
    assert_eq!(hint_key_for_index(25), None);
}

#[test]
fn line_from_open_spec_parses_suffix() {
    assert_eq!(line_from_open_spec("src/a.rs:42"), Some(42));
    assert_eq!(line_from_open_spec("src/a.rs:10-20"), Some(10));
    assert_eq!(line_from_open_spec("src/a.rs"), None);
}

#[test]
fn line_from_open_spec_rejects_zero_and_words() {
    assert_eq!(line_from_open_spec("a.rs:0"), None);
    assert_eq!(line_from_open_spec("/tmp/x:note"), None);
    assert_eq!(line_from_open_spec("a.rs:4294967296"), None);
}

#[test]
fn build_entries_skips_missing_urls_and_assigns_keys() {
    let fs = [("/tmp/hp-hint/repo/src", true), ("/tmp/hp-hint/repo/src/app.rs", false)];
    let text = "see src/app.rs and src/missing.rs\nhttps://example.com\n";
    let entries = entries_for(text, CWD, &fs);
    assert_eq!(entries.len(), 1);
    assert_eq!(entries[0].key, 'a');
    assert_eq!(entries[0].raw, "src/app.rs");
    assert!(matches!(entries[0].target, Target::File { .. }));
    assert!(entries[0].end > entries[0].start);
    assert_eq!(&text[entries[0].start..entries[0].end], "src/app.rs");
}

#[test]
fn build_entries_with_wrong_target_count_is_empty() {
    let text = "src/app.rs\n";
    assert!(build_entries(text, &vec![]).is_empty());
}

#[test]
fn repeated_candidates_get_one_entry() {
    let fs = [("/tmp/hp-hint/repo/a.rs", false), ("/tmp/hp-hint/repo/b.rs", false)];
    let entries = entries_for("a.rs b.rs a.rs\n", CWD, &fs);
    let keys: Vec<char> = entries.iter().map(|e| e.key).collect();
    let raws: Vec<&str> = entries.iter().map(|e| e.raw.as_str()).collect();
    assert_eq!(keys, vec!['a', 's']);
    assert_eq!(raws, vec!["a.rs", "b.rs"]);
}

#[test]
fn format_list_emits_tsv_rows() {
    let fs = [("/tmp/hp-hint/repo/src/app.rs", false)];
    let entries = entries_for("src/app.rs\n", CWD, &fs);
    let list = format_list(&entries);
    assert!(list.contains("\tsrc/app.rs\tfile\t"));
    assert!(list.starts_with("a\t"));
    assert_eq!(list, "a\t0\t10\tsrc/app.rs\tfile\tsrc/app.rs\t/tmp/hp-hint/repo/src/app.rs\n");
}

#[test]
fn entries_tsv_roundtrip() {
    let fs = [("/tmp/hp-hint/repo/docs", true)];
    let entries = entries_for("docs/\n", CWD, &fs);
    let tsv = serialize_entries(&entries);
    let parsed = parse_entries_tsv(&tsv).expect("parse");
    assert_eq!(parsed.len(), entries.len());
    assert_eq!(parsed[0].key, entries[0].key);
    assert_eq!(parsed[0].raw, entries[0].raw);
    assert_eq!(parsed, entries);
}

#[test]
fn roundtrip_clears_ambiguous_mark() {
    let e = HintEntry {
        key: 'a',
        start: 3,
        end: 9,
        raw: "x.md:4".into(),
        target: Target::File { path: "/w/a/x.md".into(), open_spec: "a/x.md:4".into(), ambiguous: true },
    };
    let parsed = parse_entries_tsv(&serialize_entries(&vec![e.clone()])).unwrap();
    assert_eq!(
        parsed[0].target,
        Target::File { path: "/w/a/x.md".into(), open_spec: "a/x.md:4".into(), ambiguous: false }
    );
    assert_eq!((parsed[0].start, parsed[0].end), (3, 9));
}

#[test]
fn parse_entries_tsv_skips_blank_lines_and_reads_urls() {
    let data = "\n  \na\t0\t9\thttps://x\turl\thttps://x\thttps://x\n";
    let parsed = parse_entries_tsv(data).unwrap();
    assert_eq!(parsed.len(), 1);
    assert_eq!(parsed[0].target, Target::Url("https://x".into()));
}

#[test]
fn parse_entries_tsv_reports_each_bad_line() {
    let err = |data: &str| match parse_entries_tsv(data) {
        Err(HintError::OverlayEnv(m)) => m,
        other => panic!("expected OverlayEnv, got {other:?}"),
    };
    assert_eq!(err("a\t1\t2\n"), "bad targets line: a\t1\t2");
    assert_eq!(err("\t1\t2\tr\tfile\to\tp\n"), "empty key");
    assert_eq!(err("a\tx\t2\tr\tfile\to\tp\n"), "bad start: x");
    assert_eq!(err("a\t1\t-2\tr\tfile\to\tp\n"), "bad end: -2");
    assert_eq!(err("a\t1\t2\tr\tmissing\to\tp\n"), "unknown kind: missing");
}

#[test]
fn path_field_keeps_tabs() {
    let parsed = parse_entries_tsv("a\t+1\t2\tr\tdir\to\tp\tq\n").unwrap();
    assert_eq!(parsed[0].start, 1);
    assert_eq!(
        parsed[0].target,
        Target::Dir { path: "p\tq".into(), open_spec: "o".into(), ambiguous: false }
    );
}

#[test]
fn route_entry_picks_backend_from_target_and_peer_detect() {
    let file = HintEntry {
        key: 'a',
        start: 0,
        end: 4,
        raw: "a.rs".into(),
        target: Target::File { path: "a.rs".into(), open_spec: "a.rs".into(), ambiguous: false },
    };
    let dir = HintEntry {
        key: 's',
        start: 0,
        end: 5,
        raw: "docs/".into(),
        target: Target::Dir { path: "docs".into(), open_spec: "docs/".into(), ambiguous: false },
    };
    let url = HintEntry {
        key: 'd',
        start: 0,
        end: 9,
        raw: "https://x".into(),
        target: Target::Url("https://x".into()),
    };
    assert_eq!(route_entry(&url, false), OpenRoute::Browser);
    // herdr-file-viewer not listed → less / browse
    assert_eq!(route_entry(&file, false), OpenRoute::Less);
    assert_eq!(route_entry(&dir, false), OpenRoute::Browse);
    assert_eq!(route_entry(&file, true), OpenRoute::FileViewer);
}

#[test]
fn open_entry_hands_each_opener_its_arguments() {
    let file = HintEntry {
        key: 'a',
        start: 0,
        end: 9,
        raw: "a.rs:12-20".into(),
        target: Target::File { path: "/r/a.rs".into(), open_spec: "a.rs:12-20".into(), ambiguous: false },
    };
    assert_eq!(
        open_entry(&file, true),
        OpenAction::FileViewer { open_spec: "a.rs:12-20".into() }
    );
    assert_eq!(
        open_entry(&file, false),
        OpenAction::Less { path: "/r/a.rs".into(), line: Some(12) }
    );
    let missing = HintEntry {
        key: 's',
        start: 0,
        end: 1,
        raw: "m".into(),
        target: Target::Missing { display: "m".into() },
    };
    assert_eq!(open_entry(&missing, true), OpenAction::Nothing);
}

#[test]
fn open_preview_file_refuses_non_files() {
    let dir = Target::Dir { path: "/r/docs".into(), open_spec: "docs".into(), ambiguous: false };
    assert_eq!(
        open_preview_file("/r/docs", &dir, true),
        Err(HintError::Io(IoKind::InvalidInput, "open_preview_file: not a file: /r/docs".into()))
    );
    let file = Target::File { path: "/r/a.rs".into(), open_spec: "a.rs".into(), ambiguous: false };
    assert_eq!(
        open_preview_file("/r/a.rs", &file, false),
        Ok(OpenAction::Less { path: "/r/a.rs".into(), line: None })
    );
}

#[test]
fn headless_list_mode_prints_path_targets_not_urls() {
    let fs = [("/tmp/hp-hint/repo/docs", true), ("/tmp/hp-hint/repo/docs/plan.md", false)];
    let text = "see docs/plan.md and docs/missing.md\nhttps://github.com/org/repo/pull/1\n";
    let targets = targets_for(text, CWD, &[], &fs);
    let output = run_hint_list(text, &targets).expect("list");
    assert!(output.contains("docs/plan.md"));
    assert!(!output.contains("https://github.com/org/repo/pull/1"));
    assert!(!output.contains("missing.md"));
}

#[test]
fn serialize_matches_format_list() {
    let fs = [("/tmp/hp-hint/repo/src/a.rs", false)];
    let entries = entries_for("src/a.rs\n", CWD, &fs);
    assert!(!entries.is_empty());
    assert_eq!(serialize_entries(&entries), format_list(&entries));
}

#[test]
fn run_hint_action_needs_an_entry() {
    assert_eq!(run_hint_action(&vec![]), Err(HintError::NoOpenableTargets));
    assert_eq!(HintError::NoOpenableTargets.message(), "no openable targets in visible pane text");
}

#[test]
fn builds_hint_for_path_only_in_visible_worktree() {
    let wt = "/tmp/hp-hint/repo/.agents/worktrees/feat-109-explain-the-product";
    let rel = "context/spec/008-make-product-explain-itself/technical-considerations.md";
    let full = format!("{wt}/{rel}");
    let fs = [(wt, true), (full.as_str(), false)];
    // Relative path appears BEFORE the worktree dir on screen (common agent layout).
    let text = format!("Approval gate ready.\n\n  {rel}\n\n  worktree: {wt}\n");
    // First pass: against the pane cwd only; the worktree dir shows up as a directory.
    let primary = targets_for(&text, CWD, &[], &fs);
    let roots = fallback_roots(&primary, &vec![]);
    assert_eq!(roots, vec![wt.to_string()]);
    let root_refs: Vec<&str> = roots.iter().map(|s| s.as_str()).collect();
    let targets = targets_for(&text, CWD, &root_refs, &fs);
    let entries = build_entries(&text, &targets);
    let hit = entries.iter().find(|e| e.raw == rel).expect("relative path in worktree should be hinted");
    match &hit.target {
        Target::File { open_spec, path, .. } => {
            assert_eq!(open_spec, &format!(".agents/worktrees/feat-109-explain-the-product/{rel}"));
            assert_eq!(path, &full);
        }
        other => panic!("expected file target, got {other:?}"),
    }
}

#[test]
fn fallback_roots_drop_repeats_by_component() {
    let dir = |p: &str| Target::Dir { path: p.into(), open_spec: p.into(), ambiguous: false };
    let primary = vec![dir("/r/worktrees/a"), dir("/r/docs"), dir("/r/worktrees/a/")];
    let roots = fallback_roots(&primary, &vec!["/r/worktrees/a".into(), "/r/worktrees/b".into()]);
    assert_eq!(roots, vec!["/r/worktrees/a".to_string(), "/r/worktrees/b".to_string()]);
}

#[test]
fn kind_labels() {
    assert_eq!(target_kind_label(&Target::Url("u".into())), "url");
    assert_eq!(target_kind_label(&Target::Missing { display: "m".into() }), "missing");
}

#[test]
fn entries_follow_the_text_once_each() {
    let fs = [
        ("/tmp/hp-hint/repo/src/a.rs", false),
        ("/tmp/hp-hint/repo/src/b.rs", false),
        ("/tmp/hp-hint/repo/src/c.md", false),
    ];
    let text = "src/b.rs and src/a.rs\nagain src/b.rs then src/c.md src/a.rs\n";
    let entries = entries_for(text, CWD, &fs);
    let raws: Vec<&str> = entries.iter().map(|e| e.raw.as_str()).collect();
    assert_eq!(raws, vec!["src/b.rs", "src/a.rs", "src/c.md"]);
    for w in entries.windows(2) {
        assert!(w[0].start < w[1].start);
    }
    for e in &entries {
        assert!(e.start < e.end);
    }
}

#[test]
fn headless_list_is_the_list_of_the_entries() {
    let fs = [("/tmp/hp-hint/repo/docs", true), ("/tmp/hp-hint/repo/docs/plan.md", false)];
    let text = "see docs/plan.md and docs/\n";
    let targets = targets_for(text, CWD, &[], &fs);
    let output = run_hint_list(text, &targets).expect("list");
    assert_eq!(output, format_list(&build_entries(text, &targets)));
}
