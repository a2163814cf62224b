use herdr_preview::classify::{
    classify, classify_input_check, classify_request, classify_with_fallbacks, is_worktree_dir,
    mark_ambiguous, parse_worktree_list, percent_decode, rel_matches_collapse, resolve_path,
    split_collapse_parts, split_line_suffix, ClassifyRequest, FallbackProbe, Probe, Target,
    WalkEntry,
};

/// A filesystem as a list of existing paths, each a directory or not.
type Fs<'a> = &'a [(&'a str, bool)];

fn chars(s: &str) -> Vec<char> {
    s.chars().collect()
}

fn text(v: &[char]) -> String {
    v.iter().collect()
}

fn probe(raw: &str, cwd: &str, home: Option<&str>, fs: Fs) -> Probe {
    match classify_request(raw, cwd, home) {
        ClassifyRequest::Url => Probe { resolved_is_dir: None, walk: vec![] },
        ClassifyRequest::Path { resolved, walk } => {
            let found = fs.iter().find(|(p, _)| *p == resolved).map(|(_, d)| *d);
            let entries = if found.is_none() && walk {
                let prefix = format!("{cwd}/");
                fs.iter()
                    .filter(|(p, _)| p.starts_with(&prefix))
                    .map(|(p, d)| WalkEntry { path: p.to_string(), is_dir: *d })
                    .collect()
            } else {
                vec![]
            };
            Probe { resolved_is_dir: found, walk: entries }
        }
    }
}

fn classify_in(raw: &str, cwd: &str, fs: Fs) -> Target {
    classify_home(raw, cwd, None, fs)
}

fn classify_home(raw: &str, cwd: &str, home: Option<&str>, fs: Fs) -> Target {
    assert!(classify_input_check(raw));
    let p = probe(raw, cwd, home, fs);
    classify(raw, cwd, home, &p)
}

fn file_target_path(target: Target) -> String {
    match target {
        Target::File { path, .. } => path,
        other => panic!("expected file target, got {other:?}"),
    }
}

fn file_open_spec(target: Target) -> String {
    match target {
        Target::File { open_spec, .. } => open_spec,
        other => panic!("expected file target, got {other:?}"),
    }
}

fn dir_target_path(target: Target) -> String {
    match target {
        Target::Dir { path, .. } => path,
        other => panic!("expected dir target, got {other:?}"),
    }
}

const CWD: &str = "/tmp/hp/repo";

#[test]
fn split_line_suffix_keeps_non_numeric_colon_on_path() {
    let (path, suffix) = split_line_suffix(&chars("C:\\dev\\note.txt"));
    assert_eq!((text(&path), suffix.map(|s| text(&s))), ("C:\\dev\\note.txt".to_string(), None));
}

#[test]
fn percent_decode_replaces_encoded_space() {
    assert_eq!(percent_decode("Tray%20status"), "Tray status");
}

#[test]
fn collapse_parts_match_internal_and_leading() {
    let middle = split_collapse_parts(&chars("context/spec/…/review.md")).unwrap();
    assert!(rel_matches_collapse(
        &chars("context/spec/009-one-call-per-source-synth/review.md"),
        &middle
    ));
    assert!(!rel_matches_collapse(&chars("context/spec/review.md"), &middle));

    let leading = split_collapse_parts(&chars("...xt/spec/foo.md")).unwrap();
    assert!(rel_matches_collapse(&chars("context/spec/foo.md"), &leading));

    let both = split_collapse_parts(&chars("...xt/spec/…/review.md")).unwrap();
    assert!(rel_matches_collapse(
        &chars("context/spec/009-one-call-per-source-synth/review.md"),
        &both
    ));
}

#[test]
fn classifies_existing_file_relative_to_cwd() {
    let fs = [("/tmp/hp/repo/src", true), ("/tmp/hp/repo/src/app.rs", false)];
    let target = classify_in("src/app.rs", CWD, &fs);
    assert_eq!(file_target_path(target.clone()), "/tmp/hp/repo/src/app.rs");
    assert_eq!(file_open_spec(target), "src/app.rs");
}

#[test]
fn classifies_existing_directory() {
    let fs = [("/tmp/hp/repo/docs", true)];
    let target = classify_in("docs", CWD, &fs);
    assert_eq!(dir_target_path(target.clone()), "/tmp/hp/repo/docs");
    match target {
        Target::Dir { open_spec, .. } => assert_eq!(open_spec, "docs"),
        other => panic!("expected dir target, got {other:?}"),
    }
}

#[test]
fn classifies_https_url_without_filesystem_probe() {
    assert!(matches!(
        classify_request("https://github.com/org/repo/pull/1", CWD, None),
        ClassifyRequest::Url
    ));
    let target = classify_in("https://github.com/org/repo/pull/1", CWD, &[]);
    assert_eq!(target, Target::Url("https://github.com/org/repo/pull/1".into()));
}

#[test]
fn classifies_missing_path() {
    let target = classify_in("src/missing.rs", CWD, &[]);
    assert_eq!(target, Target::Missing { display: "src/missing.rs".into() });
}

#[test]
fn percent_decodes_filesystem_path() {
    let fs = [("/tmp/hp/repo/docs/Tray status.md", false)];
    let target = classify_in("docs/Tray%20status.md", CWD, &fs);
    assert_eq!(file_target_path(target.clone()), "/tmp/hp/repo/docs/Tray status.md");
    assert_eq!(file_open_spec(target), "docs/Tray status.md");
}

#[test]
fn keeps_single_line_suffix_in_open_spec() {
    let fs = [("/tmp/hp/repo/src/app.rs", false)];
    let target = classify_in("src/app.rs:42", CWD, &fs);
    assert_eq!(file_target_path(target.clone()), "/tmp/hp/repo/src/app.rs");
    assert_eq!(file_open_spec(target), "src/app.rs:42");
}

#[test]
fn keeps_line_range_suffix_in_open_spec() {
    let fs = [("/tmp/hp/repo/src/app.rs", false)];
    let target = classify_in("src/app.rs:10-20", CWD, &fs);
    assert_eq!(file_target_path(target.clone()), "/tmp/hp/repo/src/app.rs");
    assert_eq!(file_open_spec(target), "src/app.rs:10-20");
}

#[test]
fn resolves_relative_path_against_cwd() {
    let fs = [("/tmp/hp/repo/sibling.md", false)];
    let target = classify_in("../sibling.md", "/tmp/hp/repo/sub", &fs);
    assert_eq!(file_target_path(target.clone()), "/tmp/hp/repo/sibling.md");
    assert_eq!(file_open_spec(target), "../sibling.md");
}

#[test]
fn strips_file_url_prefix_and_resolves() {
    let fs = [("/tmp/hp/repo/docs/readme.md", false)];
    let target = classify_in("file://docs/readme.md", CWD, &fs);
    assert_eq!(file_target_path(target.clone()), "/tmp/hp/repo/docs/readme.md");
    assert_eq!(file_open_spec(target), "docs/readme.md");
}

#[test]
fn expands_tilde_home_paths() {
    let home = "/tmp/hp/home";
    let fs = [
        ("/tmp/hp/home/code/proj/README.md", false),
        ("/tmp/hp/home/scripts", true),
    ];
    let file = classify_home("~/code/proj/README.md", "/tmp/hp/cwd", Some(home), &fs);
    let dir = classify_home("~/scripts/", "/tmp/hp/cwd", Some(home), &fs);
    assert_eq!(file_target_path(file.clone()), "/tmp/hp/home/code/proj/README.md");
    assert_eq!(file_open_spec(file), format!("{home}/code/proj/README.md"));
    assert_eq!(dir_target_path(dir), "/tmp/hp/home/scripts");
}

#[test]
fn fallback_worktree_rewrites_open_spec_under_primary_cwd() {
    let raw = "context/spec/technical-considerations.md";
    let wt = "/tmp/hp/repo/.agents/worktrees/feat-x";
    let fs = [("/tmp/hp/repo/.agents/worktrees/feat-x/context/spec/technical-considerations.md", false)];
    let primary = classify_in(raw, CWD, &[]);
    assert!(matches!(primary, Target::Missing { .. }));

    let in_wt = classify_in(raw, wt, &fs);
    let found = file_target_path(in_wt.clone());
    let fallbacks = vec![FallbackProbe {
        root: wt.to_string(),
        target: in_wt,
        path_canonical: found.clone(),
    }];
    let target = classify_with_fallbacks(raw, CWD, CWD, primary, &fallbacks);
    assert_eq!(file_target_path(target.clone()), format!("{wt}/{raw}"));
    assert_eq!(
        file_open_spec(target),
        ".agents/worktrees/feat-x/context/spec/technical-considerations.md"
    );
}

#[test]
fn fallback_with_two_hits_marks_first_ambiguous() {
    let raw = "notes.md";
    let a = "/tmp/hp/repo/worktrees/a";
    let b = "/tmp/hp/repo/worktrees/b";
    let fs = [("/tmp/hp/repo/worktrees/a/notes.md", false), ("/tmp/hp/repo/worktrees/b/notes.md", false)];
    let primary = classify_in(raw, CWD, &[]);
    let fallbacks: Vec<FallbackProbe> = [a, b]
        .iter()
        .map(|root| {
            let t = classify_in(raw, root, &fs);
            FallbackProbe { root: root.to_string(), path_canonical: file_target_path(t.clone()), target: t }
        })
        .collect();
    match classify_with_fallbacks(raw, CWD, CWD, primary, &fallbacks) {
        Target::File { path, open_spec, ambiguous } => {
            assert_eq!(path, "/tmp/hp/repo/worktrees/a/notes.md");
            assert_eq!(open_spec, "worktrees/a/notes.md");
            assert!(ambiguous);
        }
        other => panic!("expected file target, got {other:?}"),
    }
}

#[test]
fn fallback_keeps_primary_hit() {
    let fs = [("/tmp/hp/repo/a.rs", false)];
    let primary = classify_in("a.rs", CWD, &fs);
    let fallbacks = vec![FallbackProbe {
        root: "/tmp/hp/other".to_string(),
        target: Target::File { path: "/tmp/hp/other/a.rs".into(), open_spec: "a.rs".into(), ambiguous: false },
        path_canonical: "/tmp/hp/other/a.rs".into(),
    }];
    assert_eq!(classify_with_fallbacks("a.rs", CWD, CWD, primary.clone(), &fallbacks), primary);
}

#[test]
fn collapsed_path_found_by_walking_cwd() {
    let fs = [
        ("/tmp/hp/repo/context", true),
        ("/tmp/hp/repo/context/spec", true),
        ("/tmp/hp/repo/context/spec/009-one/review.md", false),
    ];
    let target = classify_in("context/spec/…/review.md:7", CWD, &fs);
    assert_eq!(file_target_path(target.clone()), "/tmp/hp/repo/context/spec/009-one/review.md");
    assert_eq!(file_open_spec(target), "context/spec/009-one/review.md:7");
}

#[test]
fn worktree_dirs_and_listing() {
    assert!(is_worktree_dir("/tmp/hp/repo/.agents/worktrees/feat"));
    assert!(!is_worktree_dir("/tmp/hp/repo/worktree"));
    let list = "worktree /tmp/hp/repo\nHEAD abc\n\nworktree /tmp/hp/wt\nbranch x\n";
    assert_eq!(parse_worktree_list(list), vec!["/tmp/hp/repo".to_string(), "/tmp/hp/wt".to_string()]);
}

#[test]
fn resolve_path_normalises_dots() {
    assert_eq!(resolve_path("./a/../b", "/tmp/hp"), "/tmp/hp/b");
    assert_eq!(resolve_path("/abs/x", "/tmp/hp"), "/abs/x");
}

#[test]
fn mark_ambiguous_sets_flag_on_dirs_only_of_paths() {
    let d = Target::Dir { path: "/d".into(), open_spec: "d".into(), ambiguous: false };
    assert_eq!(
        mark_ambiguous(d),
        Target::Dir { path: "/d".into(), open_spec: "d".into(), ambiguous: true }
    );
    let u = Target::Url("https://x".into());
    assert_eq!(mark_ambiguous(u.clone()), u);
}

#[test]
fn percent_decode_reads_escapes_as_from_str_radix_does() {
    assert_eq!(percent_decode("a%+ab"), "a\nb");
    assert_eq!(percent_decode("%+g"), "%+g");
    assert_eq!(percent_decode("%2"), "%2");
    assert_eq!(percent_decode("%zz%41"), "%zzA");
    assert_eq!(percent_decode("docs/%aé.md"), "docs/%aé.md");
}

#[test]
fn urls_are_classified_whatever_their_escapes() {
    let raw = "https://x/%aé";
    assert!(classify_input_check(raw));
    assert_eq!(classify_in(raw, "/tmp/hp", &[]), Target::Url(raw.to_string()));
    assert!(!classify_input_check("docs/%aé.md"));
}
