//! Openers for a picked path: herdr-file-viewer when it is installed, a
//! `less` overlay otherwise. Here: recognising the file viewer in herdr's
//! plugin list, splitting an open spec into path and line suffix, the path
//! handed to the viewer, and the arguments of the herdr commands that open
//! the overlays.
use vstd::prelude::*;
use crate::classify::{
    lines_of, lines_spec, strip_prefix, strip_prefix_spec, strs, trim_chars, trim_spec,
};
use crate::json::{
    array_spec, as_array, as_str, at_path, get, get_spec, json_error_text, json_of_bytes, non_empty,
    parse_json_bytes, str_spec, JsonView,
};
use crate::paths::is_rooted;
use crate::text::{
    all_digits, ascii_digit, find_char_from, first_from, is_ascii_dig, last_before,
    lemma_first_from, lemma_last_before, matches_at, matches_at_exec, push_range, push_str,
    rfind_char_before, str_to_chars, string_from_range, string_push, usize_to_decimal, decimal,
};

verus! {

/// The two ways a file is previewed.
#[derive(Debug, Clone, Copy, PartialEq, Eq, Structural)]
pub enum OpenBackend {
    FileViewer,
    Less,
}

// ---------------------------------------------------------------- plugin list

/// `p` occurs somewhere in `s`.
pub open spec fn contains_seq(s: Seq<char>, p: Seq<char>) -> bool {
    exists|i: int| #[trigger] matches_at(s, i, p)
}

/// A line of `herdr plugin list` that names herdr-file-viewer as an
/// installed plugin (such lines start with `-`).
pub open spec fn lists_file_viewer(line: Seq<char>) -> bool {
    &&& line.len() > 0
    &&& line[0] == '-'
    &&& contains_seq(line, "herdr-file-viewer"@)
}

/// True when `p` occurs in `s`.
pub fn contains_chars(s: &[char], p: &[char]) -> (r: bool)
    ensures
        r == contains_seq(s@, p@),
{
    if p.len() > s.len() {
        assert forall|j: int| #[trigger] matches_at(s@, j, p@) implies false by {}
        return false;
    }
    let lim = s.len() - p.len();
    let mut i: usize = 0;
    while i < lim
        invariant
            lim == s@.len() - p@.len(),
            i <= lim,
            forall|j: int| 0 <= j < i ==> !matches_at(s@, j, p@),
        decreases lim - i,
    {
        if matches_at_exec(s, i, p) {
            return true;
        }
        i = i + 1;
    }
    if matches_at_exec(s, lim, p) {
        return true;
    }
    assert forall|j: int| #[trigger] matches_at(s@, j, p@) implies false by {
        assert(0 <= j && j + p@.len() <= s@.len());
    }
    false
}

/// True when the output of `herdr plugin list` lists herdr-file-viewer.
pub fn file_viewer_listed(plugin_list: &str) -> (r: bool)
    ensures
        r == exists|k: int|
            0 <= k < lines_spec(plugin_list@).len() && lists_file_viewer(
                #[trigger] lines_spec(plugin_list@)[k],
            ),
{
    let chars = str_to_chars(plugin_list);
    let lines = lines_of(chars.as_slice());
    let ghost ls = lines@.map_values(|l: Vec<char>| l@);
    let name = str_to_chars("herdr-file-viewer");
    let mut k: usize = 0;
    while k < lines.len()
        invariant
            ls == lines@.map_values(|l: Vec<char>| l@),
            ls == lines_spec(plugin_list@),
            name@ == "herdr-file-viewer"@,
            k <= ls.len(),
            forall|j: int| 0 <= j < k ==> !lists_file_viewer(#[trigger] ls[j]),
        decreases ls.len() - k,
    {
        let l = &lines[k];
        assert(ls[k as int] == l@);
        if l.len() > 0 && l[0] == '-' && contains_chars(l.as_slice(), name.as_slice()) {
            return true;
        }
        k = k + 1;
    }
    false
}

// ---------------------------------------------------------------- open specs

/// A line suffix after `:`: `N` or `A-B`, digits only.
pub open spec fn line_suffix_ok(suffix: Seq<char>) -> bool {
    let d = first_from(suffix, '-', 0);
    if d < suffix.len() {
        all_digits(suffix.take(d)) && all_digits(suffix.skip(d + 1))
    } else {
        all_digits(suffix)
    }
}

/// `path`, `path:N` or `path:A-B` split into the path and the `:suffix`
/// (empty when there is none).
pub open spec fn split_open_spec_spec(s: Seq<char>) -> (Seq<char>, Seq<char>) {
    let c = last_before(s, ':', s.len() as int);
    if c >= 0 && line_suffix_ok(s.subrange(c + 1, s.len() as int)) {
        (s.take(c), s.skip(c))
    } else {
        (s, seq![])
    }
}

fn digits_in(v: &[char], from: usize, to: usize) -> (r: bool)
    requires
        from <= to <= v@.len(),
    ensures
        r == all_digits(v@.subrange(from as int, to as int)),
{
    if from == to {
        return false;
    }
    let mut i = from;
    while i < to
        invariant
            from <= i <= to <= v@.len(),
            forall|k: int| from <= k < i ==> is_ascii_dig(#[trigger] v@[k]),
        decreases to - i,
    {
        if !ascii_digit(v[i]) {
            assert(!is_ascii_dig(v@.subrange(from as int, to as int)[i - from]));
            return false;
        }
        i = i + 1;
    }
    assert forall|k: int| 0 <= k < to - from implies is_ascii_dig(
        #[trigger] v@.subrange(from as int, to as int)[k],
    ) by {
        assert(v@.subrange(from as int, to as int)[k] == v@[from + k]);
    }
    true
}

/// Splits an open spec into its path and its `:N` / `:A-B` suffix; the two
/// put together give the open spec back.
pub fn split_open_spec(open_spec: &str) -> (r: (String, String))
    ensures
        (r.0@, r.1@) == split_open_spec_spec(open_spec@),
        r.0@ + r.1@ == open_spec@,
{
    let v = str_to_chars(open_spec);
    let n = v.len();
    proof {
        lemma_last_before(v@, ':', n as int);
    }
    assert(v@.take(n as int) =~= v@);
    assert(v@.skip(0) =~= v@);
    match rfind_char_before(v.as_slice(), ':', n) {
        Some(c) => {
            let d = find_char_from(v.as_slice(), '-', c + 1);
            proof {
                lemma_first_from(v@, '-', (c + 1) as int);
                crate::classify::lemma_first_from_sub(v@, '-', (c + 1) as int, n as int);
            }
            let ghost suffix = v@.subrange(c + 1, n as int);
            let ok = if d < n {
                assert(suffix.take(d - (c + 1)) =~= v@.subrange(c + 1, d as int));
                assert(suffix.skip(d - (c + 1) + 1) =~= v@.subrange(d + 1, n as int));
                digits_in(v.as_slice(), c + 1, d) && digits_in(v.as_slice(), d + 1, n)
            } else {
                digits_in(v.as_slice(), c + 1, n)
            };
            if ok {
                let path = string_from_range(v.as_slice(), 0, c);
                let rest = string_from_range(v.as_slice(), c, n);
                assert(v@.subrange(0, c as int) =~= v@.take(c as int));
                assert(v@.subrange(c as int, n as int) =~= v@.skip(c as int));
                assert(v@.take(c as int) + v@.skip(c as int) =~= v@);
                (path, rest)
            } else {
                let path = string_from_range(v.as_slice(), 0, n);
                assert(v@.subrange(0, n as int) =~= v@);
                (path, String::new())
            }
        },
        None => {
            let path = string_from_range(v.as_slice(), 0, n);
            assert(v@.subrange(0, n as int) =~= v@);
            (path, String::new())
        },
    }
}

/// `PathBuf::join`: an absolute `p` replaces `base`; otherwise `p` follows
/// `base`, with a `/` between them when `base` does not end in one.
pub open spec fn join_path(base: Seq<char>, p: Seq<char>) -> Seq<char> {
    if is_rooted(p) || base.len() == 0 {
        p
    } else if base.last() == '/' {
        base + p
    } else {
        base + seq!['/'] + p
    }
}

/// `base` joined with `p` (see [`join_path`]).
pub fn join_paths(base: &str, p: &str) -> (r: String)
    ensures
        r@ == join_path(base@, p@),
{
    let pv = str_to_chars(p);
    let bv = str_to_chars(base);
    let mut out = String::new();
    if (pv.len() > 0 && pv[0] == '/') || bv.len() == 0 {
        push_str(&mut out, p);
        return out;
    }
    push_str(&mut out, base);
    if bv[bv.len() - 1] != '/' {
        string_push(&mut out, '/');
    }
    push_str(&mut out, p);
    out
}

/// The path an open spec names, before it is made canonical: its path part,
/// under `cwd` when relative.
pub fn open_candidate(open_spec: &str, cwd: &str) -> (r: String)
    ensures
        r@ == join_path(cwd@, split_open_spec_spec(open_spec@).0),
{
    let (path, _) = split_open_spec(open_spec);
    join_paths(cwd, path.as_str())
}

/// What herdr-file-viewer is asked to open: the canonical path `abs`
/// relative to the viewer's root `root` when it lies under it (else `abs`),
/// with the open spec's line suffix.
pub open spec fn open_target_spec(open_spec: Seq<char>, abs: Seq<char>, root: Seq<char>) -> Seq<
    char,
> {
    let rel = match strip_prefix_spec(abs, root) {
        Some(r) => r,
        None => abs,
    };
    rel + split_open_spec_spec(open_spec).1
}

/// The open target for the viewer (see [`open_target_spec`]).
pub fn open_target_for_cwd(open_spec: &str, abs: &str, root: &str) -> (r: String)
    ensures
        r@ == open_target_spec(open_spec@, abs@, root@),
{
    let (_, suffix) = split_open_spec(open_spec);
    let mut out = match strip_prefix(abs, root) {
        Some(rel) => rel,
        None => {
            let mut s = String::new();
            push_str(&mut s, abs);
            s
        },
    };
    push_str(&mut out, suffix.as_str());
    out
}

// ---------------------------------------------------------------- herdr commands

fn push_arg(args: &mut Vec<String>, a: &str)
    ensures
        strs(final(args)@) == strs(old(args)@).push(a@),
{
    let mut s = String::new();
    push_str(&mut s, a);
    let ghost old_args = args@;
    args.push(s);
    assert(strs(args@) =~= strs(old_args).push(a@));
}

/// The arguments of `herdr` that open `path` in the `less` overlay pane, at
/// `line` when there is one.
pub open spec fn less_args_spec(path: Seq<char>, line: Option<u32>) -> Seq<Seq<char>> {
    let base = seq![
        "plugin"@,
        "pane"@,
        "open"@,
        "--plugin"@,
        "herdr-preview"@,
        "--entrypoint"@,
        "less"@,
        "--placement"@,
        "overlay"@,
        "--focus"@,
        "--env"@,
        "HERDR_PREVIEW_LESS_FILE="@ + path,
    ];
    match line {
        Some(n) => base + seq!["--env"@, "HERDR_PREVIEW_LESS_LINE="@ + decimal(n as nat)],
        None => base,
    }
}

/// The arguments of `herdr` that open the `less` overlay (see [`less_args_spec`]).
pub fn less_pane_args(path: &str, line: Option<u32>) -> (r: Vec<String>)
    ensures
        strs(r@) == less_args_spec(path@, line),
{
    let mut a: Vec<String> = Vec::new();
    push_arg(&mut a, "plugin");
    push_arg(&mut a, "pane");
    push_arg(&mut a, "open");
    push_arg(&mut a, "--plugin");
    push_arg(&mut a, "herdr-preview");
    push_arg(&mut a, "--entrypoint");
    push_arg(&mut a, "less");
    push_arg(&mut a, "--placement");
    push_arg(&mut a, "overlay");
    push_arg(&mut a, "--focus");
    push_arg(&mut a, "--env");
    let mut file = String::new();
    push_str(&mut file, "HERDR_PREVIEW_LESS_FILE=");
    push_str(&mut file, path);
    push_arg(&mut a, file.as_str());
    match line {
        Some(n) => {
            push_arg(&mut a, "--env");
            let mut l = String::new();
            push_str(&mut l, "HERDR_PREVIEW_LESS_LINE=");
            let d = usize_to_decimal(n as usize);
            push_str(&mut l, d.as_str());
            push_arg(&mut a, l.as_str());
        },
        None => {},
    }
    assert(strs(a@) =~= less_args_spec(path@, line));
    a
}

/// The arguments of `herdr` that open herdr-file-viewer on `open_target`
/// in a split beside the origin pane `origin`.
pub open spec fn file_viewer_args_spec(origin: Seq<char>, open_target: Seq<char>) -> Seq<
    Seq<char>,
> {
    seq![
        "plugin"@,
        "pane"@,
        "open"@,
        "--plugin"@,
        "herdr-file-viewer"@,
        "--entrypoint"@,
        "file-viewer"@,
        "--placement"@,
        "split"@,
        "--direction"@,
        "right"@,
        "--target-pane"@,
        origin,
        "--focus"@,
        "--env"@,
        "HERDR_FILE_VIEWER_OPEN="@ + open_target,
    ]
}

/// The arguments of `herdr` that open herdr-file-viewer beside `origin`
/// (see [`file_viewer_args_spec`]).
pub fn file_viewer_pane_args(origin: &str, open_target: &str) -> (r: Vec<String>)
    ensures
        strs(r@) == file_viewer_args_spec(origin@, open_target@),
{
    let mut a: Vec<String> = Vec::new();
    push_arg(&mut a, "plugin");
    push_arg(&mut a, "pane");
    push_arg(&mut a, "open");
    push_arg(&mut a, "--plugin");
    push_arg(&mut a, "herdr-file-viewer");
    push_arg(&mut a, "--entrypoint");
    push_arg(&mut a, "file-viewer");
    push_arg(&mut a, "--placement");
    push_arg(&mut a, "split");
    push_arg(&mut a, "--direction");
    push_arg(&mut a, "right");
    push_arg(&mut a, "--target-pane");
    push_arg(&mut a, origin);
    push_arg(&mut a, "--focus");
    push_arg(&mut a, "--env");
    let mut e = String::new();
    push_str(&mut e, "HERDR_FILE_VIEWER_OPEN=");
    push_str(&mut e, open_target);
    push_arg(&mut a, e.as_str());
    assert(strs(a@) =~= file_viewer_args_spec(origin@, open_target@));
    a
}

/// The arguments of `herdr` that open the hint overlay pane, handing it the
/// list, the pane text, the working directory and the origin pane by
/// environment.
pub open spec fn hint_overlay_args_spec(
    targets_path: Seq<char>,
    snap_path: Seq<char>,
    cwd: Seq<char>,
    origin: Seq<char>,
) -> Seq<Seq<char>> {
    seq![
        "plugin"@,
        "pane"@,
        "open"@,
        "--plugin"@,
        "herdr-preview"@,
        "--entrypoint"@,
        "hint-overlay"@,
        "--placement"@,
        "overlay"@,
        "--focus"@,
        "--env"@,
        "HERDR_PREVIEW_HINT_TARGETS="@ + targets_path,
        "--env"@,
        "HERDR_PREVIEW_HINT_SNAP="@ + snap_path,
        "--env"@,
        "HERDR_PREVIEW_HINT_CWD="@ + cwd,
        "--env"@,
        "HERDR_PREVIEW_HINT_ORIGIN="@ + origin,
    ]
}

/// The arguments of `herdr` that open the hint overlay pane (see
/// [`hint_overlay_args_spec`]).
pub fn hint_overlay_args(targets_path: &str, snap_path: &str, cwd: &str, origin: &str) -> (r: Vec<
    String,
>)
    ensures
        strs(r@) == hint_overlay_args_spec(targets_path@, snap_path@, cwd@, origin@),
{
    let mut a: Vec<String> = Vec::new();
    push_arg(&mut a, "plugin");
    push_arg(&mut a, "pane");
    push_arg(&mut a, "open");
    push_arg(&mut a, "--plugin");
    push_arg(&mut a, "herdr-preview");
    push_arg(&mut a, "--entrypoint");
    push_arg(&mut a, "hint-overlay");
    push_arg(&mut a, "--placement");
    push_arg(&mut a, "overlay");
    push_arg(&mut a, "--focus");
    push_arg(&mut a, "--env");
    let mut t = String::new();
    push_str(&mut t, "HERDR_PREVIEW_HINT_TARGETS=");
    push_str(&mut t, targets_path);
    push_arg(&mut a, t.as_str());
    push_arg(&mut a, "--env");
    let mut sn = String::new();
    push_str(&mut sn, "HERDR_PREVIEW_HINT_SNAP=");
    push_str(&mut sn, snap_path);
    push_arg(&mut a, sn.as_str());
    push_arg(&mut a, "--env");
    let mut c = String::new();
    push_str(&mut c, "HERDR_PREVIEW_HINT_CWD=");
    push_str(&mut c, cwd);
    push_arg(&mut a, c.as_str());
    push_arg(&mut a, "--env");
    let mut o = String::new();
    push_str(&mut o, "HERDR_PREVIEW_HINT_ORIGIN=");
    push_str(&mut o, origin);
    push_arg(&mut a, o.as_str());
    assert(strs(a@) =~= hint_overlay_args_spec(targets_path@, snap_path@, cwd@, origin@));
    a
}

/// The arguments of `herdr` that open the browse overlay on directory
/// `dir`, for the pane whose working directory is `cwd` (and whose id is
/// `origin`, when known and not empty).
pub open spec fn browse_overlay_args_spec(
    dir: Seq<char>,
    cwd: Seq<char>,
    origin: Option<Seq<char>>,
) -> Seq<Seq<char>> {
    let base = seq![
        "plugin"@,
        "pane"@,
        "open"@,
        "--plugin"@,
        "herdr-preview"@,
        "--entrypoint"@,
        "browse"@,
        "--placement"@,
        "overlay"@,
        "--focus"@,
        "--env"@,
        "HERDR_PREVIEW_BROWSE_START="@ + dir,
        "--env"@,
        "HERDR_PREVIEW_BROWSE_CWD="@ + cwd,
    ];
    match origin {
        Some(o) => if o.len() > 0 {
            base + seq!["--env"@, "HERDR_PREVIEW_BROWSE_ORIGIN="@ + o]
        } else {
            base
        },
        None => base,
    }
}

/// The arguments of `herdr` that open the browse overlay (see
/// [`browse_overlay_args_spec`]).
pub fn browse_overlay_args(dir: &str, cwd: &str, origin: Option<&str>) -> (r: Vec<String>)
    ensures
        strs(r@) == browse_overlay_args_spec(
            dir@,
            cwd@,
            match origin {
                Some(o) => Some(o@),
                None => None,
            },
        ),
{
    let mut a: Vec<String> = Vec::new();
    push_arg(&mut a, "plugin");
    push_arg(&mut a, "pane");
    push_arg(&mut a, "open");
    push_arg(&mut a, "--plugin");
    push_arg(&mut a, "herdr-preview");
    push_arg(&mut a, "--entrypoint");
    push_arg(&mut a, "browse");
    push_arg(&mut a, "--placement");
    push_arg(&mut a, "overlay");
    push_arg(&mut a, "--focus");
    push_arg(&mut a, "--env");
    let mut st = String::new();
    push_str(&mut st, "HERDR_PREVIEW_BROWSE_START=");
    push_str(&mut st, dir);
    push_arg(&mut a, st.as_str());
    push_arg(&mut a, "--env");
    let mut c = String::new();
    push_str(&mut c, "HERDR_PREVIEW_BROWSE_CWD=");
    push_str(&mut c, cwd);
    push_arg(&mut a, c.as_str());
    match origin {
        Some(o) => if !o.is_empty() {
            push_arg(&mut a, "--env");
            let mut e = String::new();
            push_str(&mut e, "HERDR_PREVIEW_BROWSE_ORIGIN=");
            push_str(&mut e, o);
            push_arg(&mut a, e.as_str());
        },
        None => {},
    }
    assert(strs(a@) =~= browse_overlay_args_spec(
        dir@,
        cwd@,
        match origin {
            Some(o) => Some(o@),
            None => None,
        },
    ));
    a
}

/// The arguments of `herdr` that read the visible text of pane `pane_id`
/// (the screen, never the scrollback) as plain text.
pub open spec fn pane_read_args_spec(pane_id: Seq<char>) -> Seq<Seq<char>> {
    seq!["pane"@, "read"@, pane_id, "--source"@, "visible"@, "--format"@, "text"@]
}

/// The arguments of `herdr` that read the visible text of a pane (see
/// [`pane_read_args_spec`]).
pub fn pane_read_args(pane_id: &str) -> (r: Vec<String>)
    ensures
        strs(r@) == pane_read_args_spec(pane_id@),
{
    let mut a: Vec<String> = Vec::new();
    push_arg(&mut a, "pane");
    push_arg(&mut a, "read");
    push_arg(&mut a, pane_id);
    push_arg(&mut a, "--source");
    push_arg(&mut a, "visible");
    push_arg(&mut a, "--format");
    push_arg(&mut a, "text");
    assert(strs(a@) =~= pane_read_args_spec(pane_id@));
    a
}

/// The arguments of `herdr` that describe pane `pane_id`.
pub open spec fn pane_get_args_spec(pane_id: Seq<char>) -> Seq<Seq<char>> {
    seq!["pane"@, "get"@, pane_id]
}

/// The arguments of `herdr` that describe a pane (see [`pane_get_args_spec`]).
pub fn pane_get_args(pane_id: &str) -> (r: Vec<String>)
    ensures
        strs(r@) == pane_get_args_spec(pane_id@),
{
    let mut a: Vec<String> = Vec::new();
    push_arg(&mut a, "pane");
    push_arg(&mut a, "get");
    push_arg(&mut a, pane_id);
    assert(strs(a@) =~= pane_get_args_spec(pane_id@));
    a
}

/// The arguments of `herdr` that zoom pane `pane_id` in (`on`) or out;
/// zooming in and then out focuses a pane without maximizing it.
pub open spec fn pane_zoom_args_spec(pane_id: Seq<char>, on: bool) -> Seq<Seq<char>> {
    seq!["pane"@, "zoom"@, pane_id, if on { "--on"@ } else { "--off"@ }]
}

/// The arguments of `herdr` that zoom a pane in or out (see
/// [`pane_zoom_args_spec`]).
pub fn pane_zoom_args(pane_id: &str, on: bool) -> (r: Vec<String>)
    ensures
        strs(r@) == pane_zoom_args_spec(pane_id@, on),
{
    let mut a: Vec<String> = Vec::new();
    push_arg(&mut a, "pane");
    push_arg(&mut a, "zoom");
    push_arg(&mut a, pane_id);
    if on {
        push_arg(&mut a, "--on");
    } else {
        push_arg(&mut a, "--off");
    }
    assert(strs(a@) =~= pane_zoom_args_spec(pane_id@, on));
    a
}

/// The arguments of `herdr` that make a focused tab rooted at `root` whose
/// pane will open `open_target` in herdr-file-viewer.
pub open spec fn tab_create_args_spec(root: Seq<char>, open_target: Seq<char>) -> Seq<Seq<char>> {
    seq![
        "tab"@,
        "create"@,
        "--cwd"@,
        root,
        "--focus"@,
        "--env"@,
        "HERDR_FILE_VIEWER_OPEN="@ + open_target,
    ]
}

/// The arguments of `herdr` that make a tab for herdr-file-viewer (see
/// [`tab_create_args_spec`]).
pub fn tab_create_args(root: &str, open_target: &str) -> (r: Vec<String>)
    ensures
        strs(r@) == tab_create_args_spec(root@, open_target@),
{
    let mut a: Vec<String> = Vec::new();
    push_arg(&mut a, "tab");
    push_arg(&mut a, "create");
    push_arg(&mut a, "--cwd");
    push_arg(&mut a, root);
    push_arg(&mut a, "--focus");
    push_arg(&mut a, "--env");
    let mut e = String::new();
    push_str(&mut e, "HERDR_FILE_VIEWER_OPEN=");
    push_str(&mut e, open_target);
    push_arg(&mut a, e.as_str());
    assert(strs(a@) =~= tab_create_args_spec(root@, open_target@));
    a
}

/// The arguments of `herdr` that run `program` in pane `pane_id`.
pub open spec fn pane_run_args_spec(pane_id: Seq<char>, program: Seq<char>) -> Seq<Seq<char>> {
    seq!["pane"@, "run"@, pane_id, program]
}

/// The arguments of `herdr` that run a program in a pane (see
/// [`pane_run_args_spec`]).
pub fn pane_run_args(pane_id: &str, program: &str) -> (r: Vec<String>)
    ensures
        strs(r@) == pane_run_args_spec(pane_id@, program@),
{
    let mut a: Vec<String> = Vec::new();
    push_arg(&mut a, "pane");
    push_arg(&mut a, "run");
    push_arg(&mut a, pane_id);
    push_arg(&mut a, program);
    assert(strs(a@) =~= pane_run_args_spec(pane_id@, program@));
    a
}

/// The arguments of `herdr` that show a silent notification `title` with
/// text `body`.
pub open spec fn notification_args_spec(title: Seq<char>, body: Seq<char>) -> Seq<Seq<char>> {
    seq!["notification"@, "show"@, title, "--body"@, body, "--sound"@, "none"@]
}

/// The arguments of `herdr` that show a notification (see
/// [`notification_args_spec`]).
pub fn notification_args(title: &str, body: &str) -> (r: Vec<String>)
    ensures
        strs(r@) == notification_args_spec(title@, body@),
{
    let mut a: Vec<String> = Vec::new();
    push_arg(&mut a, "notification");
    push_arg(&mut a, "show");
    push_arg(&mut a, title);
    push_arg(&mut a, "--body");
    push_arg(&mut a, body);
    push_arg(&mut a, "--sound");
    push_arg(&mut a, "none");
    assert(strs(a@) =~= notification_args_spec(title@, body@));
    a
}

// ---------------------------------------------------------------- herdr replies

/// The pane id in the reply of `herdr tab create`
/// (`.result.root_pane.pane_id`, a non-empty string).
pub open spec fn tab_pane_id_spec(v: JsonView) -> Option<Seq<char>> {
    non_empty(str_spec(at_path(v, seq!["result"@, "root_pane"@, "pane_id"@])))
}

/// The id of the pane that `herdr tab create` made, from its output; a
/// reply that is not JSON gives the parser's message, one without the id
/// `tab create response missing result.root_pane.pane_id`.
pub fn parse_tab_create_pane_id(stdout: &[u8]) -> (r: Result<String, String>)
    ensures
        match json_of_bytes(stdout@) {
            None => r is Err,
            Some(v) => match tab_pane_id_spec(v) {
                Some(id) => r matches Ok(s) && s@ == id,
                None => r matches Err(m) && m@
                    == "tab create response missing result.root_pane.pane_id"@,
            },
        },
{
    let value = match parse_json_bytes(stdout) {
        Ok(v) => v,
        Err(e) => {
            return Err(json_error_text(&e));
        },
    };
    proof {
        crate::json::lemma_at_path3(value@, "result"@, "root_pane"@, "pane_id"@);
    }
    let found = match get(&value, "result") {
        Some(res) => match get(res, "root_pane") {
            Some(root) => as_str(get(root, "pane_id")),
            None => None,
        },
        None => None,
    };
    match found {
        Some(id) => {
            if id.as_str().unicode_len() > 0 {
                return Ok(id.clone());
            }
        },
        None => {},
    }
    let mut m = String::new();
    push_str(&mut m, "tab create response missing result.root_pane.pane_id");
    Err(m)
}

/// Why herdr-file-viewer's root could not be found.
#[derive(Debug, Clone, PartialEq, Eq)]
pub enum ViewerRootError {
    /// The plugin list is not what herdr writes.
    InvalidData(String),
    /// The list has no herdr-file-viewer with a root.
    NotFound(String),
}

/// The root of the first plugin in `ps` from `i` on whose `plugin_id` is
/// `herdr-file-viewer` and whose `plugin_root` is a non-empty string.
pub open spec fn viewer_root_from(ps: Seq<JsonView>, i: int) -> Option<Seq<char>>
    decreases ps.len() - i,
{
    if i < 0 || i >= ps.len() {
        None
    } else {
        let id = match str_spec(get_spec(ps[i], "plugin_id"@)) {
            Some(s) => s,
            None => Seq::<char>::empty(),
        };
        if id == "herdr-file-viewer"@ && non_empty(str_spec(get_spec(ps[i], "plugin_root"@)))
            is Some {
            non_empty(str_spec(get_spec(ps[i], "plugin_root"@)))
        } else {
            viewer_root_from(ps, i + 1)
        }
    }
}

fn text_is(s: &String, lit: &str) -> (r: bool)
    ensures
        r == (s@ == lit@),
{
    let a = str_to_chars(s.as_str());
    let b = str_to_chars(lit);
    if a.len() != b.len() {
        return false;
    }
    let r = matches_at_exec(a.as_slice(), 0, b.as_slice());
    proof {
        if a@ == b@ {
            assert(a@.subrange(0, b@.len() as int) =~= a@);
        }
        if r {
            assert(a@.subrange(0, b@.len() as int) =~= a@);
        }
    }
    r
}

/// herdr-file-viewer's plugin root, from the output of `herdr plugin list
/// --json` (`.result.plugins`, an array of plugins with `plugin_id` and
/// `plugin_root`).
pub fn file_viewer_root(stdout: &[u8]) -> (r: Result<String, ViewerRootError>)
    ensures
        match json_of_bytes(stdout@) {
            None => r matches Err(ViewerRootError::InvalidData(_)),
            Some(v) => match array_spec(at_path(v, seq!["result"@, "plugins"@])) {
                None => r matches Err(ViewerRootError::InvalidData(m)) && m@
                    == "herdr plugin list --json missing result.plugins"@,
                Some(ps) => match viewer_root_from(ps, 0) {
                    Some(root) => r matches Ok(s) && s@ == root,
                    None => r matches Err(ViewerRootError::NotFound(m)) && m@
                        == "herdr-file-viewer plugin_root not found"@,
                },
            },
        },
{
    let value = match parse_json_bytes(stdout) {
        Ok(v) => v,
        Err(e) => {
            return Err(ViewerRootError::InvalidData(json_error_text(&e)));
        },
    };
    proof {
        crate::json::lemma_at_path3(value@, "result"@, "plugins"@, "plugins"@);
    }
    let ghost path = seq!["result"@, "plugins"@];
    let res = get(&value, "result");
    let res = match res {
        Some(r) => r,
        None => {
            assert(at_path(value@, path) is None);
            let mut m = String::new();
            push_str(&mut m, "herdr plugin list --json missing result.plugins");
            return Err(ViewerRootError::InvalidData(m));
        },
    };
    let member = get(res, "plugins");
    assert(at_path(value@, path) == get_spec(res@, "plugins"@));
    let plugins = match as_array(member) {
        Some(p) => p,
        None => {
            let mut m = String::new();
            push_str(&mut m, "herdr plugin list --json missing result.plugins");
            return Err(ViewerRootError::InvalidData(m));
        },
    };
    let ghost ps = match array_spec(at_path(value@, path)) {
        Some(a) => a,
        None => Seq::<JsonView>::empty(),
    };
    proof {
        crate::json::lemma_views_of(plugins@);
    }
    assert(ps.len() == plugins@.len());
    let mut i: usize = 0;
    while i < plugins.len()
        invariant
            json_of_bytes(stdout@) == Some(value@),
            path == seq!["result"@, "plugins"@],
            array_spec(at_path(value@, path)) == Some(ps),
            ps.len() == plugins@.len(),
            forall|k: int| 0 <= k < ps.len() ==> #[trigger] ps[k] == plugins@[k]@,
            i <= plugins@.len(),
            viewer_root_from(ps, 0) == viewer_root_from(ps, i as int),
        decreases plugins@.len() - i,
    {
        let p = &plugins[i];
        assert(ps[i as int] == p@);
        let id_is_viewer = match as_str(get(p, "plugin_id")) {
            Some(id) => text_is(id, "herdr-file-viewer"),
            None => text_is(&String::new(), "herdr-file-viewer"),
        };
        if id_is_viewer {
            match as_str(get(p, "plugin_root")) {
                Some(root) => {
                    if root.as_str().unicode_len() > 0 {
                        return Ok(root.clone());
                    }
                },
                None => {},
            }
        }
        i = i + 1;
    }
    let mut m = String::new();
    push_str(&mut m, "herdr-file-viewer plugin_root not found");
    Err(ViewerRootError::NotFound(m))
}

/// Where herdr-file-viewer's binary lies under its plugin root.
pub fn file_viewer_bin_path(root: &str) -> (r: String)
    ensures
        r@ == join_path(root@, "target/release/herdr-file-viewer"@),
{
    join_paths(root, "target/release/herdr-file-viewer")
}

/// The program that opens a URL: `open` on macOS, `xdg-open` elsewhere.
pub fn browser_opener(macos: bool) -> (r: &'static str)
    ensures
        macos ==> r@ == "open"@,
        !macos ==> r@ == "xdg-open"@,
{
    if macos {
        "open"
    } else {
        "xdg-open"
    }
}

/// The top directory of a git work tree, from the output of `git rev-parse
/// --show-toplevel`: the output trimmed, when that leaves anything.
pub fn git_toplevel_from_output(output: &str) -> (r: Option<String>)
    ensures
        trim_spec(output@).len() == 0 ==> r is None,
        trim_spec(output@).len() > 0 ==> (r matches Some(s) && s@ == trim_spec(output@)),
{
    let v = str_to_chars(output);
    let t = trim_chars(v.as_slice());
    if t.len() == 0 {
        None
    } else {
        Some(string_from_range(t.as_slice(), 0, t.len()))
    }
}

} // verus!
