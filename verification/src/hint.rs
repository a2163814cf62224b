//! Hint overlay logic: candidates to keyed entries, the tab-separated list
//! handed to the overlay pane and read back there, routing a pick, and the
//! text of the overlay frame.
use vstd::prelude::*;
use crate::classify::{
    is_worktree_dir, is_worktree_dir_spec, lines_of, lines_spec, paths_equal, same_path, strs,
    Target, TargetView,
};
use crate::herdr_ipc::{ipc_message, HerdrIpcError};
use crate::text::{
    decimal, find_char_from, first_from, is_whitespace, is_ws, lemma_first_from, matches_at_exec,
    parse_unsigned, parse_usize_range, push_range, push_str, str_to_chars, string_from_range,
    string_push, usize_to_decimal,
};
use crate::tokenize::{find_candidates, spans_match, Span};

verus! {

/// Home-row-first keys; excludes `q` (cancel) and visually ambiguous letters.
pub const HINT_KEYS: &'static str = "asdfghjklwertyuiopzxcvbnm";

/// The `i`-th hint key.
pub open spec fn hint_key(i: int) -> char {
    if i == 0 {
        'a'
    } else if i == 1 {
        's'
    } else if i == 2 {
        'd'
    } else if i == 3 {
        'f'
    } else if i == 4 {
        'g'
    } else if i == 5 {
        'h'
    } else if i == 6 {
        'j'
    } else if i == 7 {
        'k'
    } else if i == 8 {
        'l'
    } else if i == 9 {
        'w'
    } else if i == 10 {
        'e'
    } else if i == 11 {
        'r'
    } else if i == 12 {
        't'
    } else if i == 13 {
        'y'
    } else if i == 14 {
        'u'
    } else if i == 15 {
        'i'
    } else if i == 16 {
        'o'
    } else if i == 17 {
        'p'
    } else if i == 18 {
        'z'
    } else if i == 19 {
        'x'
    } else if i == 20 {
        'c'
    } else if i == 21 {
        'v'
    } else if i == 22 {
        'b'
    } else if i == 23 {
        'n'
    } else {
        'm'
    }
}

/// The hint keys in order.
pub open spec fn hint_keys() -> Seq<char> {
    Seq::new(25, |i: int| hint_key(i))
}

/// The position of a key among the hint keys (25 for any other character).
spec fn key_rank(c: char) -> int {
    match c {
        'a' => 0,
        's' => 1,
        'd' => 2,
        'f' => 3,
        'g' => 4,
        'h' => 5,
        'j' => 6,
        'k' => 7,
        'l' => 8,
        'w' => 9,
        'e' => 10,
        'r' => 11,
        't' => 12,
        'y' => 13,
        'u' => 14,
        'i' => 15,
        'o' => 16,
        'p' => 17,
        'z' => 18,
        'x' => 19,
        'c' => 20,
        'v' => 21,
        'b' => 22,
        'n' => 23,
        'm' => 24,
        _ => 25,
    }
}

/// The key for the `index`-th hint, if there are that many keys.
pub fn hint_key_for_index(index: usize) -> (r: Option<char>)
    ensures
        index < 25 ==> r == Some(hint_keys()[index as int]),
        index >= 25 ==> r is None,
{
    let keys: [char; 25] = [
        'a', 's', 'd', 'f', 'g', 'h', 'j', 'k', 'l', 'w', 'e', 'r', 't', 'y', 'u', 'i', 'o',
        'p', 'z', 'x', 'c', 'v', 'b', 'n', 'm',
    ];
    assert(keys@ =~= hint_keys());
    if index < 25 {
        Some(keys[index])
    } else {
        None
    }
}

/// [`HINT_KEYS`] holds the hint keys; they are distinct and none is `q`
/// (which cancels).
pub proof fn lemma_hint_keys_distinct()
    ensures
        HINT_KEYS@ == hint_keys(),
        hint_keys().len() == 25,
        forall|i: int, j: int|
            0 <= i < j < 25 ==> #[trigger] hint_keys()[i] != #[trigger] hint_keys()[j],
        forall|i: int| 0 <= i < 25 ==> #[trigger] hint_keys()[i] != 'q',
{
    reveal_strlit("asdfghjklwertyuiopzxcvbnm");
    assert(HINT_KEYS@ =~= hint_keys());
    assert forall|i: int| 0 <= i < 25 implies key_rank(#[trigger] hint_key(i)) == i by {}
    assert(key_rank('q') == 25);
}

/// A keyed hint: `raw` sits between byte offsets `start` and `end` of the
/// pane text it was found in.
#[derive(Debug, Clone, PartialEq, Eq)]
pub struct HintEntry {
    pub key: char,
    pub start: usize,
    pub end: usize,
    pub raw: String,
    pub target: Target,
}

/// The kind of an input/output failure, as the caller can tell them apart.
#[derive(Debug, Clone, Copy, PartialEq, Eq, Structural)]
pub enum IoKind {
    NotFound,
    InvalidInput,
    InvalidData,
    Other,
}

/// Failures of the hint action and overlay.
#[derive(Debug, Clone, PartialEq, Eq)]
pub enum HintError {
    HerdrIpc(HerdrIpcError),
    /// An input/output failure: its kind and its message.
    Io(IoKind, String),
    NoOpenableTargets,
    OverlayEnv(String),
    UnknownKey(char),
}

/// The text of a hint error, as it is shown to the user.
pub open spec fn hint_message(e: HintError) -> Seq<char> {
    match e {
        HintError::HerdrIpc(err) => ipc_message(err),
        HintError::Io(_, msg) => msg@,
        HintError::NoOpenableTargets => "no openable targets in visible pane text"@,
        HintError::OverlayEnv(msg) => "overlay env: "@ + msg@,
        HintError::UnknownKey(key) => "unknown hint key: "@ + seq![key],
    }
}

impl HintError {
    /// The text of the error, as it is shown to the user.
    pub fn message(&self) -> (s: String)
        ensures
            s@ == hint_message(*self),
    {
        match self {
            HintError::HerdrIpc(err) => err.message(),
            HintError::Io(_, msg) => msg.clone(),
            HintError::NoOpenableTargets => {
                let mut s = String::new();
                push_str(&mut s, "no openable targets in visible pane text");
                s
            },
            HintError::OverlayEnv(msg) => {
                let mut s = String::new();
                push_str(&mut s, "overlay env: ");
                push_str(&mut s, msg.as_str());
                s
            },
            HintError::UnknownKey(key) => {
                let mut s = String::new();
                push_str(&mut s, "unknown hint key: ");
                string_push(&mut s, *key);
                s
            },
        }
    }
}

impl From<HerdrIpcError> for HintError {
    fn from(value: HerdrIpcError) -> (r: Self) {
        HintError::HerdrIpc(value)
    }
}

impl vstd::std_specs::convert::FromSpecImpl<HerdrIpcError> for HintError {
    open spec fn obeys_from_spec() -> bool {
        true
    }

    open spec fn from_spec(v: HerdrIpcError) -> Self {
        HintError::HerdrIpc(v)
    }
}

/// Which opener a pick goes to.
#[derive(Debug, Clone, Copy, PartialEq, Eq, Structural)]
pub enum OpenRoute {
    Browser,
    FileViewer,
    Less,
    Browse,
    NoOp,
}

pub open spec fn kind_label(t: TargetView) -> Seq<char> {
    match t {
        TargetView::File(..) => "file"@,
        TargetView::Dir(..) => "dir"@,
        TargetView::Url(_) => "url"@,
        TargetView::Missing(_) => "missing"@,
    }
}

/// The kind of a target, as the list writes it.
pub fn target_kind_label(target: &Target) -> (r: &'static str)
    ensures
        r@ == kind_label(target@),
{
    match target {
        Target::File { .. } => "file",
        Target::Dir { .. } => "dir",
        Target::Url(_) => "url",
        Target::Missing { .. } => "missing",
    }
}

/// What to open: the open spec of a file or directory, the URL, or the text shown.
pub open spec fn open_text(t: TargetView) -> Seq<char> {
    match t {
        TargetView::File(_, o, _) => o,
        TargetView::Dir(_, o, _) => o,
        TargetView::Url(u) => u,
        TargetView::Missing(d) => d,
    }
}

/// The path of a file or directory, else as `open_text`.
pub open spec fn path_text(t: TargetView) -> Seq<char> {
    match t {
        TargetView::File(p, _, _) => p,
        TargetView::Dir(p, _, _) => p,
        TargetView::Url(u) => u,
        TargetView::Missing(d) => d,
    }
}

fn open_spec_for_target(t: &Target) -> (r: String)
    ensures
        r@ == open_text(t@),
{
    match t {
        Target::File { open_spec, .. } => open_spec.clone(),
        Target::Dir { open_spec, .. } => open_spec.clone(),
        Target::Url(u) => u.clone(),
        Target::Missing { display } => display.clone(),
    }
}

fn path_for_target(t: &Target) -> (r: String)
    ensures
        r@ == path_text(t@),
{
    match t {
        Target::File { path, .. } => path.clone(),
        Target::Dir { path, .. } => path.clone(),
        Target::Url(u) => u.clone(),
        Target::Missing { display } => display.clone(),
    }
}

pub open spec fn tab() -> Seq<char> {
    seq!['\t']
}

/// One line of the list without its newline: key, start, end, raw, kind,
/// open spec, path, separated by tabs.
pub open spec fn line_body(e: HintEntry) -> Seq<char> {
    seq![e.key] + tab() + decimal(e.start as nat) + tab() + decimal(e.end as nat) + tab() + e.raw@
        + tab() + kind_label(e.target@) + tab() + open_text(e.target@) + tab() + path_text(
        e.target@,
    )
}

/// One line of the list, ending in a newline.
pub open spec fn entry_line(e: HintEntry) -> Seq<char> {
    line_body(e) + seq!['\n']
}

pub open spec fn entries_text(es: Seq<HintEntry>) -> Seq<char>
    decreases es.len(),
{
    if es.len() == 0 {
        seq![]
    } else {
        entries_text(es.drop_last()) + entry_line(es.last())
    }
}

/// Appends a tab and then `t`.
fn push_field(out: &mut String, t: &str)
    ensures
        final(out)@ == old(out)@ + tab() + t@,
{
    let ghost o = out@;
    string_push(out, '\t');
    push_str(out, t);
    assert(out@ =~= o + tab() + t@);
}

/// Appends the list line of `e`.
fn push_entry_line(out: &mut String, e: &HintEntry)
    ensures
        final(out)@ == old(out)@ + entry_line(*e),
{
    let ghost o = out@;
    string_push(out, e.key);
    let s = usize_to_decimal(e.start);
    push_field(out, s.as_str());
    let en = usize_to_decimal(e.end);
    push_field(out, en.as_str());
    push_field(out, e.raw.as_str());
    push_field(out, target_kind_label(&e.target));
    let ghost mid = out@;
    assert(mid =~= o + (seq![e.key] + tab() + decimal(e.start as nat) + tab() + decimal(
        e.end as nat,
    ) + tab() + e.raw@ + tab() + kind_label(e.target@)));
    let op = open_spec_for_target(&e.target);
    push_field(out, op.as_str());
    let p = path_for_target(&e.target);
    push_field(out, p.as_str());
    string_push(out, '\n');
    assert(out@ =~= o + entry_line(*e));
}

/// The tab-separated list of `entries`, one line each.
pub fn serialize_entries(entries: &Vec<HintEntry>) -> (out: String)
    ensures
        out@ == entries_text(entries@),
{
    let mut out = String::new();
    let mut k: usize = 0;
    while k < entries.len()
        invariant
            k <= entries@.len(),
            out@ == entries_text(entries@.take(k as int)),
        decreases entries@.len() - k,
    {
        push_entry_line(&mut out, &entries[k]);
        assert(entries@.take(k + 1).drop_last() =~= entries@.take(k as int));
        k = k + 1;
    }
    assert(entries@.take(entries@.len() as int) =~= entries@);
    out
}

/// Same as [`serialize_entries`].
pub fn format_list(entries: &Vec<HintEntry>) -> (out: String)
    ensures
        out@ == entries_text(entries@),
{
    serialize_entries(entries)
}

// ---------------------------------------------------------------- reading the list back

/// A hint entry as values.
pub struct EntryView {
    pub key: char,
    pub start: nat,
    pub end: nat,
    pub raw: Seq<char>,
    pub target: TargetView,
}

impl View for HintEntry {
    type V = EntryView;

    open spec fn view(&self) -> EntryView {
        EntryView {
            key: self.key,
            start: self.start as nat,
            end: self.end as nat,
            raw: self.raw@,
            target: self.target@,
        }
    }
}

/// `str::splitn(n, '\t')` on `s[i..]`: at most `n` pieces, the last one
/// taking the rest of the line.
pub open spec fn split_fields(s: Seq<char>, i: int, n: nat) -> Seq<Seq<char>>
    decreases n,
{
    if n <= 1 {
        seq![s.subrange(i, s.len() as int)]
    } else {
        let t = first_from(s, '\t', i);
        if t >= s.len() {
            seq![s.subrange(i, s.len() as int)]
        } else {
            seq![s.subrange(i, t)] + split_fields(s, t + 1, (n - 1) as nat)
        }
    }
}

/// The target a list line names by its kind, open spec and path.
pub open spec fn kind_target(kind: Seq<char>, open_spec: Seq<char>, path: Seq<char>) -> Option<
    TargetView,
> {
    if kind == "file"@ {
        Some(TargetView::File(path, open_spec, false))
    } else if kind == "dir"@ {
        Some(TargetView::Dir(path, open_spec, false))
    } else if kind == "url"@ {
        Some(TargetView::Url(open_spec))
    } else {
        None
    }
}

/// One line of the list read back, or the message of what is wrong with it.
pub open spec fn parse_line_spec(line: Seq<char>) -> Result<EntryView, Seq<char>> {
    let f = split_fields(line, 0, 7);
    if f.len() < 7 {
        Err("bad targets line: "@ + line)
    } else if f[0].len() == 0 {
        Err("empty key"@)
    } else {
        match parse_unsigned(f[1], usize::MAX as nat) {
            None => Err("bad start: "@ + f[1]),
            Some(start) => match parse_unsigned(f[2], usize::MAX as nat) {
                None => Err("bad end: "@ + f[2]),
                Some(end) => match kind_target(f[4], f[5], f[6]) {
                    None => Err("unknown kind: "@ + f[4]),
                    Some(t) => Ok(EntryView { key: f[0][0], start, end, raw: f[3], target: t }),
                },
            },
        }
    }
}

/// Only whitespace (`str::trim` leaves nothing).
pub open spec fn blank(l: Seq<char>) -> bool {
    forall|k: int| 0 <= k < l.len() ==> is_ws(#[trigger] l[k])
}

/// The lines read back in order, blank lines skipped; the first bad line
/// gives the error.
pub open spec fn parse_lines(lines: Seq<Seq<char>>) -> Result<Seq<EntryView>, Seq<char>>
    decreases lines.len(),
{
    if lines.len() == 0 {
        Ok(seq![])
    } else if blank(lines[0]) {
        parse_lines(lines.drop_first())
    } else {
        match parse_line_spec(lines[0]) {
            Err(m) => Err(m),
            Ok(e) => match parse_lines(lines.drop_first()) {
                Err(m) => Err(m),
                Ok(rest) => Ok(seq![e] + rest),
            },
        }
    }
}

/// `acc` in front of the entries of `r`.
pub open spec fn prepend(acc: Seq<EntryView>, r: Result<Seq<EntryView>, Seq<char>>) -> Result<
    Seq<EntryView>,
    Seq<char>,
> {
    match r {
        Ok(rest) => Ok(acc + rest),
        Err(m) => Err(m),
    }
}

pub open spec fn entry_views(es: Seq<HintEntry>) -> Seq<EntryView> {
    es.map_values(|e: HintEntry| e@)
}

pub open spec fn piece_views(v: Seq<char>, b: Seq<(usize, usize)>) -> Seq<Seq<char>> {
    b.map_values(|p: (usize, usize)| v.subrange(p.0 as int, p.1 as int))
}

/// Bounds of the pieces of `str::splitn(7, '\t')` on `v`.
fn field_bounds(v: &[char]) -> (b: Vec<(usize, usize)>)
    ensures
        forall|k: int| 0 <= k < b@.len() ==> #[trigger] b@[k].0 <= b@[k].1 <= v@.len(),
        piece_views(v@, b@) == split_fields(v@, 0, 7),
{
    let n = v.len();
    let mut b: Vec<(usize, usize)> = Vec::new();
    let mut i: usize = 0;
    let mut count: usize = 0;
    let mut done = false;
    while !done && count < 6
        invariant
            n == v@.len(),
            i <= n,
            count <= 6,
            forall|k: int| 0 <= k < b@.len() ==> #[trigger] b@[k].0 <= b@[k].1 <= v@.len(),
            !done ==> piece_views(v@, b@) + split_fields(v@, i as int, (7 - count) as nat)
                == split_fields(v@, 0, 7),
            done ==> piece_views(v@, b@) == split_fields(v@, 0, 7),
        decreases 6 - count + (if done { 0int } else { 1int }),
    {
        let t = find_char_from(v, '\t', i);
        proof {
            lemma_first_from(v@, '\t', i as int);
        }
        let ghost old_b = b@;
        if t >= n {
            b.push((i, n));
            assert(piece_views(v@, b@) =~= piece_views(v@, old_b) + split_fields(
                v@,
                i as int,
                (7 - count) as nat,
            ));
            done = true;
        } else {
            b.push((i, t));
            assert(piece_views(v@, b@) + split_fields(v@, t + 1, (7 - count - 1) as nat)
                =~= piece_views(v@, old_b) + split_fields(v@, i as int, (7 - count) as nat));
            i = t + 1;
            count = count + 1;
        }
    }
    if !done {
        let ghost old_b = b@;
        b.push((i, n));
        assert(piece_views(v@, b@) =~= piece_views(v@, old_b) + split_fields(v@, i as int, 1));
    }
    b
}

/// `prefix` followed by `v[from..to]`.
fn message(prefix: &str, v: &[char], from: usize, to: usize) -> (s: String)
    requires
        from <= to <= v@.len(),
    ensures
        s@ == prefix@ + v@.subrange(from as int, to as int),
{
    let mut s = String::new();
    push_str(&mut s, prefix);
    push_range(&mut s, v, from, to);
    s
}

/// `v[from..to]` is the text of `lit`.
fn piece_is(v: &[char], from: usize, to: usize, lit: &str) -> (r: bool)
    requires
        from <= to <= v@.len(),
    ensures
        r == (v@.subrange(from as int, to as int) == lit@),
{
    let l = str_to_chars(lit);
    if to - from != l.len() {
        return false;
    }
    matches_at_exec(v, from, l.as_slice())
}

fn parse_line(v: &[char]) -> (r: Result<HintEntry, String>)
    ensures
        match parse_line_spec(v@) {
            Ok(x) => r matches Ok(e) && e@ == x,
            Err(m) => r matches Err(s) && s@ == m,
        },
{
    let b = field_bounds(v);
    let ghost f = split_fields(v@, 0, 7);
    if b.len() < 7 {
        return Err(message("bad targets line: ", v, 0, v.len()));
    }
    assert(f[0] == v@.subrange(b@[0].0 as int, b@[0].1 as int));
    assert(f[1] == v@.subrange(b@[1].0 as int, b@[1].1 as int));
    assert(f[2] == v@.subrange(b@[2].0 as int, b@[2].1 as int));
    assert(f[3] == v@.subrange(b@[3].0 as int, b@[3].1 as int));
    assert(f[4] == v@.subrange(b@[4].0 as int, b@[4].1 as int));
    assert(f[5] == v@.subrange(b@[5].0 as int, b@[5].1 as int));
    assert(f[6] == v@.subrange(b@[6].0 as int, b@[6].1 as int));
    assert(v@.subrange(0, v@.len() as int) =~= v@);
    let (k0, k1) = b[0];
    if k0 == k1 {
        return Err(message("empty key", v, 0, 0));
    }
    let key = v[k0];
    let (s0, s1) = b[1];
    let start = match parse_usize_range(v, s0, s1) {
        Some(x) => x,
        None => {
            return Err(message("bad start: ", v, s0, s1));
        },
    };
    let (e0, e1) = b[2];
    let end = match parse_usize_range(v, e0, e1) {
        Some(x) => x,
        None => {
            return Err(message("bad end: ", v, e0, e1));
        },
    };
    let (r0, r1) = b[3];
    let (d0, d1) = b[4];
    let (o0, o1) = b[5];
    let (p0, p1) = b[6];
    let raw = string_from_range(v, r0, r1);
    let open_spec = string_from_range(v, o0, o1);
    let target = if piece_is(v, d0, d1, "file") {
        Target::File { path: string_from_range(v, p0, p1), open_spec, ambiguous: false }
    } else if piece_is(v, d0, d1, "dir") {
        Target::Dir { path: string_from_range(v, p0, p1), open_spec, ambiguous: false }
    } else if piece_is(v, d0, d1, "url") {
        Target::Url(open_spec)
    } else {
        return Err(message("unknown kind: ", v, d0, d1));
    };
    Ok(HintEntry { key, start, end, raw, target })
}

fn is_blank(v: &[char]) -> (r: bool)
    ensures
        r == blank(v@),
{
    let mut k: usize = 0;
    while k < v.len()
        invariant
            k <= v@.len(),
            forall|j: int| 0 <= j < k ==> is_ws(#[trigger] v@[j]),
        decreases v@.len() - k,
    {
        if !is_whitespace(v[k]) {
            return false;
        }
        k = k + 1;
    }
    true
}

/// Reads back the list written by [`serialize_entries`]: one entry per
/// non-blank line; a malformed line gives `OverlayEnv` with its message.
pub fn parse_entries_tsv(data: &str) -> (r: Result<Vec<HintEntry>, HintError>)
    ensures
        match parse_lines(lines_spec(data@)) {
            Ok(es) => r matches Ok(v) && entry_views(v@) == es,
            Err(m) => r matches Err(HintError::OverlayEnv(s)) && s@ == m,
        },
{
    let chars = str_to_chars(data);
    let lines = lines_of(chars.as_slice());
    let ghost ls = lines@.map_values(|l: Vec<char>| l@);
    let mut out: Vec<HintEntry> = Vec::new();
    let mut k: usize = 0;
    assert(ls.skip(0) =~= ls);
    proof {
        match parse_lines(ls) {
            Ok(rest) => {
                assert(entry_views(out@) + rest =~= rest);
            },
            Err(_) => {},
        }
    }
    while k < lines.len()
        invariant
            ls == lines@.map_values(|l: Vec<char>| l@),
            ls == lines_spec(data@),
            k <= ls.len(),
            parse_lines(ls) == prepend(entry_views(out@), parse_lines(ls.skip(k as int))),
        decreases ls.len() - k,
    {
        let line = &lines[k];
        assert(ls.skip(k as int)[0] == line@);
        assert(ls.skip(k as int).drop_first() =~= ls.skip(k + 1));
        if !is_blank(line.as_slice()) {
            match parse_line(line.as_slice()) {
                Ok(e) => {
                    let ghost old_out = out@;
                    out.push(e);
                    assert(entry_views(out@) =~= entry_views(old_out).push(e@));
                    proof {
                        match parse_lines(ls.skip(k + 1)) {
                            Ok(rest) => {
                                assert(entry_views(old_out) + (seq![e@] + rest) =~= entry_views(
                                    out@,
                                ) + rest);
                            },
                            Err(_) => {},
                        }
                    }
                },
                Err(m) => {
                    return Err(HintError::OverlayEnv(m));
                },
            }
        }
        k = k + 1;
    }
    assert(ls.skip(ls.len() as int) =~= Seq::<Seq<char>>::empty());
    assert(entry_views(out@) + Seq::<EntryView>::empty() =~= entry_views(out@));
    Ok(out)
}

/// `s` holds no `c`.
pub open spec fn no_char(s: Seq<char>, c: char) -> bool {
    forall|k: int| 0 <= k < s.len() ==> #[trigger] s[k] != c
}

/// An entry that the list carries through: a file, directory or URL whose
/// key, raw text and open spec hold no tab or newline, and whose path holds
/// no newline and does not end in a carriage return.
pub open spec fn listable(e: HintEntry) -> bool {
    &&& e.key != '\t'
    &&& e.key != '\n'
    &&& no_char(e.raw@, '\t')
    &&& no_char(e.raw@, '\n')
    &&& !(e.target@ is Missing)
    &&& no_char(open_text(e.target@), '\t')
    &&& no_char(open_text(e.target@), '\n')
    &&& no_char(path_text(e.target@), '\n')
    &&& !(path_text(e.target@).len() > 0 && path_text(e.target@).last() == '\r')
}

/// The same target, not marked ambiguous.
pub open spec fn unmarked(t: TargetView) -> TargetView {
    match t {
        TargetView::File(p, o, _) => TargetView::File(p, o, false),
        TargetView::Dir(p, o, _) => TargetView::Dir(p, o, false),
        other => other,
    }
}

/// What the list gives back for `e`: `e` with its target not marked ambiguous.
pub open spec fn listed(e: HintEntry) -> EntryView {
    EntryView {
        key: e.key,
        start: e.start as nat,
        end: e.end as nat,
        raw: e.raw@,
        target: unmarked(e.target@),
    }
}

proof fn lemma_first_from_at(s: Seq<char>, c: char, i: int, k: int)
    requires
        0 <= i <= k < s.len(),
        s[k] == c,
        forall|j: int| i <= j < k ==> #[trigger] s[j] != c,
    ensures
        first_from(s, c, i) == k,
    decreases k - i,
{
    if i < k {
        lemma_first_from_at(s, c, i + 1, k);
    }
}

proof fn lemma_first_from_shift(p: Seq<char>, q: Seq<char>, c: char, j: int)
    requires
        0 <= j <= q.len(),
    ensures
        first_from(p + q, c, p.len() + j) == p.len() + first_from(q, c, j),
    decreases q.len() - j,
{
    if j < q.len() {
        assert((p + q)[p.len() + j] == q[j]);
        lemma_first_from_shift(p, q, c, j + 1);
    }
}

proof fn lemma_split_shift(p: Seq<char>, q: Seq<char>, j: int, n: nat)
    requires
        0 <= j <= q.len(),
    ensures
        split_fields(p + q, p.len() + j, n) == split_fields(q, j, n),
    decreases n,
{
    let s = p + q;
    assert(s.subrange(p.len() + j, s.len() as int) =~= q.subrange(j, q.len() as int));
    if n > 1 {
        lemma_first_from_shift(p, q, '\t', j);
        lemma_first_from(q, '\t', j);
        let t = first_from(q, '\t', j);
        if t < q.len() {
            assert(s.subrange(p.len() + j, p.len() + t) =~= q.subrange(j, t));
            lemma_split_shift(p, q, t + 1, (n - 1) as nat);
        }
    }
}

proof fn lemma_split_step(a: Seq<char>, r: Seq<char>, n: nat)
    requires
        no_char(a, '\t'),
        n >= 2,
    ensures
        split_fields(a + tab() + r, 0, n) == seq![a] + split_fields(r, 0, (n - 1) as nat),
{
    let s = a + tab() + r;
    assert(s[a.len() as int] == '\t');
    assert forall|j: int| 0 <= j < a.len() implies #[trigger] s[j] != '\t' by {
        assert(s[j] == a[j]);
    }
    lemma_first_from_at(s, '\t', 0, a.len() as int);
    assert(s.subrange(0, a.len() as int) =~= a);
    assert(s =~= (a + tab()) + r);
    lemma_split_shift(a + tab(), r, 0, (n - 1) as nat);
}

proof fn lemma_lines_shift(p: Seq<char>, q: Seq<char>, j: int)
    requires
        0 <= j <= q.len(),
    ensures
        crate::classify::lines_from(p + q, p.len() + j) == crate::classify::lines_from(q, j),
    decreases q.len() - j,
{
    let s = p + q;
    if j < q.len() {
        lemma_first_from_shift(p, q, '\n', j);
        lemma_first_from(q, '\n', j);
        let e = first_from(q, '\n', j);
        assert(s.subrange(p.len() + j, p.len() + e) =~= q.subrange(j, e));
        if e < q.len() {
            lemma_lines_shift(p, q, e + 1);
        }
    }
}

proof fn lemma_lines_step(b: Seq<char>, rest: Seq<char>)
    requires
        no_char(b, '\n'),
    ensures
        crate::classify::lines_from(b + seq!['\n'] + rest, 0) == seq![
            crate::classify::strip_cr(b),
        ] + crate::classify::lines_from(rest, 0),
{
    let s = b + seq!['\n'] + rest;
    assert(s[b.len() as int] == '\n');
    assert forall|j: int| 0 <= j < b.len() implies #[trigger] s[j] != '\n' by {
        assert(s[j] == b[j]);
    }
    lemma_first_from_at(s, '\n', 0, b.len() as int);
    assert(s.subrange(0, b.len() as int) =~= b);
    assert(s =~= (b + seq!['\n']) + rest);
    lemma_lines_shift(b + seq!['\n'], rest, 0);
}

proof fn lemma_entries_text_first(es: Seq<HintEntry>)
    requires
        es.len() > 0,
    ensures
        entries_text(es) == entry_line(es[0]) + entries_text(es.drop_first()),
    decreases es.len(),
{
    if es.len() == 1 {
        assert(es.drop_last() =~= Seq::<HintEntry>::empty());
        assert(es.drop_first() =~= Seq::<HintEntry>::empty());
        assert(entries_text(es.drop_last()) =~= Seq::<char>::empty());
        assert(es.last() == es[0]);
        assert(entries_text(es) =~= entry_line(es[0]));
        assert(entries_text(es.drop_first()) =~= Seq::<char>::empty());
        assert(entry_line(es[0]) + Seq::<char>::empty() =~= entry_line(es[0]));
    } else {
        lemma_entries_text_first(es.drop_last());
        assert(es.drop_last().drop_first() =~= es.drop_first().drop_last());
        assert(es.drop_first().last() == es.last());
        assert(es.drop_last()[0] == es[0]);
        assert(entries_text(es) =~= entry_line(es[0]) + entries_text(es.drop_first()));
    }
}

proof fn lemma_no_char_add(a: Seq<char>, b: Seq<char>, c: char)
    requires
        no_char(a, c),
        no_char(b, c),
    ensures
        no_char(a + b, c),
{
    assert forall|j: int| 0 <= j < (a + b).len() implies #[trigger] (a + b)[j] != c by {
        if j >= a.len() {
            assert((a + b)[j] == b[j - a.len()]);
        }
    }
}

proof fn lemma_decimal_plain(n: nat)
    ensures
        no_char(decimal(n), '\t'),
        no_char(decimal(n), '\n'),
        !crate::text::is_ws(decimal(n)[0]),
        decimal(n).len() > 0,
{
    crate::text::lemma_decimal_digits(n);
    let d = decimal(n);
    assert forall|j: int| 0 <= j < d.len() implies #[trigger] d[j] != '\t' by {
        assert(crate::text::is_ascii_dig(d[j]));
    }
    assert forall|j: int| 0 <= j < d.len() implies #[trigger] d[j] != '\n' by {
        assert(crate::text::is_ascii_dig(d[j]));
    }
    assert(crate::text::is_ascii_dig(d[0]));
}

proof fn lemma_kind_plain(t: TargetView)
    ensures
        no_char(kind_label(t), '\t'),
        no_char(kind_label(t), '\n'),
{
    reveal_strlit("file");
    reveal_strlit("dir");
    reveal_strlit("url");
    reveal_strlit("missing");
}

proof fn lemma_body_pieces(e: HintEntry)
    requires
        listable(e),
    ensures
        split_fields(line_body(e), 0, 7) == seq![
            seq![e.key],
            decimal(e.start as nat),
            decimal(e.end as nat),
            e.raw@,
            kind_label(e.target@),
            open_text(e.target@),
            path_text(e.target@),
        ],
{
    let k = seq![e.key];
    let d1 = decimal(e.start as nat);
    let d2 = decimal(e.end as nat);
    let raw = e.raw@;
    let kind = kind_label(e.target@);
    let o = open_text(e.target@);
    let p = path_text(e.target@);
    lemma_decimal_plain(e.start as nat);
    lemma_decimal_plain(e.end as nat);
    lemma_kind_plain(e.target@);
    let r5 = o + tab() + p;
    let r4 = kind + tab() + r5;
    let r3 = raw + tab() + r4;
    let r2 = d2 + tab() + r3;
    let r1 = d1 + tab() + r2;
    let body = line_body(e);
    assert(body =~= k + tab() + r1);
    lemma_split_step(k, r1, 7);
    lemma_split_step(d1, r2, 6);
    lemma_split_step(d2, r3, 5);
    lemma_split_step(raw, r4, 4);
    lemma_split_step(kind, r5, 3);
    lemma_split_step(o, p, 2);
    assert(p.subrange(0, p.len() as int) =~= p);
    assert(split_fields(p, 0, 1) =~= seq![p]);
    assert(split_fields(body, 0, 7) =~= seq![k, d1, d2, raw, kind, o, p]);
}

proof fn lemma_body_plain(e: HintEntry)
    requires
        listable(e),
    ensures
        no_char(line_body(e), '\n'),
        !blank(line_body(e)),
        crate::classify::strip_cr(line_body(e)) == line_body(e),
{
    let k = seq![e.key];
    let t = tab();
    let d1 = decimal(e.start as nat);
    let d2 = decimal(e.end as nat);
    let raw = e.raw@;
    let kind = kind_label(e.target@);
    let o = open_text(e.target@);
    let p = path_text(e.target@);
    lemma_decimal_plain(e.start as nat);
    lemma_decimal_plain(e.end as nat);
    lemma_kind_plain(e.target@);
    let c = '\n';
    lemma_no_char_add(k, t, c);
    lemma_no_char_add(k + t, d1, c);
    lemma_no_char_add(k + t + d1, t, c);
    lemma_no_char_add(k + t + d1 + t, d2, c);
    lemma_no_char_add(k + t + d1 + t + d2, t, c);
    lemma_no_char_add(k + t + d1 + t + d2 + t, raw, c);
    lemma_no_char_add(k + t + d1 + t + d2 + t + raw, t, c);
    lemma_no_char_add(k + t + d1 + t + d2 + t + raw + t, kind, c);
    lemma_no_char_add(k + t + d1 + t + d2 + t + raw + t + kind, t, c);
    lemma_no_char_add(k + t + d1 + t + d2 + t + raw + t + kind + t, o, c);
    lemma_no_char_add(k + t + d1 + t + d2 + t + raw + t + kind + t + o, t, c);
    lemma_no_char_add(k + t + d1 + t + d2 + t + raw + t + kind + t + o + t, p, c);
    let body = line_body(e);
    assert(body[2] == d1[0]);
    if p.len() > 0 {
        assert(body.last() == p.last());
    } else {
        assert(body.last() == '\t');
    }
}

proof fn lemma_body_parses(e: HintEntry)
    requires
        listable(e),
    ensures
        parse_line_spec(line_body(e)) == Ok::<EntryView, Seq<char>>(listed(e)),
{
    reveal_strlit("file");
    reveal_strlit("dir");
    reveal_strlit("url");
    lemma_body_pieces(e);
    crate::text::lemma_parse_decimal(e.start as nat, usize::MAX as nat);
    crate::text::lemma_parse_decimal(e.end as nat, usize::MAX as nat);
    let f = split_fields(line_body(e), 0, 7);
    assert(f[0] == seq![e.key]);
    assert("url"@ != "file"@) by {
        assert("url"@.len() != "file"@.len());
    }
    assert("url"@ != "dir"@) by {
        assert("url"@[0] != "dir"@[0]);
    }
    assert("dir"@ != "file"@) by {
        assert("dir"@.len() != "file"@.len());
    }
    assert(kind_target(f[4], f[5], f[6]) == Some(unmarked(e.target@)));
}

proof fn lemma_list_lines(es: Seq<HintEntry>)
    requires
        forall|i: int| 0 <= i < es.len() ==> listable(#[trigger] es[i]),
    ensures
        lines_spec(entries_text(es)) == es.map_values(|e: HintEntry| line_body(e)),
    decreases es.len(),
{
    if es.len() == 0 {
        assert(lines_spec(entries_text(es)) =~= Seq::<Seq<char>>::empty());
        assert(es.map_values(|e: HintEntry| line_body(e)) =~= Seq::<Seq<char>>::empty());
    } else {
        lemma_entries_text_first(es);
        lemma_body_plain(es[0]);
        lemma_lines_step(line_body(es[0]), entries_text(es.drop_first()));
        assert(forall|i: int|
            0 <= i < es.drop_first().len() ==> #[trigger] es.drop_first()[i] == es[i + 1]);
        lemma_list_lines(es.drop_first());
        assert(es.map_values(|e: HintEntry| line_body(e)) =~= seq![line_body(es[0])]
            + es.drop_first().map_values(|e: HintEntry| line_body(e)));
    }
}

proof fn lemma_parse_bodies(es: Seq<HintEntry>)
    requires
        forall|i: int| 0 <= i < es.len() ==> listable(#[trigger] es[i]),
    ensures
        parse_lines(es.map_values(|e: HintEntry| line_body(e))) == Ok::<
            Seq<EntryView>,
            Seq<char>,
        >(es.map_values(|e: HintEntry| listed(e))),
    decreases es.len(),
{
    let ls = es.map_values(|e: HintEntry| line_body(e));
    if es.len() == 0 {
        assert(es.map_values(|e: HintEntry| listed(e)) =~= Seq::<EntryView>::empty());
    } else {
        lemma_body_plain(es[0]);
        lemma_body_parses(es[0]);
        assert(forall|i: int|
            0 <= i < es.drop_first().len() ==> #[trigger] es.drop_first()[i] == es[i + 1]);
        lemma_parse_bodies(es.drop_first());
        assert(ls.drop_first() =~= es.drop_first().map_values(|e: HintEntry| line_body(e)));
        assert(ls[0] == line_body(es[0]));
        assert(es.map_values(|e: HintEntry| listed(e)) =~= seq![listed(es[0])]
            + es.drop_first().map_values(|e: HintEntry| listed(e)));
    }
}

/// Reading back the list of entries gives the entries again (their targets
/// no longer marked ambiguous), for entries that the list can carry.
pub proof fn lemma_list_roundtrip(es: Seq<HintEntry>)
    requires
        forall|i: int| 0 <= i < es.len() ==> listable(#[trigger] es[i]),
    ensures
        parse_lines(lines_spec(entries_text(es))) == Ok::<Seq<EntryView>, Seq<char>>(
            es.map_values(|e: HintEntry| listed(e)),
        ),
{
    lemma_list_lines(es);
    lemma_parse_bodies(es);
}

// ---------------------------------------------------------------- entries

/// Indices of the candidates whose `raw` text was not seen earlier.
pub open spec fn first_occurrence(raws: Seq<Seq<char>>, k: int) -> bool {
    forall|j: int| 0 <= j < k ==> raws[j] != raws[k]
}

/// The candidates of `text` with repeated raw texts dropped (first kept).
pub open spec fn unique_from(spans: Seq<Span>, k: int) -> Seq<Span>
    decreases k,
{
    if k <= 0 {
        seq![]
    } else {
        let rest = unique_from(spans, k - 1);
        if first_occurrence(spans.map_values(|s: Span| s.raw@), k - 1) {
            rest.push(spans[k - 1])
        } else {
            rest
        }
    }
}

fn raw_eq(a: &String, b: &String) -> (r: bool)
    ensures
        r == (a@ == b@),
{
    *a == *b
}

/// `spans` with repeated raw texts dropped, the first occurrence kept.
pub fn unique_spans(spans: Vec<Span>) -> (r: Vec<Span>)
    ensures
        r@ == unique_from(spans@, spans@.len() as int),
{
    let ghost raws = spans@.map_values(|s: Span| s.raw@);
    let mut out: Vec<Span> = Vec::new();
    let mut k: usize = 0;
    while k < spans.len()
        invariant
            k <= spans@.len(),
            raws == spans@.map_values(|s: Span| s.raw@),
            out@ == unique_from(spans@, k as int),
        decreases spans@.len() - k,
    {
        let mut seen = false;
        let mut j: usize = 0;
        while j < k
            invariant
                k < spans@.len(),
                j <= k,
                raws == spans@.map_values(|s: Span| s.raw@),
                !seen ==> forall|i: int| 0 <= i < j ==> raws[i] != raws[k as int],
                seen ==> !first_occurrence(raws, k as int),
            decreases k - j,
        {
            if raw_eq(&spans[j].raw, &spans[k].raw) {
                assert(raws[j as int] == raws[k as int]);
                seen = true;
            }
            j = j + 1;
        }
        if !seen {
            out.push(Span { start: spans[k].start, end: spans[k].end, raw: spans[k].raw.clone() });
        }
        k = k + 1;
    }
    out
}

pub open spec fn is_openable(t: TargetView) -> bool {
    t is File || t is Dir
}

/// The keyed entries for the unique candidates `u` with their targets `ts`,
/// from position `k` on, given `n` keys used so far: files and directories
/// get the next key, URLs and missing paths are skipped, and listing stops
/// when the keys run out.
pub open spec fn keyed_from(u: Seq<Span>, ts: Seq<TargetView>, k: int, n: int) -> Seq<
    (char, Span, TargetView),
>
    decreases u.len() - k,
{
    if k >= u.len() || k < 0 || n < 0 {
        seq![]
    } else if !is_openable(ts[k]) {
        keyed_from(u, ts, k + 1, n)
    } else if n >= 25 {
        seq![]
    } else {
        seq![(hint_keys()[n], u[k], ts[k])] + keyed_from(u, ts, k + 1, n + 1)
    }
}

pub open spec fn entry_is(e: HintEntry, x: (char, Span, TargetView)) -> bool {
    &&& e.key == x.0
    &&& e.start == x.1.start
    &&& e.end == x.1.end
    &&& e.raw@ == x.1.raw@
    &&& e.target@ == x.2
}

pub open spec fn targets_view(ts: Seq<Target>) -> Seq<TargetView> {
    ts.map_values(|t: Target| t@)
}

/// The candidates of `text` with repeated raw texts dropped, in order of
/// first appearance; [`build_entries`] takes one target for each of them.
pub fn unique_candidates(text: &str) -> (r: Vec<Span>)
    requires
        crate::text::utf8_len(text@) <= usize::MAX,
    ensures
        exists|spans: Seq<Span>|
            spans_match(text@, spans) && r@ == unique_from(spans, spans.len() as int),
{
    let spans = find_candidates(text);
    let ghost sp = spans@;
    let u = unique_spans(spans);
    assert(spans_match(text@, sp) && u@ == unique_from(sp, sp.len() as int));
    u
}

/// `es` are the hint entries for `text` given `targets`, the target of each
/// unique candidate in order: the files and directories among them, keyed in
/// order until the keys run out; none when the counts differ.
pub open spec fn is_entries_of(text: Seq<char>, targets: Seq<Target>, es: Seq<HintEntry>) -> bool {
    exists|spans: Seq<Span>|
        {
            &&& spans_match(text, spans)
            &&& (unique_from(spans, spans.len() as int).len() == targets.len() ==> {
                let ks = keyed_from(
                    unique_from(spans, spans.len() as int),
                    targets_view(targets),
                    0,
                    0,
                );
                &&& es.len() == ks.len()
                &&& forall|i: int| 0 <= i < ks.len() ==> entry_is(#[trigger] es[i], ks[i])
            })
            &&& (unique_from(spans, spans.len() as int).len() != targets.len() ==> es.len()
                == 0)
        }
}

/// The hint entries for `text`, given the target of each unique candidate
/// (see [`unique_candidates`]); nothing when the counts differ.
pub fn build_entries(text: &str, targets: &Vec<Target>) -> (entries: Vec<HintEntry>)
    requires
        crate::text::utf8_len(text@) <= usize::MAX,
    ensures
        is_entries_of(text@, targets@, entries@),
{
    let spans = find_candidates(text);
    let ghost sp = spans@;
    let u = unique_spans(spans);
    if u.len() != targets.len() {
        assert(spans_match(text@, sp));
        return Vec::new();
    }
    let ghost tv = targets_view(targets@);
    let ghost all = keyed_from(u@, tv, 0, 0);
    let mut entries: Vec<HintEntry> = Vec::new();
    let mut k: usize = 0;
    while k < u.len()
        invariant_except_break
            u@.len() == targets@.len(),
            tv == targets_view(targets@),
            k <= u@.len(),
            entries@.len() <= 25,
            all.len() >= entries@.len(),
            all == all.take(entries@.len() as int) + keyed_from(
                u@,
                tv,
                k as int,
                entries@.len() as int,
            ),
            forall|i: int| 0 <= i < entries@.len() ==> entry_is(#[trigger] entries@[i], all[i]),
        ensures
            all.len() == entries@.len(),
            forall|i: int| 0 <= i < entries@.len() ==> entry_is(#[trigger] entries@[i], all[i]),
        decreases u@.len() - k,
    {
        let t = &targets[k];
        assert(tv[k as int] == t@);
        let n = entries.len();
        let openable = match t {
            Target::File { .. } => true,
            Target::Dir { .. } => true,
            _ => false,
        };
        if openable {
            match hint_key_for_index(n) {
                Some(key) => {
                    let s = &u[k];
                    entries.push(
                        HintEntry {
                            key,
                            start: s.start,
                            end: s.end,
                            raw: s.raw.clone(),
                            target: t.clone_target(),
                        },
                    );
                    assert(all[n as int] == (hint_keys()[n as int], u@[k as int], tv[k as int]));
                    assert(all.take(n + 1) =~= all.take(n as int).push(all[n as int]));
                },
                None => {
                    assert(all =~= all.take(n as int));
                    break;
                },
            }
        }
        k = k + 1;
    }
    assert(spans_match(text@, sp));
    entries
}

proof fn lemma_keyed_from(u: Seq<Span>, ts: Seq<TargetView>, k: int, n: int)
    requires
        0 <= n <= 25,
    ensures
        keyed_from(u, ts, k, n).len() <= 25 - n,
        forall|i: int|
            0 <= i < keyed_from(u, ts, k, n).len() ==> (#[trigger] keyed_from(u, ts, k, n)[i]).0
                == hint_keys()[n + i] && is_openable(keyed_from(u, ts, k, n)[i].2),
    decreases u.len() - k,
{
    if k >= u.len() || k < 0 {
    } else if !is_openable(ts[k]) {
        lemma_keyed_from(u, ts, k + 1, n);
    } else if n >= 25 {
    } else {
        lemma_keyed_from(u, ts, k + 1, n + 1);
        let rest = keyed_from(u, ts, k + 1, n + 1);
        let r = keyed_from(u, ts, k, n);
        assert forall|i: int| 0 <= i < r.len() implies (#[trigger] r[i]).0 == hint_keys()[n + i]
            && is_openable(r[i].2) by {
            if i > 0 {
                assert(r[i] == rest[i - 1]);
            }
        }
    }
}

/// The entries for any text and targets are at most 25 files and
/// directories (URLs and missing paths never get a key), with distinct
/// keys, in the order of the hint keys, none of them `q`.
pub proof fn lemma_entries_keyed(text: Seq<char>, targets: Seq<Target>, es: Seq<HintEntry>)
    requires
        is_entries_of(text, targets, es),
    ensures
        es.len() <= 25,
        forall|i: int| 0 <= i < es.len() ==> (#[trigger] es[i]).key == hint_keys()[i],
        forall|i: int| 0 <= i < es.len() ==> is_openable((#[trigger] es[i]).target@),
        forall|i: int, j: int| 0 <= i < j < es.len() ==> (#[trigger] es[i]).key != (#[trigger] es[j]).key,
        forall|i: int| 0 <= i < es.len() ==> (#[trigger] es[i]).key != 'q',
{
    lemma_hint_keys_distinct();
    let spans = choose|spans: Seq<Span>|
        {
            &&& spans_match(text, spans)
            &&& (unique_from(spans, spans.len() as int).len() == targets.len() ==> {
                let ks = keyed_from(
                    unique_from(spans, spans.len() as int),
                    targets_view(targets),
                    0,
                    0,
                );
                &&& es.len() == ks.len()
                &&& forall|i: int| 0 <= i < ks.len() ==> entry_is(#[trigger] es[i], ks[i])
            })
            &&& (unique_from(spans, spans.len() as int).len() != targets.len() ==> es.len()
                == 0)
        };
    let u = unique_from(spans, spans.len() as int);
    if u.len() == targets.len() {
        let ks = keyed_from(u, targets_view(targets), 0, 0);
        lemma_keyed_from(u, targets_view(targets), 0, 0);
        assert forall|i: int| 0 <= i < es.len() implies (#[trigger] es[i]).key == hint_keys()[i]
            && is_openable(es[i].target@) by {
            assert(entry_is(es[i], ks[i]));
        }
    }
    assert forall|i: int, j: int| 0 <= i < j < es.len() implies (#[trigger] es[i]).key != (
    #[trigger] es[j]).key by {
        assert(es[i].key == hint_keys()[i]);
        assert(es[j].key == hint_keys()[j]);
    }
}

/// Spans that start at strictly increasing byte offsets.
pub open spec fn starts_increase(s: Seq<Span>) -> bool {
    forall|i: int, j: int| 0 <= i < j < s.len() ==> (#[trigger] s[i]).start < (#[trigger] s[j]).start
}

/// Spans no two of which have the same raw text.
pub open spec fn raws_distinct(s: Seq<Span>) -> bool {
    forall|i: int, j: int| 0 <= i < j < s.len() ==> (#[trigger] s[i]).raw@ != (#[trigger] s[j]).raw@
}

proof fn lemma_unique_from(spans: Seq<Span>, k: int)
    requires
        starts_increase(spans),
        0 <= k <= spans.len(),
    ensures
        starts_increase(unique_from(spans, k)),
        raws_distinct(unique_from(spans, k)),
        forall|i: int|
            #![trigger unique_from(spans, k)[i]]
            0 <= i < unique_from(spans, k).len() ==> exists|m: int|
                0 <= m < k && unique_from(spans, k)[i] == #[trigger] spans[m],
    decreases k,
{
    if k > 0 {
        lemma_unique_from(spans, k - 1);
        let rest = unique_from(spans, k - 1);
        let raws = spans.map_values(|s: Span| s.raw@);
        if first_occurrence(raws, k - 1) {
            let r = rest.push(spans[k - 1]);
            assert(unique_from(spans, k) == r);
            assert forall|i: int, j: int| 0 <= i < j < r.len() implies (#[trigger] r[i]).start
                < (#[trigger] r[j]).start && r[i].raw@ != r[j].raw@ by {
                assert(r[i] == rest[i]);
                if j == rest.len() {
                    let m = choose|m: int| 0 <= m < k - 1 && rest[i] == #[trigger] spans[m];
                    assert(r[j] == spans[k - 1]);
                    assert(raws[m] == spans[m].raw@);
                    assert(raws[k - 1] == spans[k - 1].raw@);
                } else {
                    assert(r[j] == rest[j]);
                }
            }
            assert forall|i: int| #![trigger r[i]] 0 <= i < r.len() implies exists|m: int|
                0 <= m < k && r[i] == #[trigger] spans[m] by {
                if i < rest.len() {
                    assert(r[i] == rest[i]);
                    let m = choose|m: int| 0 <= m < k - 1 && rest[i] == #[trigger] spans[m];
                    assert(r[i] == spans[m]);
                } else {
                    assert(r[i] == spans[k - 1]);
                }
            }
        } else {
            assert(unique_from(spans, k) == rest);
            assert forall|i: int| #![trigger rest[i]] 0 <= i < rest.len() implies exists|m: int|
                0 <= m < k && rest[i] == #[trigger] spans[m] by {
                let m = choose|m: int| 0 <= m < k - 1 && rest[i] == #[trigger] spans[m];
                assert(rest[i] == spans[m]);
            }
        }
    }
}

proof fn lemma_keyed_order(u: Seq<Span>, ts: Seq<TargetView>, k: int, n: int)
    requires
        starts_increase(u),
        raws_distinct(u),
        0 <= k,
    ensures
        forall|i: int, j: int|
            0 <= i < j < keyed_from(u, ts, k, n).len() ==> (#[trigger] keyed_from(u, ts, k, n)[i]).1.start
                < (#[trigger] keyed_from(u, ts, k, n)[j]).1.start && keyed_from(u, ts, k, n)[i].1.raw@
                != keyed_from(u, ts, k, n)[j].1.raw@,
        forall|i: int|
            #![trigger keyed_from(u, ts, k, n)[i]]
            0 <= i < keyed_from(u, ts, k, n).len() ==> exists|m: int|
                k <= m < u.len() && keyed_from(u, ts, k, n)[i].1 == #[trigger] u[m],
    decreases u.len() - k,
{
    if k >= u.len() || n < 0 {
    } else if !is_openable(ts[k]) {
        lemma_keyed_order(u, ts, k + 1, n);
        let rest = keyed_from(u, ts, k + 1, n);
        let r = keyed_from(u, ts, k, n);
        assert(r == rest);
        assert forall|i: int| #![trigger r[i]] 0 <= i < r.len() implies exists|m: int|
            k <= m < u.len() && r[i].1 == #[trigger] u[m] by {
            let m = choose|m: int| k + 1 <= m < u.len() && rest[i].1 == #[trigger] u[m];
            assert(r[i].1 == u[m]);
        }
    } else if n >= 25 {
    } else {
        lemma_keyed_order(u, ts, k + 1, n + 1);
        let rest = keyed_from(u, ts, k + 1, n + 1);
        let r = keyed_from(u, ts, k, n);
        assert(r == seq![(hint_keys()[n], u[k], ts[k])] + rest);
        assert forall|i: int, j: int| 0 <= i < j < r.len() implies (#[trigger] r[i]).1.start
            < (#[trigger] r[j]).1.start && r[i].1.raw@ != r[j].1.raw@ by {
            assert(r[j] == rest[j - 1]);
            let mj = choose|m: int| k + 1 <= m < u.len() && rest[j - 1].1 == #[trigger] u[m];
            if i == 0 {
                assert(r[i].1 == u[k]);
                assert(u[k].start < u[mj].start && u[k].raw@ != u[mj].raw@);
            } else {
                assert(r[i] == rest[i - 1]);
                assert(rest[i - 1].1.start < rest[j - 1].1.start);
            }
        }
        assert forall|i: int| #![trigger r[i]] 0 <= i < r.len() implies exists|m: int|
            k <= m < u.len() && r[i].1 == #[trigger] u[m] by {
            if i == 0 {
                assert(r[i].1 == u[k]);
            } else {
                assert(r[i] == rest[i - 1]);
                let m = choose|m: int| k + 1 <= m < u.len() && rest[i - 1].1 == #[trigger] u[m];
                assert(r[i].1 == u[m]);
            }
        }
    }
}

/// The entries for any text and targets come in the order of the text:
/// each starts before it ends, starts strictly increase from one entry to
/// the next, and no two entries are for the same raw text.
pub proof fn lemma_entries_ordered(text: Seq<char>, targets: Seq<Target>, es: Seq<HintEntry>)
    requires
        is_entries_of(text, targets, es),
    ensures
        forall|i: int| 0 <= i < es.len() ==> (#[trigger] es[i]).start < es[i].end,
        forall|i: int, j: int|
            0 <= i < j < es.len() ==> (#[trigger] es[i]).start < (#[trigger] es[j]).start,
        forall|i: int, j: int|
            0 <= i < j < es.len() ==> (#[trigger] es[i]).raw@ != (#[trigger] es[j]).raw@,
{
    let spans = choose|spans: Seq<Span>|
        {
            &&& spans_match(text, spans)
            &&& (unique_from(spans, spans.len() as int).len() == targets.len() ==> {
                let ks = keyed_from(
                    unique_from(spans, spans.len() as int),
                    targets_view(targets),
                    0,
                    0,
                );
                &&& es.len() == ks.len()
                &&& forall|i: int| 0 <= i < ks.len() ==> entry_is(#[trigger] es[i], ks[i])
            })
            &&& (unique_from(spans, spans.len() as int).len() != targets.len() ==> es.len()
                == 0)
        };
    let u = unique_from(spans, spans.len() as int);
    if u.len() == targets.len() {
        crate::tokenize::lemma_span_offsets_increase(text, spans);
        lemma_unique_from(spans, spans.len() as int);
        let tv = targets_view(targets);
        let ks = keyed_from(u, tv, 0, 0);
        lemma_keyed_order(u, tv, 0, 0);
        assert forall|i: int| 0 <= i < es.len() implies (#[trigger] es[i]).start < es[i].end by {
            assert(entry_is(es[i], ks[i]));
            let m = choose|m: int| 0 <= m < u.len() && ks[i].1 == #[trigger] u[m];
            let m2 = choose|m2: int| 0 <= m2 < spans.len() && u[m] == #[trigger] spans[m2];
            assert(spans[m2].start < spans[m2].end);
        }
        assert forall|i: int, j: int| 0 <= i < j < es.len() implies (#[trigger] es[i]).start
            < (#[trigger] es[j]).start && es[i].raw@ != es[j].raw@ by {
            assert(entry_is(es[i], ks[i]));
            assert(entry_is(es[j], ks[j]));
        }
    }
}

/// Two span lists that agree position by position in offsets and raw text.
pub open spec fn spans_agree(a: Seq<Span>, b: Seq<Span>) -> bool {
    &&& a.len() == b.len()
    &&& forall|i: int|
        #![trigger a[i], b[i]]
        0 <= i < a.len() ==> a[i].start == b[i].start && a[i].end == b[i].end && a[i].raw@
            == b[i].raw@
}

/// Two entry lists that agree position by position in every field's value.
pub open spec fn entries_agree(a: Seq<HintEntry>, b: Seq<HintEntry>) -> bool {
    &&& a.len() == b.len()
    &&& forall|i: int|
        #![trigger a[i], b[i]]
        0 <= i < a.len() ==> a[i].key == b[i].key && a[i].start == b[i].start && a[i].end
            == b[i].end && a[i].raw@ == b[i].raw@ && a[i].target@ == b[i].target@
}

proof fn lemma_unique_agree(a: Seq<Span>, b: Seq<Span>, k: int)
    requires
        spans_agree(a, b),
        0 <= k <= a.len(),
    ensures
        spans_agree(unique_from(a, k), unique_from(b, k)),
    decreases k,
{
    if k > 0 {
        lemma_unique_agree(a, b, k - 1);
        let ra = a.map_values(|s: Span| s.raw@);
        let rb = b.map_values(|s: Span| s.raw@);
        assert forall|i: int| 0 <= i < ra.len() implies ra[i] == rb[i] by {
            assert(a[i].raw@ == b[i].raw@);
        }
        assert(ra =~= rb);
        let ua = unique_from(a, k - 1);
        let ub = unique_from(b, k - 1);
        if first_occurrence(ra, k - 1) {
            let pa = ua.push(a[k - 1]);
            let pb = ub.push(b[k - 1]);
            assert forall|i: int| #![trigger pa[i], pb[i]] 0 <= i < pa.len() implies pa[i].start
                == pb[i].start && pa[i].end == pb[i].end && pa[i].raw@ == pb[i].raw@ by {
                if i < ua.len() {
                    assert(pa[i] == ua[i] && pb[i] == ub[i]);
                } else {
                    assert(pa[i] == a[k - 1] && pb[i] == b[k - 1]);
                }
            }
        }
    }
}

proof fn lemma_keyed_agree(a: Seq<Span>, b: Seq<Span>, ts: Seq<TargetView>, k: int, n: int)
    requires
        spans_agree(a, b),
        0 <= k,
    ensures
        keyed_from(a, ts, k, n).len() == keyed_from(b, ts, k, n).len(),
        forall|i: int|
            #![trigger keyed_from(a, ts, k, n)[i]]
            0 <= i < keyed_from(a, ts, k, n).len() ==> {
                let x = keyed_from(a, ts, k, n)[i];
                let y = keyed_from(b, ts, k, n)[i];
                x.0 == y.0 && x.2 == y.2 && x.1.start == y.1.start && x.1.end == y.1.end
                    && x.1.raw@ == y.1.raw@
            },
    decreases a.len() - k,
{
    if k >= a.len() || n < 0 {
    } else if !is_openable(ts[k]) {
        lemma_keyed_agree(a, b, ts, k + 1, n);
    } else if n >= 25 {
    } else {
        lemma_keyed_agree(a, b, ts, k + 1, n + 1);
        let ra = keyed_from(a, ts, k + 1, n + 1);
        let rb = keyed_from(b, ts, k + 1, n + 1);
        let xa = keyed_from(a, ts, k, n);
        let xb = keyed_from(b, ts, k, n);
        assert(xa == seq![(hint_keys()[n], a[k], ts[k])] + ra);
        assert(xb == seq![(hint_keys()[n], b[k], ts[k])] + rb);
        assert forall|i: int| #![trigger xa[i]] 0 <= i < xa.len() implies xa[i].0 == xb[i].0
            && xa[i].2 == xb[i].2 && xa[i].1.start == xb[i].1.start && xa[i].1.end == xb[i].1.end
            && xa[i].1.raw@ == xb[i].1.raw@ by {
            if i > 0 {
                assert(xa[i] == ra[i - 1] && xb[i] == rb[i - 1]);
            } else {
                assert(a[k].start == b[k].start);
            }
        }
    }
}

proof fn lemma_entries_text_agree(a: Seq<HintEntry>, b: Seq<HintEntry>)
    requires
        entries_agree(a, b),
    ensures
        entries_text(a) == entries_text(b),
    decreases a.len(),
{
    if a.len() > 0 {
        let n = a.len() - 1;
        assert(entries_agree(a.drop_last(), b.drop_last())) by {
            assert forall|i: int| #![trigger a.drop_last()[i], b.drop_last()[i]] 0 <= i < n implies a.drop_last()[i]
                == a[i] && b.drop_last()[i] == b[i] by {}
        }
        lemma_entries_text_agree(a.drop_last(), b.drop_last());
        assert(a[n].key == b[n].key);
        assert(line_body(a.last()) == line_body(b.last()));
    }
}

/// The hint entries of a text are fixed by the text and the targets: any
/// two lists of entries for the same text and targets agree entry by entry,
/// and so give the same list text.
pub proof fn lemma_entries_determined(
    text: Seq<char>,
    targets: Seq<Target>,
    a: Seq<HintEntry>,
    b: Seq<HintEntry>,
)
    requires
        is_entries_of(text, targets, a),
        is_entries_of(text, targets, b),
    ensures
        entries_agree(a, b),
        entries_text(a) == entries_text(b),
{
    let sa = choose|spans: Seq<Span>|
        {
            &&& spans_match(text, spans)
            &&& (unique_from(spans, spans.len() as int).len() == targets.len() ==> {
                let ks = keyed_from(
                    unique_from(spans, spans.len() as int),
                    targets_view(targets),
                    0,
                    0,
                );
                &&& a.len() == ks.len()
                &&& forall|i: int| 0 <= i < ks.len() ==> entry_is(#[trigger] a[i], ks[i])
            })
            &&& (unique_from(spans, spans.len() as int).len() != targets.len() ==> a.len()
                == 0)
        };
    let sb = choose|spans: Seq<Span>|
        {
            &&& spans_match(text, spans)
            &&& (unique_from(spans, spans.len() as int).len() == targets.len() ==> {
                let ks = keyed_from(
                    unique_from(spans, spans.len() as int),
                    targets_view(targets),
                    0,
                    0,
                );
                &&& b.len() == ks.len()
                &&& forall|i: int| 0 <= i < ks.len() ==> entry_is(#[trigger] b[i], ks[i])
            })
            &&& (unique_from(spans, spans.len() as int).len() != targets.len() ==> b.len()
                == 0)
        };
    let bounds = crate::tokenize::candidate_bounds(text);
    assert forall|i: int| #![trigger sa[i], sb[i]] 0 <= i < sa.len() implies sa[i].start
        == sb[i].start && sa[i].end == sb[i].end && sa[i].raw@ == sb[i].raw@ by {
        assert(crate::tokenize::span_at(text, sa[i], bounds[i]));
        assert(crate::tokenize::span_at(text, sb[i], bounds[i]));
    }
    lemma_unique_agree(sa, sb, sa.len() as int);
    let ua = unique_from(sa, sa.len() as int);
    let ub = unique_from(sb, sb.len() as int);
    if ua.len() == targets.len() {
        let tv = targets_view(targets);
        lemma_keyed_agree(ua, ub, tv, 0, 0);
        let ka = keyed_from(ua, tv, 0, 0);
        let kb = keyed_from(ub, tv, 0, 0);
        assert forall|i: int| #![trigger a[i], b[i]] 0 <= i < a.len() implies a[i].key == b[i].key
            && a[i].start == b[i].start && a[i].end == b[i].end && a[i].raw@ == b[i].raw@
            && a[i].target@ == b[i].target@ by {
            assert(entry_is(a[i], ka[i]));
            assert(entry_is(b[i], kb[i]));
        }
    }
    lemma_entries_text_agree(a, b);
}

/// Worktree directories to retry missing paths under: directory targets
/// that are worktrees (first occurrence), then the discovered worktree roots
/// not already listed (paths compared by component).
pub open spec fn fallback_roots_from(
    primary: Seq<TargetView>,
    discovered: Seq<Seq<char>>,
) -> Seq<Seq<char>> {
    dedup_paths(worktree_dirs(primary) + discovered)
}

pub open spec fn worktree_dirs(ts: Seq<TargetView>) -> Seq<Seq<char>>
    decreases ts.len(),
{
    if ts.len() == 0 {
        seq![]
    } else {
        let rest = worktree_dirs(ts.drop_last());
        match ts.last() {
            TargetView::Dir(p, _, _) => if is_worktree_dir_spec(p) {
                rest.push(p)
            } else {
                rest
            },
            _ => rest,
        }
    }
}

/// `ps` with paths that name an earlier path dropped.
pub open spec fn dedup_paths(ps: Seq<Seq<char>>) -> Seq<Seq<char>>
    decreases ps.len(),
{
    if ps.len() == 0 {
        seq![]
    } else {
        let rest = dedup_paths(ps.drop_last());
        if exists|i: int| 0 <= i < rest.len() && same_path(#[trigger] rest[i], ps.last()) {
            rest
        } else {
            rest.push(ps.last())
        }
    }
}

fn push_unique_path(out: &mut Vec<String>, p: &String)
    ensures
        strs(final(out)@) == if exists|i: int|
            0 <= i < strs(old(out)@).len() && same_path(#[trigger] strs(old(out)@)[i], p@) {
            strs(old(out)@)
        } else {
            strs(old(out)@).push(p@)
        },
{
    let mut j: usize = 0;
    while j < out.len()
        invariant
            j <= out@.len(),
            out@ == old(out)@,
            forall|i: int| 0 <= i < j ==> !same_path(#[trigger] strs(out@)[i], p@),
        decreases out@.len() - j,
    {
        if paths_equal(out[j].as_str(), p.as_str()) {
            assert(same_path(strs(out@)[j as int], p@));
            return;
        }
        j = j + 1;
    }
    let ghost old_out = out@;
    out.push(p.clone());
    assert(strs(out@) =~= strs(old_out).push(p@));
}

/// The roots to retry missing relative paths under (see [`fallback_roots_from`]).
pub fn fallback_roots(primary: &Vec<Target>, discovered: &Vec<String>) -> (r: Vec<String>)
    ensures
        strs(r@) == fallback_roots_from(targets_view(primary@), strs(discovered@)),
{
    let ghost tv = targets_view(primary@);
    let mut dirs: Vec<String> = Vec::new();
    let mut k: usize = 0;
    while k < primary.len()
        invariant
            k <= primary@.len(),
            tv == targets_view(primary@),
            strs(dirs@) == worktree_dirs(tv.take(k as int)),
        decreases primary@.len() - k,
    {
        assert(tv.take(k + 1).drop_last() =~= tv.take(k as int));
        assert(tv.take(k + 1).last() == primary@[k as int]@);
        match &primary[k] {
            Target::Dir { path, .. } => {
                if is_worktree_dir(path.as_str()) {
                    let ghost old = dirs@;
                    dirs.push(path.clone());
                    assert(strs(dirs@) =~= strs(old).push(path@));
                }
            },
            _ => {},
        }
        k = k + 1;
    }
    assert(tv.take(primary@.len() as int) =~= tv);
    let ghost all = strs(dirs@) + strs(discovered@);
    let mut out: Vec<String> = Vec::new();
    let mut j: usize = 0;
    while j < dirs.len()
        invariant
            all == strs(dirs@) + strs(discovered@),
            j <= dirs@.len(),
            strs(out@) == dedup_paths(all.take(j as int)),
        decreases dirs@.len() - j,
    {
        assert(all[j as int] == dirs@[j as int]@);
        assert(all.take(j + 1).drop_last() =~= all.take(j as int));
        push_unique_path(&mut out, &dirs[j]);
        j = j + 1;
    }
    let nd = dirs.len();
    let mut i: usize = 0;
    while i < discovered.len()
        invariant
            nd == dirs@.len(),
            all == strs(dirs@) + strs(discovered@),
            i <= discovered@.len(),
            strs(out@) == dedup_paths(all.take(nd + i)),
        decreases discovered@.len() - i,
    {
        assert(all[nd + i] == discovered@[i as int]@);
        assert(all.take(nd + i + 1).drop_last() =~= all.take(nd + i));
        push_unique_path(&mut out, &discovered[i]);
        i = i + 1;
    }
    assert(all.take(all.len() as int) =~= all);
    out
}

// ---------------------------------------------------------------- routing

/// Where a pick goes: URLs to the browser, files to the file viewer when it
/// is installed and to `less` otherwise, directories to the browse overlay.
pub open spec fn route_spec(t: TargetView, file_viewer_installed: bool) -> OpenRoute {
    match t {
        TargetView::Url(_) => OpenRoute::Browser,
        TargetView::File(..) => if file_viewer_installed {
            OpenRoute::FileViewer
        } else {
            OpenRoute::Less
        },
        TargetView::Dir(..) => OpenRoute::Browse,
        TargetView::Missing(_) => OpenRoute::NoOp,
    }
}

/// The opener for `entry`, given whether herdr-file-viewer is installed.
pub fn route_entry(entry: &HintEntry, file_viewer_installed: bool) -> (r: OpenRoute)
    ensures
        r == route_spec(entry.target@, file_viewer_installed),
{
    match &entry.target {
        Target::Url(_) => OpenRoute::Browser,
        Target::File { .. } => {
            if file_viewer_installed {
                OpenRoute::FileViewer
            } else {
                OpenRoute::Less
            }
        },
        Target::Dir { .. } => OpenRoute::Browse,
        Target::Missing { .. } => OpenRoute::NoOp,
    }
}

/// What opening a pick comes to; the caller runs it.
#[derive(Debug, Clone, PartialEq, Eq)]
pub enum OpenAction {
    /// Open the URL in the browser.
    Url(String),
    /// Open the open spec in herdr-file-viewer.
    FileViewer { open_spec: String },
    /// Open the file in `less`, at the line when there is one.
    Less { path: String, line: Option<u32> },
    /// Browse the directory.
    Browse { path: String },
    Nothing,
}

pub open spec fn line_u32(o: Option<nat>) -> Option<u32> {
    match o {
        Some(n) => Some(n as u32),
        None => None,
    }
}

/// `a` is the action for target `t`: a URL goes to the browser; a file to
/// herdr-file-viewer with its open spec when that is installed, else to
/// `less` at the line of its open spec; a directory to the browse overlay;
/// a missing path to nothing.
pub open spec fn is_action_for(a: OpenAction, t: TargetView, file_viewer_installed: bool) -> bool {
    match t {
        TargetView::Url(u) => a matches OpenAction::Url(x) && x@ == u,
        TargetView::File(p, o, _) => if file_viewer_installed {
            a matches OpenAction::FileViewer { open_spec } && open_spec@ == o
        } else {
            a matches OpenAction::Less { path, line } && path@ == p && line == line_u32(
                line_of_spec(o),
            )
        },
        TargetView::Dir(p, _, _) => a matches OpenAction::Browse { path } && path@ == p,
        TargetView::Missing(_) => a == OpenAction::Nothing,
    }
}

fn action_for(t: &Target, file_viewer_installed: bool) -> (a: OpenAction)
    ensures
        is_action_for(a, t@, file_viewer_installed),
{
    match t {
        Target::Url(u) => OpenAction::Url(u.clone()),
        Target::File { path, open_spec, .. } => {
            if file_viewer_installed {
                OpenAction::FileViewer { open_spec: open_spec.clone() }
            } else {
                let line = line_from_open_spec(open_spec.as_str());
                OpenAction::Less { path: path.clone(), line }
            }
        },
        Target::Dir { path, .. } => OpenAction::Browse { path: path.clone() },
        Target::Missing { .. } => OpenAction::Nothing,
    }
}

/// What opening `entry` does: the opener [`route_entry`] picks, with the
/// open spec, path and line it needs.
pub fn open_entry(entry: &HintEntry, file_viewer_installed: bool) -> (a: OpenAction)
    ensures
        is_action_for(a, entry.target@, file_viewer_installed),
{
    action_for(&entry.target, file_viewer_installed)
}

/// What previewing `requested` does, given its target: a file opens as a
/// pick would; anything else is refused as invalid input.
pub fn open_preview_file(requested: &str, target: &Target, file_viewer_installed: bool) -> (r:
    Result<OpenAction, HintError>)
    ensures
        target@ is File ==> (r matches Ok(a) && is_action_for(a, target@, file_viewer_installed)),
        !(target@ is File) ==> (r matches Err(HintError::Io(kind, m)) && kind
            == IoKind::InvalidInput && m@ == "open_preview_file: not a file: "@ + requested@),
{
    match target {
        Target::File { .. } => Ok(action_for(target, file_viewer_installed)),
        _ => {
            let mut m = String::new();
            push_str(&mut m, "open_preview_file: not a file: ");
            push_str(&mut m, requested);
            Err(HintError::Io(IoKind::InvalidInput, m))
        },
    }
}

/// The headless list: the entries for `text`, given the target of each
/// unique candidate, as the tab-separated list (the list text of the
/// entries that [`build_entries`] gives, which the text and the targets fix).
pub fn run_hint_list(text: &str, targets: &Vec<Target>) -> (r: Result<String, HintError>)
    requires
        crate::text::utf8_len(text@) <= usize::MAX,
    ensures
        r matches Ok(out) && (exists|es: Seq<HintEntry>| #[trigger] is_entries_of(text@, targets@, es))
            && forall|es: Seq<HintEntry>|
            #[trigger] is_entries_of(text@, targets@, es) ==> entries_text(es) == out@,
{
    let entries = build_entries(text, targets);
    let out = format_list(&entries);
    proof {
        assert forall|es: Seq<HintEntry>| #[trigger] is_entries_of(text@, targets@, es) implies entries_text(es)
            == out@ by {
            lemma_entries_determined(text@, targets@, es, entries@);
        }
    }
    Ok(out)
}

/// The hint action once the entries are known: with none, there is nothing
/// to pick (`NoOpenableTargets`); else the list to hand to the overlay pane.
pub fn run_hint_action(entries: &Vec<HintEntry>) -> (r: Result<String, HintError>)
    ensures
        entries@.len() == 0 ==> r == Err::<String, HintError>(HintError::NoOpenableTargets),
        entries@.len() > 0 ==> (r matches Ok(out) && out@ == entries_text(entries@)),
{
    if entries.len() == 0 {
        Err(HintError::NoOpenableTargets)
    } else {
        Ok(serialize_entries(entries))
    }
}

/// The first line of an open spec's `:N` / `:A-B` suffix, as a `u32` of at least 1.
pub open spec fn line_of_spec(open_spec: Seq<char>) -> Option<nat> {
    let c = crate::text::last_before(open_spec, ':', open_spec.len() as int);
    if c < 0 {
        None
    } else {
        let suffix = open_spec.subrange(c + 1, open_spec.len() as int);
        let first = suffix.take(first_from(suffix, '-', 0));
        match parse_unsigned(first, u32::MAX as nat) {
            Some(n) => if n >= 1 {
                Some(n)
            } else {
                None
            },
            None => None,
        }
    }
}

/// The line an open spec jumps to (see [`line_of_spec`]).
pub fn line_from_open_spec(open_spec: &str) -> (r: Option<u32>)
    ensures
        match line_of_spec(open_spec@) {
            Some(n) => r == Some(n as u32),
            None => r is None,
        },
{
    let v = str_to_chars(open_spec);
    let n = v.len();
    proof {
        crate::text::lemma_last_before(v@, ':', n as int);
    }
    let c = match crate::text::rfind_char_before(v.as_slice(), ':', n) {
        Some(c) => c,
        None => {
            return None;
        },
    };
    let d = find_char_from(v.as_slice(), '-', c + 1);
    proof {
        lemma_first_from(v@, '-', (c + 1) as int);
        crate::classify::lemma_first_from_sub(v@, '-', (c + 1) as int, n as int);
    }
    let ghost suffix = v@.subrange(c + 1, n as int);
    assert(v@.subrange(c + 1, d as int) =~= suffix.take(first_from(suffix, '-', 0)));
    match parse_usize_range(v.as_slice(), c + 1, d) {
        Some(x) => {
            if x >= 1 && x <= 4294967295 {
                Some(x as u32)
            } else {
                None
            }
        },
        None => {
            proof {
                let t = v@.subrange(c + 1, d as int);
                if parse_unsigned(t, u32::MAX as nat) is Some {
                    assert(parse_unsigned(t, usize::MAX as nat) is Some);
                }
            }
            None
        },
    }
}

} // verus!
