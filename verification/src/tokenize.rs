//! Finds path and URL candidates in pane text.
//!
//! Text is split into lines and lines into words (whitespace-separated runs,
//! also broken after a leading `NAME=` and between `]` and `(`). Each word is
//! stripped of surrounding quotes and brackets. A word is a candidate when it
//! is an `http(s)://` URL, contains `/`, or has the shape of a file name
//! (`name.ext`, extension starting with a letter). A `/`-path that does not
//! end in a file name may swallow following words up to a file name, so that
//! paths holding spaces stay whole.
use vstd::prelude::*;
use crate::text::{
    contains_char_in, find_char_from, first_from, has_char_in, is_alphanumeric, is_ascii_alpha,
    is_whitespace, is_ws, last_before, lemma_first_from, lemma_last_before, lemma_utf8_len_mono,
    lemma_utf8_len_take_succ, matches_at, matches_at_exec, rfind_char_before, str_to_chars,
    string_from_range, unicode_alphanumeric, utf8_len, utf8_width, ascii_alpha,
};

verus! {

/// A candidate: `raw` is the text between byte offsets `start` and `end`.
pub struct Span {
    pub start: usize,
    pub end: usize,
    pub raw: String,
}

// ---------------------------------------------------------------- words

/// A word boundary falls just before `line[i]` (inside a run of
/// non-whitespace) when `line[i-1]` is `]` and `line[i]` is `(` (markdown
/// link), or when `line[i-1]` is `=` and the word so far holds no `/` or `:`
/// (`NAME=value`).
pub open spec fn splits_before(line: Seq<char>, i: int, guard: bool) -> bool {
    (line[i - 1] == ']' && line[i] == '(') || (line[i - 1] == '=' && !guard)
}

pub open spec fn is_guard_char(c: char) -> bool {
    c == '/' || c == ':'
}

/// Word bounds of `line[i..]`, given the start of the word being read (if
/// any) and whether that word already holds `/` or `:`.
pub open spec fn words_from(line: Seq<char>, i: int, start: Option<int>, guard: bool) -> Seq<
    (int, int),
>
    decreases line.len() - i,
{
    if i >= line.len() {
        match start {
            Some(s) => seq![(s, line.len() as int)],
            None => seq![],
        }
    } else if is_ws(line[i]) {
        match start {
            Some(s) => seq![(s, i)] + words_from(line, i + 1, None, false),
            None => words_from(line, i + 1, None, false),
        }
    } else {
        match start {
            None => words_from(line, i + 1, Some(i), is_guard_char(line[i])),
            Some(s) => if splits_before(line, i, guard) {
                seq![(s, i)] + words_from(line, i + 1, Some(i), is_guard_char(line[i]))
            } else {
                words_from(line, i + 1, start, guard || is_guard_char(line[i]))
            },
        }
    }
}

/// Word bounds of a whole line.
pub open spec fn words_of(line: Seq<char>) -> Seq<(int, int)> {
    words_from(line, 0, None, false)
}

pub open spec fn pairs_int(v: Seq<(usize, usize)>) -> Seq<(int, int)> {
    v.map_values(|p: (usize, usize)| (p.0 as int, p.1 as int))
}

fn word_bounds(line: &[char]) -> (words: Vec<(usize, usize)>)
    ensures
        pairs_int(words@) == words_of(line@),
{
    let mut words: Vec<(usize, usize)> = Vec::new();
    let mut start: Option<usize> = None;
    let mut guard = false;
    let mut i: usize = 0;
    let n = line.len();
    while i < n
        invariant
            n == line@.len(),
            i <= n,
            match start {
                Some(s) => s < i,
                None => true,
            },
            pairs_int(words@) + words_from(
                line@,
                i as int,
                match start {
                    Some(s) => Some(s as int),
                    None => None,
                },
                guard,
            ) == words_of(line@),
        decreases n - i,
    {
        let c = line[i];
        let ghost old_words = words@;
        if is_whitespace(c) {
            if let Some(s) = start {
                words.push((s, i));
                assert(pairs_int(words@) =~= pairs_int(old_words) + seq![(s as int, i as int)]);
            }
            start = None;
            guard = false;
        } else {
            match start {
                None => {
                    start = Some(i);
                    guard = c == '/' || c == ':';
                },
                Some(s) => {
                    if (line[i - 1] == ']' && c == '(') || (line[i - 1] == '=' && !guard) {
                        words.push((s, i));
                        assert(pairs_int(words@) =~= pairs_int(old_words) + seq![
                            (s as int, i as int),
                        ]);
                        start = Some(i);
                        guard = c == '/' || c == ':';
                    } else {
                        guard = guard || c == '/' || c == ':';
                    }
                },
            }
        }
        i = i + 1;
    }
    let ghost old_words = words@;
    if let Some(s) = start {
        words.push((s, n));
        assert(pairs_int(words@) =~= pairs_int(old_words) + seq![(s as int, n as int)]);
    } else {
        assert(pairs_int(words@) + Seq::<(int, int)>::empty() =~= pairs_int(words@));
    }
    words
}

// ---------------------------------------------------------------- trimming

pub open spec fn is_open_wrapper(c: char) -> bool {
    c == '"' || c == '\'' || c == '`' || c == '(' || c == '[' || c == '{' || c == '<'
}

pub open spec fn is_close_wrapper(c: char) -> bool {
    c == '"' || c == '\'' || c == '`' || c == ')' || c == ']' || c == '}' || c == '>' || c == ','
        || c == ';' || c == '.'
}

pub open spec fn trim_front(line: Seq<char>, s: int, e: int) -> int
    decreases e - s,
{
    if s < e && is_open_wrapper(line[s]) {
        trim_front(line, s + 1, e)
    } else {
        s
    }
}

pub open spec fn trim_back(line: Seq<char>, s: int, e: int) -> int
    decreases e - s,
{
    if s < e && is_close_wrapper(line[e - 1]) {
        trim_back(line, s, e - 1)
    } else {
        e
    }
}

/// Bounds of a word once opening quotes/brackets are dropped from its front
/// and closing quotes/brackets and `,` `;` `.` from its back.
pub open spec fn trimmed(line: Seq<char>, w: (int, int)) -> (int, int) {
    let s = trim_front(line, w.0, w.1);
    (s, trim_back(line, s, w.1))
}

pub proof fn lemma_trim(line: Seq<char>, w: (int, int))
    requires
        0 <= w.0 <= w.1 <= line.len(),
    ensures
        w.0 <= trimmed(line, w).0 <= trimmed(line, w).1 <= w.1,
        trimmed(line, w).0 < trimmed(line, w).1 ==> !is_open_wrapper(line[trimmed(line, w).0])
            && !is_close_wrapper(line[trimmed(line, w).1 - 1]),
{
    lemma_trim_front(line, w.0, w.1);
    lemma_trim_back(line, trim_front(line, w.0, w.1), w.1);
}

proof fn lemma_trim_front(line: Seq<char>, s: int, e: int)
    requires
        s <= e,
    ensures
        s <= trim_front(line, s, e) <= e,
        trim_front(line, s, e) < e ==> !is_open_wrapper(line[trim_front(line, s, e)]),
    decreases e - s,
{
    if s < e && is_open_wrapper(line[s]) {
        lemma_trim_front(line, s + 1, e);
    }
}

proof fn lemma_trim_back(line: Seq<char>, s: int, e: int)
    requires
        s <= e,
    ensures
        s <= trim_back(line, s, e) <= e,
        s < trim_back(line, s, e) ==> !is_close_wrapper(line[trim_back(line, s, e) - 1]),
    decreases e - s,
{
    if s < e && is_close_wrapper(line[e - 1]) {
        lemma_trim_back(line, s, e - 1);
    }
}

fn open_wrapper(c: char) -> (r: bool)
    ensures
        r == is_open_wrapper(c),
{
    c == '"' || c == '\'' || c == '`' || c == '(' || c == '[' || c == '{' || c == '<'
}

fn close_wrapper(c: char) -> (r: bool)
    ensures
        r == is_close_wrapper(c),
{
    c == '"' || c == '\'' || c == '`' || c == ')' || c == ']' || c == '}' || c == '>' || c == ','
        || c == ';' || c == '.'
}

fn trim_wrappers(line: &[char], start: usize, end: usize) -> (r: (usize, usize))
    requires
        start <= end <= line@.len(),
    ensures
        (r.0 as int, r.1 as int) == trimmed(line@, (start as int, end as int)),
        start <= r.0 <= r.1 <= end,
{
    let mut s = start;
    while s < end && open_wrapper(line[s])
        invariant
            start <= s <= end <= line@.len(),
            trim_front(line@, start as int, end as int) == trim_front(line@, s as int, end as int),
        decreases end - s,
    {
        s = s + 1;
    }
    let mut e = end;
    while s < e && close_wrapper(line[e - 1])
        invariant
            start <= s <= e <= end <= line@.len(),
            trim_front(line@, start as int, end as int) == s,
            trim_back(line@, s as int, end as int) == trim_back(line@, s as int, e as int),
        decreases e - s,
    {
        e = e - 1;
    }
    (s, e)
}

// ---------------------------------------------------------------- word shapes

pub open spec fn http_prefix() -> Seq<char> {
    seq!['h', 't', 't', 'p', ':', '/', '/']
}

pub open spec fn https_prefix() -> Seq<char> {
    seq!['h', 't', 't', 'p', 's', ':', '/', '/']
}

/// `w` starts with `http://` or `https://`.
pub open spec fn is_url(w: Seq<char>) -> bool {
    matches_at(w, 0, http_prefix()) || matches_at(w, 0, https_prefix())
}

/// `w` is not a URL, holds a `/`, and is not `/` alone.
pub open spec fn is_path_start(w: Seq<char>) -> bool {
    !is_url(w) && has_char_in(w, '/', 0, w.len() as int) && w != seq!['/']
}

/// The last `/`-separated component of `w`, up to its first `:`.
pub open spec fn final_name(w: Seq<char>) -> Seq<char> {
    let f = w.subrange(last_before(w, '/', w.len() as int) + 1, w.len() as int);
    f.take(first_from(f, ':', 0))
}

/// The final name has a `.` after its first character: a path word of this
/// shape is a whole candidate by itself.
pub open spec fn has_dotted_name(w: Seq<char>) -> bool {
    let name = final_name(w);
    last_before(name, '.', name.len() as int) > 0
}

/// The final name has a `.` after its first character, and the extension
/// after the last `.` starts with an ASCII letter: the shape of a file name
/// that a path may be joined with, or that stands alone without a `/`.
pub open spec fn has_filename_shape(w: Seq<char>) -> bool {
    let name = final_name(w);
    let dot = last_before(name, '.', name.len() as int);
    dot > 0 && dot + 1 < name.len() && is_ascii_alpha(name[dot + 1])
}

pub open spec fn is_distinctive_char(c: char) -> bool {
    c == '-' || c == '+' || c == '~' || c == '%' || c == '…'
}

/// The final name before its last `.` (all of it when there is none).
pub open spec fn name_stem(w: Seq<char>) -> Seq<char> {
    let name = final_name(w);
    let dot = last_before(name, '.', name.len() as int);
    if dot >= 0 {
        name.take(dot)
    } else {
        name
    }
}

/// The stem of the final name holds one of `-+~%…`.
pub open spec fn has_distinctive_punctuation(w: Seq<char>) -> bool {
    exists|k: int| 0 <= k < name_stem(w).len() && is_distinctive_char(#[trigger] name_stem(w)[k])
}

pub open spec fn is_continuation_char(c: char) -> bool {
    unicode_alphanumeric(c) || c == '_' || c == '-' || c == '.' || c == '+' || c == '~' || c
        == '%' || c == '…' || c == '/'
}

/// `w` is non-empty and made only of characters that occur in path names.
pub open spec fn is_path_continuation(w: Seq<char>) -> bool {
    w.len() > 0 && forall|k: int| 0 <= k < w.len() ==> is_continuation_char(#[trigger] w[k])
}

/// A bare `name.ext` word with no `/`.
pub open spec fn is_bare_filename(w: Seq<char>) -> bool {
    !is_url(w) && !has_char_in(w, '/', 0, w.len() as int) && has_filename_shape(w)
}

/// `w` starts with `http://` or `https://`.
pub fn is_url_exec(w: &[char]) -> (r: bool)
    ensures
        r == is_url(w@),
{
    let r = is_url_at(w, 0, w.len());
    assert(w@.subrange(0, w@.len() as int) =~= w@);
    r
}

fn is_url_at(line: &[char], s: usize, e: usize) -> (r: bool)
    requires
        s <= e <= line@.len(),
    ensures
        r == is_url(line@.subrange(s as int, e as int)),
{
    let w = slice_range(line, s, e);
    let http: [char; 7] = ['h', 't', 't', 'p', ':', '/', '/'];
    let https: [char; 8] = ['h', 't', 't', 'p', 's', ':', '/', '/'];
    assert(http@ =~= http_prefix());
    assert(https@ =~= https_prefix());
    matches_at_exec(w.as_slice(), 0, &http) || matches_at_exec(w.as_slice(), 0, &https)
}

/// A copy of `line[s..e]`.
fn slice_range(line: &[char], s: usize, e: usize) -> (w: Vec<char>)
    requires
        s <= e <= line@.len(),
    ensures
        w@ == line@.subrange(s as int, e as int),
{
    let mut w: Vec<char> = Vec::new();
    let mut i = s;
    while i < e
        invariant
            s <= i <= e <= line@.len(),
            w@ == line@.subrange(s as int, i as int),
        decreases e - i,
    {
        w.push(line[i]);
        assert(w@ =~= line@.subrange(s as int, i + 1));
        i = i + 1;
    }
    w
}

fn is_path_start_at(line: &[char], s: usize, e: usize) -> (r: bool)
    requires
        s <= e <= line@.len(),
    ensures
        r == is_path_start(line@.subrange(s as int, e as int)),
{
    let w = slice_range(line, s, e);
    if is_url_at(line, s, e) {
        return false;
    }
    let has_slash = contains_char_in(w.as_slice(), '/', 0, w.len());
    let only_slash = w.len() == 1 && w[0] == '/';
    proof {
        if w@.len() == 1 && w@[0] == '/' {
            assert(w@ =~= seq!['/']);
        }
        if w@ == seq!['/'] {
            assert(w@[0] == '/');
        }
    }
    has_slash && !only_slash
}

/// Bounds (in `w`) of the final name: after the last `/`, up to the first `:`.
fn final_name_bounds(w: &[char]) -> (r: (usize, usize))
    ensures
        r.0 <= r.1 <= w@.len(),
        w@.subrange(r.0 as int, r.1 as int) == final_name(w@),
{
    proof {
        lemma_last_before(w@, '/', w@.len() as int);
    }
    let from = match rfind_char_before(w, '/', w.len()) {
        Some(k) => k + 1,
        None => 0,
    };
    let colon = find_char_from(w, ':', from);
    let ghost f = w@.subrange(from as int, w@.len() as int);
    proof {
        lemma_first_from(w@, ':', from as int);
        lemma_first_from(f, ':', 0);
        lemma_first_from_shift(w@, ':', from as int);
    }
    assert(w@.subrange(from as int, colon as int) =~= f.take(first_from(f, ':', 0)));
    (from, colon)
}

/// Searching a suffix gives the same hit, shifted.
proof fn lemma_first_from_shift(s: Seq<char>, c: char, from: int)
    requires
        0 <= from <= s.len(),
    ensures
        first_from(s, c, from) == from + first_from(s.subrange(from, s.len() as int), c, 0),
{
    lemma_first_from_shift_at(s, c, from, from);
}

proof fn lemma_first_from_shift_at(s: Seq<char>, c: char, from: int, i: int)
    requires
        0 <= from <= i <= s.len(),
    ensures
        first_from(s, c, i) == from + first_from(s.subrange(from, s.len() as int), c, i - from),
    decreases s.len() - i,
{
    if i < s.len() && s[i] != c {
        lemma_first_from_shift_at(s, c, from, i + 1);
    }
}

fn has_filename_shape_at(line: &[char], s: usize, e: usize) -> (r: bool)
    requires
        s <= e <= line@.len(),
    ensures
        r == has_filename_shape(line@.subrange(s as int, e as int)),
{
    let w = slice_range(line, s, e);
    let (a, b) = final_name_bounds(w.as_slice());
    let name = slice_range(w.as_slice(), a, b);
    proof {
        lemma_last_before(name@, '.', name@.len() as int);
    }
    match rfind_char_before(name.as_slice(), '.', name.len()) {
        Some(dot) => dot > 0 && dot + 1 < name.len() && ascii_alpha(name[dot + 1]),
        None => false,
    }
}

fn has_dotted_name_at(line: &[char], s: usize, e: usize) -> (r: bool)
    requires
        s <= e <= line@.len(),
    ensures
        r == has_dotted_name(line@.subrange(s as int, e as int)),
{
    let w = slice_range(line, s, e);
    let (a, b) = final_name_bounds(w.as_slice());
    let name = slice_range(w.as_slice(), a, b);
    proof {
        lemma_last_before(name@, '.', name@.len() as int);
    }
    match rfind_char_before(name.as_slice(), '.', name.len()) {
        Some(dot) => dot > 0,
        None => false,
    }
}

fn has_distinctive_punctuation_at(line: &[char], s: usize, e: usize) -> (r: bool)
    requires
        s <= e <= line@.len(),
    ensures
        r == has_distinctive_punctuation(line@.subrange(s as int, e as int)),
{
    let w = slice_range(line, s, e);
    let (a, b) = final_name_bounds(w.as_slice());
    let name = slice_range(w.as_slice(), a, b);
    proof {
        lemma_last_before(name@, '.', name@.len() as int);
    }
    let stem_end = match rfind_char_before(name.as_slice(), '.', name.len()) {
        Some(dot) => dot,
        None => name.len(),
    };
    let ghost stem = name@.take(stem_end as int);
    proof {
        let nm = final_name(line@.subrange(s as int, e as int));
        assert(w@ == line@.subrange(s as int, e as int));
        assert(name@ == nm);
        let dot = last_before(nm, '.', nm.len() as int);
        assert(stem =~= name_stem(line@.subrange(s as int, e as int)));
    }
    let mut k: usize = 0;
    while k < stem_end
        invariant
            stem_end <= name@.len(),
            stem == name@.take(stem_end as int),
            stem == name_stem(line@.subrange(s as int, e as int)),
            k <= stem_end,
            forall|j: int| 0 <= j < k ==> !is_distinctive_char(#[trigger] stem[j]),
        decreases stem_end - k,
    {
        let c = name[k];
        assert(stem[k as int] == c);
        if c == '-' || c == '+' || c == '~' || c == '%' || c == '…' {
            proof {
                assert(is_distinctive_char(stem[k as int]));

            }
            return true;
        }
        k = k + 1;
    }
    false
}

fn is_path_continuation_at(line: &[char], s: usize, e: usize) -> (r: bool)
    requires
        s <= e <= line@.len(),
    ensures
        r == is_path_continuation(line@.subrange(s as int, e as int)),
{
    let ghost w = line@.subrange(s as int, e as int);
    if s == e {
        return false;
    }
    let mut k = s;
    while k < e
        invariant
            s <= k <= e <= line@.len(),
            w == line@.subrange(s as int, e as int),
            forall|j: int| 0 <= j < k - s ==> is_continuation_char(#[trigger] w[j]),
        decreases e - k,
    {
        let c = line[k];
        assert(w[k - s] == c);
        let ok = is_alphanumeric(c) || c == '_' || c == '-' || c == '.' || c == '+' || c == '~'
            || c == '%' || c == '…' || c == '/';
        if !ok {
            return false;
        }
        k = k + 1;
    }
    true
}

fn is_bare_filename_at(line: &[char], s: usize, e: usize) -> (r: bool)
    requires
        s <= e <= line@.len(),
    ensures
        r == is_bare_filename(line@.subrange(s as int, e as int)),
{
    let w = slice_range(line, s, e);
    !is_url_at(line, s, e) && !contains_char_in(w.as_slice(), '/', 0, w.len())
        && has_filename_shape_at(line, s, e)
}

fn ends_with_slash(line: &[char], s: usize, e: usize) -> (r: bool)
    requires
        s <= e <= line@.len(),
    ensures
        r == (e > s && line@[e - 1] == '/'),
{
    e > s && line[e - 1] == '/'
}

// ---------------------------------------------------------------- one line

/// Where a `/`-path word at `idx` (ending at `we`, not itself a file name)
/// ends once following words are considered, scanning from word `j`:
/// `(end, index of the last word used)`. Words that could be part of a path
/// name are skipped over until the first file-name word; that word is taken
/// when it holds a `/`, or when the path word did not end in `/` and the
/// file-name word comes right after it or has a distinctive stem.
pub open spec fn join_scan(
    line: Seq<char>,
    words: Seq<(int, int)>,
    idx: int,
    j: int,
    starts_dir: bool,
    we: int,
) -> (int, int)
    decreases words.len() - j,
{
    if j >= words.len() || j < 0 {
        (we, idx)
    } else {
        let nb = trimmed(line, words[j]);
        let nw = line.subrange(nb.0, nb.1);
        if !is_path_continuation(nw) {
            (we, idx)
        } else if has_filename_shape(nw) {
            if has_char_in(nw, '/', 0, nw.len() as int) || (!starts_dir && (j == idx + 1
                || has_distinctive_punctuation(nw))) {
                (nb.1, j)
            } else {
                (we, idx)
            }
        } else {
            join_scan(line, words, idx, j + 1, starts_dir, we)
        }
    }
}

pub proof fn lemma_join_scan(
    line: Seq<char>,
    words: Seq<(int, int)>,
    idx: int,
    j: int,
    starts_dir: bool,
    we: int,
)
    requires
        0 <= idx < j,
    ensures
        ({
            let r = join_scan(line, words, idx, j, starts_dir, we);
            (r.1 == idx && r.0 == we) || (j <= r.1 < words.len() && r.0 == trimmed(
                line,
                words[r.1],
            ).1)
        }),
    decreases words.len() - j,
{
    if j < words.len() {
        let nb = trimmed(line, words[j]);
        let nw = line.subrange(nb.0, nb.1);
        if is_path_continuation(nw) && !has_filename_shape(nw) {
            lemma_join_scan(line, words, idx, j + 1, starts_dir, we);
        }
    }
}

/// A word that a path is joined with holds at least one character.
proof fn lemma_join_scan_nonempty(
    line: Seq<char>,
    words: Seq<(int, int)>,
    idx: int,
    j: int,
    starts_dir: bool,
    we: int,
)
    requires
        0 <= idx < j,
        words_ok(line, words),
    ensures
        ({
            let r = join_scan(line, words, idx, j, starts_dir, we);
            r.1 != idx ==> trimmed(line, words[r.1]).0 < r.0
        }),
    decreases words.len() - j,
{
    if j < words.len() {
        let nb = trimmed(line, words[j]);
        lemma_trim(line, words[j]);
        let nw = line.subrange(nb.0, nb.1);
        if is_path_continuation(nw) && !has_filename_shape(nw) {
            lemma_join_scan_nonempty(line, words, idx, j + 1, starts_dir, we);
        } else if nb.0 == nb.1 {
            assert(nw =~= Seq::<char>::empty());
            lemma_empty_word();
        }
    }
}

/// The empty word is no URL, no path and no file name.
proof fn lemma_empty_word()
    ensures
        !is_url(Seq::<char>::empty()),
        !is_path_start(Seq::<char>::empty()),
        !has_filename_shape(Seq::<char>::empty()),
{
    let e = Seq::<char>::empty();
    assert(!matches_at(e, 0, http_prefix()));
    assert(!matches_at(e, 0, https_prefix()));
    assert(last_before(e, '/', 0) == -1);
    assert(e.subrange(0, 0) =~= e);
    assert(first_from(e, ':', 0) == 0);
    assert(e.take(0) =~= e);
    assert(final_name(e) =~= e);
    assert(last_before(e, '.', 0) == -1);
}

/// Candidates of a line (bounds within the line), reading words from `idx`.
pub open spec fn line_spans_from(line: Seq<char>, words: Seq<(int, int)>, idx: int) -> Seq<
    (int, int),
>
    decreases words.len() - idx,
{
    if idx >= words.len() || idx < 0 {
        seq![]
    } else {
        let b = trimmed(line, words[idx]);
        let w = line.subrange(b.0, b.1);
        if is_url(w) {
            seq![(b.0, b.1)] + line_spans_from(line, words, idx + 1)
        } else if is_path_start(w) {
            let r = if has_dotted_name(w) {
                (b.1, idx)
            } else {
                join_scan(line, words, idx, idx + 1, b.1 > b.0 && line[b.1 - 1] == '/', b.1)
            };
            proof {
                lemma_join_scan(
                    line,
                    words,
                    idx,
                    idx + 1,
                    b.1 > b.0 && line[b.1 - 1] == '/',
                    b.1,
                );
            }
            seq![(b.0, r.0)] + line_spans_from(line, words, r.1 + 1)
        } else if is_bare_filename(w) {
            seq![(b.0, b.1)] + line_spans_from(line, words, idx + 1)
        } else {
            line_spans_from(line, words, idx + 1)
        }
    }
}

/// Candidates of one line, as bounds within the line.
pub open spec fn line_spans(line: Seq<char>) -> Seq<(int, int)> {
    line_spans_from(line, words_of(line), 0)
}

/// Every word lies within the line, and words come in order without overlap.
pub open spec fn words_ok(line: Seq<char>, words: Seq<(int, int)>) -> bool {
    &&& forall|k: int| 0 <= k < words.len() ==> 0 <= #[trigger] words[k].0 <= words[k].1 <= line.len()
    &&& forall|k: int| 0 <= k < words.len() - 1 ==> #[trigger] words[k].1 <= words[k + 1].0
}

proof fn lemma_words_from_ok(line: Seq<char>, i: int, start: Option<int>, guard: bool)
    requires
        0 <= i <= line.len(),
        match start {
            Some(s) => 0 <= s < i,
            None => true,
        },
    ensures
        words_ok(line, words_from(line, i, start, guard)),
        forall|k: int|
            0 <= k < words_from(line, i, start, guard).len() ==> match start {
                Some(s) => s <= (#[trigger] words_from(line, i, start, guard)[k]).0,
                None => i <= (#[trigger] words_from(line, i, start, guard)[k]).0,
            },
    decreases line.len() - i,
{
    let r = words_from(line, i, start, guard);
    if i < line.len() {
        if is_ws(line[i]) {
            lemma_words_from_ok(line, i + 1, None, false);
            let rest = words_from(line, i + 1, None, false);
            match start {
                Some(s) => {
                    assert(r == seq![(s, i)] + rest);
                    assert forall|k: int| 0 <= k < r.len() - 1 implies #[trigger] r[k].1 <= r[k + 1].0 by {
                        assert(r[k + 1] == rest[k]);
                        if k > 0 {
                            assert(r[k] == rest[k - 1]);
                        }
                    }
                    assert forall|k: int| 0 <= k < r.len() implies 0 <= #[trigger] r[k].0 <= r[k].1 <= line.len() && s <= r[k].0 by {
                        if k > 0 {
                            assert(r[k] == rest[k - 1]);
                        }
                    }
                },
                None => {},
            }
        } else {
            match start {
                None => lemma_words_from_ok(line, i + 1, Some(i), is_guard_char(line[i])),
                Some(s) => {
                    if splits_before(line, i, guard) {
                        lemma_words_from_ok(line, i + 1, Some(i), is_guard_char(line[i]));
                        let rest = words_from(line, i + 1, Some(i), is_guard_char(line[i]));
                        assert(r == seq![(s, i)] + rest);
                        assert forall|k: int| 0 <= k < r.len() - 1 implies #[trigger] r[k].1 <= r[k + 1].0 by {
                            assert(r[k + 1] == rest[k]);
                            if k > 0 {
                                assert(r[k] == rest[k - 1]);
                            }
                        }
                        assert forall|k: int| 0 <= k < r.len() implies 0 <= #[trigger] r[k].0 <= r[k].1 <= line.len() && s <= r[k].0 by {
                            if k > 0 {
                                assert(r[k] == rest[k - 1]);
                            }
                        }
                    } else {
                        lemma_words_from_ok(line, i + 1, start, guard || is_guard_char(line[i]));
                    }
                },
            }
        }
    }
}

fn find_in_line(line: &[char], words: &Vec<(usize, usize)>) -> (spans: Vec<(usize, usize)>)
    requires
        pairs_int(words@) == words_of(line@),
    ensures
        pairs_int(spans@) == line_spans(line@),
{
    let ghost ws = words_of(line@);
    proof {
        lemma_words_from_ok(line@, 0, None, false);
    }
    let mut spans: Vec<(usize, usize)> = Vec::new();
    let mut index: usize = 0;
    let n = words.len();
    while index < n
        invariant
            n == words@.len(),
            ws == words_of(line@),
            pairs_int(words@) == ws,
            words_ok(line@, ws),
            pairs_int(spans@) + line_spans_from(line@, ws, index as int) == line_spans(line@),
        decreases n - index,
    {
        let ghost old_spans = spans@;
        let (s0, e0) = words[index];
        assert(ws[index as int] == (s0 as int, e0 as int));
        let (ws0, we0) = trim_wrappers(line, s0, e0);
        if is_url_at(line, ws0, we0) {
            spans.push((ws0, we0));
            assert(pairs_int(spans@) =~= pairs_int(old_spans) + seq![(ws0 as int, we0 as int)]);
            index = index + 1;
        } else if is_path_start_at(line, ws0, we0) {
            let mut candidate_end = we0;
            let mut consumed = index;
            if !has_dotted_name_at(line, ws0, we0) {
                let starts_dir = ends_with_slash(line, ws0, we0);
                let r = join_scan_exec(line, words, index, starts_dir, we0);
                candidate_end = r.0;
                consumed = r.1;
            }
            proof {
                lemma_join_scan(line@, ws, index as int, index + 1, ends_with_slash_spec(line@, ws0 as int, we0 as int), we0 as int);
            }
            spans.push((ws0, candidate_end));
            assert(pairs_int(spans@) =~= pairs_int(old_spans) + seq![
                (ws0 as int, candidate_end as int),
            ]);
            index = consumed + 1;
        } else if is_bare_filename_at(line, ws0, we0) {
            spans.push((ws0, we0));
            assert(pairs_int(spans@) =~= pairs_int(old_spans) + seq![(ws0 as int, we0 as int)]);
            index = index + 1;
        } else {
            index = index + 1;
        }
    }
    assert(pairs_int(spans@) + Seq::<(int, int)>::empty() =~= pairs_int(spans@));
    spans
}

fn join_scan_exec(
    line: &[char],
    words: &Vec<(usize, usize)>,
    index: usize,
    starts_dir: bool,
    we0: usize,
) -> (r: (usize, usize))
    requires
        words_ok(line@, pairs_int(words@)),
        index < words@.len(),
    ensures
        (r.0 as int, r.1 as int) == join_scan(
            line@,
            pairs_int(words@),
            index as int,
            index + 1,
            starts_dir,
            we0 as int,
        ),
{
    let ghost ws = pairs_int(words@);
    let n = words.len();
    let mut j = index + 1;
    while j < n
        invariant
            n == words@.len(),
            ws == pairs_int(words@),
            words_ok(line@, ws),
            index < j <= n,
            join_scan(line@, ws, index as int, index + 1, starts_dir, we0 as int) == join_scan(
                line@,
                ws,
                index as int,
                j as int,
                starts_dir,
                we0 as int,
            ),
        decreases n - j,
    {
        let (s1, e1) = words[j];
        assert(ws[j as int] == (s1 as int, e1 as int));
        let (ns, ne) = trim_wrappers(line, s1, e1);
        if !is_path_continuation_at(line, ns, ne) {
            return (we0, index);
        }
        if has_filename_shape_at(line, ns, ne) {
            let nw = slice_range(line, ns, ne);
            let nested = contains_char_in(nw.as_slice(), '/', 0, nw.len());
            let immediate = j == index + 1;
            let distinctive = has_distinctive_punctuation_at(line, ns, ne);
            if nested || (!starts_dir && (immediate || distinctive)) {
                return (ne, j);
            }
            return (we0, index);
        }
        j = j + 1;
    }
    (we0, index)
}

pub open spec fn ends_with_slash_spec(line: Seq<char>, s: int, e: int) -> bool {
    e > s && line[e - 1] == '/'
}

// ---------------------------------------------------------------- whole text

/// Candidates of `text[ls..]`, where `ls` starts a line; bounds are character
/// positions in `text`. Lines end at `\n`, which belongs to no line.
pub open spec fn spans_from(text: Seq<char>, ls: int) -> Seq<(int, int)>
    decreases text.len() - ls,
{
    if ls >= text.len() || ls < 0 {
        seq![]
    } else {
        let le = first_from(text, '\n', ls);
        let local = line_spans(text.subrange(ls, le));
        proof {
            lemma_first_from(text, '\n', ls);
        }
        let here = local.map_values(|p: (int, int)| (p.0 + ls, p.1 + ls));
        if le >= text.len() {
            here
        } else {
            here + spans_from(text, le + 1)
        }
    }
}

/// Character bounds of all candidates in `text`, in order.
pub open spec fn candidate_bounds(text: Seq<char>) -> Seq<(int, int)> {
    spans_from(text, 0)
}

/// `span` is the text of `text` between character positions `b.0` and
/// `b.1`, with `start`/`end` the UTF-8 byte offsets of those positions.
pub open spec fn span_at(text: Seq<char>, span: Span, b: (int, int)) -> bool {
    &&& 0 <= b.0 <= b.1 <= text.len()
    &&& span.raw@ == text.subrange(b.0, b.1)
    &&& span.start == utf8_len(text.take(b.0))
    &&& span.end == utf8_len(text.take(b.1))
}

/// `spans` are the candidates of `text`, one for each of `candidate_bounds(text)`.
pub open spec fn spans_match(text: Seq<char>, spans: Seq<Span>) -> bool {
    let b = candidate_bounds(text);
    &&& spans.len() == b.len()
    &&& forall|k: int| 0 <= k < spans.len() ==> span_at(text, #[trigger] spans[k], b[k])
}

/// UTF-8 byte offset of position `to`, given that of `pos`.
fn advance_bytes(chars: &[char], pos: usize, to: usize, pos_byte: usize) -> (r: usize)
    requires
        pos <= to <= chars@.len(),
        pos_byte == utf8_len(chars@.take(pos as int)),
        utf8_len(chars@) <= usize::MAX,
    ensures
        r == utf8_len(chars@.take(to as int)),
{
    let n = chars.len();
    let mut p = pos;
    let mut b = pos_byte;
    while p < to
        invariant
            n == chars@.len(),
            utf8_len(chars@) <= usize::MAX,
            p <= to <= n,
            b == utf8_len(chars@.take(p as int)),
        decreases to - p,
    {
        proof {
            lemma_utf8_len_take_succ(chars@, p as int);
            lemma_utf8_len_mono(chars@, p + 1, n as int);
            assert(chars@.take(n as int) =~= chars@);
        }
        b = b + utf8_width(chars[p]);
        p = p + 1;
    }
    b
}

/// Appends the candidates of the line `chars[line_start..line_end]`.
fn push_line_spans(
    chars: &[char],
    line_start: usize,
    line_end: usize,
    line_byte: usize,
    spans: &mut Vec<Span>,
)
    requires
        line_start <= line_end <= chars@.len(),
        line_byte == utf8_len(chars@.take(line_start as int)),
        utf8_len(chars@) <= usize::MAX,
    ensures
        ({
            let lsp = line_spans(chars@.subrange(line_start as int, line_end as int));
            &&& final(spans)@.len() == old(spans)@.len() + lsp.len()
            &&& forall|i: int| 0 <= i < old(spans)@.len() ==> final(spans)@[i] == old(spans)@[i]
            &&& forall|k: int|
                0 <= k < lsp.len() ==> span_at(
                    chars@,
                    #[trigger] final(spans)@[old(spans)@.len() + k],
                    (lsp[k].0 + line_start, lsp[k].1 + line_start),
                )
        }),
{
    let line = slice_range(chars, line_start, line_end);
    let words = word_bounds(line.as_slice());
    let local = find_in_line(line.as_slice(), &words);
    let ghost lsp = line_spans(line@);
    proof {
        lemma_line_spans_ok(line@);
    }
    let ghost base = spans@.len();
    let ghost old_spans = spans@;
    let mut pos: usize = line_start;
    let mut pos_byte: usize = line_byte;
    let mut k: usize = 0;
    while k < local.len()
        invariant
            line_start <= pos <= line_end <= chars@.len(),
            utf8_len(chars@) <= usize::MAX,
            line@ == chars@.subrange(line_start as int, line_end as int),
            pairs_int(local@) == lsp,
            spans_ok(line@.len() as int, lsp),
            k <= local@.len(),
            k < local@.len() ==> pos <= line_start + local@[k as int].0,
            pos_byte == utf8_len(chars@.take(pos as int)),
            spans@.len() == base + k,
            base == old_spans.len(),
            forall|i: int| 0 <= i < base ==> spans@[i] == old_spans[i],
            forall|i: int|
                0 <= i < k ==> span_at(
                    chars@,
                    #[trigger] spans@[base + i],
                    (lsp[i].0 + line_start, lsp[i].1 + line_start),
                ),
        decreases local@.len() - k,
    {
        let (ls0, le0) = local[k];
        assert(lsp[k as int] == (ls0 as int, le0 as int));
        let s_abs = line_start + ls0;
        let e_abs = line_start + le0;
        let start_byte = advance_bytes(chars, pos, s_abs, pos_byte);
        let end_byte = advance_bytes(chars, s_abs, e_abs, start_byte);
        pos = e_abs;
        pos_byte = end_byte;
        let raw = string_from_range(chars, s_abs, e_abs);
        spans.push(Span { start: start_byte, end: end_byte, raw });
        k = k + 1;
    }
}

/// Path and URL candidates in `text`, in order of appearance.
pub fn find_candidates(text: &str) -> (spans: Vec<Span>)
    requires
        utf8_len(text@) <= usize::MAX,
    ensures
        spans_match(text@, spans@),
{
    let chars = str_to_chars(text);
    let n = chars.len();
    let mut spans: Vec<Span> = Vec::new();
    let mut line_start: usize = 0;
    // byte offset of `line_start`
    let mut line_byte: usize = 0;
    let ghost tx = text@;
    let ghost mut bounds: Seq<(int, int)> = Seq::empty();
    while line_start < n
        invariant
            chars@ == tx,
            tx == text@,
            n == tx.len(),
            utf8_len(tx) <= usize::MAX,
            line_start <= n,
            line_byte == utf8_len(tx.take(line_start as int)),
            candidate_bounds(tx) == bounds + spans_from(tx, line_start as int),
            spans@.len() == bounds.len(),
            forall|k: int| 0 <= k < spans@.len() ==> span_at(tx, #[trigger] spans@[k], bounds[k]),
        decreases n - line_start,
    {
        let line_end = find_char_from(chars.as_slice(), '\n', line_start);
        proof {
            lemma_first_from(tx, '\n', line_start as int);
        }
        let ghost old_spans = spans@;
        push_line_spans(chars.as_slice(), line_start, line_end, line_byte, &mut spans);
        let ghost lsp = line_spans(tx.subrange(line_start as int, line_end as int));
        let ghost here = lsp.map_values(|p: (int, int)| (p.0 + line_start, p.1 + line_start));
        let end_byte = advance_bytes(chars.as_slice(), line_start, line_end, line_byte);
        proof {
            assert forall|k: int| 0 <= k < spans@.len() implies span_at(
                tx,
                #[trigger] spans@[k],
                (bounds + here)[k],
            ) by {
                if k >= old_spans.len() {
                    let i = k - old_spans.len();
                    assert(spans@[old_spans.len() + i] == spans@[k]);
                }
            }
            bounds = bounds + here;
        }
        if line_end < n {
            proof {
                lemma_utf8_len_take_succ(tx, line_end as int);
                lemma_utf8_len_mono(tx, line_end + 1, n as int);
                assert(tx.take(n as int) =~= tx);
                assert(candidate_bounds(tx) =~= bounds + spans_from(tx, line_end + 1));
            }
            line_byte = end_byte + utf8_width(chars[line_end]);
            line_start = line_end + 1;
        } else {
            proof {
                assert(candidate_bounds(tx) =~= bounds + spans_from(tx, n as int));
            }
            line_byte = end_byte;
            line_start = n;
        }
    }
    assert(spans_from(tx, line_start as int).len() == 0);
    assert(bounds =~= candidate_bounds(tx));
    spans
}

/// Bounds lie within `0..len`, each with start at most end, and in order
/// without overlap.
pub open spec fn spans_ok(len: int, s: Seq<(int, int)>) -> bool {
    &&& forall|k: int| 0 <= k < s.len() ==> 0 <= #[trigger] s[k].0 <= s[k].1 <= len
    &&& forall|k: int| 0 <= k < s.len() - 1 ==> #[trigger] s[k].1 <= s[k + 1].0
}

proof fn lemma_line_spans_ok(line: Seq<char>)
    ensures
        spans_ok(line.len() as int, line_spans(line)),
{
    lemma_words_from_ok(line, 0, None, false);
    lemma_line_spans_from_ok(line, words_of(line), 0);
}

proof fn lemma_line_spans_from_ok(line: Seq<char>, words: Seq<(int, int)>, idx: int)
    requires
        words_ok(line, words),
        0 <= idx,
    ensures
        spans_ok(line.len() as int, line_spans_from(line, words, idx)),
        forall|k: int|
            0 <= k < line_spans_from(line, words, idx).len() ==> words[idx].0 <= (
            #[trigger] line_spans_from(line, words, idx)[k]).0,
    decreases words.len() - idx,
{
    if idx < words.len() {
        let b = trimmed(line, words[idx]);
        lemma_trim(line, words[idx]);
        let w = line.subrange(b.0, b.1);
        let r = line_spans_from(line, words, idx);
        if is_url(w) || (!is_path_start(w) && is_bare_filename(w)) {
            lemma_line_spans_from_ok(line, words, idx + 1);
            let rest = line_spans_from(line, words, idx + 1);
            assert(r == seq![(b.0, b.1)] + rest);
            lemma_head_rest(line.len() as int, r, rest, words, idx, idx);
        } else if is_path_start(w) {
            let sd = b.1 > b.0 && line[b.1 - 1] == '/';
            let jr = if has_dotted_name(w) {
                (b.1, idx)
            } else {
                join_scan(line, words, idx, idx + 1, sd, b.1)
            };
            lemma_join_scan(line, words, idx, idx + 1, sd, b.1);
            if jr.1 != idx {
                lemma_trim(line, words[jr.1]);
                lemma_words_mono(words, line.len() as int, idx, jr.1);
                if idx + 1 < jr.1 {
                    lemma_words_mono(words, line.len() as int, idx + 1, jr.1);
                }
                assert(words[idx].1 <= words[idx + 1].0);
            }
            lemma_line_spans_from_ok(line, words, jr.1 + 1);
            let rest = line_spans_from(line, words, jr.1 + 1);
            assert(r == seq![(b.0, jr.0)] + rest);
            lemma_head_rest(line.len() as int, r, rest, words, idx, jr.1);
        } else {
            lemma_line_spans_from_ok(line, words, idx + 1);
        }
    }
}

/// A head span inside words `idx..=last` followed by spans that start at or
/// after word `last + 1`.
proof fn lemma_head_rest(
    len: int,
    r: Seq<(int, int)>,
    rest: Seq<(int, int)>,
    words: Seq<(int, int)>,
    idx: int,
    last: int,
)
    requires
        0 <= idx <= last < words.len(),
        r.len() == rest.len() + 1,
        forall|k: int| 0 <= k < rest.len() ==> r[k + 1] == rest[k],
        words[idx].0 <= r[0].0 <= r[0].1 <= words[last].1,
        forall|k: int| 0 <= k < words.len() ==> 0 <= #[trigger] words[k].0 <= words[k].1 <= len,
        forall|k: int| 0 <= k < words.len() - 1 ==> #[trigger] words[k].1 <= words[k + 1].0,
        spans_ok(len, rest),
        last + 1 < words.len() || rest.len() == 0,
        last + 1 < words.len() ==> forall|k: int|
            0 <= k < rest.len() ==> words[last + 1].0 <= (#[trigger] rest[k]).0,
    ensures
        spans_ok(len, r),
        forall|k: int| 0 <= k < r.len() ==> words[idx].0 <= (#[trigger] r[k]).0,
{
    lemma_words_mono(words, len, idx, last);
    assert forall|k: int| 0 <= k < r.len() - 1 implies #[trigger] r[k].1 <= r[k + 1].0 by {
        assert(r[k + 1] == rest[k]);
        if k > 0 {
            assert(r[k] == rest[k - 1]);
        } else {
            assert(words[last].1 <= words[last + 1].0);
        }
    }
    assert forall|k: int| 0 <= k < r.len() implies 0 <= #[trigger] r[k].0 <= r[k].1 <= len
        && words[idx].0 <= r[k].0 by {
        if k > 0 {
            assert(r[k] == rest[k - 1]);
            lemma_words_mono(words, len, idx, last + 1);
        }
    }
}

proof fn lemma_words_mono(words: Seq<(int, int)>, len: int, i: int, j: int)
    requires
        0 <= i <= j < words.len(),
        forall|k: int| 0 <= k < words.len() ==> 0 <= #[trigger] words[k].0 <= words[k].1 <= len,
        forall|k: int| 0 <= k < words.len() - 1 ==> #[trigger] words[k].1 <= words[k + 1].0,
    ensures
        words[i].0 <= words[j].0,
        words[i].1 <= words[j].1,
    decreases j - i,
{
    if i < j {
        lemma_words_mono(words, len, i, j - 1);
        assert(words[j - 1].1 <= words[j].0);
    }
}

/// The spans of `spans_from(text, ls)`: in order, not overlapping, each
/// within one line (no newline inside), all at or after `ls`.
proof fn lemma_spans_from_ok(text: Seq<char>, ls: int)
    requires
        0 <= ls,
    ensures
        spans_ok(text.len() as int, spans_from(text, ls)),
        forall|k: int|
            0 <= k < spans_from(text, ls).len() ==> ls <= (#[trigger] spans_from(text, ls)[k]).0,
        forall|k: int, j: int|
            0 <= k < spans_from(text, ls).len() && (#[trigger] spans_from(text, ls)[k]).0 <= j
                < spans_from(text, ls)[k].1 ==> #[trigger] text[j] != '\n',
    decreases text.len() - ls,
{
    if ls < text.len() {
        let le = first_from(text, '\n', ls);
        lemma_first_from(text, '\n', ls);
        let line = text.subrange(ls, le);
        let local = line_spans(line);
        lemma_line_spans_ok(line);
        let here = local.map_values(|p: (int, int)| (p.0 + ls, p.1 + ls));
        let r = spans_from(text, ls);
        assert forall|k: int| 0 <= k < here.len() implies ls <= #[trigger] here[k].0 <= here[k].1
            <= le by {
            assert(here[k] == (local[k].0 + ls, local[k].1 + ls));
        }
        assert forall|k: int| 0 <= k < here.len() - 1 implies #[trigger] here[k].1 <= here[k
            + 1].0 by {
            assert(here[k] == (local[k].0 + ls, local[k].1 + ls));
            assert(here[k + 1] == (local[k + 1].0 + ls, local[k + 1].1 + ls));
        }
        if le >= text.len() {
            assert(r == here);
        } else {
            lemma_spans_from_ok(text, le + 1);
            let rest = spans_from(text, le + 1);
            assert(r == here + rest);
            assert forall|k: int| 0 <= k < r.len() - 1 implies #[trigger] r[k].1 <= r[k + 1].0 by {
                if k + 1 < here.len() {
                    assert(r[k] == here[k] && r[k + 1] == here[k + 1]);
                } else if k + 1 == here.len() {
                    assert(r[k] == here[k] && r[k + 1] == rest[0]);
                } else {
                    assert(r[k] == rest[k - here.len()] && r[k + 1] == rest[k + 1 - here.len()]);
                }
            }
            assert forall|k: int| 0 <= k < r.len() implies 0 <= #[trigger] r[k].0 <= r[k].1
                <= text.len() && ls <= r[k].0 by {
                if k < here.len() {
                    assert(r[k] == here[k]);
                } else {
                    assert(r[k] == rest[k - here.len()]);
                }
            }
            assert forall|k: int, j: int|
                0 <= k < r.len() && (#[trigger] r[k]).0 <= j < r[k].1 implies #[trigger] text[j]
                != '\n' by {
                if k >= here.len() {
                    assert(r[k] == rest[k - here.len()]);
                }
            }
        }
    }
}

/// Candidates come in the order of the text, never overlap, and never run
/// over a line break.
pub proof fn lemma_candidates_in_order(text: Seq<char>)
    ensures
        spans_ok(text.len() as int, candidate_bounds(text)),
        forall|k: int, j: int|
            0 <= k < candidate_bounds(text).len() && (#[trigger] candidate_bounds(text)[k]).0 <= j
                < candidate_bounds(text)[k].1 ==> #[trigger] text[j] != '\n',
{
    lemma_spans_from_ok(text, 0);
}

/// Each word is a run of characters none of which is whitespace.
pub open spec fn words_solid(line: Seq<char>, words: Seq<(int, int)>) -> bool {
    forall|k: int, j: int|
        0 <= k < words.len() && (#[trigger] words[k]).0 <= j < words[k].1 ==> !is_ws(
            #[trigger] line[j],
        )
}

proof fn lemma_words_from_solid(line: Seq<char>, i: int, start: Option<int>, guard: bool)
    requires
        0 <= i <= line.len(),
        match start {
            Some(s) => 0 <= s < i && forall|j: int| s <= j < i ==> !is_ws(#[trigger] line[j]),
            None => true,
        },
    ensures
        words_solid(line, words_from(line, i, start, guard)),
    decreases line.len() - i,
{
    let r = words_from(line, i, start, guard);
    if i >= line.len() {
        match start {
            Some(s) => {
                assert forall|k: int, j: int|
                    0 <= k < r.len() && (#[trigger] r[k]).0 <= j < r[k].1 implies !is_ws(
                    #[trigger] line[j],
                ) by {
                    assert(r[k] == (s, line.len() as int));
                }
            },
            None => {},
        }
    } else if is_ws(line[i]) {
        lemma_words_from_solid(line, i + 1, None, false);
        match start {
            Some(s) => {
                let rest = words_from(line, i + 1, None, false);
                assert(r == seq![(s, i)] + rest);
                assert forall|k: int, j: int|
                    0 <= k < r.len() && (#[trigger] r[k]).0 <= j < r[k].1 implies !is_ws(
                    #[trigger] line[j],
                ) by {
                    if k > 0 {
                        assert(r[k] == rest[k - 1]);
                    }
                }
            },
            None => {},
        }
    } else {
        match start {
            None => lemma_words_from_solid(line, i + 1, Some(i), is_guard_char(line[i])),
            Some(s) => {
                if splits_before(line, i, guard) {
                    lemma_words_from_solid(line, i + 1, Some(i), is_guard_char(line[i]));
                    let rest = words_from(line, i + 1, Some(i), is_guard_char(line[i]));
                    assert(r == seq![(s, i)] + rest);
                    assert forall|k: int, j: int|
                        0 <= k < r.len() && (#[trigger] r[k]).0 <= j < r[k].1 implies !is_ws(
                        #[trigger] line[j],
                    ) by {
                        if k > 0 {
                            assert(r[k] == rest[k - 1]);
                        }
                    }
                } else {
                    lemma_words_from_solid(line, i + 1, start, guard || is_guard_char(line[i]));
                }
            },
        }
    }
}

/// Bounds `b` of `t` that hold at least one character, the first and the
/// last of them not whitespace, the first no opening quote or bracket and
/// the last no closing quote, bracket or `,` `;` `.`.
pub open spec fn solid_span(t: Seq<char>, b: (int, int)) -> bool {
    &&& b.0 < b.1
    &&& !is_ws(t[b.0])
    &&& !is_ws(t[b.1 - 1])
    &&& !is_open_wrapper(t[b.0])
    &&& !is_close_wrapper(t[b.1 - 1])
}

proof fn lemma_line_spans_from_solid(line: Seq<char>, words: Seq<(int, int)>, idx: int)
    requires
        words_ok(line, words),
        words_solid(line, words),
        0 <= idx,
    ensures
        forall|k: int|
            0 <= k < line_spans_from(line, words, idx).len() ==> solid_span(
                line,
                #[trigger] line_spans_from(line, words, idx)[k],
            ),
    decreases words.len() - idx,
{
    if idx < words.len() {
        let b = trimmed(line, words[idx]);
        lemma_trim(line, words[idx]);
        let w = line.subrange(b.0, b.1);
        let r = line_spans_from(line, words, idx);
        if b.0 >= b.1 {
            assert(w =~= Seq::<char>::empty());
            lemma_empty_word();
        }
        if is_url(w) || (!is_path_start(w) && is_bare_filename(w)) {
            lemma_line_spans_from_solid(line, words, idx + 1);
            let rest = line_spans_from(line, words, idx + 1);
            assert(r == seq![(b.0, b.1)] + rest);
            assert forall|k: int| 0 <= k < r.len() implies solid_span(line, #[trigger] r[k]) by {
                if k > 0 {
                    assert(r[k] == rest[k - 1]);
                } else {
                    assert(!is_ws(line[b.0]));
                    assert(!is_ws(line[b.1 - 1]));
                }
            }
        } else if is_path_start(w) {
            let sd = b.1 > b.0 && line[b.1 - 1] == '/';
            let jr = if has_dotted_name(w) {
                (b.1, idx)
            } else {
                join_scan(line, words, idx, idx + 1, sd, b.1)
            };
            lemma_join_scan(line, words, idx, idx + 1, sd, b.1);
            lemma_join_scan_nonempty(line, words, idx, idx + 1, sd, b.1);
            assert(!is_ws(line[b.0]));
            if jr.1 != idx {
                let nb = trimmed(line, words[jr.1]);
                lemma_trim(line, words[jr.1]);
                lemma_words_mono(words, line.len() as int, idx + 1, jr.1);
                assert(words[idx].1 <= words[idx + 1].0);
                assert(words[jr.1].0 <= nb.0 && nb.1 <= words[jr.1].1);
                assert(jr.0 == nb.1);
                assert(!is_ws(line[jr.0 - 1]));
                assert(b.0 < jr.0);
            } else {
                assert(!is_ws(line[b.1 - 1]));
            }
            lemma_line_spans_from_solid(line, words, jr.1 + 1);
            let rest = line_spans_from(line, words, jr.1 + 1);
            assert(r == seq![(b.0, jr.0)] + rest);
            assert forall|k: int| 0 <= k < r.len() implies solid_span(line, #[trigger] r[k]) by {
                if k > 0 {
                    assert(r[k] == rest[k - 1]);
                }
            }
        } else {
            lemma_line_spans_from_solid(line, words, idx + 1);
            assert(r == line_spans_from(line, words, idx + 1));
        }
    }
}

proof fn lemma_spans_from_solid(text: Seq<char>, ls: int)
    requires
        0 <= ls,
    ensures
        forall|k: int|
            0 <= k < spans_from(text, ls).len() ==> solid_span(
                text,
                #[trigger] spans_from(text, ls)[k],
            ),
    decreases text.len() - ls,
{
    if ls < text.len() {
        let le = first_from(text, '\n', ls);
        lemma_first_from(text, '\n', ls);
        let line = text.subrange(ls, le);
        let local = line_spans(line);
        lemma_line_spans_ok(line);
        lemma_words_from_ok(line, 0, None, false);
        lemma_words_from_solid(line, 0, None, false);
        lemma_line_spans_from_solid(line, words_of(line), 0);
        let here = local.map_values(|p: (int, int)| (p.0 + ls, p.1 + ls));
        let r = spans_from(text, ls);
        assert forall|k: int| 0 <= k < here.len() implies solid_span(text, #[trigger] here[k]) by {
            assert(here[k] == (local[k].0 + ls, local[k].1 + ls));
            assert(solid_span(line, local[k]));
            assert(line[local[k].0] == text[local[k].0 + ls]);
            assert(line[local[k].1 - 1] == text[local[k].1 - 1 + ls]);
        }
        if le >= text.len() {
            assert(r == here);
        } else {
            lemma_spans_from_solid(text, le + 1);
            let rest = spans_from(text, le + 1);
            assert(r == here + rest);
            assert forall|k: int| 0 <= k < r.len() implies solid_span(text, #[trigger] r[k]) by {
                if k < here.len() {
                    assert(r[k] == here[k]);
                } else {
                    assert(r[k] == rest[k - here.len()]);
                }
            }
        }
    }
}

/// Every candidate holds at least one character, and neither starts nor
/// ends with whitespace.
pub proof fn lemma_candidates_trimmed(text: Seq<char>)
    ensures
        forall|k: int|
            0 <= k < candidate_bounds(text).len() ==> solid_span(
                text,
                #[trigger] candidate_bounds(text)[k],
            ),
{
    lemma_spans_from_solid(text, 0);
}

proof fn lemma_bounds_chain(text: Seq<char>, b: Seq<(int, int)>, i: int, j: int)
    requires
        spans_ok(text.len() as int, b),
        forall|k: int| 0 <= k < b.len() ==> solid_span(text, #[trigger] b[k]),
        0 <= i < j < b.len(),
    ensures
        b[i].0 < b[j].0,
    decreases j - i,
{
    if j > i + 1 {
        lemma_bounds_chain(text, b, i, j - 1);
    }
    assert(solid_span(text, b[j - 1]));
    assert(b[j - 1].1 <= b[j].0);
}

/// A candidate starts before it ends, and candidates start at strictly
/// increasing byte offsets.
pub proof fn lemma_span_offsets_increase(text: Seq<char>, spans: Seq<Span>)
    requires
        spans_match(text, spans),
    ensures
        forall|i: int| 0 <= i < spans.len() ==> (#[trigger] spans[i]).start < spans[i].end,
        forall|i: int, j: int|
            0 <= i < j < spans.len() ==> (#[trigger] spans[i]).start < (#[trigger] spans[j]).start,
{
    let b = candidate_bounds(text);
    lemma_candidates_in_order(text);
    lemma_candidates_trimmed(text);
    assert forall|i: int| 0 <= i < spans.len() implies (#[trigger] spans[i]).start
        < spans[i].end by {
        assert(span_at(text, spans[i], b[i]));
        assert(solid_span(text, b[i]));
        lemma_utf8_len_take_succ(text, b[i].0);
        lemma_utf8_len_mono(text, b[i].0 + 1, b[i].1);
    }
    assert forall|i: int, j: int| 0 <= i < j < spans.len() implies (#[trigger] spans[i]).start
        < (#[trigger] spans[j]).start by {
        assert(span_at(text, spans[i], b[i]));
        assert(span_at(text, spans[j], b[j]));
        assert(solid_span(text, b[i]));
        lemma_bounds_chain(text, b, i, j);
        lemma_utf8_len_take_succ(text, b[i].0);
        lemma_utf8_len_mono(text, b[i].0 + 1, b[j].0);
    }
}

/// No candidate starts with an opening quote or bracket (`"` `'` `` ` ``
/// `(` `[` `{` `<`) or ends with a closing one or with `,` `;` `.` (`"`
/// `'` `` ` `` `)` `]` `}` `>` `,` `;` `.`): a word followed by punctuation
/// gives a candidate without it.
pub proof fn lemma_candidates_unwrapped(text: Seq<char>)
    ensures
        forall|k: int|
            #![trigger candidate_bounds(text)[k]]
            0 <= k < candidate_bounds(text).len() ==> {
                let b = candidate_bounds(text)[k];
                let first = text[b.0];
                let last = text[b.1 - 1];
                &&& first != '"' && first != '\'' && first != '`' && first != '('
                    && first != '[' && first != '{' && first != '<'
                &&& last != '"' && last != '\'' && last != '`' && last != ')' && last != ']'
                    && last != '}' && last != '>' && last != ',' && last != ';' && last != '.'
            },
{
    lemma_candidates_trimmed(text);
}

} // verus!
