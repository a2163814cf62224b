//! The hint overlay's frame: the origin pane's visible text, dimmed, with each
//! hint's token painted (its key on a yellow block, the rest of the token in
//! yellow), and a legend on the last row.
//!
//! Geometry follows the origin pane: when the text is shorter than the
//! overlay it is aligned to the bottom; when it is taller its bottom rows
//! are kept. The legend overwrites the last row, so the frame never ends in
//! a newline (which would scroll a full-height frame up by one).
use vstd::prelude::*;
use crate::classify::{copy_chars, find_sub, find_sub_from, lemma_find_sub_from};
use crate::hint::{entry_views, no_char, EntryView, HintEntry};
use crate::text::{
    ascii_alpha, decimal, find_char_from, first_from, is_ascii_alpha, lemma_first_from,
    lemma_utf8_len_mono, lemma_utf8_len_take_succ, push_range, push_str, str_to_chars, string_push,
    usize_to_decimal, utf8_len, utf8_width,
};

verus! {

// ---------------------------------------------------------------- styles

pub open spec fn esc() -> char {
    '\u{1b}'
}

/// Cursor to the top-left corner.
pub open spec fn home() -> Seq<char> {
    "\x1b[H"@
}

/// Clear to the end of the line.
pub open spec fn clear_eol() -> Seq<char> {
    "\x1b[K"@
}

/// Dim grey, for the pane text.
pub open spec fn dim() -> Seq<char> {
    "\x1b[2;90m"@
}

pub open spec fn reset() -> Seq<char> {
    "\x1b[0m"@
}

/// A hint's key: bold black on yellow.
pub open spec fn key_style() -> Seq<char> {
    "\x1b[0;1;30;48;2;255;253;1m"@
}

/// The rest of a hint's token: yellow.
pub open spec fn token_style() -> Seq<char> {
    "\x1b[0;38;2;255;253;1m"@
}

/// The legend row: bold black on yellow.
pub open spec fn legend_style() -> Seq<char> {
    "\x1b[1;30;48;2;255;253;1m"@
}

// ---------------------------------------------------------------- pane lines

/// `str::split('\n')` on `s[i..]`.
pub open spec fn split_nl_from(s: Seq<char>, i: int) -> Seq<Seq<char>>
    decreases s.len() - i,
{
    if i < 0 || i > s.len() {
        seq![]
    } else {
        let e = first_from(s, '\n', i);
        proof {
            lemma_first_from(s, '\n', i);
        }
        if e >= s.len() {
            seq![s.subrange(i, s.len() as int)]
        } else {
            seq![s.subrange(i, e)] + split_nl_from(s, e + 1)
        }
    }
}

/// The rows of the pane text: split at newlines, empty rows in the middle
/// kept, no empty row after a final newline.
pub open spec fn snapshot_lines(s: Seq<char>) -> Seq<Seq<char>> {
    let p = split_nl_from(s, 0);
    if s.len() > 0 && s.last() == '\n' {
        p.drop_last()
    } else {
        p
    }
}

pub open spec fn char_views(v: Seq<Vec<char>>) -> Seq<Seq<char>> {
    v.map_values(|l: Vec<char>| l@)
}

/// The rows of the pane text (see [`snapshot_lines`]).
fn split_snapshot_lines(s: &[char]) -> (r: Vec<Vec<char>>)
    ensures
        char_views(r@) == snapshot_lines(s@),
{
    let n = s.len();
    let mut r: Vec<Vec<char>> = Vec::new();
    let mut i: usize = 0;
    let mut done = false;
    while !done
        invariant
            n == s@.len(),
            i <= n,
            !done ==> char_views(r@) + split_nl_from(s@, i as int) == split_nl_from(s@, 0),
            done ==> char_views(r@) == split_nl_from(s@, 0),
        decreases n - i + (if done { 0int } else { 1int }),
    {
        let e = find_char_from(s, '\n', i);
        proof {
            lemma_first_from(s@, '\n', i as int);
        }
        let ghost old_r = r@;
        r.push(copy_chars(s, i, e));
        if e >= n {
            assert(char_views(r@) =~= char_views(old_r) + split_nl_from(s@, i as int));
            done = true;
        } else {
            assert(char_views(r@) + split_nl_from(s@, e + 1) =~= char_views(old_r)
                + split_nl_from(s@, i as int));
            i = e + 1;
        }
    }
    if n > 0 && s[n - 1] == '\n' {
        let ghost old_r = r@;
        r.pop();
        assert(char_views(r@) =~= char_views(old_r).drop_last());
    }
    r
}

// ---------------------------------------------------------------- cells

/// Index just past the first ASCII letter at or after `j` (the end of a CSI
/// sequence), or `s.len()`.
pub open spec fn alpha_end(s: Seq<char>, j: int) -> int
    decreases s.len() - j,
{
    if j >= s.len() {
        s.len() as int
    } else if is_ascii_alpha(s[j]) {
        j + 1
    } else {
        alpha_end(s, j + 1)
    }
}

/// `alpha_end` lies between `j` and the end of `s`.
pub proof fn lemma_alpha_end(s: Seq<char>, j: int)
    requires
        0 <= j <= s.len(),
    ensures
        j <= alpha_end(s, j) <= s.len(),
    decreases s.len() - j,
{
    if j < s.len() && !is_ascii_alpha(s[j]) {
        lemma_alpha_end(s, j + 1);
    }
}

/// `s[i..]` cut after `cols` cells, given `cells` used: CSI sequences
/// (`ESC [ ... letter`) and lone escapes are kept and take no cell; every
/// other character takes one.
pub open spec fn trunc_from(s: Seq<char>, i: int, cells: nat, cols: nat) -> Seq<char>
    decreases s.len() - i,
{
    if i < 0 || i >= s.len() {
        seq![]
    } else if s[i] == esc() {
        if i + 1 < s.len() && s[i + 1] == '[' {
            let e = alpha_end(s, i + 2);
            proof {
                lemma_alpha_end(s, i + 2);
            }
            s.subrange(i, e) + trunc_from(s, e, cells, cols)
        } else {
            seq![s[i]] + trunc_from(s, i + 1, cells, cols)
        }
    } else if cells >= cols {
        seq![]
    } else {
        seq![s[i]] + trunc_from(s, i + 1, cells + 1, cols)
    }
}

/// `text` cut to about `cols` terminal cells (see [`trunc_from`]).
pub open spec fn truncated(text: Seq<char>, cols: nat) -> Seq<char> {
    trunc_from(text, 0, 0, cols)
}

/// Appends `text` cut to `cols` cells, escape sequences not counted.
fn push_truncated(out: &mut String, text: &[char], cols: usize)
    ensures
        final(out)@ == old(out)@ + truncated(text@, cols as nat),
{
    let n = text.len();
    let mut i: usize = 0;
    let mut cells: usize = 0;
    while i < n
        invariant_except_break
            n == text@.len(),
            i <= n,
            cells <= cols,
            out@ + trunc_from(text@, i as int, cells as nat, cols as nat) == old(out)@
                + truncated(text@, cols as nat),
        ensures
            out@ == old(out)@ + truncated(text@, cols as nat),
        decreases n - i,
    {
        let c = text[i];
        let ghost before = out@;
        if c == '\u{1b}' {
            if i + 1 < n && text[i + 1] == '[' {
                let mut e: usize = i + 2;
                while e < n && !ascii_alpha(text[e])
                    invariant
                        n == text@.len(),
                        i + 2 <= e <= n,
                        alpha_end(text@, i + 2) == alpha_end(text@, e as int),
                    decreases n - e,
                {
                    e = e + 1;
                }
                if e < n {
                    e = e + 1;
                }
                push_range(out, text, i, e);
                assert(before + trunc_from(text@, i as int, cells as nat, cols as nat) =~= out@
                    + trunc_from(text@, e as int, cells as nat, cols as nat));
                i = e;
            } else {
                string_push(out, c);
                assert(before + trunc_from(text@, i as int, cells as nat, cols as nat) =~= out@
                    + trunc_from(text@, i + 1, cells as nat, cols as nat));
                i = i + 1;
            }
        } else if cells >= cols {
            assert(out@ =~= out@ + trunc_from(text@, i as int, cells as nat, cols as nat));
            break;
        } else {
            string_push(out, c);
            assert(before + trunc_from(text@, i as int, cells as nat, cols as nat) =~= out@
                + trunc_from(text@, i + 1, (cells + 1) as nat, cols as nat));
            i = i + 1;
            cells = cells + 1;
        }
    }
    if i >= n {
        assert(out@ =~= out@ + trunc_from(text@, i as int, cells as nat, cols as nat));
    }
}

// ---------------------------------------------------------------- painting tokens

/// `str::find`: where `p` first occurs in `s`.
pub open spec fn find_in(s: Seq<char>, p: Seq<char>) -> Option<int> {
    if p.len() == 0 {
        Some(0)
    } else if find_sub_from(s, p, 0) < s.len() {
        Some(find_sub_from(s, p, 0))
    } else {
        None
    }
}

/// `s` without its first character.
pub open spec fn after_first(s: Seq<char>) -> Seq<char> {
    if s.len() == 0 {
        s
    } else {
        s.drop_first()
    }
}

/// A painted token: the key on a yellow block, then the rest of the token in
/// yellow, then back to dim.
pub open spec fn styled_token(e: EntryView) -> Seq<char> {
    key_style() + seq![e.key] + reset() + token_style() + after_first(e.raw) + reset() + dim()
}

/// `line` with the first occurrence of `e`'s token painted.
pub open spec fn paint_token(line: Seq<char>, e: EntryView) -> Seq<char> {
    match find_in(line, e.raw) {
        Some(f) => line.take(f) + styled_token(e) + line.skip(f + e.raw.len()),
        None => line,
    }
}

/// `line` with the tokens of `es` painted, in that order.
pub open spec fn paint_all(line: Seq<char>, es: Seq<EntryView>) -> Seq<char>
    decreases es.len(),
{
    if es.len() == 0 {
        line
    } else {
        paint_all(paint_token(line, es[0]), es.drop_first())
    }
}

fn push_styled(out: &mut Vec<char>, e: &HintEntry)
    ensures
        final(out)@ == old(out)@ + styled_token(e@),
{
    let ghost o = out@;
    let mut s = String::new();
    push_str(&mut s, "\x1b[0;1;30;48;2;255;253;1m");
    string_push(&mut s, e.key);
    push_str(&mut s, "\x1b[0m");
    push_str(&mut s, "\x1b[0;38;2;255;253;1m");
    let raw = str_to_chars(e.raw.as_str());
    if raw.len() > 0 {
        push_range(&mut s, raw.as_slice(), 1, raw.len());
        assert(raw@.subrange(1, raw@.len() as int) =~= raw@.drop_first());
    } else {
        assert(raw@.subrange(0, 0) =~= raw@);
    }
    push_str(&mut s, "\x1b[0m");
    push_str(&mut s, "\x1b[2;90m");
    let v = str_to_chars(s.as_str());
    let mut k: usize = 0;
    while k < v.len()
        invariant
            k <= v@.len(),
            out@ == o + v@.take(k as int),
        decreases v@.len() - k,
    {
        out.push(v[k]);
        assert(v@.take(k + 1) =~= v@.take(k as int).push(v@[k as int]));
        k = k + 1;
    }
    assert(v@.take(v@.len() as int) =~= v@);
    assert(v@ =~= styled_token(e@));
}

/// Paints the first occurrence of `e`'s token in `line`.
fn paint_token_exec(line: Vec<char>, e: &HintEntry) -> (r: Vec<char>)
    ensures
        r@ == paint_token(line@, e@),
{
    let raw = str_to_chars(e.raw.as_str());
    let n = line.len();
    let f = if raw.len() == 0 {
        0
    } else {
        find_sub(line.as_slice(), raw.as_slice(), 0)
    };
    proof {
        lemma_find_sub_from(line@, raw@, 0);
    }
    if raw.len() > 0 && f >= n {
        return line;
    }
    assert(f + raw@.len() <= n) by {
        if raw.len() > 0 {
            assert(crate::text::matches_at(line@, f as int, raw@));
        }
    }
    let mut r = copy_chars(line.as_slice(), 0, f);
    push_styled(&mut r, e);
    let tail = copy_chars(line.as_slice(), f + raw.len(), n);
    let ghost mid = r@;
    let mut k: usize = 0;
    while k < tail.len()
        invariant
            k <= tail@.len(),
            r@ == mid + tail@.take(k as int),
        decreases tail@.len() - k,
    {
        r.push(tail[k]);
        assert(tail@.take(k + 1) =~= tail@.take(k as int).push(tail@[k as int]));
        k = k + 1;
    }
    assert(tail@.take(tail@.len() as int) =~= tail@);
    assert(line@.take(f as int) =~= line@.subrange(0, f as int));
    assert(line@.skip(f + raw@.len()) =~= line@.subrange(f + raw@.len(), n as int));
    r
}

// ---------------------------------------------------------------- geometry

/// Character index where row `i` of `lines` starts in the pane text.
pub open spec fn char_start(lines: Seq<Seq<char>>, i: int) -> int
    decreases i,
{
    if i <= 0 {
        0
    } else {
        char_start(lines, i - 1) + lines[i - 1].len() + 1
    }
}

/// Byte offset where row `i` starts (the end of the text for the row past
/// the last).
pub open spec fn byte_start(s: Seq<char>, lines: Seq<Seq<char>>, i: int) -> nat {
    let c = char_start(lines, i);
    utf8_len(
        s.take(
            if c < s.len() {
                c
            } else {
                s.len() as int
            },
        ),
    )
}

/// The first row at or after `i` whose bytes hold offset `start`.
pub open spec fn line_of_offset(s: Seq<char>, lines: Seq<Seq<char>>, start: nat, i: int) -> Option<
    int,
>
    decreases lines.len() - i,
{
    if i < 0 || i >= lines.len() {
        None
    } else if byte_start(s, lines, i) <= start < byte_start(s, lines, i + 1) {
        Some(i)
    } else {
        line_of_offset(s, lines, start, i + 1)
    }
}

/// Rows of pane text scrolled off the top: all but the last `rows`.
pub open spec fn scroll_offset(total: nat, rows: nat) -> nat {
    if total > rows {
        (total - rows) as nat
    } else {
        0
    }
}

/// Empty rows above the pane text, so that it sits at the bottom.
pub open spec fn pad_rows(total: nat, rows: nat) -> nat {
    (rows - (total - scroll_offset(total, rows))) as nat
}

/// The overlay row of the token at byte offset `start`, when its pane row
/// is on screen.
pub open spec fn placed_row(s: Seq<char>, lines: Seq<Seq<char>>, rows: nat, start: nat) -> Option<
    int,
> {
    match line_of_offset(s, lines, start, 0) {
        Some(a) => {
            let off = scroll_offset(lines.len(), rows);
            let pad = pad_rows(lines.len(), rows);
            if a >= off && pad + a - off < rows {
                Some(pad + a - off)
            } else {
                None
            }
        },
        None => None,
    }
}

/// The entries painted on overlay row `r`, in list order.
pub open spec fn row_entries(
    s: Seq<char>,
    lines: Seq<Seq<char>>,
    rows: nat,
    es: Seq<EntryView>,
    r: int,
) -> Seq<EntryView>
    decreases es.len(),
{
    if es.len() == 0 {
        seq![]
    } else {
        let rest = row_entries(s, lines, rows, es.drop_last(), r);
        if placed_row(s, lines, rows, es.last().start) == Some(r) {
            rest.push(es.last())
        } else {
            rest
        }
    }
}

/// Where a token starting at `start` goes among `sorted` (by start, latest
/// first): after every entry that starts at or after it.
pub open spec fn insert_pos_from(sorted: Seq<EntryView>, start: nat, j: int) -> int
    decreases sorted.len() - j,
{
    if j < 0 || j >= sorted.len() {
        sorted.len() as int
    } else if sorted[j].start < start {
        j
    } else {
        insert_pos_from(sorted, start, j + 1)
    }
}

pub open spec fn insert_desc(sorted: Seq<EntryView>, e: EntryView) -> Seq<EntryView> {
    let p = insert_pos_from(sorted, e.start, 0);
    sorted.take(p) + seq![e] + sorted.skip(p)
}

/// `es` sorted by start offset, latest first, entries with equal starts kept
/// in list order (a stable sort).
pub open spec fn sort_desc(es: Seq<EntryView>) -> Seq<EntryView>
    decreases es.len(),
{
    if es.len() == 0 {
        seq![]
    } else {
        insert_desc(sort_desc(es.drop_last()), es.last())
    }
}

/// The pane text on overlay row `r`: empty in the padding, else the pane row.
pub open spec fn body_line(lines: Seq<Seq<char>>, rows: nat, r: int) -> Seq<char> {
    let off = scroll_offset(lines.len(), rows);
    let pad = pad_rows(lines.len(), rows);
    if r < pad {
        seq![]
    } else {
        lines[off + r - pad]
    }
}

/// The pane text sits at the bottom of the overlay: its last rows fill the
/// last overlay rows, in order, as many as fit; the rows above it are empty.
pub proof fn lemma_bottom_aligned(lines: Seq<Seq<char>>, rows: nat)
    ensures
        forall|j: int|
            0 <= j < rows && j < lines.len() ==> #[trigger] body_line(lines, rows, rows - 1 - j)
                == lines[lines.len() - 1 - j],
        forall|r: int|
            0 <= r < rows - lines.len() ==> #[trigger] body_line(lines, rows, r) == Seq::<
                char,
            >::empty(),
{
}

proof fn lemma_char_start_mono(lines: Seq<Seq<char>>, i: int, j: int)
    requires
        0 <= i <= j,
    ensures
        char_start(lines, i) <= char_start(lines, j),
    decreases j - i,
{
    if i < j {
        lemma_char_start_mono(lines, i, j - 1);
    }
}

proof fn lemma_byte_start_mono(s: Seq<char>, lines: Seq<Seq<char>>, i: int, j: int)
    requires
        0 <= i <= j,
    ensures
        byte_start(s, lines, i) <= byte_start(s, lines, j),
{
    lemma_char_start_mono(lines, i, j);
    let ci = char_start(lines, i);
    let cj = char_start(lines, j);
    assert(char_start(lines, 0) == 0);
    lemma_char_start_mono(lines, 0, i);
    let a = if ci < s.len() {
        ci
    } else {
        s.len() as int
    };
    let b = if cj < s.len() {
        cj
    } else {
        s.len() as int
    };
    lemma_utf8_len_mono(s, a, b);
}

proof fn lemma_line_of_offset_hit(
    s: Seq<char>,
    lines: Seq<Seq<char>>,
    start: nat,
    j: int,
    i: int,
)
    requires
        0 <= j <= i < lines.len(),
        byte_start(s, lines, i) <= start < byte_start(s, lines, i + 1),
    ensures
        line_of_offset(s, lines, start, j) == Some(i),
    decreases i - j,
{
    if j < i {
        lemma_byte_start_mono(s, lines, j + 1, i);
        lemma_line_of_offset_hit(s, lines, start, j + 1, i);
    }
}

proof fn lemma_row_entries_has(
    s: Seq<char>,
    lines: Seq<Seq<char>>,
    rows: nat,
    es: Seq<EntryView>,
    r: int,
    k: int,
)
    requires
        0 <= k < es.len(),
        placed_row(s, lines, rows, es[k].start) == Some(r),
    ensures
        row_entries(s, lines, rows, es, r).contains(es[k]),
    decreases es.len(),
{
    let rest = row_entries(s, lines, rows, es.drop_last(), r);
    if k == es.len() - 1 {
        assert(row_entries(s, lines, rows, es, r) == rest.push(es[k]));
        assert(rest.push(es[k])[rest.len() as int] == es[k]);
    } else {
        assert(es.drop_last()[k] == es[k]);
        lemma_row_entries_has(s, lines, rows, es.drop_last(), r, k);
        let m = choose|m: int| 0 <= m < rest.len() && rest[m] == es[k];
        if placed_row(s, lines, rows, es.last().start) == Some(r) {
            assert(rest.push(es.last())[m] == es[k]);
        }
    }
}

/// An entry whose start falls within the UTF-8 bytes of a pane line that is
/// on screen is painted on that line's overlay row: offsets count the bytes
/// of the pane text, whatever characters come before.
pub proof fn lemma_entry_on_its_row(
    s: Seq<char>,
    lines: Seq<Seq<char>>,
    rows: nat,
    es: Seq<EntryView>,
    k: int,
    i: int,
)
    requires
        0 <= k < es.len(),
        0 <= i < lines.len(),
        char_start(lines, i) + lines[i].len() <= s.len(),
        utf8_len(s.take(char_start(lines, i))) <= es[k].start,
        es[k].start < utf8_len(s.take(char_start(lines, i) + lines[i].len())),
        scroll_offset(lines.len(), rows) <= i,
    ensures
        row_entries(
            s,
            lines,
            rows,
            es,
            pad_rows(lines.len(), rows) + i - scroll_offset(lines.len(), rows),
        ).contains(es[k]),
{
    let c = char_start(lines, i);
    let c1 = char_start(lines, i + 1);
    lemma_char_start_mono(lines, 0, i);
    assert(c1 == c + lines[i].len() + 1);
    let b1 = if c1 < s.len() {
        c1
    } else {
        s.len() as int
    };
    lemma_utf8_len_mono(s, c + lines[i].len(), b1);
    lemma_line_of_offset_hit(s, lines, es[k].start, 0, i);
    lemma_row_entries_has(
        s,
        lines,
        rows,
        es,
        pad_rows(lines.len(), rows) + i - scroll_offset(lines.len(), rows),
        k,
    );
}

/// Overlay row `r` with its tokens painted, the latest in the row first.
pub open spec fn painted_line(
    s: Seq<char>,
    lines: Seq<Seq<char>>,
    rows: nat,
    es: Seq<EntryView>,
    r: int,
) -> Seq<char> {
    paint_all(body_line(lines, rows, r), sort_desc(row_entries(s, lines, rows, es, r)))
}

pub open spec fn row_text(
    s: Seq<char>,
    lines: Seq<Seq<char>>,
    rows: nat,
    cols: nat,
    es: Seq<EntryView>,
    r: int,
) -> Seq<char> {
    dim() + truncated(painted_line(s, lines, rows, es, r), cols) + reset() + clear_eol() + seq![
        '\n',
    ]
}

/// The first `k` rows of the frame.
pub open spec fn rows_text(
    s: Seq<char>,
    lines: Seq<Seq<char>>,
    rows: nat,
    cols: nat,
    es: Seq<EntryView>,
    k: int,
) -> Seq<char>
    decreases k,
{
    if k <= 0 {
        seq![]
    } else {
        rows_text(s, lines, rows, cols, es, k - 1) + row_text(s, lines, rows, cols, es, k - 1)
    }
}

pub open spec fn legend_text(n: nat) -> Seq<char> {
    " hint · "@ + decimal(n) + " path(s) · letter opens · q/Esc cancel"@
}

/// The overlay frame for `es` over pane text `s` on a `rows` × `cols`
/// terminal (at least 2 rows and 20 columns are assumed): the pane rows but
/// the last, then the legend.
pub open spec fn overlay_frame_spec(es: Seq<EntryView>, s: Seq<char>, rows: u16, cols: u16) -> Seq<
    char,
> {
    let rows = if rows < 2 {
        2nat
    } else {
        rows as nat
    };
    let cols = if cols < 20 {
        20nat
    } else {
        cols as nat
    };
    let lines = snapshot_lines(s);
    home() + rows_text(s, lines, rows, cols, es, rows - 1) + legend_style() + truncated(
        legend_text(es.len()),
        cols,
    ) + reset() + clear_eol()
}

/// Moves from character `pos` to `target`, counting bytes.
fn advance_bytes_to(s: &[char], pos: usize, bytes: usize, target: usize) -> (r: usize)
    requires
        pos <= target <= s@.len(),
        bytes == utf8_len(s@.take(pos as int)),
        utf8_len(s@) <= usize::MAX,
    ensures
        r == utf8_len(s@.take(target as int)),
{
    let mut p = pos;
    let mut b = bytes;
    while p < target
        invariant
            pos <= p <= target <= s@.len(),
            b == utf8_len(s@.take(p as int)),
            utf8_len(s@) <= usize::MAX,
        decreases target - p,
    {
        proof {
            lemma_utf8_len_take_succ(s@, p as int);
            lemma_utf8_len_mono(s@, p + 1, s@.len() as int);
            assert(s@.take(s@.len() as int) =~= s@);
        }
        b = b + utf8_width(s[p]);
        p = p + 1;
    }
    b
}

/// Byte offsets where each row starts, and the end of the text.
fn byte_starts(s: &[char], lines: &Vec<Vec<char>>) -> (bs: Vec<usize>)
    requires
        utf8_len(s@) <= usize::MAX,
    ensures
        bs@.len() == lines@.len() + 1,
        forall|i: int|
            0 <= i <= lines@.len() ==> #[trigger] bs@[i] == byte_start(s@, char_views(lines@), i),
{
    let ghost ls = char_views(lines@);
    let n = s.len();
    let total = lines.len();
    let mut bs: Vec<usize> = Vec::new();
    let mut cap: usize = 0;
    let mut pos: usize = 0;
    let mut bytes: usize = 0;
    let mut i: usize = 0;
    while i < total
        invariant
            ls == char_views(lines@),
            n == s@.len(),
            total == lines@.len(),
            utf8_len(s@) <= usize::MAX,
            i <= total,
            pos <= cap <= n,
            bytes == utf8_len(s@.take(pos as int)),
            cap == (if char_start(ls, i as int) < n {
                char_start(ls, i as int)
            } else {
                n as int
            }),
            bs@.len() == i,
            forall|j: int| 0 <= j < i ==> #[trigger] bs@[j] == byte_start(s@, ls, j),
        decreases total - i,
    {
        bytes = advance_bytes_to(s, pos, bytes, cap);
        pos = cap;
        bs.push(bytes);
        let len = lines[i].len();
        assert(ls[i as int].len() == len);
        if len >= n - cap {
            cap = n;
        } else {
            cap = cap + len + 1;
        }
        i = i + 1;
    }
    bytes = advance_bytes_to(s, pos, bytes, cap);
    bs.push(bytes);
    bs
}

/// The overlay row of the token at `start` (see [`placed_row`]).
fn place_row(
    Ghost(s): Ghost<Seq<char>>,
    Ghost(ls): Ghost<Seq<Seq<char>>>,
    bs: &Vec<usize>,
    rows: usize,
    start: usize,
) -> (r: Option<usize>)
    requires
        bs@.len() == ls.len() + 1,
        forall|i: int| 0 <= i <= ls.len() ==> #[trigger] bs@[i] == byte_start(s, ls, i),
    ensures
        match placed_row(s, ls, rows as nat, start as nat) {
            Some(x) => r == Some(x as usize),
            None => r is None,
        },
{
    let total = bs.len() - 1;
    let mut i: usize = 0;
    while i < total && !(bs[i] <= start && start < bs[i + 1])
        invariant
            total == ls.len(),
            bs@.len() == ls.len() + 1,
            forall|j: int| 0 <= j <= ls.len() ==> #[trigger] bs@[j] == byte_start(s, ls, j),
            i <= total,
            line_of_offset(s, ls, start as nat, 0) == line_of_offset(s, ls, start as nat, i as int),
        decreases total - i,
    {
        i = i + 1;
    }
    if i >= total {
        return None;
    }
    let off: usize = if total > rows {
        total - rows
    } else {
        0
    };
    let pad: usize = rows - (total - off);
    if i >= off && pad + (i - off) < rows {
        Some(pad + (i - off))
    } else {
        None
    }
}

pub open spec fn idx_views(ev: Seq<EntryView>, idx: Seq<usize>) -> Seq<EntryView> {
    idx.map_values(|i: usize| ev[i as int])
}

/// Indices of the entries on overlay row `r`, in list order.
fn entries_on_row(entries: &Vec<HintEntry>, pl: &Vec<Option<usize>>, r: usize, Ghost(
    s,
): Ghost<Seq<char>>, Ghost(ls): Ghost<Seq<Seq<char>>>, rows: usize) -> (idx: Vec<usize>)
    requires
        pl@.len() == entries@.len(),
        forall|i: int|
            0 <= i < entries@.len() ==> match placed_row(
                s,
                ls,
                rows as nat,
                entries@[i]@.start,
            ) {
                Some(x) => #[trigger] pl@[i] == Some(x as usize),
                None => pl@[i] is None,
            },
    ensures
        forall|k: int| 0 <= k < idx@.len() ==> #[trigger] idx@[k] < entries@.len(),
        idx_views(entry_views(entries@), idx@) == row_entries(
            s,
            ls,
            rows as nat,
            entry_views(entries@),
            r as int,
        ),
{
    let ghost ev = entry_views(entries@);
    let mut idx: Vec<usize> = Vec::new();
    let mut k: usize = 0;
    while k < entries.len()
        invariant
            ev == entry_views(entries@),
            pl@.len() == entries@.len(),
            forall|i: int|
                0 <= i < entries@.len() ==> match placed_row(
                    s,
                    ls,
                    rows as nat,
                    entries@[i]@.start,
                ) {
                    Some(x) => #[trigger] pl@[i] == Some(x as usize),
                    None => pl@[i] is None,
                },
            k <= entries@.len(),
            forall|j: int| 0 <= j < idx@.len() ==> #[trigger] idx@[j] < entries@.len(),
            idx_views(ev, idx@) == row_entries(s, ls, rows as nat, ev.take(k as int), r as int),
        decreases entries@.len() - k,
    {
        assert(ev.take(k + 1).drop_last() =~= ev.take(k as int));
        assert(ev.take(k + 1).last() == entries@[k as int]@);
        let hit = match pl[k] {
            Some(x) => x == r,
            None => false,
        };
        let ghost old_idx = idx@;
        if hit {
            idx.push(k);
            assert(idx_views(ev, idx@) =~= idx_views(ev, old_idx).push(ev[k as int]));
        }
        k = k + 1;
    }
    assert(ev.take(entries@.len() as int) =~= ev);
    idx
}

/// Sorts the entry indices `idx` by start offset, latest first, stably.
fn sort_latest_first(entries: &Vec<HintEntry>, idx: &Vec<usize>) -> (r: Vec<usize>)
    requires
        forall|k: int| 0 <= k < idx@.len() ==> #[trigger] idx@[k] < entries@.len(),
    ensures
        forall|k: int| 0 <= k < r@.len() ==> #[trigger] r@[k] < entries@.len(),
        idx_views(entry_views(entries@), r@) == sort_desc(
            idx_views(entry_views(entries@), idx@),
        ),
{
    let ghost ev = entry_views(entries@);
    let ghost iv = idx_views(ev, idx@);
    let mut sorted: Vec<usize> = Vec::new();
    let mut k: usize = 0;
    while k < idx.len()
        invariant
            ev == entry_views(entries@),
            iv == idx_views(ev, idx@),
            forall|j: int| 0 <= j < idx@.len() ==> #[trigger] idx@[j] < entries@.len(),
            k <= idx@.len(),
            forall|j: int| 0 <= j < sorted@.len() ==> #[trigger] sorted@[j] < entries@.len(),
            idx_views(ev, sorted@) == sort_desc(iv.take(k as int)),
        decreases idx@.len() - k,
    {
        let x = idx[k];
        let start = entries[x].start;
        let ghost sv = idx_views(ev, sorted@);
        let mut p: usize = 0;
        while p < sorted.len() && !(entries[sorted[p]].start < start)
            invariant
                ev == entry_views(entries@),
                sv == idx_views(ev, sorted@),
                forall|j: int| 0 <= j < sorted@.len() ==> #[trigger] sorted@[j] < entries@.len(),
                p <= sorted@.len(),
                insert_pos_from(sv, start as nat, 0) == insert_pos_from(sv, start as nat, p as int),
            decreases sorted@.len() - p,
        {
            p = p + 1;
        }
        assert(iv.take(k + 1).drop_last() =~= iv.take(k as int));
        assert(iv.take(k + 1).last() == ev[x as int]);
        let ghost old_sorted = sorted@;
        sorted.insert(p, x);
        assert(idx_views(ev, sorted@) =~= sv.take(p as int) + seq![ev[x as int]] + sv.skip(
            p as int,
        ));
        k = k + 1;
    }
    assert(iv.take(idx@.len() as int) =~= iv);
    sorted
}

/// Overlay row `r` with its tokens painted.
fn paint_row(
    entries: &Vec<HintEntry>,
    line: Vec<char>,
    order: &Vec<usize>,
) -> (r: Vec<char>)
    requires
        forall|k: int| 0 <= k < order@.len() ==> #[trigger] order@[k] < entries@.len(),
    ensures
        r@ == paint_all(line@, idx_views(entry_views(entries@), order@)),
{
    let ghost ev = entry_views(entries@);
    let ghost ov = idx_views(ev, order@);
    let mut cur = line;
    let mut k: usize = 0;
    assert(ov.skip(0) =~= ov);
    while k < order.len()
        invariant
            ev == entry_views(entries@),
            ov == idx_views(ev, order@),
            forall|j: int| 0 <= j < order@.len() ==> #[trigger] order@[j] < entries@.len(),
            k <= order@.len(),
            paint_all(line@, ov) == paint_all(cur@, ov.skip(k as int)),
        decreases order@.len() - k,
    {
        let e = &entries[order[k]];
        assert(ov.skip(k as int)[0] == e@);
        assert(ov.skip(k as int).drop_first() =~= ov.skip(k + 1));
        cur = paint_token_exec(cur, e);
        k = k + 1;
    }
    assert(ov.skip(order@.len() as int) =~= Seq::<EntryView>::empty());
    assert(ov.skip(0) =~= ov);
    cur
}

/// The text written to the terminal to draw the hint overlay for `entries`
/// over the origin pane's visible text `snapshot` (see [`overlay_frame_spec`]).
pub fn render_overlay(entries: &Vec<HintEntry>, snapshot: &str, rows: u16, cols: u16) -> (frame:
    String)
    requires
        utf8_len(snapshot@) <= usize::MAX,
    ensures
        frame@ == overlay_frame_spec(entry_views(entries@), snapshot@, rows, cols),
{
    let ghost ev = entry_views(entries@);
    let rows_n: usize = if rows < 2 {
        2
    } else {
        rows as usize
    };
    let cols_n: usize = if cols < 20 {
        20
    } else {
        cols as usize
    };
    let chars = str_to_chars(snapshot);
    let lines = split_snapshot_lines(chars.as_slice());
    let ghost ls = char_views(lines@);
    let ghost sv = chars@;
    let bs = byte_starts(chars.as_slice(), &lines);
    let mut pl: Vec<Option<usize>> = Vec::new();
    let mut k: usize = 0;
    while k < entries.len()
        invariant
            ls == char_views(lines@),
            sv == chars@,
            bs@.len() == ls.len() + 1,
            forall|i: int| 0 <= i <= ls.len() ==> #[trigger] bs@[i] == byte_start(sv, ls, i),
            k <= entries@.len(),
            pl@.len() == k,
            forall|i: int|
                0 <= i < k ==> match placed_row(sv, ls, rows_n as nat, entries@[i]@.start) {
                    Some(x) => #[trigger] pl@[i] == Some(x as usize),
                    None => pl@[i] is None,
                },
        decreases entries@.len() - k,
    {
        let x = place_row(Ghost(sv), Ghost(ls), &bs, rows_n, entries[k].start);
        pl.push(x);
        k = k + 1;
    }
    let total = lines.len();
    let off: usize = if total > rows_n {
        total - rows_n
    } else {
        0
    };
    let pad: usize = rows_n - (total - off);
    let mut out = String::new();
    push_str(&mut out, "\x1b[H");
    let mut r: usize = 0;
    while r < rows_n - 1
        invariant
            ev == entry_views(entries@),
            ls == char_views(lines@),
            sv == chars@,
            sv == snapshot@,
            ls == snapshot_lines(sv),
            total == ls.len(),
            rows_n >= 2,
            off == scroll_offset(total as nat, rows_n as nat),
            pad == pad_rows(total as nat, rows_n as nat),
            pl@.len() == entries@.len(),
            forall|i: int|
                0 <= i < entries@.len() ==> match placed_row(
                    sv,
                    ls,
                    rows_n as nat,
                    entries@[i]@.start,
                ) {
                    Some(x) => #[trigger] pl@[i] == Some(x as usize),
                    None => pl@[i] is None,
                },
            r <= rows_n - 1,
            out@ == home() + rows_text(sv, ls, rows_n as nat, cols_n as nat, ev, r as int),
        decreases rows_n - 1 - r,
    {
        let line: Vec<char> = if r < pad {
            Vec::new()
        } else {
            let l = &lines[off + r - pad];
            copy_chars(l.as_slice(), 0, l.len())
        };
        assert(line@ =~= body_line(ls, rows_n as nat, r as int));
        let idx = entries_on_row(entries, &pl, r, Ghost(sv), Ghost(ls), rows_n);
        let order = sort_latest_first(entries, &idx);
        let painted = paint_row(entries, line, &order);
        let ghost before = out@;
        push_str(&mut out, "\x1b[2;90m");
        push_truncated(&mut out, painted.as_slice(), cols_n);
        push_str(&mut out, "\x1b[0m");
        push_str(&mut out, "\x1b[K");
        string_push(&mut out, '\n');
        assert(out@ =~= before + row_text(sv, ls, rows_n as nat, cols_n as nat, ev, r as int));
        r = r + 1;
    }
    let mut legend = String::new();
    push_str(&mut legend, " hint · ");
    let count = usize_to_decimal(entries.len());
    push_str(&mut legend, count.as_str());
    push_str(&mut legend, " path(s) · letter opens · q/Esc cancel");
    assert(legend@ =~= legend_text(ev.len()));
    let lv = str_to_chars(legend.as_str());
    let ghost mid = out@;
    push_str(&mut out, "\x1b[1;30;48;2;255;253;1m");
    push_truncated(&mut out, lv.as_slice(), cols_n);
    push_str(&mut out, "\x1b[0m");
    push_str(&mut out, "\x1b[K");
    assert(out@ =~= mid + legend_style() + truncated(legend_text(ev.len()), cols_n as nat)
        + reset() + clear_eol());
    out
}

// ---------------------------------------------------------------- line breaks

/// Number of `c` in `s`.
pub open spec fn count_char(s: Seq<char>, c: char) -> nat
    decreases s.len(),
{
    if s.len() == 0 {
        0
    } else {
        count_char(s.drop_last(), c) + if s.last() == c {
            1nat
        } else {
            0nat
        }
    }
}

proof fn lemma_count_add(a: Seq<char>, b: Seq<char>, c: char)
    ensures
        count_char(a + b, c) == count_char(a, c) + count_char(b, c),
    decreases b.len(),
{
    if b.len() == 0 {
        assert(a + b =~= a);
    } else {
        lemma_count_add(a, b.drop_last(), c);
        assert((a + b).drop_last() =~= a + b.drop_last());
    }
}

proof fn lemma_count_none(s: Seq<char>, c: char)
    requires
        no_char(s, c),
    ensures
        count_char(s, c) == 0,
    decreases s.len(),
{
    if s.len() > 0 {
        assert(no_char(s.drop_last(), c)) by {
            assert forall|k: int| 0 <= k < s.drop_last().len() implies #[trigger] s.drop_last()[k]
                != c by {
                assert(s.drop_last()[k] == s[k]);
            }
        }
        lemma_count_none(s.drop_last(), c);
    }
}

proof fn lemma_no_char_add2(a: Seq<char>, b: Seq<char>, c: char)
    requires
        no_char(a, c),
        no_char(b, c),
    ensures
        no_char(a + b, c),
{
    assert forall|j: int| 0 <= j < (a + b).len() implies #[trigger] (a + b)[j] != c by {
        if j >= a.len() {
            assert((a + b)[j] == b[j - a.len()]);
        }
    }
}

proof fn lemma_split_no_nl(s: Seq<char>, i: int)
    requires
        0 <= i <= s.len(),
    ensures
        forall|k: int| 0 <= k < split_nl_from(s, i).len() ==> no_char(
            #[trigger] split_nl_from(s, i)[k],
            '\n',
        ),
    decreases s.len() - i,
{
    let e = first_from(s, '\n', i);
    lemma_first_from(s, '\n', i);
    let head = s.subrange(i, e);
    assert forall|j: int| 0 <= j < head.len() implies #[trigger] head[j] != '\n' by {
        assert(head[j] == s[i + j]);
    }
    if e < s.len() {
        lemma_split_no_nl(s, e + 1);
        let rest = split_nl_from(s, e + 1);
        assert forall|k: int| 0 <= k < split_nl_from(s, i).len() implies no_char(
            #[trigger] split_nl_from(s, i)[k],
            '\n',
        ) by {
            if k > 0 {
                assert(split_nl_from(s, i)[k] == rest[k - 1]);
            }
        }
    }
}

proof fn lemma_trunc_no_nl(s: Seq<char>, i: int, cells: nat, cols: nat)
    requires
        no_char(s, '\n'),
    ensures
        no_char(trunc_from(s, i, cells, cols), '\n'),
    decreases s.len() - i,
{
    if 0 <= i < s.len() {
        if s[i] == esc() {
            if i + 1 < s.len() && s[i + 1] == '[' {
                let e = alpha_end(s, i + 2);
                lemma_alpha_end(s, i + 2);
                lemma_trunc_no_nl(s, e, cells, cols);
                let part = s.subrange(i, e);
                assert forall|j: int| 0 <= j < part.len() implies #[trigger] part[j] != '\n' by {
                    assert(part[j] == s[i + j]);
                }
                lemma_no_char_add2(part, trunc_from(s, e, cells, cols), '\n');
            } else {
                lemma_trunc_no_nl(s, i + 1, cells, cols);
                lemma_no_char_add2(seq![s[i]], trunc_from(s, i + 1, cells, cols), '\n');
            }
        } else if cells < cols {
            lemma_trunc_no_nl(s, i + 1, cells + 1, cols);
            lemma_no_char_add2(seq![s[i]], trunc_from(s, i + 1, cells + 1, cols), '\n');
        }
    }
}

/// The entries that a row paints: no newline in their keys or tokens.
pub open spec fn plain_entries(es: Seq<EntryView>) -> bool {
    forall|i: int| 0 <= i < es.len() ==> (#[trigger] es[i]).key != '\n' && no_char(es[i].raw, '\n')
}

proof fn lemma_styles_plain()
    ensures
        no_char(key_style(), '\n'),
        no_char(token_style(), '\n'),
        no_char(reset(), '\n'),
        no_char(dim(), '\n'),
        no_char(home(), '\n'),
        no_char(clear_eol(), '\n'),
        no_char(legend_style(), '\n'),
{
    reveal_strlit("\x1b[0;1;30;48;2;255;253;1m");
    reveal_strlit("\x1b[0;38;2;255;253;1m");
    reveal_strlit("\x1b[0m");
    reveal_strlit("\x1b[2;90m");
    reveal_strlit("\x1b[H");
    reveal_strlit("\x1b[K");
    reveal_strlit("\x1b[1;30;48;2;255;253;1m");
}

proof fn lemma_paint_no_nl(line: Seq<char>, es: Seq<EntryView>)
    requires
        no_char(line, '\n'),
        plain_entries(es),
    ensures
        no_char(paint_all(line, es), '\n'),
    decreases es.len(),
{
    if es.len() > 0 {
        let e = es[0];
        lemma_styles_plain();
        let tail = after_first(e.raw);
        assert(no_char(tail, '\n')) by {
            if e.raw.len() > 0 {
                assert forall|j: int| 0 <= j < tail.len() implies #[trigger] tail[j] != '\n' by {
                    assert(tail[j] == e.raw[j + 1]);
                }
            }
        }
        let st = styled_token(e);
        lemma_no_char_add2(key_style(), seq![e.key], '\n');
        lemma_no_char_add2(key_style() + seq![e.key], reset(), '\n');
        lemma_no_char_add2(key_style() + seq![e.key] + reset(), token_style(), '\n');
        lemma_no_char_add2(key_style() + seq![e.key] + reset() + token_style(), tail, '\n');
        lemma_no_char_add2(key_style() + seq![e.key] + reset() + token_style() + tail, reset(), '\n');
        lemma_no_char_add2(
            key_style() + seq![e.key] + reset() + token_style() + tail + reset(),
            dim(),
            '\n',
        );
        let painted = paint_token(line, e);
        match find_in(line, e.raw) {
            Some(f) => {
                lemma_find_sub_from(line, e.raw, 0);
                let a = line.take(f);
                let b = line.skip(f + e.raw.len());
                assert forall|j: int| 0 <= j < a.len() implies #[trigger] a[j] != '\n' by {
                    assert(a[j] == line[j]);
                }
                assert forall|j: int| 0 <= j < b.len() implies #[trigger] b[j] != '\n' by {
                    assert(b[j] == line[f + e.raw.len() + j]);
                }
                lemma_no_char_add2(a, st, '\n');
                lemma_no_char_add2(a + st, b, '\n');
            },
            None => {},
        }
        assert(plain_entries(es.drop_first())) by {
            assert forall|i: int| 0 <= i < es.drop_first().len() implies (#[trigger] es.drop_first()[
                i]).key != '\n' && no_char(es.drop_first()[i].raw, '\n') by {
                assert(es.drop_first()[i] == es[i + 1]);
            }
        }
        lemma_paint_no_nl(painted, es.drop_first());
    }
}

proof fn lemma_row_entries_plain(
    s: Seq<char>,
    lines: Seq<Seq<char>>,
    rows: nat,
    es: Seq<EntryView>,
    r: int,
)
    requires
        plain_entries(es),
    ensures
        plain_entries(row_entries(s, lines, rows, es, r)),
    decreases es.len(),
{
    if es.len() > 0 {
        assert(plain_entries(es.drop_last())) by {
            assert forall|i: int| 0 <= i < es.drop_last().len() implies (#[trigger] es.drop_last()[
                i]).key != '\n' && no_char(es.drop_last()[i].raw, '\n') by {
                assert(es.drop_last()[i] == es[i]);
            }
        }
        lemma_row_entries_plain(s, lines, rows, es.drop_last(), r);
    }
}

proof fn lemma_sort_plain(es: Seq<EntryView>)
    requires
        plain_entries(es),
    ensures
        plain_entries(sort_desc(es)),
    decreases es.len(),
{
    if es.len() > 0 {
        assert(plain_entries(es.drop_last())) by {
            assert forall|i: int| 0 <= i < es.drop_last().len() implies (#[trigger] es.drop_last()[
                i]).key != '\n' && no_char(es.drop_last()[i].raw, '\n') by {
                assert(es.drop_last()[i] == es[i]);
            }
        }
        lemma_sort_plain(es.drop_last());
        let sorted = sort_desc(es.drop_last());
        let p = insert_pos_from(sorted, es.last().start, 0);
        lemma_insert_pos(sorted, es.last().start, 0);
        let r = insert_desc(sorted, es.last());
        assert forall|i: int| 0 <= i < r.len() implies (#[trigger] r[i]).key != '\n' && no_char(
            r[i].raw,
            '\n',
        ) by {
            if i < p {
                assert(r[i] == sorted[i]);
            } else if i == p {
                assert(r[i] == es.last());
            } else {
                assert(r[i] == sorted[i - 1]);
            }
        }
    }
}

proof fn lemma_insert_pos(sorted: Seq<EntryView>, start: nat, j: int)
    requires
        0 <= j <= sorted.len(),
    ensures
        j <= insert_pos_from(sorted, start, j) <= sorted.len(),
    decreases sorted.len() - j,
{
    if j < sorted.len() && !(sorted[j].start < start) {
        lemma_insert_pos(sorted, start, j + 1);
    }
}

proof fn lemma_rows_text_count(
    s: Seq<char>,
    lines: Seq<Seq<char>>,
    rows: nat,
    cols: nat,
    es: Seq<EntryView>,
    k: int,
)
    requires
        0 <= k <= rows,
        plain_entries(es),
        forall|i: int| 0 <= i < lines.len() ==> no_char(#[trigger] lines[i], '\n'),
    ensures
        count_char(rows_text(s, lines, rows, cols, es, k), '\n') == k,
    decreases k,
{
    if k > 0 {
        lemma_rows_text_count(s, lines, rows, cols, es, k - 1);
        let r = k - 1;
        let body = body_line(lines, rows, r);
        assert(no_char(body, '\n')) by {
            if r >= pad_rows(lines.len(), rows) {
                let idx = scroll_offset(lines.len(), rows) + r - pad_rows(lines.len(), rows);
                assert(0 <= idx < lines.len());
                assert(no_char(lines[idx], '\n'));
            } else {
                assert(body =~= Seq::<char>::empty());
            }
        }
        lemma_row_entries_plain(s, lines, rows, es, r);
        lemma_sort_plain(row_entries(s, lines, rows, es, r));
        lemma_paint_no_nl(body, sort_desc(row_entries(s, lines, rows, es, r)));
        let t = truncated(painted_line(s, lines, rows, es, r), cols);
        lemma_trunc_no_nl(painted_line(s, lines, rows, es, r), 0, 0, cols);
        lemma_styles_plain();
        lemma_count_none(dim(), '\n');
        lemma_count_none(t, '\n');
        lemma_count_none(reset(), '\n');
        lemma_count_none(clear_eol(), '\n');
        lemma_count_add(dim(), t, '\n');
        lemma_count_add(dim() + t, reset(), '\n');
        lemma_count_add(dim() + t + reset(), clear_eol(), '\n');
        lemma_count_add(dim() + t + reset() + clear_eol(), seq!['\n'], '\n');
        assert(count_char(seq!['\n'], '\n') == 1) by {
            assert(seq!['\n'].drop_last() =~= Seq::<char>::empty());
            assert(count_char(Seq::<char>::empty(), '\n') == 0);
        }
        lemma_count_add(
            rows_text(s, lines, rows, cols, es, k - 1),
            row_text(s, lines, rows, cols, es, r),
            '\n',
        );
    }
}

/// The frame breaks lines only between its rows: it holds exactly one line
/// break fewer than the terminal has rows, none after the legend, so drawing
/// it never scrolls (given hints whose keys and tokens hold no line break).
pub proof fn lemma_frame_line_breaks(es: Seq<EntryView>, s: Seq<char>, rows: u16, cols: u16)
    requires
        plain_entries(es),
    ensures
        count_char(overlay_frame_spec(es, s, rows, cols), '\n') == (if rows < 2 {
            2nat
        } else {
            rows as nat
        }) - 1,
{
    let rn: nat = if rows < 2 {
        2nat
    } else {
        rows as nat
    };
    let cn: nat = if cols < 20 {
        20nat
    } else {
        cols as nat
    };
    let lines = snapshot_lines(s);
    lemma_split_no_nl(s, 0);
    assert forall|i: int| 0 <= i < lines.len() implies no_char(#[trigger] lines[i], '\n') by {
        if s.len() > 0 && s.last() == '\n' {
            assert(lines[i] == split_nl_from(s, 0)[i]);
        }
    }
    lemma_rows_text_count(s, lines, rn, cn, es, rn - 1);
    lemma_styles_plain();
    let lt = legend_text(es.len());
    reveal_strlit(" hint · ");
    reveal_strlit(" path(s) · letter opens · q/Esc cancel");
    crate::text::lemma_decimal_digits(es.len());
    let d = decimal(es.len());
    assert(no_char(d, '\n')) by {
        assert forall|j: int| 0 <= j < d.len() implies #[trigger] d[j] != '\n' by {
            assert(crate::text::is_ascii_dig(d[j]));
        }
    }
    lemma_no_char_add2(" hint · "@, d, '\n');
    lemma_no_char_add2(" hint · "@ + d, " path(s) · letter opens · q/Esc cancel"@, '\n');
    let tl = truncated(lt, cn);
    lemma_trunc_no_nl(lt, 0, 0, cn);
    let body = rows_text(s, lines, rn, cn, es, rn - 1);
    lemma_count_none(home(), '\n');
    lemma_count_none(legend_style(), '\n');
    lemma_count_none(tl, '\n');
    lemma_count_none(reset(), '\n');
    lemma_count_none(clear_eol(), '\n');
    lemma_count_add(home(), body, '\n');
    lemma_count_add(home() + body, legend_style(), '\n');
    lemma_count_add(home() + body + legend_style(), tl, '\n');
    lemma_count_add(home() + body + legend_style() + tl, reset(), '\n');
    lemma_count_add(home() + body + legend_style() + tl + reset(), clear_eol(), '\n');
}

// ---------------------------------------------------------------- keys

/// One read from the overlay's terminal.
#[derive(Debug, Clone, Copy, PartialEq, Eq, Structural)]
pub enum KeyPress {
    /// A byte other than escape.
    Byte(u8),
    /// A bare escape: nothing followed it at once.
    Cancel,
    /// An escape sequence (arrows, mouse): drained and ignored.
    Ignore,
}

/// What the overlay does after a key.
#[derive(Debug, Clone, Copy, PartialEq, Eq, Structural)]
pub enum OverlayChoice {
    Cancel,
    /// Open the entry at this index.
    Pick(usize),
}

/// The key a read gives: the first byte unless it is an escape; a bare
/// escape (no more input ready) cancels, an escape sequence is ignored.
pub fn key_press(first: u8, more_ready: bool) -> (k: KeyPress)
    ensures
        first != 0x1bu8 ==> k == KeyPress::Byte(first),
        first == 0x1bu8 && !more_ready ==> k == KeyPress::Cancel,
        first == 0x1bu8 && more_ready ==> k == KeyPress::Ignore,
{
    if first != 0x1bu8 {
        KeyPress::Byte(first)
    } else if !more_ready {
        KeyPress::Cancel
    } else {
        KeyPress::Ignore
    }
}

/// The first entry at or after `i` whose key is `c`.
pub open spec fn entry_with_key(es: Seq<EntryView>, c: char, i: int) -> Option<int>
    decreases es.len() - i,
{
    if i < 0 || i >= es.len() {
        None
    } else if es[i].key == c {
        Some(i)
    } else {
        entry_with_key(es, c, i + 1)
    }
}

/// The choice a key makes, or `None` to keep waiting: escape, `q` and `Q`
/// cancel; a hint's key picks the first entry with it; anything else is
/// ignored.
pub open spec fn choice_for(es: Seq<EntryView>, k: KeyPress) -> Option<OverlayChoice> {
    match k {
        KeyPress::Cancel => Some(OverlayChoice::Cancel),
        KeyPress::Ignore => None,
        KeyPress::Byte(b) => if b == 0x71u8 || b == 0x51u8 {
            Some(OverlayChoice::Cancel)
        } else {
            match entry_with_key(es, b as char, 0) {
                Some(i) => Some(OverlayChoice::Pick(i as usize)),
                None => None,
            }
        },
    }
}

/// What the overlay does on key `k` (see [`choice_for`]).
pub fn overlay_choice(entries: &Vec<HintEntry>, k: KeyPress) -> (r: Option<OverlayChoice>)
    ensures
        r == choice_for(entry_views(entries@), k),
        r matches Some(OverlayChoice::Pick(i)) ==> i < entries@.len(),
{
    let ghost ev = entry_views(entries@);
    match k {
        KeyPress::Cancel => Some(OverlayChoice::Cancel),
        KeyPress::Ignore => None,
        KeyPress::Byte(b) => {
            if b == 0x71u8 || b == 0x51u8 {
                return Some(OverlayChoice::Cancel);
            }
            let c = b as char;
            let mut i: usize = 0;
            while i < entries.len()
                invariant
                    ev == entry_views(entries@),
                    k == KeyPress::Byte(b),
                    c == (b as char),
                    !(b == 0x71u8 || b == 0x51u8),
                    i <= entries@.len(),
                    entry_with_key(ev, c, 0) == entry_with_key(ev, c, i as int),
                decreases entries@.len() - i,
            {
                assert(ev[i as int] == entries@[i as int]@);
                if entries[i].key == c {
                    return Some(OverlayChoice::Pick(i));
                }
                i = i + 1;
            }
            None
        },
    }
}

} // verus!
