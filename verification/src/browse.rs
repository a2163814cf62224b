//! Directory browse overlay: listing order, navigation state, key and mouse
//! input decoding, and the text of a frame.
//!
//! The state machine never touches the filesystem. A command that needs a
//! directory listing answers [`BrowseOutcome::ReadDir`]; the caller reads
//! that directory and hands the result to [`BrowseState::finish_enter`].
use vstd::prelude::*;
use crate::paths::{parent_of, parent_path, path_starts_with, starts_with_path};
use crate::text::{
    find_char_from, first_from, lemma_first_from, parse_unsigned, parse_usize_range, lemma_seq_lt, lowercase_of, push_str, seq_less, seq_lt, str_to_chars, string_push,
    to_lowercase,
};

verus! {

/// One row of the listing.
#[derive(Debug, Clone, PartialEq, Eq)]
pub enum BrowseRow {
    Parent { path: String },
    Dir { name: String, path: String },
    File { name: String, path: String },
    EmptyPlaceholder,
}

/// Navigation state of the browse overlay.
#[derive(Debug, Clone, PartialEq, Eq)]
pub struct BrowseState {
    pub cwd: String,
    pub rows: Vec<BrowseRow>,
    pub selected: usize,
    pub scroll: usize,
    pub notice: Option<String>,
    /// Origin pane cwd; when the listing is outside this tree, the footer
    /// warns that file-viewer will open in a new tab.
    pub origin_cwd: Option<String>,
}

/// A navigation command of the browse overlay.
#[derive(Debug, Clone, Copy, PartialEq, Eq, Structural)]
pub enum BrowseCommand {
    MoveUp,
    MoveDown,
    GoParent,
    EnterDir,
    Activate,
    ScrollUp,
    ScrollDown,
    SelectIndex(usize),
    Dismiss,
}

/// What the caller does next. `ReadDir` asks for the listing of `path`
/// (then [`BrowseState::finish_enter`]); `OpenFile` closes browse and opens
/// the file.
#[derive(Debug, Clone, PartialEq, Eq)]
pub enum BrowseOutcome {
    Continue,
    OpenFile { path: String },
    Dismiss,
    ReadDir { path: String },
}

/// A key or mouse event read from the terminal.
#[derive(Debug, Clone, Copy, PartialEq, Eq, Structural)]
pub enum BrowseKey {
    Char(char),
    Enter,
    Esc,
    Up,
    Down,
    Left,
    Right,
    /// 0-based screen row/col.
    MouseClick { row: u16, col: u16 },
    MouseWheelUp,
    MouseWheelDown,
}

/// A directory child, as read from the filesystem (symlinks followed).
#[derive(Debug, Clone, PartialEq, Eq)]
pub struct DirEntry {
    pub name: String,
    pub path: String,
    pub is_dir: bool,
}

/// A row as plain values.
pub enum RowView {
    Parent(Seq<char>),
    Dir(Seq<char>, Seq<char>),
    File(Seq<char>, Seq<char>),
    Empty,
}

impl View for BrowseRow {
    type V = RowView;

    open spec fn view(&self) -> RowView {
        match self {
            BrowseRow::Parent { path } => RowView::Parent(path@),
            BrowseRow::Dir { name, path } => RowView::Dir(name@, path@),
            BrowseRow::File { name, path } => RowView::File(name@, path@),
            BrowseRow::EmptyPlaceholder => RowView::Empty,
        }
    }
}

pub open spec fn rows_view(rows: Seq<BrowseRow>) -> Seq<RowView> {
    rows.map_values(|r: BrowseRow| r@)
}

pub open spec fn dotdot() -> Seq<char> {
    seq!['.', '.']
}

pub open spec fn empty_label() -> Seq<char> {
    seq!['(', 'e', 'm', 'p', 't', 'y', ')']
}

pub open spec fn cannot_read() -> Seq<char> {
    "cannot read directory"@
}

/// The text a row shows: `..`, `name/`, `name`, or `(empty)`.
pub open spec fn row_label(r: RowView) -> Seq<char> {
    match r {
        RowView::Parent(_) => dotdot(),
        RowView::Dir(name, _) => name.push('/'),
        RowView::File(name, _) => name,
        RowView::Empty => empty_label(),
    }
}

impl BrowseRow {
    /// The text the row shows (see [`row_label`]).
    pub fn display_name(&self) -> (s: String)
        ensures
            s@ == row_label(self@),
    {
        match self {
            BrowseRow::Parent { .. } => {
                let mut s = String::new();
                string_push(&mut s, '.');
                string_push(&mut s, '.');
                assert(s@ =~= dotdot());
                s
            },
            BrowseRow::Dir { name, .. } => {
                let mut s = name.clone();
                string_push(&mut s, '/');
                s
            },
            BrowseRow::File { name, .. } => name.clone(),
            BrowseRow::EmptyPlaceholder => {
                let mut s = String::new();
                push_str(&mut s, "(empty)");
                proof {
                    reveal_strlit("(empty)");
                }
                assert(s@ =~= empty_label());
                s
            },
        }
    }

    /// Whether activating the row does anything (all but the placeholder).
    pub fn is_activatable(&self) -> (r: bool)
        ensures
            r == !(self@ is Empty),
    {
        match self {
            BrowseRow::EmptyPlaceholder => false,
            _ => true,
        }
    }
}

// ---------------------------------------------------------------- listing order

/// `a` is listed before `b`: directories first, then by lowercased name.
pub open spec fn entry_before(a_dir: bool, a_low: Seq<char>, b_dir: bool, b_low: Seq<char>) -> bool {
    (a_dir && !b_dir) || (a_dir == b_dir && seq_lt(a_low, b_low))
}

pub open spec fn low(e: DirEntry) -> Seq<char> {
    lowercase_of(e.name@)
}

pub open spec fn before(es: Seq<DirEntry>, x: int, y: int) -> bool {
    entry_before(es[x].is_dir, low(es[x]), es[y].is_dir, low(es[y]))
}

/// Entry `x` sorts before entry `y` in a stable sort: strictly earlier by
/// key, or equal keys and earlier in the listing.
pub open spec fn sorts_before(es: Seq<DirEntry>, x: int, y: int) -> bool {
    before(es, x, y) || (!before(es, y, x) && x < y)
}

/// `order` is a permutation of the indices of `es` that a stable sort by
/// (directory first, lowercased name) produces.
pub open spec fn stable_order(es: Seq<DirEntry>, order: Seq<int>) -> bool {
    &&& order.len() == es.len()
    &&& forall|k: int| 0 <= k < order.len() ==> 0 <= #[trigger] order[k] < es.len()
    &&& forall|a: int, b: int| 0 <= a < b < order.len() ==> order[a] != order[b]
    &&& forall|a: int, b: int|
        0 <= a < b < order.len() ==> sorts_before(es, #[trigger] order[a], #[trigger] order[b])
}

proof fn lemma_before_props(es: Seq<DirEntry>, x: int, y: int, z: int)
    requires
        0 <= x < es.len(),
        0 <= y < es.len(),
        0 <= z < es.len(),
    ensures
        !before(es, x, x),
        before(es, x, y) ==> !before(es, y, x),
        before(es, x, y) && before(es, y, z) ==> before(es, x, z),
        !before(es, x, y) && !before(es, y, x) && before(es, y, z) ==> before(es, x, z),
        !before(es, x, y) && !before(es, y, x) && before(es, z, y) ==> before(es, z, x),
{
    lemma_seq_lt(low(es[x]), low(es[y]), low(es[z]));
    lemma_seq_lt(low(es[y]), low(es[x]), low(es[z]));
    lemma_seq_lt(low(es[z]), low(es[y]), low(es[x]));
    lemma_seq_lt(low(es[x]), low(es[z]), low(es[y]));
    lemma_seq_lt(low(es[z]), low(es[x]), low(es[y]));
    lemma_seq_lt(low(es[y]), low(es[z]), low(es[x]));
}

fn entry_precedes(entries: &Vec<DirEntry>, lows: &Vec<String>, x: usize, y: usize) -> (r: bool)
    requires
        x < entries@.len(),
        y < entries@.len(),
        lows@.len() == entries@.len(),
        forall|k: int| 0 <= k < entries@.len() ==> (#[trigger] lows@[k])@ == low(entries@[k]),
    ensures
        r == before(entries@, x as int, y as int),
{
    let x_dir = entries[x].is_dir;
    let y_dir = entries[y].is_dir;
    let x_low = str_to_chars(lows[x].as_str());
    let y_low = str_to_chars(lows[y].as_str());
    let lt = seq_less(x_low.as_slice(), y_low.as_slice());
    (x_dir && !y_dir) || (x_dir == y_dir && lt)
}

/// Indices of `entries` in listing order.
fn sort_order(entries: &Vec<DirEntry>) -> (order: Vec<usize>)
    ensures
        stable_order(entries@, order@.map_values(|i: usize| i as int)),
{
    let n = entries.len();
    let mut lows: Vec<String> = Vec::new();
    let mut i: usize = 0;
    while i < n
        invariant
            n == entries@.len(),
            i <= n,
            lows@.len() == i,
            forall|k: int| 0 <= k < i ==> (#[trigger] lows@[k])@ == low(entries@[k]),
        decreases n - i,
    {
        lows.push(to_lowercase(entries[i].name.as_str()));
        i = i + 1;
    }
    let ghost es = entries@;
    let mut order: Vec<usize> = Vec::new();
    i = 0;
    while i < n
        invariant
            n == es.len(),
            es == entries@,
            lows@.len() == n,
            forall|k: int| 0 <= k < n ==> (#[trigger] lows@[k])@ == low(es[k]),
            i <= n,
            order@.len() == i,
            forall|k: int| 0 <= k < order@.len() ==> #[trigger] order@[k] < i,
            forall|a: int, b: int| 0 <= a < b < order@.len() ==> order@[a] != order@[b],
            forall|a: int, b: int|
                0 <= a < b < order@.len() ==> sorts_before(
                    es,
                    #[trigger] order@[a] as int,
                    #[trigger] order@[b] as int,
                ),
        decreases n - i,
    {
        // first position whose entry the new entry sorts strictly before
        let mut p: usize = 0;
        while p < order.len() && !entry_precedes(entries, &lows, i, order[p])
            invariant
                n == es.len(),
                es == entries@,
                lows@.len() == n,
                forall|k: int| 0 <= k < n ==> (#[trigger] lows@[k])@ == low(es[k]),
                i < n,
                order@.len() == i,
                forall|k: int| 0 <= k < order@.len() ==> #[trigger] order@[k] < i,
                p <= order@.len(),
                forall|q: int| 0 <= q < p ==> !before(es, i as int, #[trigger] order@[q] as int),
            decreases order@.len() - p,
        {
            p = p + 1;
        }
        let ghost old_order = order@;
        assert(p < old_order.len() ==> before(es, i as int, old_order[p as int] as int));
        proof {
            // the new entry sorts before everything from `p` on
            assert forall|q: int| p <= q < old_order.len() implies before(
                es,
                i as int,
                #[trigger] old_order[q] as int,
            ) by {
                if q > p {
                    lemma_before_props(es, i as int, old_order[p as int] as int, old_order[q] as int);
                    lemma_before_props(es, old_order[q] as int, old_order[p as int] as int, i as int);
                    assert(sorts_before(es, old_order[p as int] as int, old_order[q] as int));
                }
            }
        }
        order.insert(p, i);
        proof {
            assert forall|a: int, b: int| 0 <= a < b < order@.len() implies sorts_before(
                es,
                #[trigger] order@[a] as int,
                #[trigger] order@[b] as int,
            ) by {
                if a < p && b < p {
                    assert(order@[a] == old_order[a] && order@[b] == old_order[b]);
                } else if a < p && b == p {
                    lemma_before_props(es, i as int, old_order[a] as int, i as int);
                } else if a < p && b > p {
                    assert(order@[a] == old_order[a] && order@[b] == old_order[b - 1]);
                } else if a == p {
                    assert(order@[b] == old_order[b - 1]);
                } else {
                    assert(order@[a] == old_order[a - 1] && order@[b] == old_order[b - 1]);
                }
            }
            assert forall|a: int, b: int| 0 <= a < b < order@.len() implies order@[a]
                != order@[b] by {
                if a < p && b < p {
                    assert(order@[a] == old_order[a] && order@[b] == old_order[b]);
                } else if a < p && b > p {
                    assert(order@[a] == old_order[a] && order@[b] == old_order[b - 1]);
                } else if a > p {
                    assert(order@[a] == old_order[a - 1] && order@[b] == old_order[b - 1]);
                } else if a < p && b == p {
                    assert(order@[a] == old_order[a]);
                } else {
                    assert(order@[b] == old_order[b - 1]);
                }
            }
            assert forall|k: int| 0 <= k < order@.len() implies #[trigger] order@[k] < i + 1 by {
                if k < p {
                    assert(order@[k] == old_order[k]);
                } else if k > p {
                    assert(order@[k] == old_order[k - 1]);
                }
            }
        }
        i = i + 1;
    }
    proof {
        let ov = order@.map_values(|i: usize| i as int);
        assert forall|a: int, b: int| 0 <= a < b < ov.len() implies sorts_before(
            es,
            #[trigger] ov[a],
            #[trigger] ov[b],
        ) by {
            assert(sorts_before(es, order@[a] as int, order@[b] as int));
        }
    }
    order
}

/// The rows for directory `cwd` with children `entries`: `..` when `cwd`
/// has a parent, the children in `order`, and a placeholder when there are
/// none.
pub open spec fn listing_rows(cwd: Seq<char>, entries: Seq<DirEntry>, order: Seq<int>) -> Seq<
    RowView,
> {
    let head = match parent_of(cwd) {
        Some(p) => seq![RowView::Parent(p)],
        None => seq![],
    };
    let body = order.map_values(
        |i: int|
            if entries[i].is_dir {
                RowView::Dir(entries[i].name@, entries[i].path@)
            } else {
                RowView::File(entries[i].name@, entries[i].path@)
            },
    );
    let tail = if entries.len() == 0 {
        seq![RowView::Empty]
    } else {
        seq![]
    };
    head + body + tail
}

/// Rows of a directory whose listing could not be read.
pub open spec fn fallback_rows_view(cwd: Seq<char>) -> Seq<RowView> {
    match parent_of(cwd) {
        Some(p) => seq![RowView::Parent(p), RowView::Empty],
        None => seq![RowView::Empty],
    }
}

fn parent_row(cwd: &str) -> (r: Option<BrowseRow>)
    ensures
        match parent_of(cwd@) {
            Some(p) => r is Some && r->0@ == RowView::Parent(p),
            None => r is None,
        },
{
    match parent_path(cwd) {
        Some(p) => Some(BrowseRow::Parent { path: p }),
        None => None,
    }
}

fn list_rows(cwd: &str, entries: &Vec<DirEntry>) -> (rows: Vec<BrowseRow>)
    ensures
        exists|order: Seq<int>|
            stable_order(entries@, order) && rows_view(rows@) == listing_rows(
                cwd@,
                entries@,
                order,
            ),
{
    let order = sort_order(entries);
    let ghost ord = order@.map_values(|i: usize| i as int);
    let mut rows: Vec<BrowseRow> = Vec::new();
    let ghost head = match parent_of(cwd@) {
        Some(p) => seq![RowView::Parent(p)],
        None => seq![],
    };
    match parent_row(cwd) {
        Some(r) => rows.push(r),
        None => {},
    }
    assert(rows_view(rows@) =~= head);
    let ghost body = ord.map_values(
        |i: int|
            if entries@[i].is_dir {
                RowView::Dir(entries@[i].name@, entries@[i].path@)
            } else {
                RowView::File(entries@[i].name@, entries@[i].path@)
            },
    );
    let mut k: usize = 0;
    while k < order.len()
        invariant
            ord == order@.map_values(|i: usize| i as int),
            stable_order(entries@, ord),
            body == ord.map_values(
                |i: int|
                    if entries@[i].is_dir {
                        RowView::Dir(entries@[i].name@, entries@[i].path@)
                    } else {
                        RowView::File(entries@[i].name@, entries@[i].path@)
                    },
            ),
            k <= order@.len(),
            rows_view(rows@) == head + body.take(k as int),
        decreases order@.len() - k,
    {
        assert(ord[k as int] == order@[k as int] as int);
        let e = &entries[order[k]];
        let row = if e.is_dir {
            BrowseRow::Dir { name: e.name.clone(), path: e.path.clone() }
        } else {
            BrowseRow::File { name: e.name.clone(), path: e.path.clone() }
        };
        let ghost old_rows = rows@;
        rows.push(row);
        assert(body.take(k + 1) =~= body.take(k as int).push(body[k as int]));
        assert(rows_view(rows@) =~= rows_view(old_rows).push(row@));
        k = k + 1;
    }
    assert(body.take(order@.len() as int) =~= body);
    if entries.len() == 0 {
        let ghost old_rows = rows@;
        rows.push(BrowseRow::EmptyPlaceholder);
        assert(rows_view(rows@) =~= rows_view(old_rows).push(RowView::Empty));
    }
    assert(rows_view(rows@) =~= listing_rows(cwd@, entries@, ord));
    rows
}

fn fallback_rows(cwd: &str) -> (rows: Vec<BrowseRow>)
    ensures
        rows_view(rows@) == fallback_rows_view(cwd@),
{
    let mut rows: Vec<BrowseRow> = Vec::new();
    match parent_row(cwd) {
        Some(r) => rows.push(r),
        None => {},
    }
    rows.push(BrowseRow::EmptyPlaceholder);
    assert(rows_view(rows@) =~= fallback_rows_view(cwd@));
    rows
}

// ---------------------------------------------------------------- navigation

/// `scroll` moved just enough that `sel` is among the `vr` visible rows.
pub open spec fn ensure_visible_scroll(sel: int, scroll: int, vr: int) -> int {
    let s1 = if sel < scroll {
        sel
    } else {
        scroll
    };
    if sel >= s1 + vr {
        sel + 1 - vr
    } else {
        s1
    }
}

/// `selected` is a row and lies within the rows shown from `scroll` on.
pub open spec fn selection_visible(st: BrowseState, vr: int) -> bool {
    st.scroll <= st.selected < st.scroll + vr
}

/// A usable state: at least one row, and the selection is one of them.
pub open spec fn well_formed(st: BrowseState) -> bool {
    st.rows@.len() > 0 && st.selected < st.rows@.len()
}

/// Only the selection and scroll may differ.
pub open spec fn same_listing(a: BrowseState, b: BrowseState) -> bool {
    &&& a.cwd == b.cwd
    &&& a.rows@ == b.rows@
    &&& a.notice == b.notice
    &&& a.origin_cwd == b.origin_cwd
}

/// The path of the selected row, if it is a `..` or directory row.
pub open spec fn selected_dir_path(st: BrowseState, include_parent: bool) -> Option<Seq<char>> {
    if st.selected < st.rows@.len() {
        match st.rows@[st.selected as int]@ {
            RowView::Dir(_, p) => Some(p),
            RowView::Parent(p) => if include_parent {
                Some(p)
            } else {
                None
            },
            _ => None,
        }
    } else {
        None
    }
}

/// What `apply` does to the state and answers, for each command.
pub open spec fn apply_spec(
    old: BrowseState,
    new: BrowseState,
    cmd: BrowseCommand,
    visible_rows: usize,
    out: BrowseOutcome,
) -> bool {
    let vr = if visible_rows == 0 {
        1int
    } else {
        visible_rows as int
    };
    let n = old.rows@.len() as int;
    &&& same_listing(old, new)
    &&& match cmd {
        BrowseCommand::MoveUp => {
            let sel = if old.selected > 0 {
                old.selected - 1
            } else {
                old.selected as int
            };
            &&& new.selected == sel
            &&& new.scroll == ensure_visible_scroll(sel, old.scroll as int, vr)
            &&& out == BrowseOutcome::Continue
        },
        BrowseCommand::MoveDown => {
            let sel = if n > 0 && old.selected + 1 < n {
                old.selected + 1
            } else {
                old.selected as int
            };
            &&& new.selected == sel
            &&& new.scroll == ensure_visible_scroll(sel, old.scroll as int, vr)
            &&& out == BrowseOutcome::Continue
        },
        BrowseCommand::ScrollUp => {
            &&& new.selected == old.selected
            &&& new.scroll == if old.scroll > 0 {
                old.scroll - 1
            } else {
                0
            }
            &&& out == BrowseOutcome::Continue
        },
        BrowseCommand::ScrollDown => {
            let max_scroll = if n > vr {
                n - vr
            } else {
                0
            };
            &&& new.selected == old.selected
            &&& new.scroll == if old.scroll < max_scroll {
                old.scroll + 1
            } else {
                old.scroll as int
            }
            &&& out == BrowseOutcome::Continue
        },
        BrowseCommand::SelectIndex(i) => {
            &&& new.selected == if n == 0 {
                0
            } else if i < n - 1 {
                i as int
            } else {
                n - 1
            }
            &&& new.scroll == old.scroll
            &&& out == BrowseOutcome::Continue
        },
        BrowseCommand::Dismiss => {
            &&& new == old
            &&& out == BrowseOutcome::Dismiss
        },
        BrowseCommand::GoParent => {
            &&& new.selected == old.selected
            &&& new.scroll == old.scroll
            &&& match parent_of(old.cwd@) {
                Some(p) => out matches BrowseOutcome::ReadDir { path } && path@ == p,
                None => out == BrowseOutcome::Continue,
            }
        },
        BrowseCommand::EnterDir => {
            &&& new.selected == old.selected
            &&& new.scroll == old.scroll
            &&& match selected_dir_path(old, false) {
                Some(p) => out matches BrowseOutcome::ReadDir { path } && path@ == p,
                None => out == BrowseOutcome::Continue,
            }
        },
        BrowseCommand::Activate => {
            &&& new.selected == old.selected
            &&& new.scroll == old.scroll
            &&& if old.selected < n && old.rows@[old.selected as int]@ is File {
                out matches BrowseOutcome::OpenFile { path } && RowView::File(
                    old.rows@[old.selected as int]@->File_0,
                    path@,
                ) == old.rows@[old.selected as int]@
            } else {
                match selected_dir_path(old, true) {
                    Some(p) => out matches BrowseOutcome::ReadDir { path } && path@ == p,
                    None => out == BrowseOutcome::Continue,
                }
            }
        },
    }
}

impl BrowseState {
    /// The state for directory `cwd` (already canonical), given its listing,
    /// or `None` when the directory could not be read.
    pub fn open(cwd: String, listing: Option<Vec<DirEntry>>) -> (st: Self)
        ensures
            st.cwd == cwd,
            st.selected == 0,
            st.scroll == 0,
            st.origin_cwd is None,
            well_formed(st),
            match listing {
                Some(entries) => {
                    &&& st.notice is None
                    &&& exists|order: Seq<int>|
                        stable_order(entries@, order) && rows_view(st.rows@) == listing_rows(
                            cwd@,
                            entries@,
                            order,
                        )
                },
                None => {
                    &&& st.notice matches Some(n) && n@ == cannot_read()
                    &&& rows_view(st.rows@) == fallback_rows_view(cwd@)
                },
            },
    {
        match listing {
            Some(entries) => {
                let rows = list_rows(cwd.as_str(), &entries);
                proof {
                    lemma_listing_nonempty(cwd@, entries@, rows@);
                }
                BrowseState { cwd, rows, selected: 0, scroll: 0, notice: None, origin_cwd: None }
            },
            None => {
                let rows = fallback_rows(cwd.as_str());
                assert(rows@.len() == rows_view(rows@).len());
                BrowseState {
                    cwd,
                    rows,
                    selected: 0,
                    scroll: 0,
                    notice: Some(cannot_read_string()),
                    origin_cwd: None,
                }
            },
        }
    }

    /// Applies a navigation command. `visible_rows` (at least 1) is the height of the list.
    pub fn apply(&mut self, cmd: BrowseCommand, visible_rows: usize) -> (out: BrowseOutcome)
        ensures
            apply_spec(*old(self), *final(self), cmd, visible_rows, out),
    {
        let vr = if visible_rows == 0 {
            1
        } else {
            visible_rows
        };
        match cmd {
            BrowseCommand::MoveUp => {
                if self.selected > 0 {
                    self.selected = self.selected - 1;
                }
                self.ensure_visible(vr);
                BrowseOutcome::Continue
            },
            BrowseCommand::MoveDown => {
                if self.rows.len() > 0 && self.selected < self.rows.len() - 1 {
                    self.selected = self.selected + 1;
                }
                self.ensure_visible(vr);
                BrowseOutcome::Continue
            },
            BrowseCommand::GoParent => {
                match parent_path(self.cwd.as_str()) {
                    Some(p) => BrowseOutcome::ReadDir { path: p },
                    None => BrowseOutcome::Continue,
                }
            },
            BrowseCommand::EnterDir => {
                if self.selected < self.rows.len() {
                    match &self.rows[self.selected] {
                        BrowseRow::Dir { path, .. } => BrowseOutcome::ReadDir { path: path.clone() },
                        _ => BrowseOutcome::Continue,
                    }
                } else {
                    BrowseOutcome::Continue
                }
            },
            BrowseCommand::Activate => {
                if self.selected < self.rows.len() {
                    match &self.rows[self.selected] {
                        BrowseRow::Parent { path } => BrowseOutcome::ReadDir { path: path.clone() },
                        BrowseRow::Dir { path, .. } => BrowseOutcome::ReadDir { path: path.clone() },
                        BrowseRow::File { path, .. } => BrowseOutcome::OpenFile { path: path.clone() },
                        BrowseRow::EmptyPlaceholder => BrowseOutcome::Continue,
                    }
                } else {
                    BrowseOutcome::Continue
                }
            },
            BrowseCommand::ScrollUp => {
                if self.scroll > 0 {
                    self.scroll = self.scroll - 1;
                }
                BrowseOutcome::Continue
            },
            BrowseCommand::ScrollDown => {
                let n = self.rows.len();
                let max_scroll = if n > vr {
                    n - vr
                } else {
                    0
                };
                if self.scroll < max_scroll {
                    self.scroll = self.scroll + 1;
                }
                BrowseOutcome::Continue
            },
            BrowseCommand::SelectIndex(index) => {
                let n = self.rows.len();
                if n == 0 {
                    self.selected = 0;
                } else if index < n - 1 {
                    self.selected = index;
                } else {
                    self.selected = n - 1;
                }
                BrowseOutcome::Continue
            },
            BrowseCommand::Dismiss => BrowseOutcome::Dismiss,
        }
    }

    fn ensure_visible(&mut self, vr: usize)
        requires
            vr >= 1,
        ensures
            final(self).scroll == ensure_visible_scroll(
                old(self).selected as int,
                old(self).scroll as int,
                vr as int,
            ),
            final(self).selected == old(self).selected,
            same_listing(*old(self), *final(self)),
    {
        if self.selected < self.scroll {
            self.scroll = self.selected;
        }
        if self.selected >= self.scroll && self.selected - self.scroll >= vr {
            self.scroll = self.selected - vr + 1;
        }
    }

    /// Finishes entering directory `path` after `ReadDir`, given its
    /// listing (`None`: it could not be read) and its canonical form: with a
    /// listing, the state moves to `canonical`, rows listed under `path`,
    /// with the first row selected; without one, the previous listing stays
    /// and a notice is shown.
    pub fn finish_enter(&mut self, path: String, canonical: String, listing: Option<Vec<DirEntry>>)
        ensures
            final(self).origin_cwd == old(self).origin_cwd,
            match listing {
                Some(entries) => {
                    &&& final(self).cwd == canonical
                    &&& final(self).selected == 0
                    &&& final(self).scroll == 0
                    &&& final(self).notice is None
                    &&& exists|order: Seq<int>|
                        stable_order(entries@, order) && rows_view(final(self).rows@)
                            == listing_rows(path@, entries@, order)
                },
                None => {
                    &&& final(self).cwd == old(self).cwd
                    &&& final(self).rows@ == old(self).rows@
                    &&& final(self).selected == old(self).selected
                    &&& final(self).scroll == old(self).scroll
                    &&& final(self).notice matches Some(n) && n@ == cannot_read()
                },
            },
    {
        match listing {
            Some(entries) => {
                let rows = list_rows(path.as_str(), &entries);
                self.cwd = canonical;
                self.rows = rows;
                self.selected = 0;
                self.scroll = 0;
                self.notice = None;
            },
            None => {
                self.notice = Some(cannot_read_string());
            },
        }
    }
}

fn cannot_read_string() -> (s: String)
    ensures
        s@ == cannot_read(),
{
    let mut s = String::new();
    push_str(&mut s, "cannot read directory");
    s
}

proof fn lemma_listing_nonempty(cwd: Seq<char>, entries: Seq<DirEntry>, rows: Seq<BrowseRow>)
    requires
        exists|order: Seq<int>|
            stable_order(entries, order) && rows_view(rows) == listing_rows(cwd, entries, order),
    ensures
        rows.len() > 0,
{
    let order = choose|order: Seq<int>|
        stable_order(entries, order) && rows_view(rows) == listing_rows(cwd, entries, order);
    assert(rows.len() == rows_view(rows).len());
    if entries.len() == 0 {
        assert(listing_rows(cwd, entries, order).len() > 0);
    } else {
        assert(listing_rows(cwd, entries, order).len() >= order.len());
    }
}

// ---------------------------------------------------------------- laws

/// Moving the selection up or down keeps it among the visible rows
/// (`scroll <= selected < scroll + visible_rows`).
pub proof fn lemma_move_keeps_selection_visible(
    old: BrowseState,
    new: BrowseState,
    cmd: BrowseCommand,
    visible_rows: usize,
    out: BrowseOutcome,
)
    requires
        apply_spec(old, new, cmd, visible_rows, out),
        cmd is MoveUp || cmd is MoveDown,
    ensures
        selection_visible(
            new,
            if visible_rows == 0 {
                1
            } else {
                visible_rows as int
            },
        ),
{
}

/// Moving goes one row at a time: down selects the next row when there is
/// one, up the previous one when there is one, and otherwise the selection
/// stays; the rows themselves do not change.
pub proof fn lemma_move_one_row(
    old: BrowseState,
    new: BrowseState,
    cmd: BrowseCommand,
    visible_rows: usize,
    out: BrowseOutcome,
)
    requires
        apply_spec(old, new, cmd, visible_rows, out),
    ensures
        cmd is MoveDown ==> (old.selected + 1 < old.rows@.len() ==> new.selected == old.selected + 1)
            && (old.selected + 1 >= old.rows@.len() ==> new.selected == old.selected),
        cmd is MoveUp ==> (old.selected >= 1 ==> new.selected + 1 == old.selected) && (
        old.selected == 0 ==> new.selected == 0),
        new.rows@ == old.rows@,
{
}

/// Moving down and then back up returns to the row it started from, when
/// there was a row below it.
pub proof fn lemma_down_then_up(
    s0: BrowseState,
    s1: BrowseState,
    s2: BrowseState,
    visible_rows: usize,
    o1: BrowseOutcome,
    o2: BrowseOutcome,
)
    requires
        apply_spec(s0, s1, BrowseCommand::MoveDown, visible_rows, o1),
        apply_spec(s1, s2, BrowseCommand::MoveUp, visible_rows, o2),
        s0.selected + 1 < s0.rows@.len(),
    ensures
        s2.selected == s0.selected,
{
    lemma_move_one_row(s0, s1, BrowseCommand::MoveDown, visible_rows, o1);
    lemma_move_one_row(s1, s2, BrowseCommand::MoveUp, visible_rows, o2);
}

/// A well-formed state stays well-formed under every command.
pub proof fn lemma_apply_keeps_well_formed(
    old: BrowseState,
    new: BrowseState,
    cmd: BrowseCommand,
    visible_rows: usize,
    out: BrowseOutcome,
)
    requires
        well_formed(old),
        apply_spec(old, new, cmd, visible_rows, out),
    ensures
        well_formed(new),
{
}

/// Entering a directory that could be read leaves a well-formed state with
/// the first row selected; a failed read leaves the listing as it was.
pub proof fn lemma_enter_keeps_well_formed(
    old: BrowseState,
    new: BrowseState,
    path: String,
    listing: Option<Vec<DirEntry>>,
)
    requires
        well_formed(old),
        match listing {
            Some(entries) => {
                &&& new.selected == 0
                &&& exists|order: Seq<int>|
                    stable_order(entries@, order) && rows_view(new.rows@) == listing_rows(
                        path@,
                        entries@,
                        order,
                    )
            },
            None => new.rows@ == old.rows@ && new.selected == old.selected,
        },
    ensures
        well_formed(new),
{
    match listing {
        Some(entries) => lemma_listing_nonempty(path@, entries@, new.rows@),
        None => {},
    }
}

// ---------------------------------------------------------------- keys

/// The command bound to a key (`None` for unbound keys and clicks, which
/// go through [`click_command`]).
pub open spec fn key_command(key: BrowseKey) -> Option<BrowseCommand> {
    match key {
        BrowseKey::Char(c) => if c == 'k' {
            Some(BrowseCommand::MoveUp)
        } else if c == 'j' {
            Some(BrowseCommand::MoveDown)
        } else if c == 'h' {
            Some(BrowseCommand::GoParent)
        } else if c == 'l' {
            Some(BrowseCommand::EnterDir)
        } else if c == 'q' || c == 'Q' {
            Some(BrowseCommand::Dismiss)
        } else {
            None
        },
        BrowseKey::Up => Some(BrowseCommand::MoveUp),
        BrowseKey::Down => Some(BrowseCommand::MoveDown),
        BrowseKey::Left => Some(BrowseCommand::GoParent),
        BrowseKey::Right => Some(BrowseCommand::EnterDir),
        BrowseKey::Enter => Some(BrowseCommand::Activate),
        BrowseKey::Esc => Some(BrowseCommand::Dismiss),
        BrowseKey::MouseWheelUp => Some(BrowseCommand::ScrollUp),
        BrowseKey::MouseWheelDown => Some(BrowseCommand::ScrollDown),
        BrowseKey::MouseClick { .. } => None,
    }
}

/// The command bound to `key` (see [`key_command`]).
pub fn map_browse_key(key: BrowseKey) -> (r: Option<BrowseCommand>)
    ensures
        r == key_command(key),
{
    match key {
        BrowseKey::Char(c) => {
            if c == 'k' {
                Some(BrowseCommand::MoveUp)
            } else if c == 'j' {
                Some(BrowseCommand::MoveDown)
            } else if c == 'h' {
                Some(BrowseCommand::GoParent)
            } else if c == 'l' {
                Some(BrowseCommand::EnterDir)
            } else if c == 'q' || c == 'Q' {
                Some(BrowseCommand::Dismiss)
            } else {
                None
            }
        },
        BrowseKey::Up => Some(BrowseCommand::MoveUp),
        BrowseKey::Down => Some(BrowseCommand::MoveDown),
        BrowseKey::Left => Some(BrowseCommand::GoParent),
        BrowseKey::Right => Some(BrowseCommand::EnterDir),
        BrowseKey::Enter => Some(BrowseCommand::Activate),
        BrowseKey::Esc => Some(BrowseCommand::Dismiss),
        BrowseKey::MouseWheelUp => Some(BrowseCommand::ScrollUp),
        BrowseKey::MouseWheelDown => Some(BrowseCommand::ScrollDown),
        BrowseKey::MouseClick { .. } => None,
    }
}

/// The row a click on screen row `screen_row` (of `total_rows`) selects:
/// row 0 is the header and the last row the footer.
pub open spec fn click_index(st: BrowseState, screen_row: u16, total_rows: u16) -> Option<int> {
    if total_rows == 0 || screen_row == 0 || screen_row + 1 >= total_rows {
        None
    } else if st.scroll + screen_row - 1 < st.rows@.len() {
        Some(st.scroll + screen_row - 1)
    } else {
        None
    }
}

/// The command a click on `screen_row` gives: select the row under it.
pub fn click_command(state: &BrowseState, screen_row: u16, total_rows: u16) -> (r: Option<
    BrowseCommand,
>)
    ensures
        match click_index(*state, screen_row, total_rows) {
            Some(i) => r == Some(BrowseCommand::SelectIndex(i as usize)),
            None => r is None,
        },
{
    if total_rows == 0 || screen_row == 0 || screen_row >= total_rows - 1 {
        return None;
    }
    let list_row = (screen_row - 1) as usize;
    let n = state.rows.len();
    if state.scroll < n && list_row < n - state.scroll {
        Some(BrowseCommand::SelectIndex(state.scroll + list_row))
    } else {
        None
    }
}

/// A click only ever selects an existing row.
pub proof fn lemma_click_selects_a_row(st: BrowseState, screen_row: u16, total_rows: u16)
    ensures
        click_index(st, screen_row, total_rows) matches Some(i) ==> 0 <= i < st.rows@.len(),
{
}

/// The height of the list on a terminal of `rows` rows: all but the header
/// and the footer, at least one.
pub open spec fn list_height(rows: u16) -> usize {
    if rows >= 3 {
        (rows - 2) as usize
    } else {
        1
    }
}

impl BrowseState {
    /// Handles one key of the browse overlay on a terminal of `rows` rows: a
    /// click on a list row selects that row and activates it; another key
    /// runs its command; anything else changes nothing.
    pub fn handle_key(&mut self, key: BrowseKey, rows: u16) -> (out: BrowseOutcome)
        ensures
            match key {
                BrowseKey::MouseClick { row, .. } => match click_index(*old(self), row, rows) {
                    Some(i) => exists|mid: BrowseState, o: BrowseOutcome|
                        #[trigger] apply_spec(
                            *old(self),
                            mid,
                            BrowseCommand::SelectIndex(i as usize),
                            list_height(rows),
                            o,
                        ) && apply_spec(
                            mid,
                            *final(self),
                            BrowseCommand::Activate,
                            list_height(rows),
                            out,
                        ),
                    None => *final(self) == *old(self) && out == BrowseOutcome::Continue,
                },
                _ => match key_command(key) {
                    Some(cmd) => apply_spec(*old(self), *final(self), cmd, list_height(rows), out),
                    None => *final(self) == *old(self) && out == BrowseOutcome::Continue,
                },
            },
    {
        let h: usize = if rows >= 3 {
            (rows - 2) as usize
        } else {
            1
        };
        match key {
            BrowseKey::MouseClick { row, .. } => match click_command(self, row, rows) {
                Some(cmd) => {
                    let ghost s0 = *self;
                    let o1 = self.apply(cmd, h);
                    let ghost mid = *self;
                    let out = self.apply(BrowseCommand::Activate, h);
                    assert(h == list_height(rows));
                    assert(apply_spec(s0, mid, cmd, h, o1) && apply_spec(
                        mid,
                        *self,
                        BrowseCommand::Activate,
                        h,
                        out,
                    ));
                    out
                },
                None => BrowseOutcome::Continue,
            },
            _ => match map_browse_key(key) {
                Some(cmd) => self.apply(cmd, h),
                None => BrowseOutcome::Continue,
            },
        }
    }
}

// ---------------------------------------------------------------- input bytes

pub open spec fn latin(b: Seq<u8>) -> Seq<char> {
    b.map_values(|x: u8| x as char)
}

/// The three `;`-separated numbers of an SGR mouse report body, each a
/// `u16`; `None` unless there are exactly three.
pub open spec fn sgr_fields(body: Seq<char>) -> Option<(nat, nat, nat)> {
    let i1 = first_from(body, ';', 0);
    let i2 = first_from(body, ';', i1 + 1);
    if i1 < body.len() && i2 < body.len() && first_from(body, ';', i2 + 1) == body.len() {
        match (
            parse_unsigned(body.subrange(0, i1), 65535),
            parse_unsigned(body.subrange(i1 + 1, i2), 65535),
            parse_unsigned(body.subrange(i2 + 1, body.len() as int), 65535),
        ) {
            (Some(a), Some(b), Some(c)) => Some((a, b, c)),
            _ => None,
        }
    } else {
        None
    }
}

/// Decodes `rest` = `<body>M` of an SGR mouse press (`ESC [ <` already
/// removed): button 0 is a click (1-based column/row made 0-based), 64/65
/// the wheel.
pub open spec fn sgr_mouse(rest: Seq<u8>) -> Option<BrowseKey> {
    if rest.len() == 0 || rest.last() != 77u8 {
        None
    } else {
        match sgr_fields(latin(rest.drop_last())) {
            Some((btn, col, row)) => if btn == 0 {
                Some(
                    BrowseKey::MouseClick {
                        row: if row > 0 {
                            (row - 1) as u16
                        } else {
                            0
                        },
                        col: if col > 0 {
                            (col - 1) as u16
                        } else {
                            0
                        },
                    },
                )
            } else if btn == 64 {
                Some(BrowseKey::MouseWheelUp)
            } else if btn == 65 {
                Some(BrowseKey::MouseWheelDown)
            } else {
                None
            },
            None => None,
        }
    }
}

pub open spec fn is_graphic_or_space(b: u8) -> bool {
    0x21 <= b <= 0x7e || b == 0x20
}

/// The key that the bytes `p` (one key or escape sequence) stand for.
pub open spec fn input_key(p: Seq<u8>) -> Option<BrowseKey> {
    if p.len() == 1 && (p[0] == 13u8 || p[0] == 10u8) {
        Some(BrowseKey::Enter)
    } else if p.len() == 1 && p[0] == 27u8 {
        Some(BrowseKey::Esc)
    } else if p.len() >= 3 && p[0] == 27u8 && p[1] == 91u8 && p[2] == 65u8 {
        Some(BrowseKey::Up)
    } else if p.len() >= 3 && p[0] == 27u8 && p[1] == 91u8 && p[2] == 66u8 {
        Some(BrowseKey::Down)
    } else if p.len() >= 3 && p[0] == 27u8 && p[1] == 91u8 && p[2] == 67u8 {
        Some(BrowseKey::Right)
    } else if p.len() >= 3 && p[0] == 27u8 && p[1] == 91u8 && p[2] == 68u8 {
        Some(BrowseKey::Left)
    } else if p.len() >= 3 && p[0] == 27u8 && p[1] == 91u8 && p[2] == 60u8 {
        // up to the first `M` or `m`
        let ends = latin(p);
        let em = first_from(ends, 'M', 0);
        let el = first_from(ends, 'm', 0);
        let end = if em < el {
            em
        } else {
            el
        };
        if end < p.len() {
            sgr_mouse(p.subrange(3, end + 1))
        } else {
            None
        }
    } else if p.len() == 1 && is_graphic_or_space(p[0]) {
        Some(BrowseKey::Char(p[0] as char))
    } else {
        None
    }
}

fn bytes_to_chars(b: &[u8]) -> (v: Vec<char>)
    ensures
        v@ == latin(b@),
{
    let mut v: Vec<char> = Vec::new();
    let mut i: usize = 0;
    while i < b.len()
        invariant
            i <= b@.len(),
            v@ == latin(b@.take(i as int)),
        decreases b@.len() - i,
    {
        v.push(b[i] as char);
        assert(latin(b@.take(i + 1)) =~= latin(b@.take(i as int)).push(b@[i as int] as char));
        i = i + 1;
    }
    assert(b@.take(b@.len() as int) =~= b@);
    v
}

fn parse_u16_field(v: &[char], from: usize, to: usize) -> (r: Option<u16>)
    requires
        from <= to <= v@.len(),
    ensures
        match parse_unsigned(v@.subrange(from as int, to as int), 65535) {
            Some(x) => r == Some(x as u16),
            None => r is None,
        },
{
    match parse_usize_range(v, from, to) {
        Some(x) => {
            if x <= 65535 {
                Some(x as u16)
            } else {
                None
            }
        },
        None => None,
    }
}

fn parse_sgr_mouse(rest: &[u8]) -> (r: Option<BrowseKey>)
    ensures
        r == sgr_mouse(rest@),
{
    let n = rest.len();
    if n == 0 || rest[n - 1] != 77u8 {
        return None;
    }
    let all = bytes_to_chars(rest);
    let body_len = n - 1;
    let ghost body = latin(rest@.drop_last());
    assert(all@.subrange(0, body_len as int) =~= body);
    let v = slice_chars(all.as_slice(), body_len);
    assert(v@ =~= body);
    let i1 = find_char_from(v.as_slice(), ';', 0);
    if i1 >= body_len {
        return None;
    }
    let i2 = find_char_from(v.as_slice(), ';', i1 + 1);
    proof {
        lemma_first_from(body, ';', i1 + 1);
    }
    if i2 >= body_len {
        return None;
    }
    let i3 = find_char_from(v.as_slice(), ';', i2 + 1);
    if i3 != body_len {
        proof {
            lemma_first_from(body, ';', i2 + 1);
        }
        return None;
    }
    let btn = match parse_u16_field(v.as_slice(), 0, i1) {
        Some(x) => x,
        None => {
            return None;
        },
    };
    let col = match parse_u16_field(v.as_slice(), i1 + 1, i2) {
        Some(x) => x,
        None => {
            return None;
        },
    };
    let row = match parse_u16_field(v.as_slice(), i2 + 1, body_len) {
        Some(x) => x,
        None => {
            return None;
        },
    };
    if btn == 0 {
        Some(
            BrowseKey::MouseClick {
                row: if row > 0 {
                    row - 1
                } else {
                    0
                },
                col: if col > 0 {
                    col - 1
                } else {
                    0
                },
            },
        )
    } else if btn == 64 {
        Some(BrowseKey::MouseWheelUp)
    } else if btn == 65 {
        Some(BrowseKey::MouseWheelDown)
    } else {
        None
    }
}

fn slice_chars(v: &[char], len: usize) -> (w: Vec<char>)
    requires
        len <= v@.len(),
    ensures
        w@ == v@.subrange(0, len as int),
{
    let mut w: Vec<char> = Vec::new();
    let mut i: usize = 0;
    while i < len
        invariant
            i <= len <= v@.len(),
            w@ == v@.subrange(0, i as int),
        decreases len - i,
    {
        w.push(v[i]);
        assert(w@ =~= v@.subrange(0, i + 1));
        i = i + 1;
    }
    w
}

fn sub_bytes(b: &[u8], from: usize, to: usize) -> (w: Vec<u8>)
    requires
        from <= to <= b@.len(),
    ensures
        w@ == b@.subrange(from as int, to as int),
{
    let mut w: Vec<u8> = Vec::new();
    let mut i: usize = from;
    while i < to
        invariant
            from <= i <= to <= b@.len(),
            w@ == b@.subrange(from as int, i as int),
        decreases to - i,
    {
        w.push(b[i]);
        assert(w@ =~= b@.subrange(from as int, i + 1));
        i = i + 1;
    }
    w
}

/// Decodes one key (or escape sequence) read from the terminal.
pub fn parse_browse_input(prefix: &[u8]) -> (r: Option<BrowseKey>)
    ensures
        r == input_key(prefix@),
{
    let n = prefix.len();
    if n == 1 && (prefix[0] == 13u8 || prefix[0] == 10u8) {
        return Some(BrowseKey::Enter);
    }
    if n == 1 && prefix[0] == 27u8 {
        return Some(BrowseKey::Esc);
    }
    if n >= 3 && prefix[0] == 27u8 && prefix[1] == 91u8 {
        let c = prefix[2];
        if c == 65u8 {
            return Some(BrowseKey::Up);
        }
        if c == 66u8 {
            return Some(BrowseKey::Down);
        }
        if c == 67u8 {
            return Some(BrowseKey::Right);
        }
        if c == 68u8 {
            return Some(BrowseKey::Left);
        }
        if c == 60u8 {
            let all = bytes_to_chars(prefix);
            let em = find_char_from(all.as_slice(), 'M', 0);
            let el = find_char_from(all.as_slice(), 'm', 0);
            let end = if em < el {
                em
            } else {
                el
            };
            if end < n {
                proof {
                    lemma_first_from(latin(prefix@), 'M', 0);
                    lemma_first_from(latin(prefix@), 'm', 0);
                    assert(latin(prefix@)[0] == 27u8 as char);
                    assert(latin(prefix@)[1] == 91u8 as char);
                    assert(latin(prefix@)[2] == 60u8 as char);
                }
                let rest = sub_bytes(prefix, 3, end + 1);
                return parse_sgr_mouse(rest.as_slice());
            }
            return None;
        }
    }
    if n == 1 && ((0x21u8 <= prefix[0] && prefix[0] <= 0x7eu8) || prefix[0] == 0x20u8) {
        return Some(BrowseKey::Char(prefix[0] as char));
    }
    None
}

/// Length of the first whole key or escape sequence at the front of
/// `input`: a CSI sequence (`ESC [`) runs to its first ASCII letter.
pub open spec fn first_input_len_spec(input: Seq<u8>) -> Option<nat> {
    if input.len() == 0 {
        None
    } else if input.len() >= 2 && input[0] == 27u8 && input[1] == 91u8 {
        let rest = input.subrange(2, input.len() as int);
        let k = first_letter_from(rest, 0);
        if k < rest.len() {
            Some((2 + k + 1) as nat)
        } else {
            None
        }
    } else {
        Some(1)
    }
}

pub open spec fn is_ascii_letter_byte(b: u8) -> bool {
    (65u8 <= b && b <= 90u8) || (97u8 <= b && b <= 122u8)
}

/// Index of the first ASCII letter in `s[i..]`, or `s.len()`.
pub open spec fn first_letter_from(s: Seq<u8>, i: int) -> int
    decreases s.len() - i,
{
    if i >= s.len() {
        s.len() as int
    } else if is_ascii_letter_byte(s[i]) {
        i
    } else {
        first_letter_from(s, i + 1)
    }
}

/// Bytes of the first complete key or CSI sequence at the front of `input`.
pub fn first_input_len(input: &[u8]) -> (r: Option<usize>)
    ensures
        match first_input_len_spec(input@) {
            Some(k) => r == Some(k as usize),
            None => r is None,
        },
{
    let n = input.len();
    if n == 0 {
        return None;
    }
    if n >= 2 && input[0] == 27u8 && input[1] == 91u8 {
        let ghost rest = input@.subrange(2, n as int);
        let mut i: usize = 2;
        while i < n
            invariant
                2 <= i <= n,
                n == input@.len(),
                input@[0] == 27u8,
                input@[1] == 91u8,
                rest == input@.subrange(2, n as int),
                first_letter_from(rest, 0) == first_letter_from(rest, i - 2),
            decreases n - i,
        {
            let b = input[i];
            assert(rest[i - 2] == b);
            if (65u8 <= b && b <= 90u8) || (97u8 <= b && b <= 122u8) {
                assert(is_ascii_letter_byte(rest[i - 2]));
                assert(first_letter_from(rest, i - 2) == i - 2);
                assert(first_input_len_spec(input@) == Some((i + 1) as nat));
                return Some(i + 1);
            }
            i = i + 1;
        }
        return None;
    }
    Some(1)
}

/// Takes the first whole key or escape sequence off the front of the bytes
/// read so far and decodes it; when it is not whole yet, nothing is taken.
pub fn take_input(pending: &mut Vec<u8>) -> (r: Option<Option<BrowseKey>>)
    ensures
        match first_input_len_spec(old(pending)@) {
            Some(n) => final(pending)@ == old(pending)@.skip(n as int) && r == Some(
                input_key(old(pending)@.take(n as int)),
            ),
            None => final(pending)@ == old(pending)@ && r is None,
        },
{
    match first_input_len(pending.as_slice()) {
        Some(n) => {
            proof {
                lemma_first_input_len_bound(pending@);
            }
            let len = pending.len();
            let head = sub_bytes(pending.as_slice(), 0, n);
            let tail = sub_bytes(pending.as_slice(), n, len);
            assert(head@ =~= pending@.take(n as int));
            assert(tail@ =~= pending@.skip(n as int));
            *pending = tail;
            Some(parse_browse_input(head.as_slice()))
        },
        None => None,
    }
}

proof fn lemma_first_input_len_bound(input: Seq<u8>)
    ensures
        first_input_len_spec(input) matches Some(n) ==> 1 <= n <= input.len(),
{
    if input.len() >= 2 && input[0] == 27u8 && input[1] == 91u8 {
        let rest = input.subrange(2, input.len() as int);
        lemma_first_letter_from(rest, 0);
    }
}

proof fn lemma_first_letter_from(s: Seq<u8>, i: int)
    requires
        0 <= i <= s.len(),
    ensures
        i <= first_letter_from(s, i) <= s.len(),
    decreases s.len() - i,
{
    if i < s.len() && !is_ascii_letter_byte(s[i]) {
        lemma_first_letter_from(s, i + 1);
    }
}

// ---------------------------------------------------------------- frame

pub open spec fn dim() -> Seq<char> {
    "\x1b[2;90m"@
}

pub open spec fn reset() -> Seq<char> {
    "\x1b[0m"@
}

pub open spec fn rev() -> Seq<char> {
    "\x1b[7m"@
}

pub open spec fn legend() -> Seq<char> {
    "browse · j/k move · enter open · h parent · l enter · q cancel"@
}

pub open spec fn outside_tab() -> Seq<char> {
    "outside this tab's cwd · file-viewer opens in a new tab · j/k enter q"@
}

/// The first `n` characters of `s` (all of it when shorter).
pub open spec fn trunc(s: Seq<char>, n: int) -> Seq<char> {
    if n < s.len() {
        s.take(n)
    } else {
        s
    }
}

/// Footer text: the notice, else a warning when the listing lies outside the
/// origin pane's tree, else the key legend.
pub open spec fn footer(st: BrowseState) -> Seq<char> {
    match st.notice {
        Some(n) => n@,
        None => match st.origin_cwd {
            Some(o) => if !path_starts_with(st.cwd@, o@) {
                outside_tab()
            } else {
                legend()
            },
            None => legend(),
        },
    }
}

/// Screen line for list row `idx`: `> label` highlighted when selected,
/// `  label` otherwise, blank past the end of the rows.
pub open spec fn row_line(st: BrowseState, idx: int, cols: int) -> Seq<char> {
    if 0 <= idx < st.rows@.len() {
        let marker = if idx == st.selected {
            '>'
        } else {
            ' '
        };
        let text = trunc(seq![marker, ' '] + row_label(st.rows@[idx]@), cols);
        if idx == st.selected {
            rev() + text + reset()
        } else {
            text
        }
    } else {
        seq![]
    }
}

/// The lines of a frame of `rows` x `cols` cells (at least 2 rows and 1
/// column): the directory, the visible list rows, the footer.
pub open spec fn frame_lines(st: BrowseState, rows: u16, cols: u16) -> Seq<Seq<char>> {
    let r = if rows < 2 {
        2int
    } else {
        rows as int
    };
    let c = if cols < 1 {
        1int
    } else {
        cols as int
    };
    seq![dim() + trunc(st.cwd@, c) + reset()] + Seq::new(
        (r - 2) as nat,
        |i: int| row_line(st, st.scroll + i, c),
    ) + seq![trunc(footer(st), c)]
}

/// `lines` joined with `\n` between them.
pub open spec fn join_lines(lines: Seq<Seq<char>>) -> Seq<char>
    decreases lines.len(),
{
    if lines.len() == 0 {
        seq![]
    } else if lines.len() == 1 {
        lines[0]
    } else {
        join_lines(lines.drop_last()) + seq!['\n'] + lines.last()
    }
}

/// A copy of the first `n` characters of `s`.
fn truncate_chars(s: &str, n: usize) -> (r: String)
    ensures
        r@ == trunc(s@, n as int),
{
    let v = str_to_chars(s);
    let m = if n < v.len() {
        n
    } else {
        v.len()
    };
    let r = crate::text::string_from_range(v.as_slice(), 0, m);
    assert(v@.subrange(0, m as int) =~= trunc(s@, n as int));
    r
}

fn footer_text(st: &BrowseState) -> (r: String)
    ensures
        r@ == footer(*st),
{
    match &st.notice {
        Some(n) => n.clone(),
        None => match &st.origin_cwd {
            Some(o) => {
                if !starts_with_path(st.cwd.as_str(), o.as_str()) {
                    "outside this tab's cwd · file-viewer opens in a new tab · j/k enter q".to_string()
                } else {
                    "browse · j/k move · enter open · h parent · l enter · q cancel".to_string()
                }
            },
            None => "browse · j/k move · enter open · h parent · l enter · q cancel".to_string(),
        },
    }
}

fn row_line_text(st: &BrowseState, idx: usize, cols: usize) -> (r: String)
    ensures
        r@ == row_line(*st, idx as int, cols as int),
{
    if idx >= st.rows.len() {
        return String::new();
    }
    let mut text = String::new();
    let marker = if idx == st.selected {
        '>'
    } else {
        ' '
    };
    string_push(&mut text, marker);
    string_push(&mut text, ' ');
    let label = st.rows[idx].display_name();
    push_str(&mut text, label.as_str());
    assert(text@ =~= seq![marker, ' '] + row_label(st.rows@[idx as int]@));
    let cut = truncate_chars(text.as_str(), cols);
    if idx == st.selected {
        let mut out = String::new();
        push_str(&mut out, "\x1b[7m");
        push_str(&mut out, cut.as_str());
        push_str(&mut out, "\x1b[0m");
        out
    } else {
        cut
    }
}

/// The browse overlay frame: lines separated by `\n`, no trailing newline.
pub fn render_browse(state: &BrowseState, rows: u16, cols: u16) -> (frame: String)
    ensures
        frame@ == join_lines(frame_lines(*state, rows, cols)),
{
    let r: usize = if rows < 2 {
        2
    } else {
        rows as usize
    };
    let c: usize = if cols < 1 {
        1
    } else {
        cols as usize
    };
    let ghost lines = frame_lines(*state, rows, cols);
    let mut out = String::new();
    push_str(&mut out, "\x1b[2;90m");
    let cwd = truncate_chars(state.cwd.as_str(), c);
    push_str(&mut out, cwd.as_str());
    push_str(&mut out, "\x1b[0m");
    assert(out@ =~= join_lines(lines.take(1))) by {
        assert(lines.take(1).len() == 1);
    }
    let list_height = r - 2;
    let mut i: usize = 0;
    while i < list_height
        invariant
            r == if rows < 2 {
                2int
            } else {
                rows as int
            },
            list_height == r - 2,
            lines == frame_lines(*state, rows, cols),
            lines.len() == list_height + 2,
            c == if cols < 1 {
                1int
            } else {
                cols as int
            },
            i <= list_height,
            out@ == join_lines(lines.take(i + 1)),
        decreases list_height - i,
    {
        let nrows = state.rows.len();
        let line = if state.scroll <= usize::MAX - i {
            row_line_text(state, state.scroll + i, c)
        } else {
            String::new()
        };
        proof {
            let head = seq![dim() + trunc(state.cwd@, c as int) + reset()];
            let mid = Seq::new((r - 2) as nat, |j: int| row_line(*state, state.scroll + j, c as int));
            let tail = seq![trunc(footer(*state), c as int)];
            assert(lines == head + mid + tail);
            assert(lines[i + 1] == mid[i as int]);
        }
        assert(line@ == lines[i + 1]);
        string_push(&mut out, '\n');
        push_str(&mut out, line.as_str());
        assert(lines.take(i + 2).drop_last() =~= lines.take(i + 1));
        i = i + 1;
    }
    let foot = footer_text(state);
    let foot_cut = truncate_chars(foot.as_str(), c);
    string_push(&mut out, '\n');
    push_str(&mut out, foot_cut.as_str());
    assert(lines.take(list_height + 2) =~= lines);
    assert(lines.drop_last() =~= lines.take(list_height + 1));
    out
}

} // verus!
