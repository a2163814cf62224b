//! Turns a candidate into a target: a URL, an existing file or directory
//! (with the spec to open it: path plus optional `:N` / `:A-B`), or missing.
//!
//! Nothing here touches the filesystem or the environment. The caller asks
//! [`classify_request`] which path to look at, looks (kind of that path, and,
//! for collapsed `…` paths that miss, a walk of the working directory), and
//! passes what it found to [`classify`].
use vstd::prelude::*;
use vstd::utf8::{decode_utf8, is_continuation_byte, valid_utf8};
use crate::paths::{
    comp_bounds, component_bounds, components, has_component, has_component_exec, is_normal_comp,
    is_rooted, join_comps, lemma_comp_bounds, normalize_comps, pairs_int, path_starts_with,
    starts_with_path,
};
use crate::text::{
    find_char_from, first_from, is_whitespace, is_ws, lemma_first_from, matches_at, matches_at_exec,
    parse_unsigned, parse_usize_range, push_range, push_str, str_to_chars, string_from_chars,
    string_from_range, string_push, last_before, rfind_char_before, lemma_last_before,
};

verus! {

// ---------------------------------------------------------------- trimming

/// Index of the first non-whitespace character of `s[i..]`, or `s.len()`.
pub open spec fn ws_front(s: Seq<char>, i: int) -> int
    decreases s.len() - i,
{
    if i < s.len() && 0 <= i && is_ws(s[i]) {
        ws_front(s, i + 1)
    } else {
        i
    }
}

/// End of `s[lo..j]` once trailing whitespace is dropped.
pub open spec fn ws_back(s: Seq<char>, lo: int, j: int) -> int
    decreases j - lo,
{
    if j > lo && j <= s.len() && is_ws(s[j - 1]) {
        ws_back(s, lo, j - 1)
    } else {
        j
    }
}

/// `str::trim`: leading and trailing Unicode whitespace removed.
pub open spec fn trim_spec(s: Seq<char>) -> Seq<char> {
    let a = ws_front(s, 0);
    s.subrange(a, ws_back(s, a, s.len() as int))
}

proof fn lemma_ws_bounds(s: Seq<char>, i: int, lo: int, j: int)
    requires
        0 <= i <= s.len(),
        0 <= lo <= j <= s.len(),
    ensures
        i <= ws_front(s, i) <= s.len(),
        lo <= ws_back(s, lo, j) <= j,
    decreases s.len() - i + j - lo,
{
    if i < s.len() && is_ws(s[i]) {
        lemma_ws_bounds(s, i + 1, lo, j);
    } else if j > lo && is_ws(s[j - 1]) {
        lemma_ws_bounds(s, i, lo, j - 1);
    }
}

/// `s` without the whitespace around it (`str::trim`).
pub fn trim_chars(s: &[char]) -> (r: Vec<char>)
    ensures
        r@ == trim_spec(s@),
{
    let n = s.len();
    let mut a: usize = 0;
    while a < n && is_whitespace(s[a])
        invariant
            a <= n == s@.len(),
            ws_front(s@, 0) == ws_front(s@, a as int),
        decreases n - a,
    {
        a = a + 1;
    }
    let mut b: usize = n;
    while b > a && is_whitespace(s[b - 1])
        invariant
            a <= b <= n == s@.len(),
            ws_front(s@, 0) == a,
            ws_back(s@, a as int, n as int) == ws_back(s@, a as int, b as int),
        decreases b - a,
    {
        b = b - 1;
    }
    let mut r: Vec<char> = Vec::new();
    let mut k = a;
    while k < b
        invariant
            a <= k <= b <= n == s@.len(),
            r@ == s@.subrange(a as int, k as int),
        decreases b - k,
    {
        r.push(s[k]);
        assert(r@ =~= s@.subrange(a as int, k + 1));
        k = k + 1;
    }
    r
}

/// A copy of `s[from..to]`.
pub fn copy_chars(s: &[char], from: usize, to: usize) -> (r: Vec<char>)
    requires
        from <= to <= s@.len(),
    ensures
        r@ == s@.subrange(from as int, to as int),
{
    let mut r: Vec<char> = Vec::new();
    let mut k = from;
    while k < to
        invariant
            from <= k <= to <= s@.len(),
            r@ == s@.subrange(from as int, k as int),
        decreases to - k,
    {
        r.push(s[k]);
        assert(r@ =~= s@.subrange(from as int, k + 1));
        k = k + 1;
    }
    r
}

// ---------------------------------------------------------------- prefixes

pub open spec fn file_url_prefix() -> Seq<char> {
    seq!['f', 'i', 'l', 'e', ':', '/', '/']
}

/// `raw` without a leading `file://`.
pub open spec fn strip_file_url_spec(raw: Seq<char>) -> Seq<char> {
    if matches_at(raw, 0, file_url_prefix()) {
        raw.subrange(7, raw.len() as int)
    } else {
        raw
    }
}

/// `raw` without a leading `file://`.
pub fn strip_file_url(raw: &[char]) -> (r: Vec<char>)
    ensures
        r@ == strip_file_url_spec(raw@),
{
    let p: [char; 7] = ['f', 'i', 'l', 'e', ':', '/', '/'];
    assert(p@ =~= file_url_prefix());
    if matches_at_exec(raw, 0, &p) {
        copy_chars(raw, 7, raw.len())
    } else {
        copy_chars(raw, 0, raw.len())
    }
}

// ---------------------------------------------------------------- line suffix

/// A line suffix `N` or `A-B` (after the `:`), as `(first line, last line)`;
/// `A-A` is `A`, and every number is at least 1.
pub open spec fn parse_line_suffix_spec(suffix: Seq<char>) -> Option<(nat, Option<nat>)> {
    match parse_unsigned(suffix, usize::MAX as nat) {
        Some(n) => if n >= 1 {
            Some((n, None))
        } else {
            None
        },
        None => {
            let d = first_from(suffix, '-', 0);
            if d < suffix.len() {
                match (
                    parse_unsigned(suffix.subrange(0, d), usize::MAX as nat),
                    parse_unsigned(suffix.subrange(d + 1, suffix.len() as int), usize::MAX as nat),
                ) {
                    (Some(a), Some(b)) => if a >= 1 && b >= 1 {
                        if a == b {
                            Some((a, None))
                        } else {
                            Some((a, Some(b)))
                        }
                    } else {
                        None
                    },
                    _ => None,
                }
            } else {
                None
            }
        },
    }
}

/// The line suffix in `s[from..to]` (see [`parse_line_suffix_spec`]).
pub fn parse_line_suffix(s: &[char], from: usize, to: usize) -> (r: Option<(usize, Option<usize>)>)
    requires
        from <= to <= s@.len(),
    ensures
        match parse_line_suffix_spec(s@.subrange(from as int, to as int)) {
            Some((a, b)) => r matches Some((x, y)) && x == a && match b {
                Some(bb) => y == Some(bb as usize),
                None => y is None,
            },
            None => r is None,
        },
{
    let ghost suf = s@.subrange(from as int, to as int);
    match parse_usize_range(s, from, to) {
        Some(n) => {
            if n >= 1 {
                return Some((n, None));
            } else {
                return None;
            }
        },
        None => {},
    }
    let d = find_char_from(s, '-', from);
    proof {
        lemma_first_from(s@, '-', from as int);
        lemma_first_from_shift(s@, '-', from as int, to as int);
    }
    if d >= to {
        return None;
    }
    assert(s@.subrange(from as int, d as int) =~= suf.subrange(0, d - from));
    assert(s@.subrange(d + 1, to as int) =~= suf.subrange(d - from + 1, suf.len() as int));
    let a = parse_usize_range(s, from, d);
    let b = parse_usize_range(s, d + 1, to);
    match (a, b) {
        (Some(a), Some(b)) => {
            if a >= 1 && b >= 1 {
                if a == b {
                    Some((a, None))
                } else {
                    Some((a, Some(b)))
                }
            } else {
                None
            }
        },
        _ => None,
    }
}

/// Searching inside `s[from..to]` finds the same `c` (shifted), or none.
pub proof fn lemma_first_from_sub(s: Seq<char>, c: char, from: int, to: int)
    requires
        0 <= from <= to <= s.len(),
    ensures
        ({
            let sub = s.subrange(from, to);
            let k = first_from(sub, c, 0);
            &&& first_from(s, c, from) < to ==> k == first_from(s, c, from) - from
            &&& first_from(s, c, from) >= to ==> k == sub.len()
        }),
{
    lemma_first_from_shift(s, c, from, to);
}

proof fn lemma_first_from_shift(s: Seq<char>, c: char, from: int, to: int)
    requires
        0 <= from <= to <= s.len(),
    ensures
        ({
            let sub = s.subrange(from, to);
            let k = first_from(sub, c, 0);
            &&& first_from(s, c, from) < to ==> k == first_from(s, c, from) - from
            &&& first_from(s, c, from) >= to ==> k == sub.len()
        }),
{
    lemma_first_from_shift_at(s, c, from, to, from);
}

proof fn lemma_first_from_shift_at(s: Seq<char>, c: char, from: int, to: int, i: int)
    requires
        0 <= from <= i <= to <= s.len(),
    ensures
        ({
            let sub = s.subrange(from, to);
            let k = first_from(sub, c, i - from);
            &&& first_from(s, c, i) < to ==> k == first_from(s, c, i) - from
            &&& first_from(s, c, i) >= to ==> k == sub.len()
        }),
    decreases to - i,
{
    lemma_first_from(s, c, i);
    if i < to && s[i] != c {
        lemma_first_from_shift_at(s, c, from, to, i + 1);
    }
}

/// `raw` split at its last `:` when what follows is a line suffix and what
/// precedes is not empty: `(path, Some(":" + suffix))`; otherwise `(raw, None)`.
pub open spec fn split_line_suffix_spec(raw: Seq<char>) -> (Seq<char>, Option<Seq<char>>) {
    let c = last_before(raw, ':', raw.len() as int);
    if c > 0 && parse_line_suffix_spec(raw.subrange(c + 1, raw.len() as int)) is Some {
        (raw.take(c), Some(raw.subrange(c, raw.len() as int)))
    } else {
        (raw, None)
    }
}

/// `raw` split into its path and its `:N` / `:A-B` suffix, when it has one.
pub fn split_line_suffix(raw: &[char]) -> (r: (Vec<char>, Option<Vec<char>>))
    ensures
        r.0@ == split_line_suffix_spec(raw@).0,
        match split_line_suffix_spec(raw@).1 {
            Some(s) => r.1 matches Some(v) && v@ == s,
            None => r.1 is None,
        },
{
    let n = raw.len();
    proof {
        lemma_last_before(raw@, ':', n as int);
    }
    match rfind_char_before(raw, ':', n) {
        Some(c) => {
            if c > 0 && parse_line_suffix(raw, c + 1, n).is_some() {
                let path = copy_chars(raw, 0, c);
                assert(raw@.subrange(0, c as int) =~= raw@.take(c as int));
                let suffix = copy_chars(raw, c, n);
                return (path, Some(suffix));
            }
            (copy_chars_all(raw), None)
        },
        None => (copy_chars_all(raw), None),
    }
}

fn copy_chars_all(s: &[char]) -> (r: Vec<char>)
    ensures
        r@ == s@,
{
    let r = copy_chars(s, 0, s.len());
    assert(s@.subrange(0, s@.len() as int) =~= s@);
    r
}

/// `path` followed by the line suffix, if any.
pub open spec fn open_spec_of(path: Seq<char>, suffix: Option<Seq<char>>) -> Seq<char> {
    match suffix {
        Some(s) => path + s,
        None => path,
    }
}

/// The open spec: the path followed by the line suffix.
pub fn build_open_spec(path: &[char], suffix: &Option<Vec<char>>) -> (r: String)
    ensures
        r@ == open_spec_of(
            path@,
            match suffix {
                Some(v) => Some(v@),
                None => None,
            },
        ),
{
    let mut s = string_from_chars(path);
    match suffix {
        Some(v) => push_range(&mut s, v.as_slice(), 0, v.len()),
        None => {},
    }
    proof {
        match suffix {
            Some(v) => assert(v@.subrange(0, v@.len() as int) =~= v@),
            None => {},
        }
    }
    s
}

// ---------------------------------------------------------------- percent decoding

pub open spec fn is_hex(b: u8) -> bool {
    (48u8 <= b <= 57u8) || (65u8 <= b <= 70u8) || (97u8 <= b <= 102u8)
}

pub open spec fn hex_val(b: u8) -> nat {
    if 48u8 <= b <= 57u8 {
        (b - 48) as nat
    } else if 65u8 <= b <= 70u8 {
        (b - 55) as nat
    } else {
        (b - 87) as nat
    }
}

/// `u8::from_str_radix` on the two bytes `b1 b2` in base 16: two hex
/// digits, or a `+` sign and one hex digit.
pub open spec fn hex_pair(b1: u8, b2: u8) -> Option<u8> {
    if b1 == 43u8 && is_hex(b2) {
        Some(hex_val(b2) as u8)
    } else if is_hex(b1) && is_hex(b2) {
        Some((hex_val(b1) * 16 + hex_val(b2)) as u8)
    } else {
        None
    }
}

/// Bytes of `b[i..]` with `%XX` escapes decoded (`XX` as [`hex_pair`] reads it).
pub open spec fn percent_bytes_from(b: Seq<u8>, i: int) -> Seq<u8>
    decreases b.len() - i,
{
    if i >= b.len() || i < 0 {
        seq![]
    } else if b[i] == 37u8 && i + 2 < b.len() && hex_pair(b[i + 1], b[i + 2]) is Some {
        seq![hex_pair(b[i + 1], b[i + 2])->0] + percent_bytes_from(b, i + 3)
    } else {
        seq![b[i]] + percent_bytes_from(b, i + 1)
    }
}

/// Decoding from `k` on in `b` is decoding the bytes from `k` on.
proof fn lemma_percent_bytes_skip(b: Seq<u8>, k: int, i: int)
    requires
        0 <= k <= i,
        k <= b.len(),
    ensures
        percent_bytes_from(b, i) == percent_bytes_from(b.skip(k), i - k),
    decreases b.len() - i,
{
    let c = b.skip(k);
    if i < b.len() {
        assert(c[i - k] == b[i]);
        if i + 2 < b.len() {
            assert(c[i - k + 1] == b[i + 1]);
            assert(c[i - k + 2] == b[i + 2]);
        }
        lemma_percent_bytes_skip(b, k, i + 1);
        if i + 2 < b.len() {
            lemma_percent_bytes_skip(b, k, i + 3);
        }
    }
}

/// `%` and two hex digits, in either case (`0`-`9`, `a`-`f`, `A`-`F`),
/// decode to the single byte the digits write, 16 × the first + the
/// second, whatever follows.
pub proof fn lemma_hex_escape_decodes(b1: u8, b2: u8, rest: Seq<u8>)
    requires
        (48 <= b1 <= 57) || (65 <= b1 <= 70) || (97 <= b1 <= 102),
        (48 <= b2 <= 57) || (65 <= b2 <= 70) || (97 <= b2 <= 102),
    ensures
        ({
            let v1: int = if b1 <= 57 {
                b1 - 48
            } else if b1 <= 70 {
                b1 - 65 + 10
            } else {
                b1 - 97 + 10
            };
            let v2: int = if b2 <= 57 {
                b2 - 48
            } else if b2 <= 70 {
                b2 - 65 + 10
            } else {
                b2 - 97 + 10
            };
            percent_bytes_from(seq![37u8, b1, b2] + rest, 0) == seq![(16 * v1 + v2) as u8]
                + percent_bytes_from(rest, 0)
        }),
{
    let b = seq![37u8, b1, b2] + rest;
    lemma_percent_bytes_skip(b, 3, 3);
    assert(b.skip(3) =~= rest);
}

/// No `%` is followed by exactly two bytes that end inside a multi-byte
/// character (decoding slices those two bytes out as text).
pub open spec fn percent_slices_ok(b: Seq<u8>) -> bool {
    forall|i: int|
        0 <= i && i + 3 < b.len() && #[trigger] b[i] == 37u8 ==> !is_continuation_byte(b[i + 3])
}

/// What `String::from_utf8_lossy` gives for `b`.
pub uninterp spec fn utf8_lossy(b: Seq<u8>) -> Seq<char>;

/// Calls `String::from_utf8_lossy`. The contract claims that the result
/// depends on the bytes alone and that valid UTF-8 is decoded as is; how
/// invalid sequences become U+FFFD is not written out here.
#[verifier::external_body]
fn from_utf8_lossy(b: &[u8]) -> (r: String)
    ensures
        r@ == utf8_lossy(b@),
        valid_utf8(b@) ==> r@ == decode_utf8(b@),
{
    String::from_utf8_lossy(b).into_owned()
}

fn hex_digit(b: u8) -> (r: Option<u8>)
    ensures
        match r {
            Some(v) => is_hex(b) && v as nat == hex_val(b),
            None => !is_hex(b),
        },
{
    if 48u8 <= b && b <= 57u8 {
        Some(b - 48)
    } else if 65u8 <= b && b <= 70u8 {
        Some(b - 55)
    } else if 97u8 <= b && b <= 102u8 {
        Some(b - 87)
    } else {
        None
    }
}

fn hex_pair_exec(b1: u8, b2: u8) -> (r: Option<u8>)
    ensures
        r == hex_pair(b1, b2),
{
    let d2 = match hex_digit(b2) {
        Some(v) => v,
        None => {
            return None;
        },
    };
    if b1 == 43u8 {
        return Some(d2);
    }
    match hex_digit(b1) {
        Some(d1) => Some(d1 * 16 + d2),
        None => None,
    }
}

/// `%XX` escapes in `text` decoded (see [`hex_pair`]), the bytes read back as UTF-8 (lossily).
pub open spec fn percent_decode_spec(text: Seq<char>) -> Seq<char> {
    utf8_lossy(percent_bytes_from(vstd::utf8::encode_utf8(text), 0))
}

/// `input` with `%XX` escapes decoded (invalid UTF-8 as U+FFFD).
pub fn percent_decode(input: &str) -> (r: String)
    ensures
        r@ == percent_decode_spec(input@),
        valid_utf8(percent_bytes_from(vstd::utf8::encode_utf8(input@), 0)) ==> r@
            == decode_utf8(percent_bytes_from(vstd::utf8::encode_utf8(input@), 0)),
{
    let bytes = input.as_bytes();
    let n = bytes.len();
    let mut out: Vec<u8> = Vec::new();
    let mut i: usize = 0;
    while i < n
        invariant
            n == bytes@.len(),
            i <= n,
            out@ + percent_bytes_from(bytes@, i as int) == percent_bytes_from(bytes@, 0),
        decreases n - i,
    {
        let ghost old_out = out@;
        if bytes[i] == 37u8 && n - i > 2 {
            match hex_pair_exec(bytes[i + 1], bytes[i + 2]) {
                Some(v) => {
                    out.push(v);
                    assert(out@ + percent_bytes_from(bytes@, i + 3) =~= old_out
                        + percent_bytes_from(bytes@, i as int));
                    i = i + 3;
                    continue;
                },
                None => {},
            }
        }
        out.push(bytes[i]);
        assert(out@ + percent_bytes_from(bytes@, i + 1) =~= old_out + percent_bytes_from(
            bytes@,
            i as int,
        ));
        i = i + 1;
    }
    assert(out@ + percent_bytes_from(bytes@, n as int) =~= out@);
    from_utf8_lossy(out.as_slice())
}

// ---------------------------------------------------------------- home directory

pub open spec fn tilde_slash() -> Seq<char> {
    seq!['~', '/']
}

/// `~` and `~/rest` with `~` replaced by `home`, when a home is known.
pub open spec fn expand_tilde_spec(path: Seq<char>, home: Option<Seq<char>>) -> Seq<char> {
    if path == seq!['~'] {
        match home {
            Some(h) => h,
            None => path,
        }
    } else if matches_at(path, 0, tilde_slash()) && home is Some {
        let h = home->0;
        let sep = if h.len() > 0 && h.last() == '/' {
            Seq::<char>::empty()
        } else {
            seq!['/']
        };
        h + sep + path.subrange(2, path.len() as int)
    } else {
        path
    }
}

/// `path` with a leading `~` or `~/` put under the home directory.
pub fn expand_tilde(path: &[char], home: Option<&str>) -> (r: Vec<char>)
    ensures
        r@ == expand_tilde_spec(
            path@,
            match home {
                Some(h) => Some(h@),
                None => None,
            },
        ),
{
    if path.len() == 1 && path[0] == '~' {
        assert(path@ =~= seq!['~']);
        return match home {
            Some(h) => str_to_chars(h),
            None => copy_chars_all(path),
        };
    }
    proof {
        if path@ == seq!['~'] {
            assert(path@[0] == '~');
        }
    }
    let ts: [char; 2] = ['~', '/'];
    assert(ts@ =~= tilde_slash());
    if matches_at_exec(path, 0, &ts) {
        match home {
            Some(h) => {
                let mut r = str_to_chars(h);
                let hl = r.len();
                if !(hl > 0 && r[hl - 1] == '/') {
                    r.push('/');
                }
                let ghost mid = r@;
                let mut k: usize = 2;
                while k < path.len()
                    invariant
                        2 <= k <= path@.len(),
                        r@ == mid + path@.subrange(2, k as int),
                    decreases path@.len() - k,
                {
                    r.push(path[k]);
                    assert(r@ =~= mid + path@.subrange(2, k + 1));
                    k = k + 1;
                }
                proof {
                    let hv = h@;
                    if hl > 0 && hv.last() == '/' {
                        assert(mid =~= hv + Seq::<char>::empty());
                    }
                }
                return r;
            },
            None => {},
        }
    }
    copy_chars_all(path)
}

fn percent_slices_ok_bytes(b: &[u8]) -> (r: bool)
    ensures
        r == percent_slices_ok(b@),
{
    let n = b.len();
    let mut i: usize = 0;
    while i < n
        invariant
            n == b@.len(),
            i <= n,
            forall|j: int|
                0 <= j < i && j + 3 < n && #[trigger] b@[j] == 37u8 ==> !is_continuation_byte(
                    b@[j + 3],
                ),
        decreases n - i,
    {
        if b[i] == 37u8 && n - i > 3 {
            let c = b[i + 3];
            if 0x80u8 <= c && c <= 0xbfu8 {
                return false;
            }
        }
        i = i + 1;
    }
    true
}

// ---------------------------------------------------------------- collapsed paths

pub open spec fn dots3() -> Seq<char> {
    seq!['.', '.', '.']
}

/// First `j >= i` where `p` occurs in `s`, or `s.len()`.
pub open spec fn find_sub_from(s: Seq<char>, p: Seq<char>, i: int) -> int
    decreases s.len() - i,
{
    if i >= s.len() || i < 0 {
        s.len() as int
    } else if matches_at(s, i, p) {
        i
    } else {
        find_sub_from(s, p, i + 1)
    }
}

pub proof fn lemma_find_sub_from(s: Seq<char>, p: Seq<char>, i: int)
    requires
        0 <= i <= s.len(),
    ensures
        i <= find_sub_from(s, p, i) <= s.len(),
        find_sub_from(s, p, i) < s.len() ==> matches_at(s, find_sub_from(s, p, i), p),
        forall|j: int| i <= j < find_sub_from(s, p, i) ==> !matches_at(s, j, p),
    decreases s.len() - i,
{
    if i < s.len() && !matches_at(s, i, p) {
        lemma_find_sub_from(s, p, i + 1);
    }
}

/// Index of the first occurrence of `p` in `s` at or after `i` (`s.len()` when none).
pub fn find_sub(s: &[char], p: &[char], i: usize) -> (r: usize)
    requires
        i <= s@.len(),
    ensures
        r == find_sub_from(s@, p@, i as int),
{
    let mut j = i;
    while j < s.len()
        invariant
            i <= j <= s@.len(),
            find_sub_from(s@, p@, i as int) == find_sub_from(s@, p@, j as int),
        decreases s@.len() - j,
    {
        if matches_at_exec(s, j, p) {
            return j;
        }
        j = j + 1;
    }
    j
}

/// The next `...` or `…` at or after `i`: `(position, length in chars)`.
pub open spec fn hit_from(p: Seq<char>, i: int) -> Option<(int, int)> {
    let a = find_sub_from(p, dots3(), i);
    let u = first_from(p, '…', i);
    if a >= p.len() && u >= p.len() {
        None
    } else if a <= u {
        Some((a, 3int))
    } else {
        Some((u, 1int))
    }
}

pub proof fn lemma_hit_from(p: Seq<char>, i: int)
    requires
        0 <= i <= p.len(),
    ensures
        hit_from(p, i) matches Some((h, l)) ==> i <= h && h + l <= p.len() && (l == 3 || l == 1),
{
    lemma_find_sub_from(p, dots3(), i);
    lemma_first_from(p, '…', i);
}

/// The pieces of `p[i..]` between `...`/`…` markers.
pub open spec fn collapse_from(p: Seq<char>, i: int) -> Seq<Seq<char>>
    decreases p.len() - i,
{
    if i < 0 || i > p.len() {
        seq![]
    } else {
        match hit_from(p, i) {
            None => seq![p.subrange(i, p.len() as int)],
            Some((h, l)) => {
                proof {
                    lemma_hit_from(p, i);
                }
                seq![p.subrange(i, h)] + collapse_from(p, h + l)
            },
        }
    }
}

/// A path shortened with `...` or `…` (as agents print it): the pieces
/// around the markers, when there is a marker and some piece holds `/`.
pub open spec fn collapse_parts_spec(p: Seq<char>) -> Option<Seq<Seq<char>>> {
    if hit_from(p, 0) is None {
        None
    } else {
        let parts = collapse_from(p, 0);
        if exists|k: int|
            0 <= k < parts.len() && crate::text::has_char_in(
                #[trigger] parts[k],
                '/',
                0,
                parts[k].len() as int,
            ) {
            Some(parts)
        } else {
            None
        }
    }
}

pub open spec fn strs(v: Seq<String>) -> Seq<Seq<char>> {
    v.map_values(|s: String| s@)
}

proof fn lemma_collapse_len(p: Seq<char>, i: int)
    requires
        0 <= i <= p.len(),
    ensures
        collapse_from(p, i).len() >= 1,
        collapse_from(p, i).len() > 1 <==> hit_from(p, i) is Some,
    decreases p.len() - i,
{
    lemma_hit_from(p, i);
    match hit_from(p, i) {
        Some((h, l)) => {
            lemma_collapse_len(p, h + l);
        },
        None => {},
    }
}

/// The literal parts around the `...` / `…` of a collapsed path.
pub fn split_collapse_parts(p: &[char]) -> (r: Option<Vec<String>>)
    ensures
        match collapse_parts_spec(p@) {
            Some(parts) => r matches Some(v) && strs(v@) == parts,
            None => r is None,
        },
{
    let n = p.len();
    let dots: [char; 3] = ['.', '.', '.'];
    assert(dots@ =~= dots3());
    let mut parts: Vec<String> = Vec::new();
    let mut i: usize = 0;
    loop
        invariant_except_break
            n == p@.len(),
            dots@ == dots3(),
            i <= n,
            strs(parts@) + collapse_from(p@, i as int) == collapse_from(p@, 0),
        ensures
            strs(parts@) == collapse_from(p@, 0),
        decreases n - i,
    {
        let a = find_sub(p, &dots, i);
        let u = find_char_from(p, '…', i);
        proof {
            lemma_hit_from(p@, i as int);
        }
        let ghost old_parts = parts@;
        if a >= n && u >= n {
            parts.push(string_from_range(p, i, n));
            assert(strs(parts@) =~= strs(old_parts) + collapse_from(p@, i as int));
            break;
        }
        let (h, l): (usize, usize) = if a <= u {
            (a, 3)
        } else {
            (u, 1)
        };
        parts.push(string_from_range(p, i, h));
        assert(strs(parts@) + collapse_from(p@, (h + l) as int) =~= strs(old_parts)
            + collapse_from(p@, i as int));
        i = h + l;
    }
    proof {
        lemma_collapse_len(p@, 0);
    }
    if parts.len() <= 1 {
        return None;
    }
    let mut k: usize = 0;
    while k < parts.len()
        invariant
            k <= parts@.len(),
            strs(parts@) == collapse_from(p@, 0),
            hit_from(p@, 0) is Some,
            forall|j: int|
                0 <= j < k ==> !crate::text::has_char_in(
                    #[trigger] strs(parts@)[j],
                    '/',
                    0,
                    strs(parts@)[j].len() as int,
                ),
        decreases parts@.len() - k,
    {
        let v = str_to_chars(parts[k].as_str());
        assert(strs(parts@)[k as int] == v@);
        if crate::text::contains_char_in(v.as_slice(), '/', 0, v.len()) {
            assert(crate::text::has_char_in(strs(parts@)[k as int], '/', 0, strs(parts@)[k as int].len() as int));
            return Some(parts);
        }
        k = k + 1;
    }
    None
}

/// The non-empty parts, in order.
pub open spec fn literals(parts: Seq<Seq<char>>) -> Seq<Seq<char>>
    decreases parts.len(),
{
    if parts.len() == 0 {
        seq![]
    } else {
        let rest = literals(parts.drop_last());
        if parts.last().len() > 0 {
            rest.push(parts.last())
        } else {
            rest
        }
    }
}

/// `s[pos..]` ends with `lit`.
pub open spec fn tail_ends_with(s: Seq<char>, pos: int, lit: Seq<char>) -> bool {
    s.len() - pos >= lit.len() && s.subrange(s.len() - lit.len(), s.len() as int) == lit
}

/// Matching literals `k..` from position `pos` of `rel`.
pub open spec fn match_from(
    rel: Seq<char>,
    lits: Seq<Seq<char>>,
    k: int,
    pos: int,
    lead: bool,
    trail: bool,
) -> bool
    decreases lits.len() - k,
{
    if k >= lits.len() || k < 0 {
        trail
    } else {
        let lit = lits[k];
        if k + 1 == lits.len() && !trail {
            tail_ends_with(rel, pos, lit)
        } else if k == 0 && !lead {
            if matches_at(rel, 0, lit) {
                match_from(rel, lits, k + 1, lit.len() as int, lead, trail)
            } else {
                false
            }
        } else {
            let f = find_sub_from(rel, lit, pos);
            if f < rel.len() {
                match_from(rel, lits, k + 1, f + lit.len(), lead, trail)
            } else {
                false
            }
        }
    }
}

/// `rel` fits the collapsed pattern `parts`: the literal pieces occur in
/// order, the first at the start unless the pattern starts with a marker,
/// the last at the end unless it ends with one.
pub open spec fn rel_matches_spec(rel: Seq<char>, parts: Seq<Seq<char>>) -> bool {
    let lits = literals(parts);
    let lead = parts.len() > 0 && parts[0].len() == 0;
    let trail = parts.len() > 0 && parts.last().len() == 0;
    lits.len() > 0 && match_from(rel, lits, 0, 0, lead, trail)
}

fn literal_list(parts: &Vec<String>) -> (r: Vec<Vec<char>>)
    ensures
        r@.map_values(|v: Vec<char>| v@) == literals(strs(parts@)),
{
    let mut r: Vec<Vec<char>> = Vec::new();
    let mut k: usize = 0;
    while k < parts.len()
        invariant
            k <= parts@.len(),
            r@.map_values(|v: Vec<char>| v@) == literals(strs(parts@).take(k as int)),
        decreases parts@.len() - k,
    {
        let v = str_to_chars(parts[k].as_str());
        let ghost old_r = r@;
        assert(strs(parts@).take(k + 1).drop_last() =~= strs(parts@).take(k as int));
        assert(strs(parts@)[k as int] == v@);
        if v.len() > 0 {
            r.push(v);
            assert(r@.map_values(|v: Vec<char>| v@) =~= old_r.map_values(|v: Vec<char>| v@).push(
                strs(parts@)[k as int],
            ));
        }
        k = k + 1;
    }
    assert(strs(parts@).take(parts@.len() as int) =~= strs(parts@));
    r
}

/// Whether relative path `rel` matches the collapsed path `parts`.
pub fn rel_matches_collapse(rel: &[char], parts: &Vec<String>) -> (r: bool)
    ensures
        r == rel_matches_spec(rel@, strs(parts@)),
{
    let ghost ps = strs(parts@);
    let n = parts.len();
    let lead = n > 0 && parts[0].as_str().is_empty();
    let trail = n > 0 && parts[n - 1].as_str().is_empty();
    proof {
        if n > 0 {
            assert(ps[0] == parts@[0]@);
            assert(ps.last() == parts@[n - 1]@);
        }
    }
    let lits = literal_list(parts);
    let ghost ls = lits@.map_values(|v: Vec<char>| v@);
    if lits.len() == 0 {
        return false;
    }
    let m = lits.len();
    let mut pos: usize = 0;
    let mut k: usize = 0;
    while k < m
        invariant
            m == lits@.len(),
            ls == lits@.map_values(|v: Vec<char>| v@),
            ps == strs(parts@),
            ls == literals(ps),
            lead == (ps.len() > 0 && ps[0].len() == 0),
            trail == (ps.len() > 0 && ps.last().len() == 0),
            k <= m,
            pos <= rel@.len(),
            match_from(rel@, ls, 0, 0, lead, trail) == match_from(
                rel@,
                ls,
                k as int,
                pos as int,
                lead,
                trail,
            ),
        decreases m - k,
    {
        let lit = &lits[k];
        assert(ls[k as int] == lit@);
        let ll = lit.len();
        if k + 1 == m && !trail {
            let rl = rel.len();
            if rl - pos >= ll {
                let ok = matches_at_exec(rel, rl - ll, lit.as_slice());
                proof {
                    if ok {
                        assert(rel@.subrange(rl - ll, rl as int) == lit@);
                    }
                }
                return ok;
            }
            return false;
        }
        if k == 0 && !lead {
            if !matches_at_exec(rel, 0, lit.as_slice()) {
                return false;
            }
            pos = ll;
        } else {
            let f = find_sub(rel, lit.as_slice(), pos);
            proof {
                crate::classify::lemma_find_sub_from(rel@, lit@, pos as int);
            }
            if f >= rel.len() {
                return false;
            }
            pos = f + ll;
        }
        k = k + 1;
    }
    trail
}

// ---------------------------------------------------------------- resolving paths

/// `path.strip_prefix(base)` as text: the part after `base`'s components
/// (`None` when `path` is not under `base`).
pub open spec fn strip_prefix_spec(path: Seq<char>, base: Seq<char>) -> Option<Seq<char>> {
    if path_starts_with(path, base) {
        let cp = comp_bounds(path);
        let k = components(base).len() as int;
        Some(
            if k < cp.len() {
                path.subrange(cp[k].0, cp[cp.len() - 1].1)
            } else {
                Seq::<char>::empty()
            },
        )
    } else {
        None
    }
}

/// `\` written as `/`.
pub open spec fn slashes(s: Seq<char>) -> Seq<char> {
    s.map_values(|c: char| if c == '\\' { '/' } else { c })
}

/// `path` relative to `root` (or whole when outside it), `\` as `/`.
pub open spec fn rel_slash_spec(root: Seq<char>, path: Seq<char>) -> Seq<char> {
    slashes(
        match strip_prefix_spec(path, root) {
            Some(r) => r,
            None => path,
        },
    )
}

/// `path` relative to `base` when it lies under it (`Path::strip_prefix`).
pub fn strip_prefix(path: &str, base: &str) -> (r: Option<String>)
    ensures
        match strip_prefix_spec(path@, base@) {
            Some(s) => r matches Some(v) && v@ == s,
            None => r is None,
        },
{
    if !starts_with_path(path, base) {
        return None;
    }
    let pv = str_to_chars(path);
    let bv = str_to_chars(base);
    let cp = component_bounds(pv.as_slice());
    let cb = component_bounds(bv.as_slice());
    proof {
        lemma_comp_bounds(pv@);
        assert(components(base@).len() == cb@.len());
    }
    let k = cb.len();
    if k < cp.len() {
        let last = cp.len() - 1;
        assert(comp_bounds(pv@)[k as int] == (cp@[k as int].0 as int, cp@[k as int].1 as int));
        assert(comp_bounds(pv@)[last as int] == (
            cp@[last as int].0 as int,
            cp@[last as int].1 as int,
        ));
        proof {
            crate::paths::lemma_bounds_mono(comp_bounds(pv@), pv@, k as int, last as int);
        }
        Some(string_from_range(pv.as_slice(), cp[k].0, cp[last].1))
    } else {
        Some(String::new())
    }
}

fn replace_backslashes(s: &str) -> (r: String)
    ensures
        r@ == slashes(s@),
{
    let v = str_to_chars(s);
    let mut out = String::new();
    let mut i: usize = 0;
    while i < v.len()
        invariant
            i <= v@.len(),
            v@ == s@,
            out@ == slashes(v@.take(i as int)),
        decreases v@.len() - i,
    {
        let c = v[i];
        string_push(&mut out, if c == '\\' { '/' } else { c });
        assert(slashes(v@.take(i + 1)) =~= slashes(v@.take(i as int)).push(
            if c == '\\' {
                '/'
            } else {
                c
            },
        ));
        i = i + 1;
    }
    assert(v@.take(v@.len() as int) =~= v@);
    out
}

/// `path` relative to `root` when it lies under it, else `path`.
pub fn rel_slash(root: &str, path: &str) -> (r: String)
    ensures
        r@ == rel_slash_spec(root@, path@),
{
    match strip_prefix(path, root) {
        Some(rel) => replace_backslashes(rel.as_str()),
        None => replace_backslashes(path),
    }
}

/// Directories a collapsed-path walk does not enter.
pub open spec fn skipped_dir(name: Seq<char>) -> bool {
    name == ".git"@ || name == "node_modules"@ || name == "target"@ || name == "worktrees"@
}

/// `.git`, `node_modules`, `target` and `worktrees` are not walked (nested
/// worktrees are searched through the fallback roots instead).
pub fn skip_walk_dir(name: &str) -> (r: bool)
    ensures
        r == skipped_dir(name@),
{
    let v = str_to_chars(name);
    eq_lit(&v, ".git") || eq_lit(&v, "node_modules") || eq_lit(&v, "target") || eq_lit(
        &v,
        "worktrees",
    )
}

fn eq_lit(v: &Vec<char>, lit: &str) -> (r: bool)
    ensures
        r == (v@ == lit@),
{
    let l = str_to_chars(lit);
    if l.len() != v.len() {
        return false;
    }
    let r = crate::paths::range_eq(v.as_slice(), (0, v.len()), l.as_slice(), (0, l.len()));
    assert(v@.subrange(0, v@.len() as int) =~= v@);
    assert(l@.subrange(0, l@.len() as int) =~= l@);
    r
}

/// `cwd.join(path)` with `.`/`..` resolved lexically.
pub open spec fn resolve_path_spec(path: Seq<char>, cwd: Seq<char>) -> Seq<char> {
    let comps = if is_rooted(path) {
        components(path)
    } else {
        components(cwd) + components(path)
    };
    join_comps(normalize_comps(comps))
}

fn component_strings(p: &str) -> (r: Vec<String>)
    ensures
        strs(r@) == components(p@),
{
    let v = str_to_chars(p);
    let b = component_bounds(v.as_slice());
    proof {
        lemma_comp_bounds(v@);
    }
    let mut r: Vec<String> = Vec::new();
    let mut k: usize = 0;
    while k < b.len()
        invariant
            v@ == p@,
            pairs_int(b@) == comp_bounds(v@),
            crate::paths::bounds_ok(v@, comp_bounds(v@), 0),
            k <= b@.len(),
            strs(r@) == components(p@).take(k as int),
        decreases b@.len() - k,
    {
        assert(comp_bounds(v@)[k as int] == (b@[k as int].0 as int, b@[k as int].1 as int));
        let s = string_from_range(v.as_slice(), b[k].0, b[k].1);
        let ghost old_r = r@;
        r.push(s);
        assert(strs(r@) =~= strs(old_r).push(s@));
        assert(components(p@).take(k + 1) =~= components(p@).take(k as int).push(
            components(p@)[k as int],
        ));
        k = k + 1;
    }
    assert(components(p@).take(b@.len() as int) =~= components(p@));
    r
}

fn is_normal(s: &String) -> (r: bool)
    ensures
        r == is_normal_comp(s@),
{
    let v = str_to_chars(s.as_str());
    let root = v.len() == 1 && v[0] == '/';
    let dot = v.len() == 1 && v[0] == '.';
    let dotdot = v.len() == 2 && v[0] == '.' && v[1] == '.';
    proof {
        if v@ == seq!['/'] || v@ == seq!['.'] {
            assert(v@[0] == seq!['/'][0] || v@[0] == seq!['.'][0]);
        }
        if v@ == seq!['.', '.'] {
            assert(v@[0] == '.' && v@[1] == '.');
        }
        if root {
            assert(v@ =~= seq!['/']);
        }
        if dot {
            assert(v@ =~= seq!['.']);
        }
        if dotdot {
            assert(v@ =~= seq!['.', '.']);
        }
    }
    !root && !dot && !dotdot
}

fn is_dot(s: &String) -> (r: bool)
    ensures
        r == (s@ == seq!['.']),
{
    let v = str_to_chars(s.as_str());
    proof {
        if v@ == seq!['.'] {
            assert(v@[0] == '.');
        }
    }
    let r = v.len() == 1 && v[0] == '.';
    proof {
        if r {
            assert(v@ =~= seq!['.']);
        }
    }
    r
}

fn is_dotdot(s: &String) -> (r: bool)
    ensures
        r == (s@ == seq!['.', '.']),
{
    let v = str_to_chars(s.as_str());
    proof {
        if v@ == seq!['.', '.'] {
            assert(v@[0] == '.' && v@[1] == '.');
        }
    }
    let r = v.len() == 2 && v[0] == '.' && v[1] == '.';
    proof {
        if r {
            assert(v@ =~= seq!['.', '.']);
        }
    }
    r
}

fn normalize_list(comps: Vec<String>) -> (r: Vec<String>)
    ensures
        strs(r@) == normalize_comps(strs(comps@)),
{
    let mut acc: Vec<String> = Vec::new();
    let mut k: usize = 0;
    while k < comps.len()
        invariant
            k <= comps@.len(),
            strs(acc@) == normalize_comps(strs(comps@).take(k as int)),
        decreases comps@.len() - k,
    {
        let c = &comps[k];
        let ghost old_acc = acc@;
        assert(strs(comps@).take(k + 1).drop_last() =~= strs(comps@).take(k as int));
        assert(strs(comps@).take(k + 1).last() == c@);
        if is_dot(c) {
        } else if is_dotdot(c) {
            let n = acc.len();
            if n > 0 && is_normal(&acc[n - 1]) {
                assert(strs(acc@).last() == acc@[n - 1]@);
                acc.pop();
                assert(strs(acc@) =~= strs(old_acc).drop_last());
            } else {
                proof {
                    if n > 0 {
                        assert(strs(acc@).last() == acc@[n - 1]@);
                    }
                }
                acc.push(c.clone());
                assert(strs(acc@) =~= strs(old_acc).push(c@));
            }
        } else {
            acc.push(c.clone());
            assert(strs(acc@) =~= strs(old_acc).push(c@));
        }
        k = k + 1;
    }
    assert(strs(comps@).take(comps@.len() as int) =~= strs(comps@));
    acc
}

fn join_list(comps: &Vec<String>) -> (r: String)
    ensures
        r@ == join_comps(strs(comps@)),
{
    let mut out = String::new();
    let mut k: usize = 0;
    while k < comps.len()
        invariant
            k <= comps@.len(),
            out@ == join_comps(strs(comps@).take(k as int)),
        decreases comps@.len() - k,
    {
        let c = &comps[k];
        assert(strs(comps@).take(k + 1).drop_last() =~= strs(comps@).take(k as int));
        assert(strs(comps@).take(k + 1).last() == c@);
        let cv = str_to_chars(c.as_str());
        let ov = str_to_chars(out.as_str());
        let is_root = cv.len() == 1 && cv[0] == '/';
        proof {
            if cv@ == seq!['/'] {
                assert(cv@[0] == '/');
            }
            if is_root {
                assert(cv@ =~= seq!['/']);
            }
        }
        if is_root {
            out = c.clone();
        } else if ov.len() == 0 {
            out = c.clone();
        } else if ov[ov.len() - 1] == '/' {
            push_str(&mut out, c.as_str());
        } else {
            string_push(&mut out, '/');
            push_str(&mut out, c.as_str());
            assert(out@ =~= ov@ + seq!['/'] + cv@);
        }
        k = k + 1;
    }
    assert(strs(comps@).take(comps@.len() as int) =~= strs(comps@));
    out
}

/// `cwd.join(path)`, normalised lexically.
pub fn resolve_path(path: &str, cwd: &str) -> (r: String)
    ensures
        r@ == resolve_path_spec(path@, cwd@),
{
    let pv = str_to_chars(path);
    let pc = component_strings(path);
    let all = if pv.len() > 0 && pv[0] == '/' {
        pc
    } else {
        let mut all = component_strings(cwd);
        let ghost head = strs(all@);
        let mut k: usize = 0;
        while k < pc.len()
            invariant
                k <= pc@.len(),
                strs(all@) == head + strs(pc@).take(k as int),
            decreases pc@.len() - k,
        {
            let ghost old_all = all@;
            all.push(pc[k].clone());
            assert(strs(all@) =~= strs(old_all).push(pc@[k as int]@));
            assert(strs(pc@).take(k + 1) =~= strs(pc@).take(k as int).push(pc@[k as int]@));
            k = k + 1;
        }
        assert(strs(pc@).take(pc@.len() as int) =~= strs(pc@));
        all
    };
    let norm = normalize_list(all);
    join_list(&norm)
}

// ---------------------------------------------------------------- targets

/// What a candidate turned out to be. `open_spec` is the path to hand to a
/// viewer, with the line suffix kept; `ambiguous` marks a pick among several
/// matches.
#[derive(Debug, Clone, PartialEq, Eq)]
pub enum Target {
    File { path: String, open_spec: String, ambiguous: bool },
    Dir { path: String, open_spec: String, ambiguous: bool },
    Url(String),
    Missing { display: String },
}

/// A target as values.
pub enum TargetView {
    File(Seq<char>, Seq<char>, bool),
    Dir(Seq<char>, Seq<char>, bool),
    Url(Seq<char>),
    Missing(Seq<char>),
}

impl View for Target {
    type V = TargetView;

    open spec fn view(&self) -> TargetView {
        match self {
            Target::File { path, open_spec, ambiguous } => TargetView::File(
                path@,
                open_spec@,
                *ambiguous,
            ),
            Target::Dir { path, open_spec, ambiguous } => TargetView::Dir(
                path@,
                open_spec@,
                *ambiguous,
            ),
            Target::Url(u) => TargetView::Url(u@),
            Target::Missing { display } => TargetView::Missing(display@),
        }
    }
}

impl Target {
    /// A copy of the target.
    pub fn clone_target(&self) -> (r: Target)
        ensures
            r@ == self@,
    {
        match self {
            Target::File { path, open_spec, ambiguous } => Target::File {
                path: path.clone(),
                open_spec: open_spec.clone(),
                ambiguous: *ambiguous,
            },
            Target::Dir { path, open_spec, ambiguous } => Target::Dir {
                path: path.clone(),
                open_spec: open_spec.clone(),
                ambiguous: *ambiguous,
            },
            Target::Url(u) => Target::Url(u.clone()),
            Target::Missing { display } => Target::Missing { display: display.clone() },
        }
    }
}

/// A file or directory found while walking the working directory for a
/// collapsed path (symlinks and the skipped directories left out).
#[derive(Debug, Clone, PartialEq, Eq)]
pub struct WalkEntry {
    pub path: String,
    pub is_dir: bool,
}

/// What the filesystem says about a candidate: whether the resolved path
/// exists and is a directory (`None`: it does not exist), and, when it does
/// not exist and the path is collapsed, the entries under the working
/// directory.
#[derive(Debug, Clone, PartialEq, Eq)]
pub struct Probe {
    pub resolved_is_dir: Option<bool>,
    pub walk: Vec<WalkEntry>,
}

/// Which path to look at for a candidate.
#[derive(Debug, Clone, PartialEq, Eq)]
pub enum ClassifyRequest {
    /// A URL: nothing to look at.
    Url,
    /// Look at `resolved`; when it is missing and `walk` is set, also walk
    /// the working directory.
    Path { resolved: String, walk: bool },
}

/// The trimmed candidate without `file://`, split into path and line suffix.
pub open spec fn path_part(raw: Seq<char>) -> (Seq<char>, Option<Seq<char>>) {
    split_line_suffix_spec(strip_file_url_spec(trim_spec(raw)))
}

pub open spec fn opt_view(o: Option<&str>) -> Option<Seq<char>> {
    match o {
        Some(s) => Some(s@),
        None => None,
    }
}

/// The path part, percent-decoded, with `~` expanded.
pub open spec fn decoded_path(raw: Seq<char>, home: Option<Seq<char>>) -> Seq<char> {
    expand_tilde_spec(percent_decode_spec(path_part(raw).0), home)
}

/// The input on which decoding does not slice text mid-character.
pub open spec fn classify_input_ok(raw: Seq<char>) -> bool {
    crate::tokenize::is_url(trim_spec(raw)) || percent_slices_ok(
        vstd::utf8::encode_utf8(path_part(raw).0),
    )
}

/// The walk entry with the smallest relative path, first among equals.
pub open spec fn is_hit(walk: Seq<WalkEntry>, cwd: Seq<char>, parts: Seq<Seq<char>>, j: int) -> bool {
    0 <= j < walk.len() && rel_matches_spec(rel_slash_spec(cwd, walk[j].path@), parts)
}

pub open spec fn is_best_hit(walk: Seq<WalkEntry>, cwd: Seq<char>, parts: Seq<Seq<char>>, m: int) -> bool {
    &&& is_hit(walk, cwd, parts, m)
    &&& forall|j: int|
        #![trigger walk[j]]
        is_hit(walk, cwd, parts, j) ==> !crate::text::seq_lt(
            rel_slash_spec(cwd, walk[j].path@),
            rel_slash_spec(cwd, walk[m].path@),
        ) && (j < m ==> rel_slash_spec(cwd, walk[j].path@) != rel_slash_spec(
            cwd,
            walk[m].path@,
        ))
}

/// For a collapsed path: the matching walk entry with the smallest relative
/// path (ambiguous when there are several matches), opened by its path
/// relative to `cwd`.
pub open spec fn collapsed_target(
    decoded: Seq<char>,
    suffix: Option<Seq<char>>,
    cwd: Seq<char>,
    walk: Seq<WalkEntry>,
) -> Option<TargetView> {
    match collapse_parts_spec(decoded) {
        None => None,
        Some(parts) => if exists|j: int| is_hit(walk, cwd, parts, j) {
            let m = choose|m: int| is_best_hit(walk, cwd, parts, m);
            let ambiguous = exists|j: int| is_hit(walk, cwd, parts, j) && j != m;
            let open_spec = open_spec_of(rel_slash_spec(cwd, walk[m].path@), suffix);
            Some(
                if walk[m].is_dir {
                    TargetView::Dir(walk[m].path@, open_spec, ambiguous)
                } else {
                    TargetView::File(walk[m].path@, open_spec, ambiguous)
                },
            )
        } else {
            None
        },
    }
}

/// The target of candidate `raw` in working directory `cwd`, given what the
/// filesystem says (see [`Probe`]).
pub open spec fn classify_spec(
    raw: Seq<char>,
    cwd: Seq<char>,
    home: Option<Seq<char>>,
    resolved_is_dir: Option<bool>,
    walk: Seq<WalkEntry>,
) -> TargetView {
    let t = trim_spec(raw);
    if crate::tokenize::is_url(t) {
        TargetView::Url(t)
    } else {
        let suffix = path_part(raw).1;
        let decoded = decoded_path(raw, home);
        let open_spec = open_spec_of(decoded, suffix);
        match resolved_is_dir {
            Some(d) => if d {
                TargetView::Dir(resolve_path_spec(decoded, cwd), open_spec, false)
            } else {
                TargetView::File(resolve_path_spec(decoded, cwd), open_spec, false)
            },
            None => match collapsed_target(decoded, suffix, cwd, walk) {
                Some(t) => t,
                None => TargetView::Missing(t),
            },
        }
    }
}

/// The pieces of a candidate that classification works from.
struct Parsed {
    trimmed: Vec<char>,
    is_url: bool,
    decoded: String,
    suffix: Option<Vec<char>>,
}

fn parse_candidate(raw: &str, home: Option<&str>) -> (r: Parsed)
    requires
        classify_input_ok(raw@),
    ensures
        r.trimmed@ == trim_spec(raw@),
        r.is_url == crate::tokenize::is_url(trim_spec(raw@)),
        !r.is_url ==> r.decoded@ == decoded_path(raw@, opt_view(home)),
        !r.is_url ==> match path_part(raw@).1 {
            Some(s) => r.suffix matches Some(v) && v@ == s,
            None => r.suffix is None,
        },
{
    let chars = str_to_chars(raw);
    let trimmed = trim_chars(chars.as_slice());
    let n = trimmed.len();
    let is_url = crate::tokenize::is_url_exec(trimmed.as_slice());
    if is_url {
        return Parsed { trimmed, is_url, decoded: String::new(), suffix: None };
    }
    let stripped = strip_file_url(trimmed.as_slice());
    let (path, suffix) = split_line_suffix(stripped.as_slice());
    let path_str = string_from_chars(path.as_slice());
    let pct = percent_decode(path_str.as_str());
    let pct_chars = str_to_chars(pct.as_str());
    let expanded = expand_tilde(pct_chars.as_slice(), home);
    let decoded = string_from_chars(expanded.as_slice());
    Parsed { trimmed, is_url, decoded, suffix }
}

/// Which path the caller should look at for `raw` (see [`ClassifyRequest`]).
pub fn classify_request(raw: &str, cwd: &str, home: Option<&str>) -> (r: ClassifyRequest)
    requires
        classify_input_ok(raw@),
    ensures
        crate::tokenize::is_url(trim_spec(raw@)) ==> r is Url,
        !crate::tokenize::is_url(trim_spec(raw@)) ==> (r matches ClassifyRequest::Path {
            resolved,
            walk,
        } && resolved@ == resolve_path_spec(decoded_path(raw@, opt_view(home)), cwd@) && walk
            == collapse_parts_spec(decoded_path(raw@, opt_view(home))) is Some),
{
    let p = parse_candidate(raw, home);
    if p.is_url {
        return ClassifyRequest::Url;
    }
    let resolved = resolve_path(p.decoded.as_str(), cwd);
    let dv = str_to_chars(p.decoded.as_str());
    let walk = split_collapse_parts(dv.as_slice()).is_some();
    ClassifyRequest::Path { resolved, walk }
}

/// True when [`classify`] may be called on `raw`: a URL, or a path whose
/// decoding would not slice text mid-character.
pub fn classify_input_check(raw: &str) -> (r: bool)
    ensures
        r == classify_input_ok(raw@),
{
    let chars = str_to_chars(raw);
    let trimmed = trim_chars(chars.as_slice());
    if crate::tokenize::is_url_exec(trimmed.as_slice()) {
        return true;
    }
    let stripped = strip_file_url(trimmed.as_slice());
    let (path, _) = split_line_suffix(stripped.as_slice());
    let path_str = string_from_chars(path.as_slice());
    percent_slices_ok_bytes(path_str.as_str().as_bytes())
}

fn collapsed_pick(
    decoded: &str,
    suffix: &Option<Vec<char>>,
    cwd: &str,
    walk: &Vec<WalkEntry>,
) -> (r: Option<Target>)
    ensures
        match collapsed_target(
            decoded@,
            match suffix {
                Some(v) => Some(v@),
                None => None,
            },
            cwd@,
            walk@,
        ) {
            Some(t) => r matches Some(x) && x@ == t,
            None => r is None,
        },
{
    let dv = str_to_chars(decoded);
    let parts = match split_collapse_parts(dv.as_slice()) {
        Some(p) => p,
        None => {
            return None;
        },
    };
    let ghost ps = strs(parts@);
    let mut have = false;
    let mut best_idx: usize = 0;
    let mut best_key = String::new();
    let mut count: usize = 0;
    let mut j: usize = 0;
    while j < walk.len()
        invariant
            j <= walk@.len(),
            ps == strs(parts@),
            count <= 2,
            count == 0 <==> !have,
            have ==> best_idx < j,
            have ==> best_key@ == rel_slash_spec(cwd@, walk@[best_idx as int].path@),
            have ==> is_hit(walk@, cwd@, ps, best_idx as int),
            have ==> forall|i: int|
                #![trigger walk@[i]]
                0 <= i < j && is_hit(walk@, cwd@, ps, i) ==> !crate::text::seq_lt(
                    rel_slash_spec(cwd@, walk@[i].path@),
                    best_key@,
                ) && (i < best_idx ==> rel_slash_spec(cwd@, walk@[i].path@) != best_key@),
            have ==> (count >= 2 <==> exists|i: int|
                0 <= i < j && #[trigger] is_hit(walk@, cwd@, ps, i) && i != best_idx),
            !have ==> forall|i: int| 0 <= i < j ==> !#[trigger] is_hit(walk@, cwd@, ps, i),
        decreases walk@.len() - j,
    {
        let key = rel_slash(cwd, walk[j].path.as_str());
        let kv = str_to_chars(key.as_str());
        let hit = rel_matches_collapse(kv.as_slice(), &parts);
        let ghost old_have = have;
        let ghost old_idx = best_idx;
        let ghost old_count = count;
        if hit {
            assert(is_hit(walk@, cwd@, ps, j as int));
            if !have {
                proof {
                    crate::text::lemma_seq_lt(kv@, kv@, kv@);
                }
                have = true;
                best_idx = j;
                best_key = key;
                count = 1;
            } else {
                let bv = str_to_chars(best_key.as_str());
                proof {
                    crate::text::lemma_seq_lt(kv@, bv@, kv@);
                }
                if crate::text::seq_less(kv.as_slice(), bv.as_slice()) {
                    proof {
                        assert forall|i: int|
                            #![trigger walk@[i]]
                            0 <= i < j && is_hit(walk@, cwd@, ps, i) implies !crate::text::seq_lt(
                            rel_slash_spec(cwd@, walk@[i].path@),
                            kv@,
                        ) && rel_slash_spec(cwd@, walk@[i].path@) != kv@ by {
                            crate::text::lemma_seq_lt(
                                rel_slash_spec(cwd@, walk@[i].path@),
                                kv@,
                                bv@,
                            );
                            crate::text::lemma_seq_lt(
                                kv@,
                                bv@,
                                rel_slash_spec(cwd@, walk@[i].path@),
                            );
                        }
                        assert(is_hit(walk@, cwd@, ps, old_idx as int) && old_idx != j);
                    }
                    best_idx = j;
                    best_key = key;
                } else {
                    assert(is_hit(walk@, cwd@, ps, j as int) && j != best_idx);
                }
                count = 2;
            }
        } else {
            proof {
                if have {
                    if count >= 2 {
                        let w = choose|i: int|
                            0 <= i < j && #[trigger] is_hit(walk@, cwd@, ps, i) && i != best_idx;
                        assert(0 <= w < j + 1 && is_hit(walk@, cwd@, ps, w) && w != best_idx);
                    }
                }
            }
        }
        j = j + 1;
    }
    if !have {
        assert(!exists|i: int| is_hit(walk@, cwd@, ps, i));
        return None;
    }
    proof {
        assert(is_best_hit(walk@, cwd@, ps, best_idx as int));
        lemma_best_unique(walk@, cwd@, ps, best_idx as int);
    }
    let ambiguous = count >= 2;
    let open_spec = build_open_spec(str_to_chars(best_key.as_str()).as_slice(), suffix);
    let path = walk[best_idx].path.clone();
    if walk[best_idx].is_dir {
        Some(Target::Dir { path, open_spec, ambiguous })
    } else {
        Some(Target::File { path, open_spec, ambiguous })
    }
}

proof fn lemma_best_unique(walk: Seq<WalkEntry>, cwd: Seq<char>, parts: Seq<Seq<char>>, m: int)
    requires
        is_best_hit(walk, cwd, parts, m),
    ensures
        (choose|x: int| is_best_hit(walk, cwd, parts, x)) == m,
{
    let x = choose|x: int| is_best_hit(walk, cwd, parts, x);
    assert(is_best_hit(walk, cwd, parts, x));
    let km = rel_slash_spec(cwd, walk[m].path@);
    let kx = rel_slash_spec(cwd, walk[x].path@);
    crate::text::lemma_seq_lt(km, kx, km);
    assert(walk[x] == walk[x]);
    assert(walk[m] == walk[m]);
}

/// Classifies candidate `raw` in working directory `cwd`, given the home
/// directory and what the filesystem says about the requested path.
pub fn classify(raw: &str, cwd: &str, home: Option<&str>, probe: &Probe) -> (t: Target)
    requires
        classify_input_ok(raw@),
    ensures
        t@ == classify_spec(raw@, cwd@, opt_view(home), probe.resolved_is_dir, probe.walk@),
{
    let p = parse_candidate(raw, home);
    if p.is_url {
        return Target::Url(string_from_chars(p.trimmed.as_slice()));
    }
    let dv = str_to_chars(p.decoded.as_str());
    let open_spec = build_open_spec(dv.as_slice(), &p.suffix);
    match probe.resolved_is_dir {
        Some(d) => {
            let path = resolve_path(p.decoded.as_str(), cwd);
            if d {
                Target::Dir { path, open_spec, ambiguous: false }
            } else {
                Target::File { path, open_spec, ambiguous: false }
            }
        },
        None => match collapsed_pick(p.decoded.as_str(), &p.suffix, cwd, &probe.walk) {
            Some(t) => t,
            None => Target::Missing { display: string_from_chars(p.trimmed.as_slice()) },
        },
    }
}

// ---------------------------------------------------------------- worktree fallbacks

/// `p` has a `worktrees` component (a git or agent worktree directory).
pub open spec fn is_worktree_dir_spec(p: Seq<char>) -> bool {
    has_component(p, "worktrees"@)
}

/// True when `path` looks like a git or agent worktree directory (`…/worktrees/…`).
pub fn is_worktree_dir(path: &str) -> (r: bool)
    ensures
        r == is_worktree_dir_spec(path@),
{
    let v = str_to_chars(path);
    let name = str_to_chars("worktrees");
    has_component_exec(v.as_slice(), name.as_slice())
}

/// The same path, component for component (`Path`'s `==`).
pub open spec fn same_path(a: Seq<char>, b: Seq<char>) -> bool {
    components(a) == components(b)
}

/// Whether `a` and `b` name the same path, component for component.
pub fn paths_equal(a: &str, b: &str) -> (r: bool)
    ensures
        r == same_path(a@, b@),
{
    let ab = starts_with_path(a, b);
    let ba = starts_with_path(b, a);
    proof {
        if ab && ba {
            assert(components(a@) =~= components(b@));
        }
    }
    ab && ba
}

/// The open spec of a fallback hit: `resolved` relative to `base` when it lies
/// under it (both canonical), else `resolved`, with `raw`'s line suffix.
pub open spec fn open_spec_under_base_spec(
    raw: Seq<char>,
    resolved: Seq<char>,
    base: Seq<char>,
) -> Seq<char> {
    let suffix = path_part(raw).1;
    match strip_prefix_spec(resolved, base) {
        Some(rel) => open_spec_of(rel, suffix),
        None => open_spec_of(resolved, suffix),
    }
}

/// The open spec of a fallback hit (see [`open_spec_under_base_spec`]).
pub fn open_spec_under_base(raw: &str, resolved_canonical: &str, base_canonical: &str) -> (r: String)
    ensures
        r@ == open_spec_under_base_spec(raw@, resolved_canonical@, base_canonical@),
{
    let chars = str_to_chars(raw);
    let trimmed = trim_chars(chars.as_slice());
    let stripped = strip_file_url(trimmed.as_slice());
    let (_, suffix) = split_line_suffix(stripped.as_slice());
    match strip_prefix(resolved_canonical, base_canonical) {
        Some(rel) => build_open_spec(str_to_chars(rel.as_str()).as_slice(), &suffix),
        None => build_open_spec(str_to_chars(resolved_canonical).as_slice(), &suffix),
    }
}

pub open spec fn shift_bounds(b: Seq<(int, int)>, a: int) -> Seq<(int, int)> {
    b.map_values(|x: (int, int)| (x.0 - a, x.1 - a))
}

/// The components of `p[i..]`, read within `p[a..z]` (`z` a component
/// boundary with nothing after it), are those of `p`, shifted.
proof fn lemma_cbf_sub(p: Seq<char>, a: int, z: int, i: int, at: bool)
    requires
        0 <= a <= i <= z <= p.len(),
        i < z ==> (z == p.len() || p[z] == '/'),
        crate::paths::comp_bounds_from(p, z, false).len() == 0,
        i == z ==> !at,
    ensures
        crate::paths::comp_bounds_from(p.subrange(a, z), i - a, at) == shift_bounds(
            crate::paths::comp_bounds_from(p, i, at),
            a,
        ),
    decreases z - i,
{
    let q = p.subrange(a, z);
    let r = crate::paths::comp_bounds_from(p, i, at);
    if i == z {
        assert(shift_bounds(r, a) =~= Seq::<(int, int)>::empty());
    } else {
        assert(q[i - a] == p[i]);
        if p[i] == '/' {
            lemma_cbf_sub(p, a, z, i + 1, false);
        } else {
            let e = first_from(p, '/', i);
            lemma_first_from(p, '/', i);
            lemma_first_from_shift_at(p, '/', a, z, i);
            assert(e <= z);
            assert(first_from(q, '/', i - a) == e - a);
            lemma_cbf_sub(p, a, z, e, false);
            let rest = crate::paths::comp_bounds_from(p, e, false);
            if !(e == i + 1 && p[i] == '.' && !at) {
                assert(r == seq![(i, e)] + rest);
                assert(shift_bounds(r, a) =~= seq![(i - a, e - a)] + shift_bounds(rest, a));
            }
        }
    }
}

/// The last component of `p[i..]` ends at a `/` or at the end, and nothing
/// follows it.
proof fn lemma_cbf_last(p: Seq<char>, i: int, at: bool)
    requires
        0 <= i <= p.len(),
        crate::paths::comp_bounds_from(p, i, at).len() > 0,
    ensures
        ({
            let z = crate::paths::comp_bounds_from(p, i, at).last().1;
            &&& z == p.len() || p[z] == '/'
            &&& crate::paths::comp_bounds_from(p, z, false).len() == 0
        }),
    decreases p.len() - i,
{
    if p[i] == '/' {
        lemma_cbf_last(p, i + 1, false);
    } else {
        let e = first_from(p, '/', i);
        lemma_first_from(p, '/', i);
        let rest = crate::paths::comp_bounds_from(p, e, false);
        if e == i + 1 && p[i] == '.' && !at {
            lemma_cbf_last(p, e, false);
        } else if rest.len() > 0 {
            lemma_cbf_last(p, e, false);
            assert((seq![(i, e)] + rest).last() == rest.last());
        }
    }
}

/// The text from the start of component `k` of `p[i..]` to the end of the
/// last one has those components, shifted.
proof fn lemma_cbf_suffix(p: Seq<char>, i: int, at: bool, k: int)
    requires
        0 <= i <= p.len(),
        0 <= k < crate::paths::comp_bounds_from(p, i, at).len(),
    ensures
        ({
            let r = crate::paths::comp_bounds_from(p, i, at);
            let a = r[k].0;
            let z = r.last().1;
            crate::paths::comp_bounds_from(p.subrange(a, z), 0, true) == shift_bounds(r.skip(k), a)
        }),
    decreases p.len() - i,
{
    let r = crate::paths::comp_bounds_from(p, i, at);
    crate::paths::lemma_comp_bounds_from(p, i, at);
    if p[i] == '/' {
        lemma_cbf_suffix(p, i + 1, false, k);
    } else {
        let e = first_from(p, '/', i);
        lemma_first_from(p, '/', i);
        let rest = crate::paths::comp_bounds_from(p, e, false);
        if e == i + 1 && p[i] == '.' && !at {
            lemma_cbf_suffix(p, e, false, k);
        } else {
            assert(r == seq![(i, e)] + rest);
            if k == 0 {
                lemma_cbf_last(p, i, at);
                let z = r.last().1;
                assert(crate::paths::bounds_ok(p, r, 0));
                crate::paths::lemma_bounds_mono(r, p, 0, r.len() - 1);
                crate::paths::lemma_comp_bounds_from(p, i, true);
                assert(crate::paths::comp_bounds_from(p, i, true) == r);
                lemma_cbf_sub(p, i, z, i, true);
                assert(r.skip(0) =~= r);
            } else {
                lemma_cbf_suffix(p, e, false, k - 1);
                assert(r.skip(k) =~= rest.skip(k - 1));
                assert(r[k] == rest[k - 1]);
                assert(r.last() == rest.last());
            }
        }
    }
}

/// The components of `p` from component `k` on are those of the text that
/// runs from the start of component `k` to the end of the last one.
proof fn lemma_components_from(p: Seq<char>, k: int)
    requires
        0 <= k < comp_bounds(p).len(),
    ensures
        components(p.subrange(comp_bounds(p)[k].0, comp_bounds(p).last().1)) == components(
            p,
        ).skip(k),
{
    let cp = comp_bounds(p);
    let a = cp[k].0;
    let z = cp.last().1;
    let q = p.subrange(a, z);
    lemma_comp_bounds(p);
    crate::paths::lemma_bounds_mono(cp, p, k, cp.len() - 1);
    if is_rooted(p) && k == 0 {
        let rest = crate::paths::comp_bounds_from(p, 1, false);
        assert(cp == seq![(0int, 1int)] + rest);
        if rest.len() > 0 {
            lemma_cbf_last(p, 1, false);
            assert(cp.last() == rest.last());
        } else {
            assert(z == 1);
        }
        lemma_cbf_sub(p, 0, z, 1, false);
        assert(q[0] == '/');
        assert(comp_bounds(q) =~= seq![(0int, 1int)] + shift_bounds(rest, 0));
        assert(comp_bounds(q) =~= cp);
    } else {
        let r = if is_rooted(p) {
            crate::paths::comp_bounds_from(p, 1, false)
        } else {
            crate::paths::comp_bounds_from(p, 0, true)
        };
        let j = if is_rooted(p) {
            k - 1
        } else {
            k
        };
        if is_rooted(p) {
            assert(cp == seq![(0int, 1int)] + r);
            assert(cp[k] == r[j]);
            assert(cp.last() == r.last());
            assert(cp.skip(k) =~= r.skip(j));
            lemma_cbf_suffix(p, 1, false, j);
        } else {
            assert(cp == r);
            lemma_cbf_suffix(p, 0, true, j);
        }
        assert(p[a] != '/');
        assert(q[0] == p[a]);
        assert(comp_bounds(q) == shift_bounds(cp.skip(k), a));
    }
    let cq = comp_bounds(q);
    assert forall|m: int| 0 <= m < cq.len() implies #[trigger] components(q)[m] == components(
        p,
    ).skip(k)[m] by {
        crate::paths::lemma_bounds_mono(cp, p, k + m, cp.len() - 1);
        assert(cp.skip(k)[m] == cp[k + m]);
        crate::paths::lemma_bounds_mono(cp, p, k, k + m);
        assert(q.subrange(cp[k + m].0 - a, cp[k + m].1 - a) =~= p.subrange(cp[k + m].0, cp[k + m].1));
    }
    assert(components(q) =~= components(p).skip(k));
}

/// What `Path::strip_prefix` leaves, put after `base`, gives `path` back,
/// component for component; it is no rooted path.
pub proof fn lemma_strip_prefix_rejoins(path: Seq<char>, base: Seq<char>)
    requires
        strip_prefix_spec(path, base) is Some,
    ensures
        components(base) + components(strip_prefix_spec(path, base)->0) == components(path),
{
    let cp = comp_bounds(path);
    let k = components(base).len() as int;
    let rel = strip_prefix_spec(path, base)->0;
    if k < cp.len() {
        lemma_components_from(path, k);
        assert(components(base) =~= components(path).take(k));
    } else {
        assert(components(rel) =~= Seq::<Seq<char>>::empty());
        assert(components(base) =~= components(path));
    }
    assert(components(path).take(k) + components(path).skip(k) =~= components(path));
}

/// The open spec of a fallback hit, line suffix aside, names the hit's
/// canonical path as seen from the pane's canonical working directory: the
/// components that follow those of `cwd_canonical` when the hit lies under
/// it (so that, put after `cwd_canonical`, they give the hit's path back),
/// and the whole canonical path when it lies elsewhere.
pub proof fn lemma_fallback_open_spec(
    raw: Seq<char>,
    cwd: Seq<char>,
    cwd_canonical: Seq<char>,
    f: FallbackProbe,
)
    requires
        fallback_hit(raw, cwd, cwd_canonical, f) is Some,
    ensures
        ({
            let o = match fallback_hit(raw, cwd, cwd_canonical, f)->0 {
                TargetView::File(_, o, _) => o,
                TargetView::Dir(_, o, _) => o,
                _ => Seq::<char>::empty(),
            };
            let sfx = match path_part(raw).1 {
                Some(x) => x,
                None => Seq::<char>::empty(),
            };
            exists|p: Seq<char>|
                #![trigger components(p)]
                o == p + sfx && (if path_starts_with(f.path_canonical@, cwd_canonical) {
                    components(cwd_canonical) + components(p) == components(f.path_canonical@)
                } else {
                    p == f.path_canonical@
                })
        }),
{
    let pc = f.path_canonical@;
    let sfx = match path_part(raw).1 {
        Some(x) => x,
        None => Seq::<char>::empty(),
    };
    let p = match strip_prefix_spec(pc, cwd_canonical) {
        Some(rel) => rel,
        None => pc,
    };
    if path_starts_with(pc, cwd_canonical) {
        lemma_strip_prefix_rejoins(pc, cwd_canonical);
    }
    assert(open_spec_under_base_spec(raw, pc, cwd_canonical) =~= p + sfx);
    assert(components(p) == components(p));
}

/// The same target, marked ambiguous when it is a file or directory.
pub open spec fn mark_ambiguous_spec(t: TargetView) -> TargetView {
    match t {
        TargetView::File(p, o, _) => TargetView::File(p, o, true),
        TargetView::Dir(p, o, _) => TargetView::Dir(p, o, true),
        other => other,
    }
}

/// The target marked ambiguous (see [`mark_ambiguous_spec`]).
pub fn mark_ambiguous(t: Target) -> (r: Target)
    ensures
        r@ == mark_ambiguous_spec(t@),
{
    match t {
        Target::File { path, open_spec, .. } => Target::File { path, open_spec, ambiguous: true },
        Target::Dir { path, open_spec, .. } => Target::Dir { path, open_spec, ambiguous: true },
        other => other,
    }
}

/// A fallback root with the candidate classified against it, and the
/// canonical form of the path it found (when it found one).
#[derive(Debug, Clone, PartialEq, Eq)]
pub struct FallbackProbe {
    pub root: String,
    pub target: Target,
    pub path_canonical: String,
}

/// The hit that fallback `f` gives: its file or directory, opened relative
/// to the primary working directory when it lies under it.
pub open spec fn fallback_hit(
    raw: Seq<char>,
    cwd: Seq<char>,
    cwd_canonical: Seq<char>,
    f: FallbackProbe,
) -> Option<TargetView> {
    if same_path(f.root@, cwd) {
        None
    } else {
        match f.target@ {
            TargetView::File(p, _, a) => Some(
                TargetView::File(
                    p,
                    open_spec_under_base_spec(raw, f.path_canonical@, cwd_canonical),
                    a,
                ),
            ),
            TargetView::Dir(p, _, a) => Some(
                TargetView::Dir(
                    p,
                    open_spec_under_base_spec(raw, f.path_canonical@, cwd_canonical),
                    a,
                ),
            ),
            _ => None,
        }
    }
}

/// The hits of fallbacks `k..`, in order.
pub open spec fn fallback_hits(
    raw: Seq<char>,
    cwd: Seq<char>,
    cwd_canonical: Seq<char>,
    fs: Seq<FallbackProbe>,
) -> Seq<TargetView>
    decreases fs.len(),
{
    if fs.len() == 0 {
        seq![]
    } else {
        let rest = fallback_hits(raw, cwd, cwd_canonical, fs.drop_last());
        match fallback_hit(raw, cwd, cwd_canonical, fs.last()) {
            Some(t) => rest.push(t),
            None => rest,
        }
    }
}

/// `primary` unless it is missing; then the single fallback hit, or the
/// first of several marked ambiguous, or `primary` when none hits.
pub open spec fn with_fallbacks_spec(
    raw: Seq<char>,
    cwd: Seq<char>,
    cwd_canonical: Seq<char>,
    primary: TargetView,
    fs: Seq<FallbackProbe>,
) -> TargetView {
    if !(primary is Missing) {
        primary
    } else {
        let hits = fallback_hits(raw, cwd, cwd_canonical, fs);
        if hits.len() == 0 {
            primary
        } else if hits.len() == 1 {
            hits[0]
        } else {
            mark_ambiguous_spec(hits[0])
        }
    }
}

/// Like [`classify`], but when the primary target is missing, tries each
/// fallback root (e.g. an agent worktree directory visible in the same
/// pane); a hit is opened relative to `cwd` when it lies under that tree, so a
/// viewer rooted at the agent pane still opens it.
pub fn classify_with_fallbacks(
    raw: &str,
    cwd: &str,
    cwd_canonical: &str,
    primary: Target,
    fallbacks: &Vec<FallbackProbe>,
) -> (r: Target)
    ensures
        r@ == with_fallbacks_spec(raw@, cwd@, cwd_canonical@, primary@, fallbacks@),
{
    match &primary {
        Target::Missing { .. } => {},
        _ => {
            return primary;
        },
    }
    let mut hits: Vec<Target> = Vec::new();
    let mut k: usize = 0;
    while k < fallbacks.len()
        invariant
            k <= fallbacks@.len(),
            hits@.map_values(|t: Target| t@) == fallback_hits(
                raw@,
                cwd@,
                cwd_canonical@,
                fallbacks@.take(k as int),
            ),
        decreases fallbacks@.len() - k,
    {
        let f = &fallbacks[k];
        assert(fallbacks@.take(k + 1).drop_last() =~= fallbacks@.take(k as int));
        assert(fallbacks@.take(k + 1).last() == *f);
        let ghost old_hits = hits@;
        if !paths_equal(f.root.as_str(), cwd) {
            match &f.target {
                Target::File { path, ambiguous, .. } => {
                    let open_spec = open_spec_under_base(raw, f.path_canonical.as_str(), cwd_canonical);
                    hits.push(Target::File { path: path.clone(), open_spec, ambiguous: *ambiguous });
                    assert(hits@.map_values(|t: Target| t@) =~= old_hits.map_values(|t: Target| t@).push(
                        hits@.last()@,
                    ));
                },
                Target::Dir { path, ambiguous, .. } => {
                    let open_spec = open_spec_under_base(raw, f.path_canonical.as_str(), cwd_canonical);
                    hits.push(Target::Dir { path: path.clone(), open_spec, ambiguous: *ambiguous });
                    assert(hits@.map_values(|t: Target| t@) =~= old_hits.map_values(|t: Target| t@).push(
                        hits@.last()@,
                    ));
                },
                _ => {},
            }
        }
        k = k + 1;
    }
    assert(fallbacks@.take(fallbacks@.len() as int) =~= fallbacks@);
    let n = hits.len();
    if n == 0 {
        primary
    } else if n == 1 {
        assert(hits@.map_values(|t: Target| t@)[0] == hits@[0]@);
        hits.pop().unwrap()
    } else {
        assert(hits@.map_values(|t: Target| t@)[0] == hits@[0]@);
        let first = hits.remove(0);
        mark_ambiguous(first)
    }
}

/// Paths named on `worktree <path>` lines of `git worktree list --porcelain`.
pub open spec fn worktree_lines(lines: Seq<Seq<char>>) -> Seq<Seq<char>>
    decreases lines.len(),
{
    if lines.len() == 0 {
        seq![]
    } else {
        let rest = worktree_lines(lines.drop_last());
        let l = lines.last();
        if matches_at(l, 0, "worktree "@) && l.len() > 9 {
            rest.push(l.subrange(9, l.len() as int))
        } else {
            rest
        }
    }
}

/// `str::lines`: split at `\n`, a trailing `\r` dropped from each line, no
/// empty last line after a final `\n`.
pub open spec fn lines_spec(s: Seq<char>) -> Seq<Seq<char>> {
    lines_from(s, 0)
}

pub open spec fn strip_cr(l: Seq<char>) -> Seq<char> {
    if l.len() > 0 && l.last() == '\r' {
        l.drop_last()
    } else {
        l
    }
}

pub open spec fn lines_from(s: Seq<char>, i: int) -> Seq<Seq<char>>
    decreases s.len() - i,
{
    if i >= s.len() || i < 0 {
        seq![]
    } else {
        let e = first_from(s, '\n', i);
        proof {
            lemma_first_from(s, '\n', i);
        }
        if e >= s.len() {
            seq![strip_cr(s.subrange(i, e))]
        } else {
            seq![strip_cr(s.subrange(i, e))] + lines_from(s, e + 1)
        }
    }
}

/// The lines of `s` (`str::lines`).
pub fn lines_of(s: &[char]) -> (r: Vec<Vec<char>>)
    ensures
        r@.map_values(|v: Vec<char>| v@) == lines_spec(s@),
{
    let n = s.len();
    let mut r: Vec<Vec<char>> = Vec::new();
    let mut i: usize = 0;
    while i < n
        invariant
            n == s@.len(),
            i <= n,
            r@.map_values(|v: Vec<char>| v@) + lines_from(s@, i as int) == lines_spec(s@),
        decreases n - i,
    {
        let e = find_char_from(s, '\n', i);
        proof {
            lemma_first_from(s@, '\n', i as int);
        }
        let mut end = e;
        if end > i && s[end - 1] == '\r' {
            end = end - 1;
        }
        let line = copy_chars(s, i, end);
        assert(line@ == strip_cr(s@.subrange(i as int, e as int)));
        let ghost old_r = r@;
        r.push(line);
        if e >= n {
            assert(r@.map_values(|v: Vec<char>| v@) =~= old_r.map_values(|v: Vec<char>| v@)
                + lines_from(s@, i as int));
            assert(lines_from(s@, n as int) =~= Seq::<Seq<char>>::empty());
            i = n;
        } else {
            assert(r@.map_values(|v: Vec<char>| v@) + lines_from(s@, e + 1) =~= old_r.map_values(
                |v: Vec<char>| v@,
            ) + lines_from(s@, i as int));
            i = e + 1;
        }
    }
    assert(r@.map_values(|v: Vec<char>| v@) + lines_from(s@, i as int) =~= r@.map_values(
        |v: Vec<char>| v@,
    ));
    r
}

/// The worktree paths listed in `git worktree list --porcelain` output.
pub fn parse_worktree_list(output: &str) -> (r: Vec<String>)
    ensures
        strs(r@) == worktree_lines(lines_spec(output@)),
{
    let v = str_to_chars(output);
    let lines = lines_of(v.as_slice());
    let ghost ls = lines@.map_values(|v: Vec<char>| v@);
    let prefix = str_to_chars("worktree ");
    proof {
        reveal_strlit("worktree ");
    }
    let mut r: Vec<String> = Vec::new();
    let mut k: usize = 0;
    while k < lines.len()
        invariant
            k <= lines@.len(),
            ls == lines@.map_values(|v: Vec<char>| v@),
            prefix@ == "worktree "@,
            prefix@.len() == 9,
            strs(r@) == worktree_lines(ls.take(k as int)),
        decreases lines@.len() - k,
    {
        let l = &lines[k];
        assert(ls.take(k + 1).drop_last() =~= ls.take(k as int));
        assert(ls.take(k + 1).last() == l@);
        let ghost old_r = r@;
        if matches_at_exec(l.as_slice(), 0, prefix.as_slice()) && l.len() > 9 {
            r.push(string_from_range(l.as_slice(), 9, l.len()));
            assert(strs(r@) =~= strs(old_r).push(l@.subrange(9, l@.len() as int)));
        }
        k = k + 1;
    }
    assert(ls.take(lines@.len() as int) =~= ls);
    r
}

/// A worktree found on disk: its canonical path, and whether it is a
/// directory.
#[derive(Debug, Clone, PartialEq, Eq)]
pub struct RootCandidate {
    pub path: String,
    pub is_dir: bool,
}

pub open spec fn candidate_views(c: Seq<RootCandidate>) -> Seq<(Seq<char>, bool)> {
    c.map_values(|x: RootCandidate| (x.path@, x.is_dir))
}

/// The worktree roots to retry missing paths under, from the worktrees
/// found on disk in order: directories other than the working directory,
/// each path once (paths compared by component).
pub open spec fn select_roots_spec(cands: Seq<(Seq<char>, bool)>, cwd: Seq<char>) -> Seq<
    Seq<char>,
>
    decreases cands.len(),
{
    if cands.len() == 0 {
        seq![]
    } else {
        let rest = select_roots_spec(cands.drop_last(), cwd);
        let c = cands.last();
        if c.1 && !same_path(c.0, cwd) && !(exists|i: int|
            0 <= i < rest.len() && same_path(#[trigger] rest[i], c.0)) {
            rest.push(c.0)
        } else {
            rest
        }
    }
}

/// The worktree roots among `cands` (see [`select_roots_spec`]).
pub fn select_worktree_roots(cands: &Vec<RootCandidate>, cwd_canonical: &str) -> (r: Vec<String>)
    ensures
        strs(r@) == select_roots_spec(candidate_views(cands@), cwd_canonical@),
{
    let ghost cv = candidate_views(cands@);
    let mut out: Vec<String> = Vec::new();
    let mut k: usize = 0;
    while k < cands.len()
        invariant
            cv == candidate_views(cands@),
            k <= cands@.len(),
            strs(out@) == select_roots_spec(cv.take(k as int), cwd_canonical@),
        decreases cands@.len() - k,
    {
        let c = &cands[k];
        assert(cv.take(k + 1).drop_last() =~= cv.take(k as int));
        assert(cv.take(k + 1).last() == (c.path@, c.is_dir));
        if c.is_dir && !paths_equal(c.path.as_str(), cwd_canonical) {
            let mut seen = false;
            let mut j: usize = 0;
            while j < out.len()
                invariant
                    j <= out@.len(),
                    !seen ==> forall|i: int| 0 <= i < j ==> !same_path(#[trigger] strs(out@)[i], c.path@),
                    seen ==> exists|i: int|
                        0 <= i < out@.len() && same_path(#[trigger] strs(out@)[i], c.path@),
                decreases out@.len() - j,
            {
                if paths_equal(out[j].as_str(), c.path.as_str()) {
                    assert(same_path(strs(out@)[j as int], c.path@));
                    seen = true;
                }
                j = j + 1;
            }
            if !seen {
                let ghost old_out = out@;
                out.push(c.path.clone());
                assert(strs(out@) =~= strs(old_out).push(c.path@));
            }
        }
        k = k + 1;
    }
    assert(cv.take(cands@.len() as int) =~= cv);
    out
}

} // verus!
