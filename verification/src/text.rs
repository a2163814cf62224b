//! Character-level helpers shared by the other modules: Unicode class
//! predicates, UTF-8 widths, searching, and building `String`s.
use vstd::prelude::*;
use vstd::std_specs::iter::IteratorSpec;
use vstd::utf8::encode_scalar;

verus! {

/// `c` has the Unicode `White_Space` property (the set `char::is_whitespace` tests).
pub open spec fn is_ws(c: char) -> bool {
    let u: u32 = c as u32;
    ||| 0x09 <= u <= 0x0D
    ||| u == 0x20
    ||| u == 0x85
    ||| u == 0xA0
    ||| u == 0x1680
    ||| 0x2000 <= u <= 0x200A
    ||| u == 0x2028
    ||| u == 0x2029
    ||| u == 0x202F
    ||| u == 0x205F
    ||| u == 0x3000
}

/// Unicode `White_Space` test.
pub fn is_whitespace(c: char) -> (r: bool)
    ensures
        r == is_ws(c),
{
    let u: u32 = c as u32;
    (0x09 <= u && u <= 0x0D) || u == 0x20 || u == 0x85 || u == 0xA0 || u == 0x1680 || (0x2000
        <= u && u <= 0x200A) || u == 0x2028 || u == 0x2029 || u == 0x202F || u == 0x205F || u
        == 0x3000
}

/// What `char::is_alphanumeric` answers for `c` (Unicode `Alphabetic` or `Numeric`).
pub uninterp spec fn unicode_alphanumeric(c: char) -> bool;

/// Calls `char::is_alphanumeric`. The contract claims that the answer is a
/// function of `c` alone and that, on ASCII, it is exactly the ASCII letters
/// and digits; the Unicode tables beyond ASCII are not written out here.
#[verifier::external_body]
pub(crate) fn is_alphanumeric(c: char) -> (r: bool)
    ensures
        r == unicode_alphanumeric(c),
        (c as u32) < 128 ==> (r <==> is_ascii_alnum(c)),
{
    c.is_alphanumeric()
}

pub open spec fn is_ascii_alpha(c: char) -> bool {
    ('a' <= c && c <= 'z') || ('A' <= c && c <= 'Z')
}

pub open spec fn is_ascii_dig(c: char) -> bool {
    '0' <= c && c <= '9'
}

pub open spec fn is_ascii_alnum(c: char) -> bool {
    is_ascii_alpha(c) || is_ascii_dig(c)
}

/// Whether `c` is an ASCII letter.
pub fn ascii_alpha(c: char) -> (r: bool)
    ensures
        r == is_ascii_alpha(c),
{
    ('a' <= c && c <= 'z') || ('A' <= c && c <= 'Z')
}

/// Whether `c` is an ASCII digit.
pub fn ascii_digit(c: char) -> (r: bool)
    ensures
        r == is_ascii_dig(c),
{
    '0' <= c && c <= '9'
}

/// Number of bytes in the UTF-8 encoding of `c`.
pub open spec fn char_width(c: char) -> nat {
    encode_scalar(c as u32).len()
}

/// Number of bytes in the UTF-8 encoding of `s`.
pub open spec fn utf8_len(s: Seq<char>) -> nat
    decreases s.len(),
{
    if s.len() == 0 {
        0
    } else {
        utf8_len(s.drop_last()) + char_width(s.last())
    }
}

/// The number of bytes of `c` in UTF-8.
pub fn utf8_width(c: char) -> (r: usize)
    ensures
        r == char_width(c),
        1 <= r <= 4,
{
    let u: u32 = c as u32;
    if u <= 0x7F {
        1
    } else if u <= 0x7FF {
        2
    } else if u <= 0xFFFF {
        3
    } else {
        4
    }
}

pub proof fn lemma_utf8_len_take_succ(s: Seq<char>, i: int)
    requires
        0 <= i < s.len(),
    ensures
        utf8_len(s.take(i + 1)) == utf8_len(s.take(i)) + char_width(s[i]),
{
    assert(s.take(i + 1).drop_last() =~= s.take(i));
}

pub proof fn lemma_utf8_len_mono(s: Seq<char>, i: int, j: int)
    requires
        0 <= i <= j <= s.len(),
    ensures
        utf8_len(s.take(i)) <= utf8_len(s.take(j)),
    decreases j - i,
{
    if i < j {
        lemma_utf8_len_take_succ(s, j - 1);
        lemma_utf8_len_mono(s, i, j - 1);
    }
}

/// The characters of `s`, in order.
pub fn str_to_chars(s: &str) -> (v: Vec<char>)
    ensures
        v@ == s@,
{
    let mut v: Vec<char> = Vec::new();
    for c in it: s.chars()
        invariant
            v@ == it.seq().take(it.index()),
            it.seq() == s@,
    {
        v.push(c);
    }
    v
}

/// Calls `String::push`: the contract claims that `c` is appended.
#[verifier::external_body]
pub(crate) fn string_push(s: &mut String, c: char)
    ensures
        final(s)@ == old(s)@.push(c),
{
    s.push(c);
}

/// A `String` holding `v[from..to]`.
pub fn string_from_range(v: &[char], from: usize, to: usize) -> (s: String)
    requires
        from <= to <= v@.len(),
    ensures
        s@ == v@.subrange(from as int, to as int),
{
    let mut s = String::new();
    let mut i: usize = from;
    while i < to
        invariant
            from <= i <= to <= v@.len(),
            s@ == v@.subrange(from as int, i as int),
        decreases to - i,
    {
        string_push(&mut s, v[i]);
        assert(v@.subrange(from as int, i + 1) =~= v@.subrange(from as int, i as int).push(v@[i as int]));
        i = i + 1;
    }
    s
}

/// A `String` holding all of `v`.
pub fn string_from_chars(v: &[char]) -> (s: String)
    ensures
        s@ == v@,
{
    let s = string_from_range(v, 0, v.len());
    assert(v@.subrange(0, v@.len() as int) =~= v@);
    s
}

/// Appends `v[from..to]` to `s`.
pub fn push_range(s: &mut String, v: &[char], from: usize, to: usize)
    requires
        from <= to <= v@.len(),
    ensures
        final(s)@ == old(s)@ + v@.subrange(from as int, to as int),
{
    let mut i: usize = from;
    while i < to
        invariant
            from <= i <= to <= v@.len(),
            s@ == old(s)@ + v@.subrange(from as int, i as int),
        decreases to - i,
    {
        string_push(s, v[i]);
        assert(old(s)@ + v@.subrange(from as int, i + 1) =~= (old(s)@ + v@.subrange(
            from as int,
            i as int,
        )).push(v@[i as int]));
        i = i + 1;
    }
}

/// Appends all of `t` to `s`.
pub fn push_str(s: &mut String, t: &str)
    ensures
        final(s)@ == old(s)@ + t@,
{
    let v = str_to_chars(t);
    push_range(s, v.as_slice(), 0, v.len());
    assert(v@.subrange(0, v@.len() as int) =~= v@);
}

/// Index of the first `c` in `s` at or after `i`, or `s.len()` when there is none.
pub open spec fn first_from(s: Seq<char>, c: char, i: int) -> int
    decreases s.len() - i,
{
    if i >= s.len() {
        s.len() as int
    } else if s[i] == c {
        i
    } else {
        first_from(s, c, i + 1)
    }
}

pub proof fn lemma_first_from(s: Seq<char>, c: char, i: int)
    requires
        0 <= i <= s.len(),
    ensures
        i <= first_from(s, c, i) <= s.len(),
        forall|k: int| i <= k < first_from(s, c, i) ==> s[k] != c,
        first_from(s, c, i) < s.len() ==> s[first_from(s, c, i)] == c,
    decreases s.len() - i,
{
    if i < s.len() && s[i] != c {
        lemma_first_from(s, c, i + 1);
    }
}

/// Index of the last `c` in `s[..i]`, or -1 when there is none.
pub open spec fn last_before(s: Seq<char>, c: char, i: int) -> int
    decreases i,
{
    if i <= 0 {
        -1
    } else if s[i - 1] == c {
        i - 1
    } else {
        last_before(s, c, i - 1)
    }
}

pub proof fn lemma_last_before(s: Seq<char>, c: char, i: int)
    requires
        0 <= i <= s.len(),
    ensures
        -1 <= last_before(s, c, i) < i,
        forall|k: int| last_before(s, c, i) < k < i ==> s[k] != c,
        last_before(s, c, i) >= 0 ==> s[last_before(s, c, i)] == c,
    decreases i,
{
    if i > 0 && s[i - 1] != c {
        lemma_last_before(s, c, i - 1);
    }
}

/// The index of the first `c` in `s` at or after `i` (`s.len()` when none).
pub fn find_char_from(s: &[char], c: char, i: usize) -> (r: usize)
    requires
        i <= s@.len(),
    ensures
        r == first_from(s@, c, i as int),
{
    let mut j: usize = i;
    while j < s.len()
        invariant
            i <= j <= s@.len(),
            first_from(s@, c, i as int) == first_from(s@, c, j as int),
        decreases s@.len() - j,
    {
        if s[j] == c {
            return j;
        }
        j = j + 1;
    }
    j
}

/// `last_before(s, c, i)` as an option.
pub fn rfind_char_before(s: &[char], c: char, i: usize) -> (r: Option<usize>)
    requires
        i <= s@.len(),
    ensures
        match r {
            Some(k) => k == last_before(s@, c, i as int),
            None => last_before(s@, c, i as int) == -1,
        },
{
    let mut j: usize = i;
    while j > 0
        invariant
            j <= i <= s@.len(),
            last_before(s@, c, i as int) == last_before(s@, c, j as int),
        decreases j,
    {
        if s[j - 1] == c {
            return Some(j - 1);
        }
        j = j - 1;
    }
    None
}

/// `s` holds `c` somewhere in `s[from..to]`.
pub open spec fn has_char_in(s: Seq<char>, c: char, from: int, to: int) -> bool {
    exists|k: int| from <= k < to && s[k] == c
}

/// Whether `s[from..to]` holds `c`.
pub fn contains_char_in(s: &[char], c: char, from: usize, to: usize) -> (r: bool)
    requires
        from <= to <= s@.len(),
    ensures
        r == has_char_in(s@, c, from as int, to as int),
{
    let mut j: usize = from;
    while j < to
        invariant
            from <= j <= to <= s@.len(),
            forall|k: int| from <= k < j ==> s@[k] != c,
        decreases to - j,
    {
        if s[j] == c {
            return true;
        }
        j = j + 1;
    }
    false
}

/// `s[at..]` begins with `p`.
pub open spec fn matches_at(s: Seq<char>, at: int, p: Seq<char>) -> bool {
    &&& 0 <= at
    &&& at + p.len() <= s.len()
    &&& s.subrange(at, at + p.len()) == p
}

/// Whether `p` occurs in `s` at `at`.
pub fn matches_at_exec(s: &[char], at: usize, p: &[char]) -> (r: bool)
    ensures
        r == matches_at(s@, at as int, p@),
{
    if p.len() > s.len() || at > s.len() - p.len() {
        return false;
    }
    let mut k: usize = 0;
    while k < p.len()
        invariant
            k <= p@.len(),
            at <= s@.len(),
            at + p@.len() <= s@.len(),
            forall|j: int| 0 <= j < k ==> s@[at + j] == p@[j],
        decreases p@.len() - k,
    {
        let slen = s.len();
        assert(at + k < slen);
        if s[at + k] != p[k] {
            assert(s@.subrange(at as int, at + p@.len())[k as int] != p@[k as int]);
            return false;
        }
        k = k + 1;
    }
    assert(s@.subrange(at as int, at + p@.len()) =~= p@);
    true
}

/// Decimal digits of `n`, most significant first (`"0"` for zero).
pub open spec fn decimal(n: nat) -> Seq<char>
    decreases n,
{
    if n < 10 {
        seq![digit_char(n)]
    } else {
        decimal(n / 10).push(digit_char(n % 10))
    }
}

/// The ASCII digit for `d` (only meaningful for `d < 10`).
pub open spec fn digit_char(d: nat) -> char {
    if d == 0 {
        '0'
    } else if d == 1 {
        '1'
    } else if d == 2 {
        '2'
    } else if d == 3 {
        '3'
    } else if d == 4 {
        '4'
    } else if d == 5 {
        '5'
    } else if d == 6 {
        '6'
    } else if d == 7 {
        '7'
    } else if d == 8 {
        '8'
    } else {
        '9'
    }
}

/// Value of the ASCII digit `c`.
pub open spec fn digit_value(c: char) -> nat {
    ((c as u32) - ('0' as u32)) as nat
}

fn digit_of(d: usize) -> (c: char)
    requires
        d < 10,
    ensures
        c == digit_char(d as nat),
{
    if d == 0 {
        '0'
    } else if d == 1 {
        '1'
    } else if d == 2 {
        '2'
    } else if d == 3 {
        '3'
    } else if d == 4 {
        '4'
    } else if d == 5 {
        '5'
    } else if d == 6 {
        '6'
    } else if d == 7 {
        '7'
    } else if d == 8 {
        '8'
    } else {
        '9'
    }
}

/// Value of the decimal digit string `s` (empty gives zero).
pub open spec fn digits_value(s: Seq<char>) -> nat
    decreases s.len(),
{
    if s.len() == 0 {
        0
    } else {
        digits_value(s.drop_last()) * 10 + digit_value(s.last())
    }
}

/// `s` is one or more ASCII digits.
pub open spec fn all_digits(s: Seq<char>) -> bool {
    s.len() > 0 && forall|k: int| 0 <= k < s.len() ==> is_ascii_dig(#[trigger] s[k])
}

/// What `str::parse::<T>()` gives for an unsigned `T` whose largest value is
/// `max`: an optional `+` sign, then one or more decimal digits, value at most `max`.
pub open spec fn parse_unsigned(s: Seq<char>, max: nat) -> Option<nat> {
    let body = if s.len() > 0 && s[0] == '+' {
        s.drop_first()
    } else {
        s
    };
    if all_digits(body) && digits_value(body) <= max {
        Some(digits_value(body))
    } else {
        None
    }
}

proof fn lemma_div_mod_10(n: nat)
    ensures
        n == (n / 10) * 10 + n % 10,
        n % 10 < 10,
        n >= 10 ==> n / 10 < n,
{
}

proof fn lemma_digit_char(d: nat)
    requires
        d < 10,
    ensures
        digit_value(digit_char(d)) == d,
        is_ascii_dig(digit_char(d)),
        digit_char(d) != '+',
{
    assert('0' as u32 == 48);
    assert('1' as u32 == 49);
    assert('2' as u32 == 50);
    assert('3' as u32 == 51);
    assert('4' as u32 == 52);
    assert('5' as u32 == 53);
    assert('6' as u32 == 54);
    assert('7' as u32 == 55);
    assert('8' as u32 == 56);
    assert('9' as u32 == 57);
}

/// The decimal text of `n` is one or more digits, with value `n`, not
/// starting with `+`.
pub proof fn lemma_decimal_digits(n: nat)
    ensures
        all_digits(decimal(n)),
        digits_value(decimal(n)) == n,
        decimal(n)[0] != '+',
    decreases n,
{
    lemma_div_mod_10(n);
    lemma_digit_char(n % 10);
    if n < 10 {
        assert(n % 10 == n);
        assert(decimal(n).drop_last() =~= Seq::<char>::empty());
        assert(digits_value(decimal(n)) == digits_value(Seq::<char>::empty()) * 10 + digit_value(digit_char(n)));
    } else {
        lemma_decimal_digits(n / 10);
        let d = decimal(n);
        assert(d.drop_last() =~= decimal(n / 10));
        assert(d.last() == digit_char(n % 10));
        assert(digits_value(d) == digits_value(decimal(n / 10)) * 10 + digit_value(digit_char(n % 10)));
        assert forall|k: int| 0 <= k < d.len() implies is_ascii_dig(#[trigger] d[k]) by {
            if k < d.len() - 1 {
                assert(d[k] == decimal(n / 10)[k]);
            }
        }
    }
}

/// Parsing the decimal digits of `n` gives `n` back.
pub proof fn lemma_parse_decimal(n: nat, max: nat)
    requires
        n <= max,
    ensures
        parse_unsigned(decimal(n), max) == Some(n),
{
    lemma_decimal_digits(n);
}

/// Decimal text of `n`.
pub fn usize_to_decimal(n: usize) -> (s: String)
    ensures
        s@ == decimal(n as nat),
{
    // `digits` holds the low-order digits of n, least significant first
    let mut digits: Vec<char> = Vec::new();
    let mut m: usize = n;
    while m >= 10
        invariant
            decimal(n as nat) == decimal(m as nat) + digits@.reverse(),
        decreases m,
    {
        proof {
            lemma_div_mod_10(m as nat);
        }
        let c = digit_of(m % 10);
        let ghost old_digits = digits@;
        digits.push(c);
        assert(digits@.reverse() =~= seq![c] + old_digits.reverse());
        assert(decimal((m / 10) as nat).push(c) + old_digits.reverse() =~= decimal(
            (m / 10) as nat,
        ) + digits@.reverse());
        m = m / 10;
    }
    let mut s = String::new();
    string_push(&mut s, digit_of(m));
    let mut k: usize = digits.len();
    while k > 0
        invariant
            k <= digits@.len(),
            s@ == seq![digit_char(m as nat)] + digits@.reverse().subrange(
                0,
                (digits@.len() - k) as int,
            ),
        decreases k,
    {
        string_push(&mut s, digits[k - 1]);
        assert(seq![digit_char(m as nat)] + digits@.reverse().subrange(
            0,
            (digits@.len() - k + 1) as int,
        ) =~= (seq![digit_char(m as nat)] + digits@.reverse().subrange(
            0,
            (digits@.len() - k) as int,
        )).push(digits@[k - 1]));
        k = k - 1;
    }
    assert(digits@.reverse().subrange(0, digits@.len() as int) =~= digits@.reverse());
    s
}

/// `str::parse::<usize>()` on `s[from..to]`.
pub fn parse_usize_range(s: &[char], from: usize, to: usize) -> (r: Option<usize>)
    requires
        from <= to <= s@.len(),
    ensures
        match parse_unsigned(s@.subrange(from as int, to as int), usize::MAX as nat) {
            Some(v) => r == Some(v as usize),
            None => r is None,
        },
{
    let ghost t = s@.subrange(from as int, to as int);
    let mut i: usize = from;
    if i < to && s[i] == '+' {
        i = i + 1;
    }
    let ghost body = s@.subrange(i as int, to as int);
    assert(body =~= if t.len() > 0 && t[0] == '+' {
        t.drop_first()
    } else {
        t
    });
    if i == to {
        return None;
    }
    let start: usize = i;
    let mut value: usize = 0;
    while i < to
        invariant
            start <= i <= to <= s@.len(),
            start < to,
            t == s@.subrange(from as int, to as int),
            body == (if t.len() > 0 && t[0] == '+' {
                t.drop_first()
            } else {
                t
            }),
            body == s@.subrange(start as int, to as int),
            forall|k: int| start <= k < i ==> is_ascii_dig(#[trigger] s@[k]),
            value as nat == digits_value(s@.subrange(start as int, i as int)),
        decreases to - i,
    {
        let c = s[i];
        if !ascii_digit(c) {
            assert(body[i - start] == c);
            assert(!all_digits(body));
            assert(parse_unsigned(t, usize::MAX as nat) is None);
            return None;
        }
        let d: usize = (c as u32 - '0' as u32) as usize;
        assert(s@.subrange(start as int, i + 1).drop_last() =~= s@.subrange(start as int, i as int));
        assert(s@.subrange(start as int, i + 1) =~= body.take(i - start + 1));
        if value > (usize::MAX - d) / 10 {
            assert(value * 10 + d > usize::MAX) by (nonlinear_arith)
                requires
                    value > (usize::MAX - d) / 10,
                    d < 10,
            ;
            proof {
                if all_digits(body) {
                    lemma_digits_value_prefix_mono(body, (i - start + 1) as int);
                }
            }
            assert(parse_unsigned(t, usize::MAX as nat) is None);
            return None;
        }
        value = value * 10 + d;
        i = i + 1;
    }
    assert(s@.subrange(start as int, i as int) =~= body);
    Some(value)
}

/// A longer digit prefix never has a smaller value.
proof fn lemma_digits_value_prefix_mono(s: Seq<char>, n: int)
    requires
        0 <= n <= s.len(),
    ensures
        digits_value(s.take(n)) <= digits_value(s),
    decreases s.len() - n,
{
    if n < s.len() {
        lemma_digits_value_prefix_mono(s, n + 1);
        assert(s.take(n + 1).drop_last() =~= s.take(n));
    } else {
        assert(s.take(n) =~= s);
    }
}

/// What `str::to_lowercase` gives for `s` (Unicode lowercase mapping).
pub uninterp spec fn lowercase_of(s: Seq<char>) -> Seq<char>;

/// `c` with `A`..`Z` mapped to `a`..`z`.
pub open spec fn ascii_lower(c: char) -> char {
    if 'A' <= c && c <= 'Z' {
        ((c as u32) + 32) as char
    } else {
        c
    }
}

/// Calls `str::to_lowercase`. The contract claims that the result is a
/// function of the text of `s` (the mapping does not depend on a locale),
/// and that ASCII text is lowercased character by character, `A`..`Z` to
/// `a`..`z`; the Unicode case tables beyond ASCII are not written out here.
#[verifier::external_body]
pub(crate) fn to_lowercase(s: &str) -> (r: String)
    ensures
        r@ == lowercase_of(s@),
        (forall|i: int| 0 <= i < s@.len() ==> (#[trigger] s@[i] as u32) < 128) ==> r@
            == s@.map_values(|c: char| ascii_lower(c)),
{
    s.to_lowercase()
}

/// `a[i..]` comes before `b[i..]` in lexicographic order of code points,
/// given that `a[..i]` and `b[..i]` agree (the order of `str`'s `Ord`, since
/// UTF-8 keeps code point order).
pub open spec fn lt_from(a: Seq<char>, b: Seq<char>, i: int) -> bool
    decreases a.len() - i,
{
    if i >= a.len() {
        i < b.len()
    } else if i >= b.len() {
        false
    } else if a[i] != b[i] {
        (a[i] as u32) < (b[i] as u32)
    } else {
        lt_from(a, b, i + 1)
    }
}

/// Lexicographic "less than" on code points.
pub open spec fn seq_lt(a: Seq<char>, b: Seq<char>) -> bool {
    lt_from(a, b, 0)
}

proof fn lemma_lt_irrefl(a: Seq<char>, i: int)
    requires
        0 <= i,
    ensures
        !lt_from(a, a, i),
    decreases a.len() - i,
{
    if i < a.len() {
        lemma_lt_irrefl(a, i + 1);
    }
}

proof fn lemma_lt_asym(a: Seq<char>, b: Seq<char>, i: int)
    requires
        0 <= i,
    ensures
        lt_from(a, b, i) ==> !lt_from(b, a, i),
    decreases a.len() - i,
{
    if i < a.len() && i < b.len() && a[i] == b[i] {
        lemma_lt_asym(a, b, i + 1);
    }
}

proof fn lemma_lt_trans(a: Seq<char>, b: Seq<char>, c: Seq<char>, i: int)
    requires
        0 <= i,
    ensures
        lt_from(a, b, i) && lt_from(b, c, i) ==> lt_from(a, c, i),
    decreases a.len() - i,
{
    if i < a.len() && i < b.len() && i < c.len() && a[i] == b[i] && b[i] == c[i] {
        lemma_lt_trans(a, b, c, i + 1);
    }
}

proof fn lemma_lt_total(a: Seq<char>, b: Seq<char>, i: int)
    requires
        0 <= i <= a.len(),
        i <= b.len(),
        a.skip(i) != b.skip(i),
    ensures
        lt_from(a, b, i) || lt_from(b, a, i),
    decreases a.len() - i,
{
    if i == a.len() && i == b.len() {
        assert(a.skip(i) =~= b.skip(i));
    } else if i < a.len() && i < b.len() && a[i] == b[i] {
        if a.skip(i + 1) =~= b.skip(i + 1) {
            assert(a.skip(i) =~= b.skip(i)) by {
                assert forall|k: int| 0 <= k < a.skip(i).len() implies a.skip(i)[k] == b.skip(i)[k] by {
                    if k > 0 {
                        assert(a.skip(i)[k] == a.skip(i + 1)[k - 1]);
                        assert(b.skip(i)[k] == b.skip(i + 1)[k - 1]);
                    }
                }
            }
        }
        lemma_lt_total(a, b, i + 1);
    } else if i < a.len() && i < b.len() {
        let u = a[i] as u32;
        if u == b[i] as u32 {
            vstd::utf8::char_u32_cast(a[i], u);
            vstd::utf8::char_u32_cast(b[i], u);
        }
    }
}

/// `seq_lt` is a strict total order.
pub proof fn lemma_seq_lt(a: Seq<char>, b: Seq<char>, c: Seq<char>)
    ensures
        !seq_lt(a, a),
        seq_lt(a, b) ==> !seq_lt(b, a),
        seq_lt(a, b) && seq_lt(b, c) ==> seq_lt(a, c),
        a != b ==> seq_lt(a, b) || seq_lt(b, a),
{
    lemma_lt_irrefl(a, 0);
    lemma_lt_asym(a, b, 0);
    lemma_lt_trans(a, b, c, 0);
    assert(a.skip(0) =~= a);
    assert(b.skip(0) =~= b);
    if a != b {
        lemma_lt_total(a, b, 0);
    }
}

/// Whether `a` comes before `b` in the order of code points.
pub fn seq_less(a: &[char], b: &[char]) -> (r: bool)
    ensures
        r == seq_lt(a@, b@),
{
    let mut i: usize = 0;
    loop
        invariant
            i <= a@.len(),
            i <= b@.len(),
            seq_lt(a@, b@) == lt_from(a@, b@, i as int),
        decreases a@.len() - i,
    {
        if i >= a.len() {
            return i < b.len();
        }
        if i >= b.len() {
            return false;
        }
        if a[i] != b[i] {
            return (a[i] as u32) < (b[i] as u32);
        }
        i = i + 1;
    }
}

} // verus!
