//! Text: decimal numbers, lines, fields separated by a byte, and trimming of white space.

use vstd::prelude::*;

verus! {

/// The ASCII digits of `n` in decimal, without leading zeros.
pub open spec fn decimal(n: nat) -> Seq<u8>
    decreases n,
{
    if n < 10 {
        seq![(48 + n) as u8]
    } else {
        decimal(n / 10).push((48 + n % 10) as u8)
    }
}

/// Appends the decimal digits of `n`.
pub fn push_decimal(out: &mut Vec<u8>, n: u64)
    ensures
        final(out)@ == old(out)@ + decimal(n as nat),
    decreases n,
{
    if n >= 10 {
        push_decimal(out, n / 10);
    }
    out.push((48 + n % 10) as u8);
    assert(n >= 10 ==> decimal(n as nat) == decimal((n / 10) as nat).push((48 + n % 10) as u8));
}


// ---------------------------------------------------------------------------------
// Finding a byte

/// The first position at or after `i`, before `hi`, that holds `c`; `hi` where none does.
pub open spec fn find_from(s: Seq<u8>, c: u8, i: int, hi: int) -> int
    decreases hi - i,
{
    if i >= hi {
        hi
    } else if s[i] == c {
        i
    } else {
        find_from(s, c, i + 1, hi)
    }
}

pub proof fn lemma_find_from(s: Seq<u8>, c: u8, i: int, hi: int)
    requires
        i <= hi,
    ensures
        i <= find_from(s, c, i, hi) <= hi,
        forall|k: int| i <= k < find_from(s, c, i, hi) ==> s[k] != c,
        find_from(s, c, i, hi) < hi ==> s[find_from(s, c, i, hi)] == c,
    decreases hi - i,
{
    if i < hi && s[i] != c {
        lemma_find_from(s, c, i + 1, hi);
    }
}

proof fn lemma_find_from_is(s: Seq<u8>, c: u8, i: int, j: int, hi: int)
    requires
        i <= j <= hi,
        forall|k: int| i <= k < j ==> s[k] != c,
        j < hi ==> s[j] == c,
    ensures
        find_from(s, c, i, hi) == j,
    decreases j - i,
{
    if i < j {
        lemma_find_from_is(s, c, i + 1, j, hi);
    }
}

/// The first position at or after `i`, before `hi`, that holds `c`, or `hi`.
pub fn find_byte(s: &[u8], c: u8, i: usize, hi: usize) -> (j: usize)
    requires
        i <= hi <= s@.len(),
    ensures
        j == find_from(s@, c, i as int, hi as int),
        i <= j <= hi,
{
    let mut j = i;
    while j < hi
        invariant
            i <= j <= hi,
            hi <= s@.len(),
            forall|k: int| i <= k < j ==> s@[k] != c,
        decreases hi - j,
    {
        if s[j] == c {
            proof { lemma_find_from_is(s@, c, i as int, j as int, hi as int); }
            return j;
        }
        j = j + 1;
    }
    proof { lemma_find_from_is(s@, c, i as int, j as int, hi as int); }
    j
}

// ---------------------------------------------------------------------------------
// Lines

/// The end of a line that ran up to a newline at `j`: a carriage return before the
/// newline is not part of the line.
pub open spec fn line_end(s: Seq<u8>, i: int, j: int) -> int {
    if j > i && s[j - 1] == 13 { j - 1 } else { j }
}

/// The lines of `s` from position `i` on, as (start, end) ranges. A line ends at a
/// newline, which is not part of it, nor is a carriage return just before it; the last
/// line need not end with a newline, and nothing after a final newline is a line.
pub open spec fn line_ranges(s: Seq<u8>, i: int) -> Seq<(int, int)>
    decreases s.len() - i,
{
    if i >= s.len() {
        Seq::empty()
    } else {
        let j = find_from(s, 10, i, s.len() as int);
        if j < s.len() {
            proof { lemma_find_from(s, 10, i, s.len() as int); }
            seq![(i, line_end(s, i, j))] + line_ranges(s, j + 1)
        } else {
            seq![(i, s.len() as int)]
        }
    }
}

/// The lines of `s`.
pub open spec fn lines(s: Seq<u8>) -> Seq<(int, int)> {
    line_ranges(s, 0)
}

// ---------------------------------------------------------------------------------
// Fields

/// The fields of `s[i..hi]` separated by the byte `c`: as many as there are separators,
/// plus one, empty ones included.
pub open spec fn split_ranges(s: Seq<u8>, c: u8, i: int, hi: int) -> Seq<(int, int)>
    decreases hi + 1 - i,
{
    let j = find_from(s, c, i, hi);
    if j < hi && i <= j {
        seq![(i, j)] + split_ranges(s, c, j + 1, hi)
    } else {
        seq![(i, hi)]
    }
}

// ---------------------------------------------------------------------------------
// White space

/// The length of the white-space character (Unicode `White_Space`, in UTF-8) that
/// starts at `i` and ends by `hi`, or 0.
pub open spec fn ws_len(s: Seq<u8>, i: int, hi: int) -> int {
    if i < hi && (s[i] == 32 || (9 <= s[i] <= 13)) {
        1
    } else if i + 2 <= hi && s[i] == 0xC2 && (s[i + 1] == 0x85 || s[i + 1] == 0xA0) {
        2
    } else if i + 3 <= hi && is_ws3(s[i], s[i + 1], s[i + 2]) {
        3
    } else {
        0
    }
}

/// The three-byte UTF-8 encodings of white-space characters: U+1680, U+2000 to U+200A,
/// U+2028, U+2029, U+202F, U+205F and U+3000.
pub open spec fn is_ws3(a: u8, b: u8, c: u8) -> bool {
    ||| (a == 0xE1 && b == 0x9A && c == 0x80)
    ||| (a == 0xE2 && b == 0x80 && ((0x80 <= c <= 0x8A) || c == 0xA8 || c == 0xA9 || c == 0xAF))
    ||| (a == 0xE2 && b == 0x81 && c == 0x9F)
    ||| (a == 0xE3 && b == 0x80 && c == 0x80)
}

/// The length of the white-space character that ends at `j` and starts at or after `lo`, or 0.
pub open spec fn ws_len_back(s: Seq<u8>, lo: int, j: int) -> int {
    if j - 1 >= lo && (s[j - 1] == 32 || (9 <= s[j - 1] <= 13)) {
        1
    } else if j - 2 >= lo && s[j - 2] == 0xC2 && (s[j - 1] == 0x85 || s[j - 1] == 0xA0) {
        2
    } else if j - 3 >= lo && is_ws3(s[j - 3], s[j - 2], s[j - 1]) {
        3
    } else {
        0
    }
}

/// The first position at or after `i` that does not start a white-space character.
pub open spec fn trim_lo(s: Seq<u8>, i: int, hi: int) -> int
    decreases hi - i,
{
    if i < hi && ws_len(s, i, hi) > 0 {
        trim_lo(s, i + ws_len(s, i, hi), hi)
    } else {
        i
    }
}

/// The last position at or before `j` that does not end a white-space character.
pub open spec fn trim_hi(s: Seq<u8>, lo: int, j: int) -> int
    decreases j - lo,
{
    if j > lo && ws_len_back(s, lo, j) > 0 {
        trim_hi(s, lo, j - ws_len_back(s, lo, j))
    } else {
        j
    }
}

/// The range of `s[lo..hi]` without leading and trailing white space.
pub open spec fn trimmed(s: Seq<u8>, lo: int, hi: int) -> (int, int) {
    let p = trim_lo(s, lo, hi);
    (p, trim_hi(s, p, hi))
}

fn ws_len_exec(s: &[u8], i: usize, hi: usize) -> (n: usize)
    requires
        i < hi <= s@.len(),
    ensures
        n == ws_len(s@, i as int, hi as int),
{
    let a = s[i];
    if a == 32 || (9 <= a && a <= 13) {
        return 1;
    }
    if hi - i >= 2 && a == 0xC2 && (s[i + 1] == 0x85 || s[i + 1] == 0xA0) {
        return 2;
    }
    if hi - i >= 3 {
        let b = s[i + 1];
        let c = s[i + 2];
        if (a == 0xE1 && b == 0x9A && c == 0x80)
            || (a == 0xE2 && b == 0x80 && ((0x80 <= c && c <= 0x8A) || c == 0xA8 || c == 0xA9 || c == 0xAF))
            || (a == 0xE2 && b == 0x81 && c == 0x9F)
            || (a == 0xE3 && b == 0x80 && c == 0x80) {
            return 3;
        }
    }
    0
}

fn ws_len_back_exec(s: &[u8], lo: usize, j: usize) -> (n: usize)
    requires
        lo < j <= s@.len(),
    ensures
        n == ws_len_back(s@, lo as int, j as int),
{
    let z = s[j - 1];
    if z == 32 || (9 <= z && z <= 13) {
        return 1;
    }
    if j - lo >= 2 && s[j - 2] == 0xC2 && (z == 0x85 || z == 0xA0) {
        return 2;
    }
    if j - lo >= 3 {
        let a = s[j - 3];
        let b = s[j - 2];
        if (a == 0xE1 && b == 0x9A && z == 0x80)
            || (a == 0xE2 && b == 0x80 && ((0x80 <= z && z <= 0x8A) || z == 0xA8 || z == 0xA9 || z == 0xAF))
            || (a == 0xE2 && b == 0x81 && z == 0x9F)
            || (a == 0xE3 && b == 0x80 && z == 0x80) {
            return 3;
        }
    }
    0
}

/// The range of `s[lo..hi]` without leading and trailing white space.
pub fn trim_range(s: &[u8], lo: usize, hi: usize) -> (r: (usize, usize))
    requires
        lo <= hi <= s@.len(),
    ensures
        r.0 == trimmed(s@, lo as int, hi as int).0,
        r.1 == trimmed(s@, lo as int, hi as int).1,
        lo <= r.0 <= r.1 <= hi,
{
    let mut p = lo;
    let mut n = if p < hi { ws_len_exec(s, p, hi) } else { 0 };
    while n > 0
        invariant
            lo <= p <= hi,
            hi <= s@.len(),
            n == (if p < hi { ws_len(s@, p as int, hi as int) } else { 0 }),
            trim_lo(s@, p as int, hi as int) == trim_lo(s@, lo as int, hi as int),
        decreases hi - p,
    {
        p = p + n;
        n = if p < hi { ws_len_exec(s, p, hi) } else { 0 };
    }
    let mut q = hi;
    let mut n = if q > p { ws_len_back_exec(s, p, q) } else { 0 };
    while n > 0
        invariant
            p <= q <= hi,
            hi <= s@.len(),
            p == trim_lo(s@, lo as int, hi as int),
            n == (if q > p { ws_len_back(s@, p as int, q as int) } else { 0 }),
            trim_hi(s@, p as int, q as int) == trim_hi(s@, p as int, hi as int),
        decreases q - p,
    {
        q = q - n;
        n = if q > p { ws_len_back_exec(s, p, q) } else { 0 };
    }
    (p, q)
}

// ---------------------------------------------------------------------------------
// Decimal numbers

/// An ASCII digit.
pub open spec fn is_digit(b: u8) -> bool {
    48 <= b <= 57
}

/// The value of the digits `s[lo..hi]`.
pub open spec fn digits_value(s: Seq<u8>, lo: int, hi: int) -> nat
    decreases hi - lo,
{
    if hi <= lo {
        0
    } else {
        digits_value(s, lo, hi - 1) * 10 + (s[hi - 1] - 48) as nat
    }
}

/// The number that `s[lo..hi]` spells as Rust's `from_str` reads an unsigned integer:
/// an optional `+`, then one or more ASCII digits, nothing else.
pub open spec fn parse_nat(s: Seq<u8>, lo: int, hi: int) -> Option<nat> {
    let d = if lo < hi && s[lo] == 43 { lo + 1 } else { lo };
    if d < hi && forall|k: int| d <= k < hi ==> is_digit(#[trigger] s[k]) {
        Some(digits_value(s, d, hi))
    } else {
        None
    }
}

/// The number that `s[lo..hi]` spells, where it is at most `max`.
pub open spec fn parse_bounded(s: Seq<u8>, lo: int, hi: int, max: nat) -> Option<nat> {
    match parse_nat(s, lo, hi) {
        Some(v) => if v <= max { Some(v) } else { None },
        None => None,
    }
}

proof fn lemma_digits_value_mono(s: Seq<u8>, lo: int, k: int, hi: int)
    requires
        lo <= k <= hi,
        forall|i: int| lo <= i < hi ==> is_digit(#[trigger] s[i]),
    ensures
        digits_value(s, lo, k) <= digits_value(s, lo, hi),
    decreases hi - k,
{
    if k < hi {
        lemma_digits_value_mono(s, lo, k + 1, hi);
    }
}

/// Reads the number that `s[lo..hi]` spells, where it is at most `max`.
pub fn parse_decimal(s: &[u8], lo: usize, hi: usize, max: u64) -> (r: Option<u64>)
    requires
        lo <= hi <= s@.len(),
    ensures
        match (r, parse_bounded(s@, lo as int, hi as int, max as nat)) {
            (Some(x), Some(v)) => x == v,
            (None, None) => true,
            _ => false,
        },
{
    let d = if lo < hi && s[lo] == 43 { lo + 1 } else { lo };
    if d >= hi {
        return None;
    }
    let mut k = d;
    while k < hi
        invariant
            d <= k <= hi,
            hi <= s@.len(),
            lo <= hi,
            d == (if lo < hi && s@[lo as int] == 43 { lo + 1 } else { lo as int }),
            forall|i: int| d <= i < k ==> is_digit(#[trigger] s@[i]),
        decreases hi - k,
    {
        if !(48 <= s[k] && s[k] <= 57) {
            assert(!is_digit(s@[k as int]));
            return None;
        }
        k = k + 1;
    }
    let mut v: u64 = 0;
    let mut k = d;
    while k < hi
        invariant
            d <= k <= hi,
            hi <= s@.len(),
            lo <= hi,
            d == (if lo < hi && s@[lo as int] == 43 { lo + 1 } else { lo as int }),
            forall|i: int| d <= i < hi ==> is_digit(#[trigger] s@[i]),
            v == digits_value(s@, d as int, k as int),
            v <= max,
        decreases hi - k,
    {
        let digit = (s[k] - 48) as u64;
        if digit > max || v > (max - digit) / 10 {
            proof {
                assert(v * 10 + digit > max) by (nonlinear_arith)
                    requires digit > max || v > (max - digit) / 10, digit <= 9;
                lemma_digits_value_mono(s@, d as int, k + 1, hi as int);
            }
            return None;
        }
        assert(v * 10 + digit <= max) by (nonlinear_arith)
            requires v <= (max - digit) / 10, digit <= max;
        v = v * 10 + digit;
        k = k + 1;
    }
    Some(v)
}


proof fn lemma_digits_value_push(a: Seq<u8>, x: u8, k: int)
    requires
        0 <= k <= a.len(),
    ensures
        digits_value(a.push(x), 0, k) == digits_value(a, 0, k),
    decreases k,
{
    if k > 0 {
        lemma_digits_value_push(a, x, k - 1);
    }
}

pub(crate) proof fn lemma_decimal_digits(n: nat)
    ensures
        decimal(n).len() >= 1,
        forall|k: int| 0 <= k < decimal(n).len() ==> is_digit(#[trigger] decimal(n)[k]),
        digits_value(decimal(n), 0, decimal(n).len() as int) == n,
    decreases n,
{
    if n < 10 {
        assert(digits_value(decimal(n), 0, 1) == digits_value(decimal(n), 0, 0) * 10 + n);
    } else {
        let a = decimal(n / 10);
        lemma_decimal_digits(n / 10);
        let x = (48 + n % 10) as u8;
        lemma_digits_value_push(a, x, a.len() as int);
        assert(decimal(n) == a.push(x));
        let b = a.push(x);
        assert(digits_value(b, 0, b.len() as int) == digits_value(b, 0, a.len() as int) * 10 + (x - 48) as nat);
        assert(n == (n / 10) * 10 + n % 10);
        assert forall|k: int| 0 <= k < decimal(n).len() implies is_digit(#[trigger] decimal(n)[k]) by {
            if k < a.len() {
                assert(decimal(n)[k] == a[k]);
            }
        }
    }
}

/// Reading back the decimal digits written for a number gives the number.
pub proof fn lemma_decimal_roundtrip(n: nat)
    ensures
        parse_nat(decimal(n), 0, decimal(n).len() as int) == Some(n),
{
    lemma_decimal_digits(n);
    assert(decimal(n)[0] != 43);
}


/// The fields of `s[i..hi]` separated by `c` start with the field up to the first `c`.
pub(crate) proof fn lemma_split_unfold(s: Seq<u8>, c: u8, i: int, hi: int)
    requires
        i <= hi,
    ensures
        ({
            let j = find_from(s, c, i, hi);
            split_ranges(s, c, i, hi) == if j < hi {
                seq![(i, j)] + split_ranges(s, c, j + 1, hi)
            } else {
                seq![(i, hi)]
            }
        }),
        i <= find_from(s, c, i, hi) <= hi,
{
    lemma_find_from(s, c, i, hi);
}

/// `s[a..b]` splits at `c` into exactly two fields when it holds exactly one `c`.
pub(crate) proof fn lemma_split_two(s: Seq<u8>, c: u8, a: int, b: int)
    requires
        a <= b,
    ensures
        ({
            let j1 = find_from(s, c, a, b);
            &&& (split_ranges(s, c, a, b).len() == 2) == (j1 < b && find_from(s, c, j1 + 1, b) == b)
            &&& (j1 < b && find_from(s, c, j1 + 1, b) == b) ==> split_ranges(s, c, a, b) == seq![(a, j1), (j1 + 1, b)]
        }),
{
    lemma_split_unfold(s, c, a, b);
    let j1 = find_from(s, c, a, b);
    if j1 < b {
        lemma_split_unfold(s, c, j1 + 1, b);
        let j2 = find_from(s, c, j1 + 1, b);
        if j2 < b {
            lemma_split_unfold(s, c, j2 + 1, b);
            assert(split_ranges(s, c, a, b).len() >= 3);
        } else {
            assert(split_ranges(s, c, a, b) =~= seq![(a, j1), (j1 + 1, b)]);
        }
    }
}


/// The lines of `s` from `i` on start with the line up to the first newline.
pub(crate) proof fn lemma_lines_unfold(s: Seq<u8>, i: int)
    requires
        0 <= i < s.len(),
    ensures
        ({
            let j = find_from(s, 10, i, s.len() as int);
            &&& i <= j <= s.len()
            &&& line_ranges(s, i) == seq![(i, if j < s.len() { line_end(s, i, j) } else { s.len() as int })]
                + (if j < s.len() { line_ranges(s, j + 1) } else { Seq::<(int, int)>::empty() })
        }),
{
    lemma_find_from(s, 10, i, s.len() as int);
    let j = find_from(s, 10, i, s.len() as int);
    if j >= s.len() {
        assert(line_ranges(s, i) =~= seq![(i, s.len() as int)] + Seq::<(int, int)>::empty());
    }
}


/// The number of newline bytes in `s[i..]`.
pub open spec fn newlines_from(s: Seq<u8>, i: int) -> nat
    decreases s.len() - i,
{
    if i >= s.len() {
        0
    } else {
        (if s[i] == 10 { 1nat } else { 0nat }) + newlines_from(s, i + 1)
    }
}

proof fn lemma_newlines_skip(s: Seq<u8>, i: int, j: int)
    requires
        0 <= i <= j <= s.len(),
        forall|k: int| i <= k < j ==> s[k] != 10,
    ensures
        newlines_from(s, i) == newlines_from(s, j),
    decreases j - i,
{
    if i < j {
        lemma_newlines_skip(s, i + 1, j);
    }
}

proof fn lemma_line_ranges_count(s: Seq<u8>, i: int)
    requires
        0 <= i <= s.len(),
    ensures
        line_ranges(s, i).len() == newlines_from(s, i)
            + (if i < s.len() && s[s.len() - 1] != 10 { 1nat } else { 0nat }),
    decreases s.len() - i,
{
    if i < s.len() {
        lemma_lines_unfold(s, i);
        lemma_find_from(s, 10, i, s.len() as int);
        let j = find_from(s, 10, i, s.len() as int);
        lemma_newlines_skip(s, i, j);
        if j < s.len() {
            lemma_line_ranges_count(s, j + 1);
        }
    }
}

/// Law: a text has one line per newline, and one more where it does not end with a
/// newline: the last line counts whether or not a newline ends it.
pub proof fn lemma_lines_count(s: Seq<u8>)
    ensures
        lines(s).len() == newlines_from(s, 0) + (if s.len() > 0 && s[s.len() - 1] != 10 { 1nat } else { 0nat }),
{
    lemma_line_ranges_count(s, 0);
}

// ---------------------------------------------------------------------------------
// What the text functions read: only the bytes of their range

pub(crate) proof fn lemma_find_from_prefix(s: Seq<u8>, x: Seq<u8>, c: u8, i: int, hi: int)
    requires
        0 <= i,
        hi <= s.len(),
    ensures
        find_from(s + x, c, i, hi) == find_from(s, c, i, hi),
    decreases hi - i,
{
    if i < hi {
        assert((s + x)[i] == s[i]);
        lemma_find_from_prefix(s, x, c, i + 1, hi);
    }
}

pub(crate) proof fn lemma_split_prefix(s: Seq<u8>, x: Seq<u8>, c: u8, i: int, hi: int)
    requires
        0 <= i,
        hi <= s.len(),
    ensures
        split_ranges(s + x, c, i, hi) == split_ranges(s, c, i, hi),
    decreases hi + 1 - i,
{
    lemma_find_from_prefix(s, x, c, i, hi);
    let j = find_from(s, c, i, hi);
    if j < hi && i <= j {
        lemma_split_prefix(s, x, c, j + 1, hi);
    }
}

/// Every field of `s[i..hi]` lies within it.
pub(crate) proof fn lemma_split_bounds(s: Seq<u8>, c: u8, i: int, hi: int)
    requires
        i <= hi,
    ensures
        forall|k: int| 0 <= k < split_ranges(s, c, i, hi).len() ==> {
            let r = #[trigger] split_ranges(s, c, i, hi)[k];
            i <= r.0 <= r.1 <= hi
        },
    decreases hi + 1 - i,
{
    lemma_find_from(s, c, i, hi);
    let j = find_from(s, c, i, hi);
    if j < hi {
        lemma_split_bounds(s, c, j + 1, hi);
        let rest = split_ranges(s, c, j + 1, hi);
        assert forall|k: int| 0 <= k < split_ranges(s, c, i, hi).len() implies {
            let r = #[trigger] split_ranges(s, c, i, hi)[k];
            i <= r.0 <= r.1 <= hi
        } by {
            if k > 0 {
                assert(split_ranges(s, c, i, hi)[k] == rest[k - 1]);
            }
        }
    }
}

/// The fields of `s[i..hi]` separated by `c` are those before a separator at `m`,
/// then those after it.
pub proof fn lemma_split_at(s: Seq<u8>, c: u8, i: int, m: int, hi: int)
    requires
        i <= m < hi,
        0 <= m < s.len(),
        s[m] == c,
    ensures
        split_ranges(s, c, i, hi) == split_ranges(s, c, i, m) + split_ranges(s, c, m + 1, hi),
    decreases m - i,
{
    lemma_find_from(s, c, i, hi);
    lemma_find_from(s, c, i, m);
    let j = find_from(s, c, i, hi);
    if j < m {
        lemma_find_from_is(s, c, i, j, m);
        lemma_split_at(s, c, j + 1, m, hi);
        assert(split_ranges(s, c, i, hi) =~= split_ranges(s, c, i, m) + split_ranges(s, c, m + 1, hi));
    } else {
        assert(j == m);
        lemma_find_from_is(s, c, i, m, m);
        assert(split_ranges(s, c, i, m) == seq![(i, m)]);
    }
}

pub(crate) proof fn lemma_trim_prefix(s: Seq<u8>, x: Seq<u8>, lo: int, hi: int)
    requires
        0 <= lo <= hi <= s.len(),
    ensures
        trimmed(s + x, lo, hi) == trimmed(s, lo, hi),
        lo <= trimmed(s, lo, hi).0 <= trimmed(s, lo, hi).1 <= hi,
{
    lemma_trim_lo_prefix(s, x, lo, hi);
    lemma_trim_hi_prefix(s, x, trim_lo(s, lo, hi), hi);
}

proof fn lemma_trim_lo_prefix(s: Seq<u8>, x: Seq<u8>, i: int, hi: int)
    requires
        0 <= i,
        hi <= s.len(),
    ensures
        trim_lo(s + x, i, hi) == trim_lo(s, i, hi),
        i <= trim_lo(s, i, hi),
        i <= hi ==> trim_lo(s, i, hi) <= hi,
    decreases hi - i,
{
    if i < hi {
        assert((s + x)[i] == s[i]);
        if i + 1 < hi {
            assert((s + x)[i + 1] == s[i + 1]);
        }
        if i + 2 < hi {
            assert((s + x)[i + 2] == s[i + 2]);
        }
        assert(ws_len(s + x, i, hi) == ws_len(s, i, hi));
        if ws_len(s, i, hi) > 0 {
            lemma_trim_lo_prefix(s, x, i + ws_len(s, i, hi), hi);
        }
    }
}

proof fn lemma_trim_hi_prefix(s: Seq<u8>, x: Seq<u8>, lo: int, j: int)
    requires
        0 <= lo,
        j <= s.len(),
    ensures
        trim_hi(s + x, lo, j) == trim_hi(s, lo, j),
        lo <= j ==> lo <= trim_hi(s, lo, j) <= j,
    decreases j - lo,
{
    if j > lo {
        assert((s + x)[j - 1] == s[j - 1]);
        if j - 2 >= lo {
            assert((s + x)[j - 2] == s[j - 2]);
        }
        if j - 3 >= lo {
            assert((s + x)[j - 3] == s[j - 3]);
        }
        assert(ws_len_back(s + x, lo, j) == ws_len_back(s, lo, j));
        if ws_len_back(s, lo, j) > 0 {
            lemma_trim_hi_prefix(s, x, lo, j - ws_len_back(s, lo, j));
        }
    }
}

proof fn lemma_digits_value_prefix(s: Seq<u8>, x: Seq<u8>, lo: int, hi: int)
    requires
        0 <= lo,
        hi <= s.len(),
    ensures
        digits_value(s + x, lo, hi) == digits_value(s, lo, hi),
    decreases hi - lo,
{
    if hi > lo {
        assert((s + x)[hi - 1] == s[hi - 1]);
        lemma_digits_value_prefix(s, x, lo, hi - 1);
    }
}

pub(crate) proof fn lemma_parse_prefix(s: Seq<u8>, x: Seq<u8>, lo: int, hi: int)
    requires
        0 <= lo <= hi <= s.len(),
    ensures
        parse_nat(s + x, lo, hi) == parse_nat(s, lo, hi),
{
    let t = s + x;
    if lo < hi {
        assert(t[lo] == s[lo]);
    }
    let d = if lo < hi && s[lo] == 43 { lo + 1 } else { lo };
    assert forall|k: int| d <= k < hi implies #[trigger] t[k] == s[k] by {}
    lemma_digits_value_prefix(s, x, d, hi);
    if d < hi && (forall|k: int| d <= k < hi ==> is_digit(#[trigger] s[k])) {
        assert(forall|k: int| d <= k < hi ==> is_digit(#[trigger] t[k]));
    }
    if d < hi && (forall|k: int| d <= k < hi ==> is_digit(#[trigger] t[k])) {
        assert forall|k: int| d <= k < hi implies is_digit(#[trigger] s[k]) by {
            assert(is_digit(t[k]));
        }
    }
}

/// A number written in decimal at the end of `t`, from `o` on, is a field without white
/// space around it that reads back as the number.
pub(crate) proof fn lemma_decimal_field(t: Seq<u8>, o: int, n: nat)
    requires
        0 <= o <= t.len(),
        t.subrange(o, t.len() as int) == decimal(n),
    ensures
        trimmed(t, o, t.len() as int) == (o, t.len() as int),
        o < t.len(),
        parse_nat(t, o, t.len() as int) == Some(n),
        forall|k: int| o <= k < t.len() ==> #[trigger] t[k] != 32,
{
    let d = decimal(n);
    lemma_decimal_digits(n);
    assert forall|k: int| o <= k < t.len() implies is_digit(#[trigger] t[k]) by {
        assert(t[k] == d[k - o]);
    }
    assert(is_digit(t[o]));
    assert(is_digit(t[t.len() - 1]));
    assert(ws_len(t, o, t.len() as int) == 0);
    assert(ws_len_back(t, o, t.len() as int) == 0);
    assert(trim_lo(t, o, t.len() as int) == o);
    assert(trim_hi(t, o, t.len() as int) == t.len());
    lemma_digits_value_shift(t, d, o, d.len() as int);
}

proof fn lemma_digits_value_shift(t: Seq<u8>, d: Seq<u8>, o: int, k: int)
    requires
        0 <= o,
        0 <= k <= d.len(),
        o + d.len() <= t.len(),
        forall|i: int| 0 <= i < d.len() ==> #[trigger] t[o + i] == d[i],
    ensures
        digits_value(t, o, o + k) == digits_value(d, 0, k),
    decreases k,
{
    if k > 0 {
        assert(t[o + (k - 1)] == d[k - 1]);
        lemma_digits_value_shift(t, d, o, k - 1);
    }
}

} // verus!
