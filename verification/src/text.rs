//! Character-level scanning utilities for the line grammar.
//!
//! The grammar of the log format is defined over sequences of characters:
//! character classes, maximal runs of a class, leftmost substring search,
//! and decimal tokens. Every executable scanner is verified against the
//! corresponding specification function.

use vstd::prelude::*;
use vstd::string::StrSliceExecFns;

verus! {

// ---------------------------------------------------------------------------
// Character classes
// ---------------------------------------------------------------------------

/// An ASCII decimal digit.
pub open spec fn is_digit(c: char) -> bool {
    ('0' as u32) <= (c as u32) && (c as u32) <= ('9' as u32)
}

/// A lowercase hexadecimal digit, as used in a short revision id.
pub open spec fn is_hex_digit(c: char) -> bool {
    is_digit(c) || (('a' as u32) <= (c as u32) && (c as u32) <= ('f' as u32))
}

/// ASCII whitespace as the grammar understands it.
pub open spec fn is_space(c: char) -> bool {
    c == ' ' || c == '\t' || c == '\n' || c == '\r' || c == '\x0b' || c == '\x0c'
}

/// A character of a word token: letters, digits and underscore.
pub open spec fn is_word_char(c: char) -> bool {
    is_digit(c) || (('a' as u32) <= (c as u32) && (c as u32) <= ('z' as u32)) || (('A' as u32)
        <= (c as u32) && (c as u32) <= ('Z' as u32)) || c == '_'
}

/// A character of a change-count token: a digit or the `-` sentinel.
pub open spec fn is_count_char(c: char) -> bool {
    is_digit(c) || c == '-'
}

pub fn check_digit(c: char) -> (b: bool)
    ensures
        b == is_digit(c),
{
    ('0' as u32) <= (c as u32) && (c as u32) <= ('9' as u32)
}

pub fn check_hex_digit(c: char) -> (b: bool)
    ensures
        b == is_hex_digit(c),
{
    check_digit(c) || (('a' as u32) <= (c as u32) && (c as u32) <= ('f' as u32))
}

pub fn check_space(c: char) -> (b: bool)
    ensures
        b == is_space(c),
{
    c == ' ' || c == '\t' || c == '\n' || c == '\r' || c == '\x0b' || c == '\x0c'
}

pub fn check_word_char(c: char) -> (b: bool)
    ensures
        b == is_word_char(c),
{
    check_digit(c) || (('a' as u32) <= (c as u32) && (c as u32) <= ('z' as u32)) || (('A' as u32)
        <= (c as u32) && (c as u32) <= ('Z' as u32)) || c == '_'
}

pub fn check_count_char(c: char) -> (b: bool)
    ensures
        b == is_count_char(c),
{
    check_digit(c) || c == '-'
}

// ---------------------------------------------------------------------------
// Maximal runs of a character class
// ---------------------------------------------------------------------------

/// End of the maximal run of hexadecimal digits starting at `i`.
pub open spec fn hex_end(s: Seq<char>, i: int) -> int
    decreases s.len() - i,
{
    if i < s.len() && is_hex_digit(s[i]) {
        hex_end(s, i + 1)
    } else {
        i
    }
}

/// End of the maximal run of count characters starting at `i`.
pub open spec fn count_end(s: Seq<char>, i: int) -> int
    decreases s.len() - i,
{
    if i < s.len() && is_count_char(s[i]) {
        count_end(s, i + 1)
    } else {
        i
    }
}

/// End of the maximal run of whitespace starting at `i`.
pub open spec fn space_end(s: Seq<char>, i: int) -> int
    decreases s.len() - i,
{
    if i < s.len() && is_space(s[i]) {
        space_end(s, i + 1)
    } else {
        i
    }
}

/// End of the maximal run of word characters starting at `i`.
pub open spec fn word_end(s: Seq<char>, i: int) -> int
    decreases s.len() - i,
{
    if i < s.len() && is_word_char(s[i]) {
        word_end(s, i + 1)
    } else {
        i
    }
}

/// End of the maximal run of non-newline characters starting at `i`.
pub open spec fn line_end(s: Seq<char>, i: int) -> int
    decreases s.len() - i,
{
    if i < s.len() && s[i] != '\n' {
        line_end(s, i + 1)
    } else {
        i
    }
}

/// A run end is determined by the run itself: if everything in `[i, e)` is
/// in the class and `e` is the end of the text or out of the class, then the
/// maximal run starting at `i` ends at `e`.
pub proof fn lemma_hex_end(s: Seq<char>, i: int, e: int)
    requires
        0 <= i <= e <= s.len(),
        forall|j: int| i <= j < e ==> is_hex_digit(s[j]),
        e == s.len() || !is_hex_digit(s[e]),
    ensures
        hex_end(s, i) == e,
    decreases e - i,
{
    if i < e {
        lemma_hex_end(s, i + 1, e);
    }
}

pub proof fn lemma_count_end(s: Seq<char>, i: int, e: int)
    requires
        0 <= i <= e <= s.len(),
        forall|j: int| i <= j < e ==> is_count_char(s[j]),
        e == s.len() || !is_count_char(s[e]),
    ensures
        count_end(s, i) == e,
    decreases e - i,
{
    if i < e {
        lemma_count_end(s, i + 1, e);
    }
}

pub proof fn lemma_space_end(s: Seq<char>, i: int, e: int)
    requires
        0 <= i <= e <= s.len(),
        forall|j: int| i <= j < e ==> is_space(s[j]),
        e == s.len() || !is_space(s[e]),
    ensures
        space_end(s, i) == e,
    decreases e - i,
{
    if i < e {
        lemma_space_end(s, i + 1, e);
    }
}

pub proof fn lemma_word_end(s: Seq<char>, i: int, e: int)
    requires
        0 <= i <= e <= s.len(),
        forall|j: int| i <= j < e ==> is_word_char(s[j]),
        e == s.len() || !is_word_char(s[e]),
    ensures
        word_end(s, i) == e,
    decreases e - i,
{
    if i < e {
        lemma_word_end(s, i + 1, e);
    }
}

pub proof fn lemma_line_end(s: Seq<char>, i: int, e: int)
    requires
        0 <= i <= e <= s.len(),
        forall|j: int| i <= j < e ==> s[j] != '\n',
        e == s.len() || s[e] == '\n',
    ensures
        line_end(s, i) == e,
    decreases e - i,
{
    if i < e {
        lemma_line_end(s, i + 1, e);
    }
}

pub fn scan_hex_end(s: &Vec<char>, i: usize) -> (e: usize)
    requires
        i <= s@.len(),
    ensures
        e as int == hex_end(s@, i as int),
        i <= e <= s@.len(),
{
    let n = s.len();
    let mut e = i;
    while e < n && check_hex_digit(s[e])
        invariant
            i <= e <= n,
            n == s@.len(),
            forall|j: int| i <= j < e ==> is_hex_digit(s@[j]),
        decreases n - e,
    {
        e = e + 1;
    }
    proof {
        lemma_hex_end(s@, i as int, e as int);
    }
    e
}

pub fn scan_count_end(s: &Vec<char>, i: usize) -> (e: usize)
    requires
        i <= s@.len(),
    ensures
        e as int == count_end(s@, i as int),
        i <= e <= s@.len(),
{
    let n = s.len();
    let mut e = i;
    while e < n && check_count_char(s[e])
        invariant
            i <= e <= n,
            n == s@.len(),
            forall|j: int| i <= j < e ==> is_count_char(s@[j]),
        decreases n - e,
    {
        e = e + 1;
    }
    proof {
        lemma_count_end(s@, i as int, e as int);
    }
    e
}

pub fn scan_space_end(s: &Vec<char>, i: usize) -> (e: usize)
    requires
        i <= s@.len(),
    ensures
        e as int == space_end(s@, i as int),
        i <= e <= s@.len(),
{
    let n = s.len();
    let mut e = i;
    while e < n && check_space(s[e])
        invariant
            i <= e <= n,
            n == s@.len(),
            forall|j: int| i <= j < e ==> is_space(s@[j]),
        decreases n - e,
    {
        e = e + 1;
    }
    proof {
        lemma_space_end(s@, i as int, e as int);
    }
    e
}

pub fn scan_word_end(s: &Vec<char>, i: usize) -> (e: usize)
    requires
        i <= s@.len(),
    ensures
        e as int == word_end(s@, i as int),
        i <= e <= s@.len(),
{
    let n = s.len();
    let mut e = i;
    while e < n && check_word_char(s[e])
        invariant
            i <= e <= n,
            n == s@.len(),
            forall|j: int| i <= j < e ==> is_word_char(s@[j]),
        decreases n - e,
    {
        e = e + 1;
    }
    proof {
        lemma_word_end(s@, i as int, e as int);
    }
    e
}

// ---------------------------------------------------------------------------
// Leftmost substring search
// ---------------------------------------------------------------------------

/// Whether `pat` occurs in `s` at position `i`.
pub open spec fn sub_at(s: Seq<char>, pat: Seq<char>, i: int) -> bool {
    0 <= i && i + pat.len() <= s.len() && s.subrange(i, i + pat.len() as int) == pat
}

/// Position of the leftmost occurrence of `pat` in `s` at or after `from`.
pub open spec fn find_sub(s: Seq<char>, pat: Seq<char>, from: int) -> Option<int>
    decreases s.len() - from,
{
    if from >= s.len() {
        None
    } else if sub_at(s, pat, from) {
        Some(from)
    } else {
        find_sub(s, pat, from + 1)
    }
}

/// Skipping positions without an occurrence does not change the search.
pub proof fn lemma_find_sub_skip(s: Seq<char>, pat: Seq<char>, from: int, to: int)
    requires
        from <= to,
        forall|q: int| from <= q < to ==> !sub_at(s, pat, q),
    ensures
        find_sub(s, pat, from) == find_sub(s, pat, to),
    decreases to - from,
{
    if from < to && from < s.len() {
        lemma_find_sub_skip(s, pat, from + 1, to);
    } else if from < to {
        lemma_find_sub_skip(s, pat, from + 1, to);
    }
}

fn check_sub_at(s: &Vec<char>, pat: &Vec<char>, q: usize) -> (b: bool)
    requires
        q + pat@.len() <= s@.len(),
    ensures
        b == sub_at(s@, pat@, q as int),
{
    let n = s.len();
    let m = pat.len();
    let mut j: usize = 0;
    while j < m
        invariant
            0 <= j <= m,
            m == pat@.len(),
            n == s@.len(),
            q + m <= n,
            forall|jj: int| 0 <= jj < j ==> s@[q + jj] == pat@[jj],
        decreases m - j,
    {
        if s[q + j] != pat[j] {
            proof {
                assert(!sub_at(s@, pat@, q as int)) by {
                    if sub_at(s@, pat@, q as int) {
                        assert(s@.subrange(q as int, q + m as int)[j as int] == pat@[j as int]);
                    }
                }
            }
            return false;
        }
        j = j + 1;
    }
    proof {
        assert(s@.subrange(q as int, q + m as int) =~= pat@);
    }
    true
}

/// Leftmost occurrence of `pat` in `s` at or after `from`, by linear scan.
pub fn scan_find_sub(s: &Vec<char>, pat: &Vec<char>, from: usize) -> (r: Option<usize>)
    requires
        from <= s@.len(),
        pat@.len() >= 1,
    ensures
        match r {
            Some(q) => {
                &&& from <= q
                &&& q + pat@.len() <= s@.len()
                &&& find_sub(s@, pat@, from as int) == Some(q as int)
            },
            None => find_sub(s@, pat@, from as int) is None,
        },
{
    let n = s.len();
    let m = pat.len();
    if m > n || from > n - m {
        proof {
            assert(forall|q: int| from <= q ==> !sub_at(s@, pat@, q));
            lemma_find_sub_skip(s@, pat@, from as int, s@.len() as int);
        }
        return None;
    }
    let mut q = from;
    while q <= n - m
        invariant
            from <= q,
            q <= n - m + 1,
            m >= 1,
            m <= n,
            n == s@.len(),
            m == pat@.len(),
            find_sub(s@, pat@, from as int) == find_sub(s@, pat@, q as int),
        decreases n - q,
    {
        if check_sub_at(s, pat, q) {
            return Some(q);
        }
        proof {
            lemma_find_sub_skip(s@, pat@, q as int, q + 1);
        }
        q = q + 1;
    }
    proof {
        assert(forall|qq: int| q <= qq ==> !sub_at(s@, pat@, qq));
        lemma_find_sub_skip(s@, pat@, q as int, s@.len() as int);
    }
    None
}

// ---------------------------------------------------------------------------
// Digit windows
// ---------------------------------------------------------------------------

/// `k` decimal digits occur at position `i`.
pub open spec fn digits_at(s: Seq<char>, i: int, k: int) -> bool {
    0 <= i && i + k <= s.len() && forall|j: int| i <= j < i + k ==> is_digit(s[j])
}

pub fn check_digits_at(s: &Vec<char>, i: usize, k: usize) -> (b: bool)
    requires
        i <= s@.len(),
    ensures
        b == digits_at(s@, i as int, k as int),
{
    let n = s.len();
    if k > n - i {
        return false;
    }
    let mut j: usize = 0;
    while j < k
        invariant
            0 <= j <= k,
            i + k <= n,
            n == s@.len(),
            forall|jj: int| i <= jj < i + j ==> is_digit(s@[jj]),
        decreases k - j,
    {
        if !check_digit(s[i + j]) {
            return false;
        }
        j = j + 1;
    }
    true
}

// ---------------------------------------------------------------------------
// Decimal values
// ---------------------------------------------------------------------------

/// Value of a sequence of decimal digits, most significant first.
pub open spec fn digits_val(s: Seq<char>) -> int
    decreases s.len(),
{
    if s.len() == 0 {
        0
    } else {
        digits_val(s.drop_last()) * 10 + (s.last() as u32 - '0' as u32)
    }
}

pub open spec fn pow10(n: nat) -> int
    decreases n,
{
    if n == 0 {
        1
    } else {
        10 * pow10((n - 1) as nat)
    }
}

pub proof fn lemma_digits_val_bounds(s: Seq<char>)
    requires
        forall|j: int| 0 <= j < s.len() ==> is_digit(s[j]),
    ensures
        0 <= digits_val(s) < pow10(s.len()),
    decreases s.len(),
{
    if s.len() > 0 {
        assert(forall|j: int| 0 <= j < s.drop_last().len() ==> is_digit(s.drop_last()[j]));
        lemma_digits_val_bounds(s.drop_last());
    }
}

/// Appending one digit multiplies the value by ten and adds the digit.
pub proof fn lemma_digits_val_step(s: Seq<char>, a: int, i: int)
    requires
        0 <= a <= i < s.len(),
    ensures
        digits_val(s.subrange(a, i + 1)) == 10 * digits_val(s.subrange(a, i)) + (s[i] as u32
            - '0' as u32),
{
    let t = s.subrange(a, i + 1);
    assert(t.drop_last() =~= s.subrange(a, i));
    assert(t.last() == s[i]);
}

/// A longer digit token never has a smaller value.
pub proof fn lemma_digits_val_monotone(s: Seq<char>, a: int, m: int, b: int)
    requires
        0 <= a <= m <= b <= s.len(),
        forall|j: int| a <= j < b ==> is_digit(s[j]),
    ensures
        digits_val(s.subrange(a, m)) <= digits_val(s.subrange(a, b)),
    decreases b - m,
{
    if m < b {
        assert(forall|j: int| 0 <= j < s.subrange(a, m).len() ==> is_digit(s.subrange(a, m)[j]));
        lemma_digits_val_bounds(s.subrange(a, m));
        lemma_digits_val_step(s, a, m);
        lemma_digits_val_monotone(s, a, m + 1, b);
    }
}

/// Value of a digit window, or `None` when it exceeds ten digits' worth.
pub fn parse_digits(s: &Vec<char>, a: usize, b: usize) -> (r: Option<u64>)
    requires
        a <= b <= s@.len(),
        forall|j: int| a <= j < b ==> is_digit(s@[j]),
    ensures
        ({
            let v = digits_val(s@.subrange(a as int, b as int));
            if v <= 9999999999 {
                r == Some(v as u64)
            } else {
                r is None
            }
        }),
{
    let mut acc: u64 = 0;
    let mut i = a;
    while i < b
        invariant
            a <= i <= b,
            b <= s@.len(),
            forall|j: int| a <= j < b ==> is_digit(s@[j]),
            acc as int == digits_val(s@.subrange(a as int, i as int)),
            acc <= 9999999999,
        decreases b - i,
    {
        let c = s[i];
        let d: u32 = (c as u32) - 48;
        let next: u64 = acc * 10 + (d as u64);
        proof {
            lemma_digits_val_step(s@, a as int, i as int);
        }
        if next > 9999999999 {
            proof {
                lemma_digits_val_monotone(s@, a as int, i + 1, b as int);
            }
            return None;
        }
        acc = next;
        i = i + 1;
    }
    Some(acc)
}

/// Value of a change-count token: `-1` for the binary sentinel `-`, the
/// decimal value when it fits a 32-bit count, `None` otherwise.
pub open spec fn count_val(t: Seq<char>) -> Option<int> {
    if t.len() == 1 && t[0] == '-' {
        Some(-1int)
    } else if t.len() >= 1 && (forall|j: int| 0 <= j < t.len() ==> is_digit(t[j])) && digits_val(t)
        <= 2147483647 {
        Some(digits_val(t))
    } else if t.len() >= 2 && t[0] == '-' && (forall|j: int| 1 <= j < t.len() ==> is_digit(t[j]))
        && digits_val(t.skip(1)) <= 2147483648 {
        Some(-digits_val(t.skip(1)))
    } else {
        None
    }
}

/// Parse the change-count token in `s[a..b]`.
pub fn parse_count(s: &Vec<char>, a: usize, b: usize) -> (r: Option<i32>)
    requires
        a <= b <= s@.len(),
    ensures
        count_val(s@.subrange(a as int, b as int)) == (match r {
            Some(v) => Some(v as int),
            None => None::<int>,
        }),
{
    let ghost t = s@.subrange(a as int, b as int);
    if a == b {
        return None;
    }
    let neg = s[a] == '-';
    if neg && b - a == 1 {
        return Some(-1);
    }
    let start = if neg {
        a + 1
    } else {
        a
    };
    let mut j = start;
    while j < b
        invariant
            start <= j <= b,
            b <= s@.len(),
            a <= start,
            t == s@.subrange(a as int, b as int),
            a < b,
            neg == (s@[a as int] == '-'),
            !(neg && b - a == 1),
            start as int == if neg {
                a as int + 1
            } else {
                a as int
            },
            forall|jj: int| start <= jj < j ==> is_digit(s@[jj]),
        decreases b - j,
    {
        if !check_digit(s[j]) {
            proof {
                let w = j as int - a as int;
                assert(t.len() == b as int - a as int);
                assert(0 <= w < t.len());
                assert(t[w] == s@[j as int]);
                assert(!is_digit(t[w]));
                assert(!(forall|jj: int| 0 <= jj < t.len() ==> is_digit(t[jj])));
                assert(t[0] == s@[a as int]);
                if neg {
                    assert(1 <= w);
                    assert(!(forall|jj: int| 1 <= jj < t.len() ==> is_digit(t[jj])));
                }
                assert(count_val(s@.subrange(a as int, b as int)) is None);
            }
            return None;
        }
        j = j + 1;
    }
    proof {
        if neg {
            assert(t.skip(1) =~= s@.subrange(start as int, b as int));
        } else {
            assert(t =~= s@.subrange(start as int, b as int));
        }
    }
    let dv = parse_digits(s, start, b);
    match dv {
        None => {
            proof {
                assert(digits_val(s@.subrange(start as int, b as int)) > 9999999999);
                assert(t[0] == s@[a as int]);
                assert(!(t.len() == 1 && t[0] == '-'));
                if neg {
                    assert(!is_digit(t[0]));
                    assert(digits_val(t.skip(1)) > 2147483648);
                } else {
                    assert(digits_val(t) > 2147483647);
                }
                assert(count_val(s@.subrange(a as int, b as int)) is None);
            }
            None
        },
        Some(v) => {
            proof {
                assert(forall|jj: int|
                    0 <= jj < s@.subrange(start as int, b as int).len() ==> is_digit(
                        s@.subrange(start as int, b as int)[jj],
                    ));
                lemma_digits_val_bounds(s@.subrange(start as int, b as int));
                assert(v as int == digits_val(s@.subrange(start as int, b as int)));
                assert(t[0] == s@[a as int]);
            }
            if neg {
                if v <= 2147483648 {
                    Some((-(v as i64)) as i32)
                } else {
                    None
                }
            } else {
                if v <= 2147483647 {
                    Some(v as i32)
                } else {
                    None
                }
            }
        },
    }
}

// ---------------------------------------------------------------------------
// Characters of a string
// ---------------------------------------------------------------------------

/// The characters of `s` as a vector, for constant-time indexing.
pub fn char_vec_of(s: &str) -> (r: Vec<char>)
    ensures
        r@ == s@,
{
    let n = s.unicode_len();
    let mut r: Vec<char> = Vec::new();
    let mut i: usize = 0;
    while i < n
        invariant
            0 <= i <= n,
            n == s@.len(),
            r@ == s@.subrange(0, i as int),
        decreases n - i,
    {
        let c = s.get_char(i);
        r.push(c);
        proof {
            assert(r@ =~= s@.subrange(0, i + 1));
        }
        i = i + 1;
    }
    proof {
        assert(r@ =~= s@);
    }
    r
}

/// Append `src[a..b]` to `dst`.
pub fn push_range(dst: &mut Vec<char>, src: &Vec<char>, a: usize, b: usize)
    requires
        a <= b <= src@.len(),
    ensures
        final(dst)@ == old(dst)@ + src@.subrange(a as int, b as int),
{
    let mut i = a;
    while i < b
        invariant
            a <= i <= b,
            b <= src@.len(),
            dst@ == old(dst)@ + src@.subrange(a as int, i as int),
        decreases b - i,
    {
        dst.push(src[i]);
        proof {
            assert(old(dst)@ + src@.subrange(a as int, i as int) + seq![src@[i as int]] =~= old(
                dst,
            )@ + src@.subrange(a as int, i + 1));
        }
        i = i + 1;
    }
    proof {
        assert(dst@ =~= old(dst)@ + src@.subrange(a as int, b as int));
    }
}

} // verus!
