//! Release version strings: cleaning, splitting into numbers, comparing.

use vstd::prelude::*;
use std::cmp::Ordering;
use crate::text::{trim_seq, trim_bounds, chars_of, spec_is_ascii_digit};

verus! {

/// The version text without surrounding whitespace and one leading `v`/`V`.
pub open spec fn spec_clean_version(v: Seq<char>) -> Seq<char> {
    let t = trim_seq(v);
    if t.len() > 0 && (t[0] == 'v' || t[0] == 'V') {
        trim_seq(t.skip(1))
    } else {
        t
    }
}

/// Removes surrounding whitespace and a leading `v` or `V`.
pub fn clean_version(v: &str) -> (r: &str)
    ensures
        r@ == spec_clean_version(v@),
{
    let cs = chars_of(v);
    let (lo, hi) = trim_bounds(cs.as_slice(), 0, cs.len());
    assert(cs@.subrange(0, cs@.len() as int) =~= cs@);
    if lo < hi && (cs[lo] == 'v' || cs[lo] == 'V') {
        let (lo2, hi2) = trim_bounds(cs.as_slice(), lo + 1, hi);
        proof {
            let t = trim_seq(v@);
            assert(t.skip(1) =~= cs@.subrange(lo + 1, hi as int));
        }
        v.substring_char(lo2, hi2)
    } else {
        v.substring_char(lo, hi)
    }
}

/// Decimal value of a run of ASCII digits.
pub open spec fn digits_value(s: Seq<char>) -> int
    decreases s.len(),
{
    if s.len() == 0 {
        0
    } else {
        digits_value(s.drop_last()) * 10 + (s.last() as int - '0' as int)
    }
}

/// Length of the run of ASCII digits starting at `i`.
pub open spec fn digit_run(s: Seq<char>, i: int) -> int
    decreases s.len() - i,
{
    if i < 0 || i >= s.len() || !spec_is_ascii_digit(s[i]) {
        0
    } else {
        1 + digit_run(s, i + 1)
    }
}

pub proof fn lemma_digit_run(s: Seq<char>, i: int)
    requires
        0 <= i,
    ensures
        0 <= digit_run(s, i),
        i < s.len() ==> i + digit_run(s, i) <= s.len(),
        forall|k: int| i <= k < i + digit_run(s, i) ==> spec_is_ascii_digit(#[trigger] s[k]),
        i + digit_run(s, i) < s.len() ==> !spec_is_ascii_digit(s[i + digit_run(s, i)]),
    decreases s.len() - i,
{
    if i < s.len() && spec_is_ascii_digit(s[i]) {
        lemma_digit_run(s, i + 1);
    }
}

/// The numbers of a version from position `i` on: every maximal run of ASCII
/// digits, read as a decimal number; runs too large for `u32` are dropped.
pub open spec fn version_numbers(s: Seq<char>, i: int) -> Seq<u32>
    decreases s.len() - i,
{
    if i < 0 || i >= s.len() {
        Seq::empty()
    } else if !spec_is_ascii_digit(s[i]) {
        version_numbers(s, i + 1)
    } else {
        proof {
            lemma_digit_run(s, i);
        }
        let n = digit_run(s, i);
        let value = digits_value(s.subrange(i, i + n));
        let head = if value <= u32::MAX {
            seq![value as u32]
        } else {
            Seq::empty()
        };
        head + version_numbers(s, i + n)
    }
}

pub open spec fn spec_parse_version_tuple(v: Seq<char>) -> Seq<u32> {
    version_numbers(spec_clean_version(v), 0)
}

proof fn lemma_digits_value_nonneg(s: Seq<char>)
    requires
        forall|k: int| 0 <= k < s.len() ==> spec_is_ascii_digit(#[trigger] s[k]),
    ensures
        digits_value(s) >= 0,
    decreases s.len(),
{
    if s.len() > 0 {
        lemma_digits_value_nonneg(s.drop_last());
    }
}

/// Reads the digit run starting at `i`; `None` when its value exceeds `u32`.
fn read_number(cs: &[char], i: usize) -> (r: (usize, Option<u32>))
    requires
        i < cs.len(),
        spec_is_ascii_digit(cs@[i as int]),
    ensures
        r.0 == i + digit_run(cs@, i as int),
        ({
            let value = digits_value(cs@.subrange(i as int, r.0 as int));
            &&& value <= u32::MAX ==> r.1 == Some(value as u32)
            &&& value > u32::MAX ==> r.1 is None
        }),
{
    proof {
        lemma_digit_run(cs@, i as int);
    }
    let mut j = i;
    let mut acc: u64 = 0;
    let mut overflow = false;
    while j < cs.len() && '0' <= cs[j] && cs[j] <= '9'
        invariant
            i <= j <= i + digit_run(cs@, i as int),
            i + digit_run(cs@, i as int) <= cs.len(),
            forall|k: int| i <= k < i + digit_run(cs@, i as int) ==> spec_is_ascii_digit(#[trigger] cs@[k]),
            i + digit_run(cs@, i as int) < cs.len() ==> !spec_is_ascii_digit(cs@[i + digit_run(cs@, i as int)]),
            !overflow ==> acc == digits_value(cs@.subrange(i as int, j as int)) && acc <= u32::MAX,
            overflow ==> digits_value(cs@.subrange(i as int, j as int)) > u32::MAX,
        decreases cs.len() - j,
    {
        let d = (cs[j] as u32 - '0' as u32) as u64;
        let ghost prev = cs@.subrange(i as int, j as int);
        let ghost next = cs@.subrange(i as int, j + 1);
        assert(next.drop_last() =~= prev);
        assert(next.last() == cs@[j as int]);
        proof {
            lemma_digits_value_nonneg(prev);
        }
        if !overflow {
            let v = acc * 10 + d;
            if v > 0xFFFF_FFFF {
                overflow = true;
            } else {
                acc = v;
            }
        }
        j += 1;
    }
    if overflow {
        (j, None)
    } else {
        (j, Some(acc as u32))
    }
}

/// Splits a version into its numbers (`"v0.3.1"` gives `[0, 3, 1]`).
pub fn parse_version_tuple(v: &str) -> (r: Vec<u32>)
    ensures
        r@ == spec_parse_version_tuple(v@),
{
    let cleaned = clean_version(v);
    let cs = chars_of(cleaned);
    let ghost s = cs@;
    let mut out: Vec<u32> = Vec::new();
    let mut i: usize = 0;
    while i < cs.len()
        invariant
            s == cs@,
            i <= cs.len(),
            out@ + version_numbers(s, i as int) == version_numbers(s, 0),
        decreases cs.len() - i,
    {
        if '0' <= cs[i] && cs[i] <= '9' {
            let (j, value) = read_number(cs.as_slice(), i);
            proof {
                lemma_digit_run(s, i as int);
            }
            let ghost before = out@;
            match value {
                Some(n) => {
                    out.push(n);
                    assert(before + (seq![n] + version_numbers(s, j as int)) =~= out@
                        + version_numbers(s, j as int));
                },
                None => {
                    assert(before + (Seq::<u32>::empty() + version_numbers(s, j as int))
                        =~= out@ + version_numbers(s, j as int));
                },
            }
            i = j;
        } else {
            i += 1;
        }
    }
    assert(out@ + Seq::<u32>::empty() =~= out@);
    out
}

/// The `k`-th number of a version, zero past its end.
pub open spec fn part_or_zero(t: Seq<u32>, k: int) -> int {
    if 0 <= k < t.len() {
        t[k] as int
    } else {
        0
    }
}

/// Compares two number sequences from position `k` on, missing numbers
/// counting as zero: -1, 0 or 1.
pub open spec fn compare_parts(t1: Seq<u32>, t2: Seq<u32>, k: int) -> int
    decreases (if t1.len() >= t2.len() { t1.len() } else { t2.len() }) - k,
{
    if k < 0 || (k >= t1.len() && k >= t2.len()) {
        0
    } else if part_or_zero(t1, k) < part_or_zero(t2, k) {
        -1
    } else if part_or_zero(t1, k) > part_or_zero(t2, k) {
        1
    } else {
        compare_parts(t1, t2, k + 1)
    }
}

/// Version order: the numbers compared left to right, missing ones as zero.
pub open spec fn version_order(v1: Seq<char>, v2: Seq<char>) -> int {
    compare_parts(spec_parse_version_tuple(v1), spec_parse_version_tuple(v2), 0)
}

/// Compares two number sequences, missing numbers counting as zero.
fn compare_number_lists(t1: &Vec<u32>, t2: &Vec<u32>) -> (r: i8)
    ensures
        r == compare_parts(t1@, t2@, 0),
        r == -1 || r == 0 || r == 1,
{
    let max_len = if t1.len() >= t2.len() { t1.len() } else { t2.len() };
    let mut i: usize = 0;
    while i < max_len
        invariant
            max_len == (if t1.len() >= t2.len() { t1.len() } else { t2.len() }),
            i <= max_len,
            compare_parts(t1@, t2@, 0) == compare_parts(t1@, t2@, i as int),
        decreases max_len - i,
    {
        let n1 = if i < t1.len() { t1[i] } else { 0 };
        let n2 = if i < t2.len() { t2[i] } else { 0 };
        if n1 < n2 {
            return -1;
        }
        if n1 > n2 {
            return 1;
        }
        i += 1;
    }
    0
}

/// Compares two versions number by number.
pub fn compare_versions(v1: &str, v2: &str) -> (r: Ordering)
    ensures
        match r {
            Ordering::Less => version_order(v1@, v2@) == -1,
            Ordering::Equal => version_order(v1@, v2@) == 0,
            Ordering::Greater => version_order(v1@, v2@) == 1,
        },
{
    let t1 = parse_version_tuple(v1);
    let t2 = parse_version_tuple(v2);
    let c = compare_number_lists(&t1, &t2);
    if c < 0 {
        Ordering::Less
    } else if c == 0 {
        Ordering::Equal
    } else {
        Ordering::Greater
    }
}

// ---------------------------------------------------------------------------
// Laws
// ---------------------------------------------------------------------------
proof fn lemma_compare_parts_antisymmetric(t1: Seq<u32>, t2: Seq<u32>, k: int)
    ensures
        compare_parts(t1, t2, k) == -compare_parts(t2, t1, k),
    decreases (if t1.len() >= t2.len() { t1.len() } else { t2.len() }) - k,
{
    if k < 0 || (k >= t1.len() && k >= t2.len()) {
    } else if part_or_zero(t1, k) == part_or_zero(t2, k) {
        lemma_compare_parts_antisymmetric(t1, t2, k + 1);
    }
}

proof fn lemma_compare_parts_reflexive(t: Seq<u32>, k: int)
    ensures
        compare_parts(t, t, k) == 0,
    decreases t.len() - k,
{
    if k >= 0 && k < t.len() {
        lemma_compare_parts_reflexive(t, k + 1);
    }
}

/// Swapping the two versions reverses their order.
pub proof fn lemma_version_order_antisymmetric(v1: Seq<char>, v2: Seq<char>)
    ensures
        version_order(v1, v2) == -version_order(v2, v1),
{
    lemma_compare_parts_antisymmetric(
        spec_parse_version_tuple(v1),
        spec_parse_version_tuple(v2),
        0,
    );
}

/// Every version equals itself.
pub proof fn lemma_version_order_reflexive(v: Seq<char>)
    ensures
        version_order(v, v) == 0,
{
    lemma_compare_parts_reflexive(spec_parse_version_tuple(v), 0);
}

/// A leading `v` or `V` (after optional whitespace) does not change a
/// version's numbers, so `"v0.3.1"` and `"0.3.1"` compare equal.
pub proof fn lemma_version_prefix_ignored(v: Seq<char>)
    requires
        trim_seq(v).len() > 0,
        !(trim_seq(v)[0] == 'v' || trim_seq(v)[0] == 'V'),
    ensures
        spec_parse_version_tuple(seq!['v'] + v) == spec_parse_version_tuple(v),
        version_order(seq!['v'] + v, v) == 0,
{
    crate::text::lemma_trim_prepend_non_ws(v, 'v');
    lemma_compare_parts_reflexive(spec_parse_version_tuple(v), 0);
}

/// A number sequence padded with zeros to length `n`.
pub open spec fn padded(t: Seq<u32>, n: nat) -> Seq<int> {
    Seq::new(n, |i: int| part_or_zero(t, i))
}

/// Lexicographic comparison of two sequences of one length from `k` on:
/// -1, 0 or 1.
pub open spec fn lex_compare(a: Seq<int>, b: Seq<int>, k: int) -> int
    decreases a.len() - k,
{
    if k < 0 || k >= a.len() {
        0
    } else if a[k] < b[k] {
        -1
    } else if a[k] > b[k] {
        1
    } else {
        lex_compare(a, b, k + 1)
    }
}

proof fn lemma_compare_parts_padded(t1: Seq<u32>, t2: Seq<u32>, n: nat, k: int)
    requires
        n == (if t1.len() >= t2.len() { t1.len() } else { t2.len() }),
        0 <= k,
    ensures
        compare_parts(t1, t2, k) == lex_compare(padded(t1, n), padded(t2, n), k),
    decreases n - k,
{
    if k < n {
        lemma_compare_parts_padded(t1, t2, n, k + 1);
    }
}

/// Comparing versions is comparing their number lists, both padded with
/// zeros to the longer length, lexicographically.
pub proof fn lemma_version_order_padded(v1: Seq<char>, v2: Seq<char>)
    ensures
        ({
            let t1 = spec_parse_version_tuple(v1);
            let t2 = spec_parse_version_tuple(v2);
            let n = if t1.len() >= t2.len() { t1.len() } else { t2.len() };
            version_order(v1, v2) == lex_compare(padded(t1, n), padded(t2, n), 0)
        }),
{
    let t1 = spec_parse_version_tuple(v1);
    let t2 = spec_parse_version_tuple(v2);
    let n = if t1.len() >= t2.len() { t1.len() } else { t2.len() };
    lemma_compare_parts_padded(t1, t2, n, 0);
}

} // verus!
