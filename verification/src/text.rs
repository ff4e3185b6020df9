//! Character-sequence utilities shared by the parsers: whitespace trimming,
//! substring search, prefix/suffix tests and conversions between `&str`,
//! `String` and `Vec<char>`.
//!
//! All positions here are *character* positions; every specification talks
//! about `Seq<char>` views of the strings involved.
use vstd::prelude::*;

verus! {

/// `String::push` appends one character to the string.
pub assume_specification[ String::push ](s: &mut String, ch: char)
    ensures
        final(s)@ == old(s)@.push(ch),
;

// ---------------------------------------------------------------------------
// Character classes
// ---------------------------------------------------------------------------
/// Unicode `White_Space` property, as used by `char::is_whitespace`.
pub open spec fn spec_is_whitespace(c: char) -> bool {
    let u = c as u32;
    ||| u == 0x20
    ||| (0x09 <= u && u <= 0x0d)
    ||| u == 0x85
    ||| u == 0xa0
    ||| u == 0x1680
    ||| (0x2000 <= u && u <= 0x200a)
    ||| u == 0x2028
    ||| u == 0x2029
    ||| u == 0x202f
    ||| u == 0x205f
    ||| u == 0x3000
}

/// Whether `c` is white space in the sense of `char::is_whitespace`.
pub fn is_whitespace(c: char) -> (b: bool)
    ensures
        b == spec_is_whitespace(c),
{
    let u = c as u32;
    u == 0x20 || (0x09 <= u && u <= 0x0d) || u == 0x85 || u == 0xa0 || u == 0x1680 || (0x2000
        <= u && u <= 0x200a) || u == 0x2028 || u == 0x2029 || u == 0x202f || u == 0x205f || u
        == 0x3000
}

pub open spec fn spec_is_ascii_digit(c: char) -> bool {
    '0' <= c && c <= '9'
}

pub open spec fn spec_is_ascii_hexdigit(c: char) -> bool {
    ||| ('0' <= c && c <= '9')
    ||| ('a' <= c && c <= 'f')
    ||| ('A' <= c && c <= 'F')
}

/// Value of an ASCII hexadecimal digit.
pub open spec fn spec_hex_value(c: char) -> int {
    if '0' <= c && c <= '9' {
        c as int - '0' as int
    } else if 'a' <= c && c <= 'f' {
        c as int - 'a' as int + 10
    } else {
        c as int - 'A' as int + 10
    }
}

pub fn is_ascii_hexdigit(c: char) -> (b: bool)
    ensures
        b == spec_is_ascii_hexdigit(c),
{
    ('0' <= c && c <= '9') || ('a' <= c && c <= 'f') || ('A' <= c && c <= 'F')
}

pub fn hex_value(c: char) -> (v: u8)
    requires
        spec_is_ascii_hexdigit(c),
    ensures
        v as int == spec_hex_value(c),
        v < 16,
{
    let u = c as u32;
    if '0' <= c && c <= '9' {
        (u - 0x30) as u8
    } else if 'a' <= c && c <= 'f' {
        (u - 0x61 + 10) as u8
    } else {
        (u - 0x41 + 10) as u8
    }
}

/// ASCII lowercase mapping of one character (`char::to_ascii_lowercase`).
pub open spec fn spec_ascii_lower(c: char) -> char {
    if 'A' <= c && c <= 'Z' {
        ((c as u32) + 32) as char
    } else {
        c
    }
}

pub fn ascii_lower(c: char) -> (r: char)
    ensures
        r == spec_ascii_lower(c),
{
    if 'A' <= c && c <= 'Z' {
        let u = (c as u32) + 32;
        assert(0x61 <= u <= 0x7a);
        char_from_ascii(u)
    } else {
        c
    }
}

fn char_from_ascii(u: u32) -> (c: char)
    requires
        u < 0x80,
    ensures
        c == u as char,
{
    let b = u as u8;
    assert(b as u32 == u);
    b as char
}

pub open spec fn spec_ascii_lower_seq(s: Seq<char>) -> Seq<char> {
    s.map_values(|c: char| spec_ascii_lower(c))
}

/// `str::to_ascii_lowercase` on a character sequence.
pub fn ascii_lower_chars(v: &[char]) -> (r: Vec<char>)
    ensures
        r@ == spec_ascii_lower_seq(v@),
{
    let mut out: Vec<char> = Vec::new();
    let mut i: usize = 0;
    while i < v.len()
        invariant
            i <= v.len(),
            out@ == spec_ascii_lower_seq(v@.take(i as int)),
        decreases v.len() - i,
    {
        let c = ascii_lower(v[i]);
        out.push(c);
        i += 1;
        assert(spec_ascii_lower_seq(v@.take(i as int)) =~= spec_ascii_lower_seq(
            v@.take(i - 1 as int),
        ).push(spec_ascii_lower(v@[i - 1 as int])));
    }
    assert(v@.take(v.len() as int) =~= v@);
    out
}

// ---------------------------------------------------------------------------
// Conversions
// ---------------------------------------------------------------------------
/// The characters of `s`, in order.
pub fn chars_of(s: &str) -> (r: Vec<char>)
    ensures
        r@ == s@,
{
    let mut v: Vec<char> = Vec::new();
    for c in it: s.chars()
        invariant
            v@ == it.seq().take(it.index() as int),
    {
        v.push(c);
    }
    v
}

/// A `String` holding exactly the characters of `v`.
pub fn string_of(v: &[char]) -> (r: String)
    ensures
        r@ == v@,
{
    let mut s = String::new();
    let mut i: usize = 0;
    while i < v.len()
        invariant
            i <= v.len(),
            s@ == v@.take(i as int),
        decreases v.len() - i,
    {
        s.push(v[i]);
        i += 1;
        assert(s@ =~= v@.take(i as int));
    }
    assert(v@.take(v.len() as int) =~= v@);
    s
}

/// A `String` holding the characters `v[from..to]`.
pub fn string_of_range(v: &[char], from: usize, to: usize) -> (r: String)
    requires
        from <= to <= v.len(),
    ensures
        r@ == v@.subrange(from as int, to as int),
{
    let mut s = String::new();
    let mut i: usize = from;
    while i < to
        invariant
            from <= i <= to <= v.len(),
            s@ == v@.subrange(from as int, i as int),
        decreases to - i,
    {
        s.push(v[i]);
        i += 1;
        assert(s@ =~= v@.subrange(from as int, i as int));
    }
    s
}

/// Appends the characters of `v` to `s`.
pub fn push_chars(s: &mut String, v: &[char])
    ensures
        final(s)@ == old(s)@ + v@,
{
    let mut i: usize = 0;
    while i < v.len()
        invariant
            i <= v.len(),
            s@ == old(s)@ + v@.take(i as int),
        decreases v.len() - i,
    {
        s.push(v[i]);
        i += 1;
        assert(s@ =~= old(s)@ + v@.take(i as int));
    }
    assert(v@.take(v.len() as int) =~= v@);
}

/// Appends the characters of `t` to `s`.
pub fn push_str(s: &mut String, t: &str)
    ensures
        final(s)@ == old(s)@ + t@,
{
    let v = chars_of(t);
    push_chars(s, v.as_slice());
}

/// Whether two strings hold the same characters.
pub fn str_eq(a: &str, b: &str) -> (r: bool)
    ensures
        r == (a@ == b@),
{
    let va = chars_of(a);
    let vb = chars_of(b);
    seq_eq(va.as_slice(), vb.as_slice())
}

/// Whether two character slices are equal.
pub fn seq_eq(a: &[char], b: &[char]) -> (r: bool)
    ensures
        r == (a@ == b@),
{
    if a.len() != b.len() {
        return false;
    }
    let mut i: usize = 0;
    while i < a.len()
        invariant
            a.len() == b.len(),
            i <= a.len(),
            forall|k: int| 0 <= k < i ==> a@[k] == b@[k],
        decreases a.len() - i,
    {
        if a[i] != b[i] {
            return false;
        }
        i += 1;
    }
    assert(a@ =~= b@);
    true
}

// ---------------------------------------------------------------------------
// Trimming
// ---------------------------------------------------------------------------
/// Number of leading white-space characters.
pub open spec fn lead_ws(s: Seq<char>) -> nat
    decreases s.len(),
{
    if s.len() > 0 && spec_is_whitespace(s[0]) {
        1 + lead_ws(s.drop_first())
    } else {
        0
    }
}

/// Number of trailing white-space characters.
pub open spec fn trail_ws(s: Seq<char>) -> nat
    decreases s.len(),
{
    if s.len() > 0 && spec_is_whitespace(s.last()) {
        1 + trail_ws(s.drop_last())
    } else {
        0
    }
}

/// `str::trim_start`.
pub open spec fn trim_start_seq(s: Seq<char>) -> Seq<char> {
    s.skip(lead_ws(s) as int)
}

/// `str::trim_end`.
pub open spec fn trim_end_seq(s: Seq<char>) -> Seq<char> {
    s.take(s.len() - trail_ws(s))
}

/// `str::trim`.
pub open spec fn trim_seq(s: Seq<char>) -> Seq<char> {
    trim_end_seq(trim_start_seq(s))
}

pub proof fn lemma_lead_ws_bounds(s: Seq<char>)
    ensures
        lead_ws(s) <= s.len(),
        forall|k: int| 0 <= k < lead_ws(s) ==> spec_is_whitespace(#[trigger] s[k]),
        lead_ws(s) < s.len() ==> !spec_is_whitespace(s[lead_ws(s) as int]),
    decreases s.len(),
{
    if s.len() > 0 && spec_is_whitespace(s[0]) {
        lemma_lead_ws_bounds(s.drop_first());
        assert forall|k: int| 0 <= k < lead_ws(s) implies spec_is_whitespace(#[trigger] s[k]) by {
            if k > 0 {
                assert(s[k] == s.drop_first()[k - 1]);
            }
        }
        if lead_ws(s) < s.len() {
            assert(s[lead_ws(s) as int] == s.drop_first()[lead_ws(s.drop_first()) as int]);
        }
    }
}

pub proof fn lemma_trail_ws_bounds(s: Seq<char>)
    ensures
        trail_ws(s) <= s.len(),
        forall|k: int|
            s.len() - trail_ws(s) <= k < s.len() ==> spec_is_whitespace(#[trigger] s[k]),
        trail_ws(s) < s.len() ==> !spec_is_whitespace(s[s.len() - trail_ws(s) - 1]),
    decreases s.len(),
{
    if s.len() > 0 && spec_is_whitespace(s.last()) {
        lemma_trail_ws_bounds(s.drop_last());
        assert forall|k: int| s.len() - trail_ws(s) <= k < s.len() implies spec_is_whitespace(
            #[trigger] s[k],
        ) by {
            if k < s.len() - 1 {
                assert(s[k] == s.drop_last()[k]);
            }
        }
        if trail_ws(s) < s.len() {
            assert(s[s.len() - trail_ws(s) - 1] == s.drop_last()[s.drop_last().len() - trail_ws(
                s.drop_last(),
            ) - 1]);
        }
    }
}

/// Characterisation of `lead_ws` by its defining property.
pub proof fn lemma_lead_ws_unique(s: Seq<char>, n: int)
    requires
        0 <= n <= s.len(),
        forall|k: int| 0 <= k < n ==> spec_is_whitespace(#[trigger] s[k]),
        n < s.len() ==> !spec_is_whitespace(s[n]),
    ensures
        lead_ws(s) == n,
    decreases n,
{
    if n > 0 {
        assert(spec_is_whitespace(s[0]));
        assert forall|k: int| 0 <= k < n - 1 implies spec_is_whitespace(
            #[trigger] s.drop_first()[k],
        ) by {
            assert(s.drop_first()[k] == s[k + 1]);
        }
        if n - 1 < s.drop_first().len() {
            assert(s.drop_first()[n - 1] == s[n]);
        }
        lemma_lead_ws_unique(s.drop_first(), n - 1);
    } else {
        if s.len() > 0 {
            assert(!spec_is_whitespace(s[0]));
        }
    }
}

/// Characterisation of `trail_ws` by its defining property.
pub proof fn lemma_trail_ws_unique(s: Seq<char>, n: int)
    requires
        0 <= n <= s.len(),
        forall|k: int| s.len() - n <= k < s.len() ==> spec_is_whitespace(#[trigger] s[k]),
        n < s.len() ==> !spec_is_whitespace(s[s.len() - n - 1]),
    ensures
        trail_ws(s) == n,
    decreases n,
{
    if n > 0 {
        assert(spec_is_whitespace(s.last()));
        let t = s.drop_last();
        assert forall|k: int| t.len() - (n - 1) <= k < t.len() implies spec_is_whitespace(
            #[trigger] t[k],
        ) by {
            assert(t[k] == s[k]);
        }
        if n - 1 < t.len() {
            assert(t[t.len() - (n - 1) - 1] == s[s.len() - n - 1]);
        }
        lemma_trail_ws_unique(t, n - 1);
    } else {
        if s.len() > 0 {
            assert(!spec_is_whitespace(s.last()));
        }
    }
}

/// Index of the first non-white-space character in `v[from..to]` (or `to`).
pub fn skip_ws_forward(v: &[char], from: usize, to: usize) -> (r: usize)
    requires
        from <= to <= v.len(),
    ensures
        from <= r <= to,
        r as int - from == lead_ws(v@.subrange(from as int, to as int)),
{
    let mut i = from;
    while i < to && is_whitespace(v[i])
        invariant
            from <= i <= to <= v.len(),
            forall|k: int| from <= k < i ==> spec_is_whitespace(#[trigger] v@[k]),
        decreases to - i,
    {
        i += 1;
    }
    proof {
        let s = v@.subrange(from as int, to as int);
        assert forall|k: int| 0 <= k < i - from implies spec_is_whitespace(#[trigger] s[k]) by {
            assert(s[k] == v@[from + k]);
        }
        if i < to {
            assert(s[i - from] == v@[i as int]);
        }
        lemma_lead_ws_unique(s, i - from);
    }
    i
}

/// Index just past the last non-white-space character in `v[from..to]` (or `from`).
pub fn skip_ws_backward(v: &[char], from: usize, to: usize) -> (r: usize)
    requires
        from <= to <= v.len(),
    ensures
        from <= r <= to,
        to - r as int == trail_ws(v@.subrange(from as int, to as int)),
{
    let mut j = to;
    while j > from && is_whitespace(v[j - 1])
        invariant
            from <= j <= to <= v.len(),
            forall|k: int| j <= k < to ==> spec_is_whitespace(#[trigger] v@[k]),
        decreases j - from,
    {
        j -= 1;
    }
    proof {
        let s = v@.subrange(from as int, to as int);
        assert forall|k: int| s.len() - (to - j) <= k < s.len() implies spec_is_whitespace(
            #[trigger] s[k],
        ) by {
            assert(s[k] == v@[from + k]);
        }
        if j > from {
            assert(s[s.len() - (to - j) - 1] == v@[j - 1]);
        }
        lemma_trail_ws_unique(s, to - j);
    }
    j
}

/// Bounds `(lo, hi)` such that `v[lo..hi]` is `trim(v[from..to])`.
pub fn trim_bounds(v: &[char], from: usize, to: usize) -> (r: (usize, usize))
    requires
        from <= to <= v.len(),
    ensures
        from <= r.0 <= r.1 <= to,
        v@.subrange(r.0 as int, r.1 as int) == trim_seq(v@.subrange(from as int, to as int)),
        v@.subrange(r.0 as int, to as int) == trim_start_seq(v@.subrange(from as int, to as int)),
{
    let lo = skip_ws_forward(v, from, to);
    let hi = skip_ws_backward(v, lo, to);
    proof {
        let s = v@.subrange(from as int, to as int);
        lemma_lead_ws_bounds(s);
        assert(trim_start_seq(s) =~= v@.subrange(lo as int, to as int));
        let t = trim_start_seq(s);
        assert(trim_end_seq(t) =~= v@.subrange(lo as int, hi as int));
    }
    (lo, hi)
}

/// `str::trim` on a character slice.
pub fn trim_chars(v: &[char]) -> (r: Vec<char>)
    ensures
        r@ == trim_seq(v@),
{
    let (lo, hi) = trim_bounds(v, 0, v.len());
    assert(v@.subrange(0, v.len() as int) =~= v@);
    vstd::slice::slice_to_vec(vstd::slice::slice_subrange(v, lo, hi))
}

/// `str::trim` on a string slice, returning the characters.
pub fn trim_str(s: &str) -> (r: Vec<char>)
    ensures
        r@ == trim_seq(s@),
{
    let v = chars_of(s);
    trim_chars(v.as_slice())
}

// ---------------------------------------------------------------------------
// Searching
// ---------------------------------------------------------------------------
/// `needle` occurs in `hay` starting at position `i`.
pub open spec fn occurs_at(hay: Seq<char>, needle: Seq<char>, i: int) -> bool {
    0 <= i && i + needle.len() <= hay.len() && hay.subrange(i, i + needle.len()) == needle
}

/// The first position `>= from` at which `needle` occurs in `hay`.
pub open spec fn find_from(hay: Seq<char>, needle: Seq<char>, from: int) -> Option<int>
    decreases hay.len() - from,
{
    if from < 0 || from + needle.len() > hay.len() {
        None
    } else if occurs_at(hay, needle, from) {
        Some(from)
    } else if from >= hay.len() {
        None
    } else {
        find_from(hay, needle, from + 1)
    }
}

/// `str::find`: the first position at which `needle` occurs.
pub open spec fn find_seq(hay: Seq<char>, needle: Seq<char>) -> Option<int> {
    find_from(hay, needle, 0)
}

/// `str::find` for a single character.
pub open spec fn find_char_seq(hay: Seq<char>, c: char) -> Option<int> {
    find_seq(hay, seq![c])
}

/// `str::rfind` for a single character: the last position of `c` in `hay[..to]`.
pub open spec fn rfind_char_before(hay: Seq<char>, c: char, to: int) -> Option<int>
    decreases to,
{
    if to <= 0 || to > hay.len() {
        None
    } else if hay[to - 1] == c {
        Some(to - 1)
    } else {
        rfind_char_before(hay, c, to - 1)
    }
}

pub open spec fn starts_with_seq(s: Seq<char>, p: Seq<char>) -> bool {
    p.len() <= s.len() && s.take(p.len() as int) == p
}

pub open spec fn ends_with_seq(s: Seq<char>, p: Seq<char>) -> bool {
    p.len() <= s.len() && s.skip(s.len() - p.len()) == p
}

pub open spec fn contains_seq(s: Seq<char>, p: Seq<char>) -> bool {
    find_seq(s, p) is Some
}

pub proof fn lemma_find_from_props(hay: Seq<char>, needle: Seq<char>, from: int)
    requires
        0 <= from,
    ensures
        find_from(hay, needle, from) matches Some(i) ==> from <= i && occurs_at(hay, needle, i)
            && (forall|k: int| from <= k < i ==> !occurs_at(hay, needle, k)),
        find_from(hay, needle, from) is None ==> (forall|k: int|
            from <= k ==> !occurs_at(hay, needle, k)),
    decreases hay.len() - from,
{
    if from + needle.len() > hay.len() {
        assert forall|k: int| from <= k implies !occurs_at(hay, needle, k) by {}
    } else if occurs_at(hay, needle, from) {
    } else if from >= hay.len() {
        assert(hay.subrange(from, from) =~= Seq::<char>::empty());
        assert forall|k: int| from <= k implies !occurs_at(hay, needle, k) by {}
    } else {
        lemma_find_from_props(hay, needle, from + 1);
    }
}

/// Characterisation of `find_from` by the first-occurrence property.
pub proof fn lemma_find_from_first(hay: Seq<char>, needle: Seq<char>, from: int, i: int)
    requires
        0 <= from <= i,
        occurs_at(hay, needle, i),
        forall|k: int| from <= k < i ==> !occurs_at(hay, needle, k),
    ensures
        find_from(hay, needle, from) == Some(i),
    decreases i - from,
{
    if from < i {
        assert(!occurs_at(hay, needle, from));
        assert(from < hay.len());
        lemma_find_from_first(hay, needle, from + 1, i);
    }
}

pub proof fn lemma_find_from_none(hay: Seq<char>, needle: Seq<char>, from: int)
    requires
        0 <= from,
        forall|k: int| from <= k ==> !occurs_at(hay, needle, k),
    ensures
        find_from(hay, needle, from) is None,
    decreases hay.len() - from,
{
    if from + needle.len() > hay.len() {
    } else if from >= hay.len() {
    } else {
        assert(!occurs_at(hay, needle, from));
        lemma_find_from_none(hay, needle, from + 1);
    }
}

/// Whether `needle` occurs in `hay` at position `i`.
pub fn matches_at(hay: &[char], needle: &[char], i: usize) -> (r: bool)
    ensures
        r == occurs_at(hay@, needle@, i as int),
{
    if i > hay.len() || needle.len() > hay.len() - i {
        return false;
    }
    let mut k: usize = 0;
    while k < needle.len()
        invariant
            i + needle.len() <= hay.len(),
            k <= needle.len(),
            forall|m: int| 0 <= m < k ==> hay@[i + m] == needle@[m],
        decreases needle.len() - k,
    {
        if hay[i + k] != needle[k] {
            assert(hay@.subrange(i as int, i + needle.len())[k as int] != needle@[k as int]);
            return false;
        }
        k += 1;
    }
    assert(hay@.subrange(i as int, i + needle.len()) =~= needle@);
    true
}

/// The first position `>= from` at which `needle` occurs in `hay`.
pub fn find_chars_from(hay: &[char], needle: &[char], from: usize) -> (r: Option<usize>)
    ensures
        r matches Some(i) ==> find_from(hay@, needle@, from as int) == Some(i as int),
        r is None ==> find_from(hay@, needle@, from as int) is None,
{
    let mut i = from;
    while i <= hay.len() && needle.len() <= hay.len() - i
        invariant
            from <= i,
            forall|k: int| from <= k < i ==> !occurs_at(hay@, needle@, k),
        decreases hay.len() + 1 - i,
    {
        if matches_at(hay, needle, i) {
            proof {
                lemma_find_from_first(hay@, needle@, from as int, i as int);
            }
            return Some(i);
        }
        assert(needle@.len() > 0) by {
            if needle@.len() == 0 {
                assert(hay@.subrange(i as int, i as int) =~= needle@);
            }
        }
        i += 1;
    }
    proof {
        assert forall|k: int| from <= k implies !occurs_at(hay@, needle@, k) by {
            if k >= i {
            }
        }
        lemma_find_from_none(hay@, needle@, from as int);
    }
    None
}

/// The first position of character `c` at or after `from`.
pub fn find_char_from(hay: &[char], c: char, from: usize) -> (r: Option<usize>)
    ensures
        r matches Some(i) ==> find_from(hay@, seq![c], from as int) == Some(i as int),
        r is None ==> find_from(hay@, seq![c], from as int) is None,
{
    let needle = vec![c];
    assert(needle@ =~= seq![c]);
    find_chars_from(hay, needle.as_slice(), from)
}

/// Whether `s` starts with `p`.
pub fn starts_with(s: &[char], p: &[char]) -> (r: bool)
    ensures
        r == starts_with_seq(s@, p@),
{
    let r = matches_at(s, p, 0);
    proof {
        if p@.len() <= s@.len() {
            assert(s@.subrange(0, p@.len() as int) =~= s@.take(p@.len() as int));
        }
    }
    r
}

/// Whether `s` ends with `p`.
pub fn ends_with(s: &[char], p: &[char]) -> (r: bool)
    ensures
        r == ends_with_seq(s@, p@),
{
    if p.len() > s.len() {
        return false;
    }
    let r = matches_at(s, p, s.len() - p.len());
    proof {
        assert(s@.subrange(s@.len() - p@.len(), s@.len() as int) =~= s@.skip(
            s@.len() - p@.len(),
        ));
    }
    r
}

/// Whether `p` occurs anywhere in `s`.
pub fn contains(s: &[char], p: &[char]) -> (r: bool)
    ensures
        r == contains_seq(s@, p@),
{
    find_chars_from(s, p, 0).is_some()
}

/// Whether `s` starts with the characters of the string `p`.
pub fn starts_with_str(s: &[char], p: &str) -> (r: bool)
    ensures
        r == starts_with_seq(s@, p@),
{
    let pv = chars_of(p);
    starts_with(s, pv.as_slice())
}

/// Whether `s` ends with the characters of the string `p`.
pub fn ends_with_str(s: &[char], p: &str) -> (r: bool)
    ensures
        r == ends_with_seq(s@, p@),
{
    let pv = chars_of(p);
    ends_with(s, pv.as_slice())
}

/// Whether the string `p` occurs in `s`.
pub fn contains_str(s: &[char], p: &str) -> (r: bool)
    ensures
        r == contains_seq(s@, p@),
{
    let pv = chars_of(p);
    contains(s, pv.as_slice())
}

/// Whether `s` holds exactly the characters of `p`.
pub fn eq_str(s: &[char], p: &str) -> (r: bool)
    ensures
        r == (s@ == p@),
{
    let pv = chars_of(p);
    seq_eq(s, pv.as_slice())
}

/// The last position of `c` in `hay[..to]`.
pub fn rfind_char(hay: &[char], c: char, to: usize) -> (r: Option<usize>)
    requires
        to <= hay.len(),
    ensures
        r matches Some(i) ==> rfind_char_before(hay@, c, to as int) == Some(i as int),
        r is None ==> rfind_char_before(hay@, c, to as int) is None,
{
    let mut j = to;
    while j > 0
        invariant
            j <= to <= hay.len(),
            rfind_char_before(hay@, c, to as int) == rfind_char_before(hay@, c, j as int),
        decreases j,
    {
        if hay[j - 1] == c {
            return Some(j - 1);
        }
        j -= 1;
    }
    None
}

/// `trim` cuts exactly the white space before `a` and from `b` on, when
/// `s[a..b]` starts and ends with a non-white-space character (or is empty
/// and everything is white space).
pub proof fn lemma_trim_char(s: Seq<char>, a: int, b: int)
    requires
        0 <= a <= b <= s.len(),
        forall|k: int| 0 <= k < a ==> spec_is_whitespace(#[trigger] s[k]),
        forall|k: int| b <= k < s.len() ==> spec_is_whitespace(#[trigger] s[k]),
        a < b ==> !spec_is_whitespace(s[a]) && !spec_is_whitespace(s[b - 1]),
        a == b ==> forall|k: int| 0 <= k < s.len() ==> spec_is_whitespace(#[trigger] s[k]),
    ensures
        trim_seq(s) == s.subrange(a, b),
{
    if a < b {
        lemma_lead_ws_unique(s, a);
        let u = s.skip(a);
        assert forall|k: int| u.len() - (s.len() - b) <= k < u.len() implies spec_is_whitespace(
            #[trigger] u[k],
        ) by {
            assert(u[k] == s[k + a]);
        }
        assert(u[u.len() - (s.len() - b) - 1] == s[b - 1]);
        lemma_trail_ws_unique(u, s.len() - b);
        assert(trim_seq(s) =~= s.subrange(a, b));
    } else {
        lemma_lead_ws_unique(s, s.len() as int);
        assert(trim_seq(s) =~= s.subrange(a, b));
    }
}

/// The bounds of `trim(s)` inside `s`.
pub proof fn lemma_trim_bounds(s: Seq<char>) -> (r: (int, int))
    ensures
        0 <= r.0 <= r.1 <= s.len(),
        trim_seq(s) == s.subrange(r.0, r.1),
        forall|k: int| 0 <= k < r.0 ==> spec_is_whitespace(#[trigger] s[k]),
        forall|k: int| r.1 <= k < s.len() ==> spec_is_whitespace(#[trigger] s[k]),
        r.0 < r.1 ==> !spec_is_whitespace(s[r.0]) && !spec_is_whitespace(s[r.1 - 1]),
        r.0 == r.1 ==> forall|k: int| 0 <= k < s.len() ==> spec_is_whitespace(#[trigger] s[k]),
{
    lemma_lead_ws_bounds(s);
    let a = lead_ws(s) as int;
    let u = s.skip(a);
    lemma_trail_ws_bounds(u);
    let b = s.len() - trail_ws(u);
    assert forall|k: int| b <= k < s.len() implies spec_is_whitespace(#[trigger] s[k]) by {
        assert(s[k] == u[k - a]);
    }
    if a < b {
        assert(s[b - 1] == u[u.len() - trail_ws(u) - 1]);
    } else {
        assert forall|k: int| 0 <= k < s.len() implies spec_is_whitespace(#[trigger] s[k]) by {
            if k >= a {
                assert(s[k] == u[k - a]);
            }
        }
    }
    assert(trim_seq(s) =~= s.subrange(a, b));
    (a, b)
}

/// Putting a non-white-space character in front of a text that is not all
/// white space puts it in front of the text's end-trimmed form.
pub proof fn lemma_trim_prepend_non_ws(v: Seq<char>, c: char)
    requires
        !spec_is_whitespace(c),
        trim_seq(v).len() > 0,
    ensures
        trim_seq(seq![c] + v).len() > 0,
        trim_seq(seq![c] + v)[0] == c,
        trim_seq(trim_seq(seq![c] + v).skip(1)) == trim_seq(v),
{
    let (a, b) = lemma_trim_bounds(v);
    let w = seq![c] + v;
    assert forall|k: int| b + 1 <= k < w.len() implies spec_is_whitespace(#[trigger] w[k]) by {
        assert(w[k] == v[k - 1]);
    }
    assert(w[b] == v[b - 1]);
    lemma_trim_char(w, 0, b + 1);
    let rest = w.subrange(0, b + 1).skip(1);
    assert(rest =~= v.subrange(0, b));
    assert forall|k: int| b <= k < rest.len() implies spec_is_whitespace(#[trigger] rest[k]) by {}
    lemma_trim_char(rest, a, b);
    assert(rest.subrange(a, b) =~= v.subrange(a, b));
}

pub proof fn lemma_rfind_char_before_bounds(hay: Seq<char>, c: char, to: int)
    ensures
        rfind_char_before(hay, c, to) matches Some(k) ==> 0 <= k < to && hay[k] == c,
        rfind_char_before(hay, c, to) is None && 0 <= to <= hay.len() ==> forall|k: int|
            0 <= k < to ==> hay[k] != c,
    decreases to,
{
    if to > 0 && to <= hay.len() && hay[to - 1] != c {
        lemma_rfind_char_before_bounds(hay, c, to - 1);
    }
}

} // verus!
