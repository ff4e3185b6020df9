//! Placeholder tags in document text: `{{...}}` and `【...】` markers that
//! mark where handwriting goes, optionally with a role prefix before a colon
//! (`{{手写:张三}}`).

use vstd::prelude::*;
use crate::text::{
    trim_seq, trim_bounds, string_of_range, find_from, find_char_from, find_chars_from,
    lemma_find_from_props, chars_of, push_chars, string_of, trim_chars, lemma_trim_bounds,
};

verus! {

// ---------------------------------------------------------------------------
// Scanning
// ---------------------------------------------------------------------------
/// A tag found in a character stream: the positions of its first and last
/// character (the last one is the final closing character) and its trimmed
/// inner text.
#[derive(Debug, Clone, PartialEq, Eq)]
pub struct TagMatch {
    pub start_char_idx: usize,
    pub end_char_idx: usize,
    pub inner_text: String,
}

/// A tag as `(start, end, inner text)`.
pub open spec fn tag_model(m: TagMatch) -> (int, int, Seq<char>) {
    (m.start_char_idx as int, m.end_char_idx as int, m.inner_text@)
}

/// From `j` on, the first place where an opened `{{` either closes with `}}`
/// (`true`) or is abandoned at a new `{{` or a line break (`false`). Only
/// positions followed by at least one more character are looked at.
pub open spec fn brace_stop(cs: Seq<char>, j: int) -> Option<(int, bool)>
    decreases cs.len() - j,
{
    if j < 0 || j + 1 >= cs.len() {
        None
    } else if cs[j] == '}' && cs[j + 1] == '}' {
        Some((j, true))
    } else if (cs[j] == '{' && cs[j + 1] == '{') || cs[j] == '\n' || cs[j] == '\r' {
        Some((j, false))
    } else {
        brace_stop(cs, j + 1)
    }
}

/// From `j` on, the first place where an opened `【` either closes with `】`
/// (`true`) or is abandoned at a new `【` or a line break (`false`).
pub open spec fn lenticular_stop(cs: Seq<char>, j: int) -> Option<(int, bool)>
    decreases cs.len() - j,
{
    if j < 0 || j >= cs.len() {
        None
    } else if cs[j] == '】' {
        Some((j, true))
    } else if cs[j] == '【' || cs[j] == '\n' || cs[j] == '\r' {
        Some((j, false))
    } else {
        lenticular_stop(cs, j + 1)
    }
}

/// Neither a line break nor `{{` starts anywhere in `cs[j..m]`.
pub open spec fn clear_of_brace_stops(cs: Seq<char>, j: int, m: int) -> bool {
    forall|t: int|
        j <= t < m ==> !(#[trigger] cs[t] == '\n' || cs[t] == '\r' || (cs[t] == '{' && cs[t + 1] == '{'))
}

/// Neither a line break nor `【` is in `cs[j..m]`.
pub open spec fn clear_of_lenticular_stops(cs: Seq<char>, j: int, m: int) -> bool {
    forall|t: int| j <= t < m ==> !(#[trigger] cs[t] == '\n' || cs[t] == '\r' || cs[t] == '【')
}

pub proof fn lemma_brace_stop(cs: Seq<char>, j: int)
    requires
        0 <= j,
    ensures
        brace_stop(cs, j) matches Some(r) ==> j <= r.0 && r.0 + 1 < cs.len(),
    decreases cs.len() - j,
{
    if j + 1 < cs.len() {
        lemma_brace_stop(cs, j + 1);
    }
}

/// Where an opened `{{` closes, the closing `}}` stands there and nothing
/// before it, from `j` on, abandons the tag.
pub proof fn lemma_brace_stop_closed(cs: Seq<char>, j: int)
    requires
        0 <= j,
    ensures
        brace_stop(cs, j) matches Some((m, true)) ==> cs[m] == '}' && cs[m + 1] == '}'
            && clear_of_brace_stops(cs, j, m),
    decreases cs.len() - j,
{
    if j + 1 < cs.len() {
        lemma_brace_stop_closed(cs, j + 1);
    }
}

pub proof fn lemma_lenticular_stop(cs: Seq<char>, j: int)
    requires
        0 <= j,
    ensures
        lenticular_stop(cs, j) matches Some(r) ==> j <= r.0 && r.0 < cs.len(),
    decreases cs.len() - j,
{
    if j < cs.len() {
        lemma_lenticular_stop(cs, j + 1);
    }
}

/// Where an opened `【` closes, the `】` stands there and nothing before it,
/// from `j` on, abandons the tag.
pub proof fn lemma_lenticular_stop_closed(cs: Seq<char>, j: int)
    requires
        0 <= j,
    ensures
        lenticular_stop(cs, j) matches Some((m, true)) ==> cs[m] == '】'
            && clear_of_lenticular_stops(cs, j, m),
    decreases cs.len() - j,
{
    if j < cs.len() {
        lemma_lenticular_stop_closed(cs, j + 1);
    }
}

/// The tags found by scanning `cs` from position `i` on. An unclosed opener
/// is skipped; scanning resumes where it was abandoned.
pub open spec fn scan_from(cs: Seq<char>, i: int) -> Seq<(int, int, Seq<char>)>
    decreases cs.len() - i,
{
    if i < 0 || i >= cs.len() {
        Seq::empty()
    } else if i + 1 < cs.len() && cs[i] == '{' && cs[i + 1] == '{' {
        proof {
            lemma_brace_stop(cs, i + 2);
        }
        match brace_stop(cs, i + 2) {
            Some((j, true)) => seq![(i, j + 1, trim_seq(cs.subrange(i + 2, j)))] + scan_from(
                cs,
                j + 2,
            ),
            Some((j, false)) => scan_from(cs, j),
            None => scan_from(cs, i + 1),
        }
    } else if cs[i] == '【' {
        proof {
            lemma_lenticular_stop(cs, i + 1);
        }
        match lenticular_stop(cs, i + 1) {
            Some((j, true)) => seq![(i, j, trim_seq(cs.subrange(i + 1, j)))] + scan_from(
                cs,
                j + 1,
            ),
            Some((j, false)) => scan_from(cs, j),
            None => scan_from(cs, i + 1),
        }
    } else {
        scan_from(cs, i + 1)
    }
}

fn brace_stop_exec(cs: &[char], from: usize) -> (r: Option<(usize, bool)>)
    requires
        from >= 2,
    ensures
        r matches Some(p) ==> brace_stop(cs@, from as int) == Some((p.0 as int, p.1)),
        r is None ==> brace_stop(cs@, from as int) is None,
{
    let mut j = from;
    while j < cs.len() && j + 1 < cs.len()
        invariant
            from <= j,
            brace_stop(cs@, from as int) == brace_stop(cs@, j as int),
        decreases cs.len() - j,
    {
        if cs[j] == '}' && cs[j + 1] == '}' {
            return Some((j, true));
        } else if (cs[j] == '{' && cs[j + 1] == '{') || cs[j] == '\n' || cs[j] == '\r' {
            return Some((j, false));
        }
        j += 1;
    }
    None
}

fn lenticular_stop_exec(cs: &[char], from: usize) -> (r: Option<(usize, bool)>)
    requires
        from >= 1,
    ensures
        r matches Some(p) ==> lenticular_stop(cs@, from as int) == Some((p.0 as int, p.1)),
        r is None ==> lenticular_stop(cs@, from as int) is None,
{
    let mut j = from;
    while j < cs.len()
        invariant
            from <= j,
            lenticular_stop(cs@, from as int) == lenticular_stop(cs@, j as int),
        decreases cs.len() - j,
    {
        if cs[j] == '】' {
            return Some((j, true));
        } else if cs[j] == '【' || cs[j] == '\n' || cs[j] == '\r' {
            return Some((j, false));
        }
        j += 1;
    }
    None
}

fn make_tag(cs: &[char], start: usize, inner_from: usize, inner_to: usize, end: usize) -> (r:
    TagMatch)
    requires
        inner_from <= inner_to <= cs.len(),
    ensures
        tag_model(r) == (start as int, end as int, trim_seq(
            cs@.subrange(inner_from as int, inner_to as int),
        )),
{
    let (lo, hi) = trim_bounds(cs, inner_from, inner_to);
    TagMatch { start_char_idx: start, end_char_idx: end, inner_text: string_of_range(cs, lo, hi) }
}

/// Finds the `{{...}}` and `【...】` tags in a character stream, in order.
pub fn scan_text_tags(chars: &[char]) -> (r: Vec<TagMatch>)
    ensures
        r@.map_values(|m: TagMatch| tag_model(m)) == scan_from(chars@, 0),
{
    let ghost cs = chars@;
    let len = chars.len();
    let mut matches: Vec<TagMatch> = Vec::new();
    let mut i: usize = 0;
    while i < len
        invariant
            len == chars.len(),
            cs == chars@,
            i <= len,
            matches@.map_values(|m: TagMatch| tag_model(m)) + scan_from(cs, i as int) == scan_from(
                cs,
                0,
            ),
        decreases len - i,
    {
        if i + 1 < len && chars[i] == '{' && chars[i + 1] == '{' {
            proof {
                lemma_brace_stop(cs, i + 2);
            }
            match brace_stop_exec(chars, i + 2) {
                Some((j, true)) => {
                    let m = make_tag(chars, i, i + 2, j, j + 1);
                    let ghost before = matches@.map_values(|m: TagMatch| tag_model(m));
                    matches.push(m);
                    assert(matches@.map_values(|m: TagMatch| tag_model(m)) =~= before.push(
                        tag_model(m),
                    ));
                    assert(before.push(tag_model(m)) + scan_from(cs, j + 2) =~= before + (seq![
                        tag_model(m),
                    ] + scan_from(cs, j + 2)));
                    i = j + 2;
                },
                Some((j, false)) => {
                    i = j;
                },
                None => {
                    i += 1;
                },
            }
        } else if chars[i] == '【' {
            proof {
                lemma_lenticular_stop(cs, i + 1);
            }
            match lenticular_stop_exec(chars, i + 1) {
                Some((j, true)) => {
                    let m = make_tag(chars, i, i + 1, j, j);
                    let ghost before = matches@.map_values(|m: TagMatch| tag_model(m));
                    matches.push(m);
                    assert(matches@.map_values(|m: TagMatch| tag_model(m)) =~= before.push(
                        tag_model(m),
                    ));
                    assert(before.push(tag_model(m)) + scan_from(cs, j + 1) =~= before + (seq![
                        tag_model(m),
                    ] + scan_from(cs, j + 1)));
                    i = j + 1;
                },
                Some((j, false)) => {
                    i = j;
                },
                None => {
                    i += 1;
                },
            }
        } else {
            i += 1;
        }
    }
    assert(matches@.map_values(|m: TagMatch| tag_model(m)) + scan_from(cs, len as int)
        =~= matches@.map_values(|m: TagMatch| tag_model(m)));
    matches
}

/// The shape of a found tag: `{{inner}}` or `【inner】` from `s` to `e`,
/// with no line break (and no second opener) inside, and the inner text
/// trimmed.
pub open spec fn tag_shape(cs: Seq<char>, t: (int, int, Seq<char>)) -> bool {
    let (s, e, inner) = t;
    ||| {
        &&& 0 <= s && s + 3 <= e < cs.len()
        &&& cs[s] == '{' && cs[s + 1] == '{' && cs[e - 1] == '}' && cs[e] == '}'
        &&& clear_of_brace_stops(cs, s + 2, e - 1)
        &&& inner == trim_seq(cs.subrange(s + 2, e - 1))
    }
    ||| {
        &&& 0 <= s && s + 1 <= e < cs.len()
        &&& cs[s] == '【' && cs[e] == '】'
        &&& clear_of_lenticular_stops(cs, s + 1, e)
        &&& inner == trim_seq(cs.subrange(s + 1, e))
    }
}

/// Every tag the scanner finds has the shape of a tag.
pub proof fn lemma_scan_shape(cs: Seq<char>, i: int)
    requires
        0 <= i,
    ensures
        forall|k: int| 0 <= k < scan_from(cs, i).len() ==> tag_shape(cs, #[trigger] scan_from(cs, i)[k]),
    decreases cs.len() - i,
{
    if i >= cs.len() {
    } else if i + 1 < cs.len() && cs[i] == '{' && cs[i + 1] == '{' {
        lemma_brace_stop(cs, i + 2);
        lemma_brace_stop_closed(cs, i + 2);
        match brace_stop(cs, i + 2) {
            Some((j, true)) => {
                lemma_scan_shape(cs, j + 2);
                let rest = scan_from(cs, j + 2);
                let s = scan_from(cs, i);
                assert(s == seq![(i, j + 1, trim_seq(cs.subrange(i + 2, j)))] + rest);
                assert forall|k: int| 0 <= k < s.len() implies tag_shape(cs, #[trigger] s[k]) by {
                    if k > 0 {
                        assert(s[k] == rest[k - 1]);
                    } else {
                        assert(s[0] == (i, j + 1, trim_seq(cs.subrange(i + 2, j))));
                    }
                }
            },
            Some((j, false)) => {
                lemma_scan_shape(cs, j);
                assert(scan_from(cs, i) == scan_from(cs, j));
            },
            None => {
                lemma_scan_shape(cs, i + 1);
                assert(scan_from(cs, i) == scan_from(cs, i + 1));
            },
        }
    } else if cs[i] == '【' {
        lemma_lenticular_stop(cs, i + 1);
        lemma_lenticular_stop_closed(cs, i + 1);
        match lenticular_stop(cs, i + 1) {
            Some((j, true)) => {
                lemma_scan_shape(cs, j + 1);
                let rest = scan_from(cs, j + 1);
                let s = scan_from(cs, i);
                assert(s == seq![(i, j, trim_seq(cs.subrange(i + 1, j)))] + rest);
                assert forall|k: int| 0 <= k < s.len() implies tag_shape(cs, #[trigger] s[k]) by {
                    if k > 0 {
                        assert(s[k] == rest[k - 1]);
                    } else {
                        assert(s[0] == (i, j, trim_seq(cs.subrange(i + 1, j))));
                    }
                }
            },
            Some((j, false)) => {
                lemma_scan_shape(cs, j);
                assert(scan_from(cs, i) == scan_from(cs, j));
            },
            None => {
                lemma_scan_shape(cs, i + 1);
                assert(scan_from(cs, i) == scan_from(cs, i + 1));
            },
        }
    } else {
        lemma_scan_shape(cs, i + 1);
        assert(scan_from(cs, i) == scan_from(cs, i + 1));
    }
}

/// Tags found by the scanner appear in order, do not overlap, start before
/// they end, and lie inside the scanned text.
pub proof fn lemma_scan_ordered(cs: Seq<char>, i: int)
    requires
        0 <= i,
    ensures
        forall|k: int|
            0 <= k < scan_from(cs, i).len() ==> i <= (#[trigger] scan_from(cs, i)[k]).0 < scan_from(
                cs,
                i,
            )[k].1 < cs.len(),
        forall|k: int|
            0 <= k < scan_from(cs, i).len() - 1 ==> (#[trigger] scan_from(cs, i)[k]).1 < scan_from(
                cs,
                i,
            )[k + 1].0,
    decreases cs.len() - i,
{
    if i >= cs.len() {
    } else if i + 1 < cs.len() && cs[i] == '{' && cs[i + 1] == '{' {
        lemma_brace_stop(cs, i + 2);
        match brace_stop(cs, i + 2) {
            Some((j, true)) => {
                lemma_scan_ordered(cs, j + 2);
                let rest = scan_from(cs, j + 2);
                let s = scan_from(cs, i);
                assert(s == seq![(i, j + 1, trim_seq(cs.subrange(i + 2, j)))] + rest);
                assert forall|k: int| 0 <= k < s.len() - 1 implies (#[trigger] s[k]).1 < s[k
                    + 1].0 by {
                    if k > 0 {
                        assert(s[k] == rest[k - 1]);
                    }
                    assert(s[k + 1] == rest[k]);
                }
                assert forall|k: int| 0 <= k < s.len() implies i <= (#[trigger] s[k]).0 < s[k].1
                    < cs.len() by {
                    if k > 0 {
                        assert(s[k] == rest[k - 1]);
                    }
                }
            },
            Some((j, false)) => {
                lemma_scan_ordered(cs, j);
                assert(scan_from(cs, i) == scan_from(cs, j));
            },
            None => {
                lemma_scan_ordered(cs, i + 1);
                assert(scan_from(cs, i) == scan_from(cs, i + 1));
            },
        }
    } else if cs[i] == '【' {
        lemma_lenticular_stop(cs, i + 1);
        match lenticular_stop(cs, i + 1) {
            Some((j, true)) => {
                lemma_scan_ordered(cs, j + 1);
                let rest = scan_from(cs, j + 1);
                let s = scan_from(cs, i);
                assert(s == seq![(i, j, trim_seq(cs.subrange(i + 1, j)))] + rest);
                assert forall|k: int| 0 <= k < s.len() - 1 implies (#[trigger] s[k]).1 < s[k
                    + 1].0 by {
                    if k > 0 {
                        assert(s[k] == rest[k - 1]);
                    }
                    assert(s[k + 1] == rest[k]);
                }
                assert forall|k: int| 0 <= k < s.len() implies i <= (#[trigger] s[k]).0 < s[k].1
                    < cs.len() by {
                    if k > 0 {
                        assert(s[k] == rest[k - 1]);
                    }
                }
            },
            Some((j, false)) => {
                lemma_scan_ordered(cs, j);
                assert(scan_from(cs, i) == scan_from(cs, j));
            },
            None => {
                lemma_scan_ordered(cs, i + 1);
                assert(scan_from(cs, i) == scan_from(cs, i + 1));
            },
        }
    } else {
        lemma_scan_ordered(cs, i + 1);
        assert(scan_from(cs, i) == scan_from(cs, i + 1));
    }
}

// ---------------------------------------------------------------------------
// Stripping tag syntax
// ---------------------------------------------------------------------------
/// Position of the separator between a role prefix and the body of a tag:
/// the first ASCII colon, or failing that the first full-width colon.
pub open spec fn colon_split(s: Seq<char>) -> Option<int> {
    match find_from(s, seq![':'], 0) {
        Some(p) => Some(p),
        None => find_from(s, seq!['：'], 0),
    }
}

/// The body of a trimmed tag: what follows the role prefix, trimmed, or the
/// whole text when there is no prefix.
pub open spec fn tag_body(inner: Seq<char>) -> Seq<char> {
    match colon_split(inner) {
        Some(p) => trim_seq(inner.subrange(p + 1, inner.len() as int)),
        None => inner,
    }
}

/// Text from position `i` on with every closed inline tag replaced by its
/// body; the flag tells whether any tag was replaced. An opener without a
/// closer is kept as a plain character.
pub open spec fn inline_from(cs: Seq<char>, i: int) -> (Seq<char>, bool)
    decreases cs.len() - i,
{
    if i < 0 || i >= cs.len() {
        (Seq::empty(), false)
    } else if i + 1 < cs.len() && cs[i] == '{' && cs[i + 1] == '{' {
        proof {
            lemma_find_from_props(cs, seq!['}', '}'], i + 2);
        }
        match find_from(cs, seq!['}', '}'], i + 2) {
            Some(j) => {
                let rest = inline_from(cs, j + 2);
                (tag_body(trim_seq(cs.subrange(i + 2, j))) + rest.0, true)
            },
            None => {
                let rest = inline_from(cs, i + 1);
                (seq![cs[i]] + rest.0, rest.1)
            },
        }
    } else if cs[i] == '【' {
        proof {
            lemma_find_from_props(cs, seq!['】'], i + 1);
        }
        match find_from(cs, seq!['】'], i + 1) {
            Some(j) => {
                let rest = inline_from(cs, j + 1);
                (tag_body(trim_seq(cs.subrange(i + 1, j))) + rest.0, true)
            },
            None => {
                let rest = inline_from(cs, i + 1);
                (seq![cs[i]] + rest.0, rest.1)
            },
        }
    } else {
        let rest = inline_from(cs, i + 1);
        (seq![cs[i]] + rest.0, rest.1)
    }
}

/// The text with its tag syntax removed: a text that is one whole tag (its
/// first closing mark is the one at its end) gives the tag's body; otherwise
/// each inline tag is replaced by its body and the result trimmed; a text
/// without tags is only trimmed.
pub open spec fn spec_strip_tag_syntax(text: Seq<char>) -> Seq<char> {
    let t = trim_seq(text);
    if t.len() == 0 {
        Seq::empty()
    } else if t.len() >= 4 && t[0] == '{' && t[1] == '{' && find_from(t, seq!['}', '}'], 2) == Some(
        t.len() - 2,
    ) {
        tag_body(trim_seq(t.subrange(2, t.len() - 2)))
    } else if t.len() >= 2 && t[0] == '【' && find_from(t, seq!['】'], 1) == Some(t.len() - 1) {
        tag_body(trim_seq(t.subrange(1, t.len() - 1)))
    } else {
        let r = inline_from(text, 0);
        if r.1 {
            trim_seq(r.0)
        } else {
            t
        }
    }
}

/// Neither `{{` nor `【` opens anywhere in `cs`.
pub open spec fn no_tag_openers(cs: Seq<char>) -> bool {
    &&& forall|i: int| 0 <= i < cs.len() - 1 ==> !(#[trigger] cs[i] == '{' && cs[i + 1] == '{')
    &&& forall|i: int| 0 <= i < cs.len() ==> #[trigger] cs[i] != '【'
}

proof fn lemma_inline_untouched(cs: Seq<char>, i: int)
    requires
        0 <= i,
        no_tag_openers(cs),
    ensures
        !inline_from(cs, i).1,
    decreases cs.len() - i,
{
    if i < cs.len() {
        lemma_inline_untouched(cs, i + 1);
        if i + 1 < cs.len() {
            assert(!(cs[i] == '{' && cs[i + 1] == '{'));
        }
        assert(cs[i] != '【');
    }
}

/// A text in which no tag opens is only trimmed.
pub proof fn lemma_strip_plain_text(text: Seq<char>)
    requires
        no_tag_openers(text),
    ensures
        spec_strip_tag_syntax(text) == trim_seq(text),
{
    lemma_inline_untouched(text, 0);
    let (a, b) = lemma_trim_bounds(text);
    let t = trim_seq(text);
    if t.len() >= 2 {
        assert(t[0] == text[a] && t[1] == text[a + 1]);
        assert(!(text[a] == '{' && text[a + 1] == '{'));
    }
    if t.len() >= 1 {
        assert(t[0] == text[a]);
        assert(text[a] != '【');
    }
}

/// The body of the trimmed tag text `inner[from..to]`.
fn tag_body_of(cs: &[char], from: usize, to: usize) -> (r: Vec<char>)
    requires
        from <= to <= cs.len(),
    ensures
        r@ == tag_body(trim_seq(cs@.subrange(from as int, to as int))),
{
    let (lo, hi) = trim_bounds(cs, from, to);
    let inner = vstd::slice::slice_to_vec(vstd::slice::slice_subrange(cs, lo, hi));
    let pos = match find_char_from(inner.as_slice(), ':', 0) {
        Some(p) => Some(p),
        None => find_char_from(inner.as_slice(), '：', 0),
    };
    match pos {
        Some(p) => {
            proof {
                if find_from(inner@, seq![':'], 0) is Some {
                    lemma_find_from_props(inner@, seq![':'], 0);
                } else {
                    lemma_find_from_props(inner@, seq!['：'], 0);
                }
            }
            let (blo, bhi) = trim_bounds(inner.as_slice(), p + 1, inner.len());
            vstd::slice::slice_to_vec(vstd::slice::slice_subrange(inner.as_slice(), blo, bhi))
        },
        None => inner,
    }
}

/// Removes template tag syntax (`{{...}}`, `【...】`, `{{手写:...}}`) from
/// extracted text, keeping the tag bodies.
pub fn strip_tag_syntax(text: &str) -> (r: String)
    ensures
        r@ == spec_strip_tag_syntax(text@),
{
    let cs = chars_of(text);
    let (lo, hi) = trim_bounds(cs.as_slice(), 0, cs.len());
    let ghost t = trim_seq(text@);
    assert(cs@.subrange(0, cs@.len() as int) =~= cs@);
    let n = hi - lo;
    if n == 0 {
        return String::new();
    }
    let close_brace = vec!['}', '}'];
    let close_lenticular = vec!['】'];
    assert(close_brace@ =~= seq!['}', '}']);
    assert(close_lenticular@ =~= seq!['】']);
    let tv = vstd::slice::slice_to_vec(vstd::slice::slice_subrange(cs.as_slice(), lo, hi));
    assert(tv@ =~= t);
    let whole_brace = n >= 4 && cs[lo] == '{' && cs[lo + 1] == '{' && match find_chars_from(
        tv.as_slice(),
        close_brace.as_slice(),
        2,
    ) {
        Some(j) => j == n - 2,
        None => false,
    };
    if whole_brace {
        let body = tag_body_of(cs.as_slice(), lo + 2, hi - 2);
        proof {
            assert(t.subrange(2, t.len() - 2) =~= cs@.subrange(lo + 2, hi - 2));
        }
        return string_of(body.as_slice());
    }
    let whole_lenticular = n >= 2 && cs[lo] == '【' && match find_chars_from(
        tv.as_slice(),
        close_lenticular.as_slice(),
        1,
    ) {
        Some(j) => j == n - 1,
        None => false,
    };
    if whole_lenticular {
        let body = tag_body_of(cs.as_slice(), lo + 1, hi - 1);
        proof {
            assert(t.subrange(1, t.len() - 1) =~= cs@.subrange(lo + 1, hi - 1));
        }
        return string_of(body.as_slice());
    }
    let ghost all = inline_from(cs@, 0);
    let len = cs.len();
    let mut result = String::new();
    let mut replaced = false;
    let mut i: usize = 0;
    while i < len
        invariant
            len == cs.len(),
            i <= len,
            close_brace@ == seq!['}', '}'],
            close_lenticular@ == seq!['】'],
            all == inline_from(cs@, 0),
            result@ + inline_from(cs@, i as int).0 == all.0,
            (replaced || inline_from(cs@, i as int).1) == all.1,
        decreases len - i,
    {
        let ghost before = result@;
        if i + 1 < len && cs[i] == '{' && cs[i + 1] == '{' {
            proof {
                lemma_find_from_props(cs@, seq!['}', '}'], i + 2);
            }
            match find_chars_from(cs.as_slice(), close_brace.as_slice(), i + 2) {
                Some(j) => {
                    let body = tag_body_of(cs.as_slice(), i + 2, j);
                    push_chars(&mut result, body.as_slice());
                    replaced = true;
                    proof {
                        assert(before + (body@ + inline_from(cs@, j + 2).0) =~= result@
                            + inline_from(cs@, j + 2).0);
                    }
                    i = j + 2;
                },
                None => {
                    result.push(cs[i]);
                    proof {
                        assert(before + (seq![cs@[i as int]] + inline_from(cs@, i + 1).0)
                            =~= result@ + inline_from(cs@, i + 1).0);
                    }
                    i += 1;
                },
            }
        } else if cs[i] == '【' {
            proof {
                lemma_find_from_props(cs@, seq!['】'], i + 1);
            }
            match find_chars_from(cs.as_slice(), close_lenticular.as_slice(), i + 1) {
                Some(j) => {
                    let body = tag_body_of(cs.as_slice(), i + 1, j);
                    push_chars(&mut result, body.as_slice());
                    replaced = true;
                    proof {
                        assert(before + (body@ + inline_from(cs@, j + 1).0) =~= result@
                            + inline_from(cs@, j + 1).0);
                    }
                    i = j + 1;
                },
                None => {
                    result.push(cs[i]);
                    proof {
                        assert(before + (seq![cs@[i as int]] + inline_from(cs@, i + 1).0)
                            =~= result@ + inline_from(cs@, i + 1).0);
                    }
                    i += 1;
                },
            }
        } else {
            result.push(cs[i]);
            proof {
                assert(before + (seq![cs@[i as int]] + inline_from(cs@, i + 1).0) =~= result@
                    + inline_from(cs@, i + 1).0);
            }
            i += 1;
        }
    }
    proof {
        assert(result@ + Seq::<char>::empty() =~= result@);
    }
    if replaced {
        let rc = chars_of(result.as_str());
        let tr = trim_chars(rc.as_slice());
        string_of(tr.as_slice())
    } else {
        string_of_range(cs.as_slice(), lo, hi)
    }
}

/// Full-width characters: CJK ideographs (unified, extensions A and B on,
/// compatibility), hiragana and katakana, and hangul syllables. Their tight
/// glyph box is about one em high.
pub open spec fn spec_is_full_width_char(ch: char) -> bool {
    let c = ch as u32;
    (0x3400 <= c <= 0x4DBF) || (0x4E00 <= c <= 0x9FFF) || (0x20000 <= c <= 0x2FA1F) || (0xF900
        <= c <= 0xFAFF) || (0x3041 <= c <= 0x30FF) || (0xAC00 <= c <= 0xD7A3)
}

/// Whether `ch` is a full-width character usable to calibrate a font size.
pub fn is_full_width_char(ch: char) -> (r: bool)
    ensures
        r == spec_is_full_width_char(ch),
{
    let c = ch as u32;
    (0x3400 <= c && c <= 0x4DBF) || (0x4E00 <= c && c <= 0x9FFF) || (0x20000 <= c && c <= 0x2FA1F)
        || (0xF900 <= c && c <= 0xFAFF) || (0x3041 <= c && c <= 0x30FF) || (0xAC00 <= c && c
        <= 0xD7A3)
}

} // verus!
