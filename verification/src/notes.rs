//! Release notes: keeping the first `## ` section, turning release HTML into
//! readable text and tidying blank lines and list markers.

use vstd::prelude::*;
use crate::text::{
    chars_of, find_from, find_chars_from, lemma_find_from_props, string_of, string_of_range,
    trim_seq, trim_bounds, trim_end_seq, trim_chars, skip_ws_backward, starts_with_seq,
    starts_with, occurs_at, lead_ws, spec_is_whitespace, is_whitespace, spec_ascii_lower_seq,
    ascii_lower_chars, seq_eq, lemma_lead_ws_bounds, lemma_find_from_first, lemma_find_from_none,
    lemma_trim_bounds, lemma_trim_char,
};

verus! {

pub fn sub_vec(v: &[char], from: usize, to: usize) -> (r: Vec<char>)
    requires
        from <= to <= v.len(),
    ensures
        r@ == v@.subrange(from as int, to as int),
{
    vstd::slice::slice_to_vec(vstd::slice::slice_subrange(v, from, to))
}

pub fn append_chars(dst: &mut Vec<char>, src: &[char])
    ensures
        final(dst)@ == old(dst)@ + src@,
{
    let mut k: usize = 0;
    while k < src.len()
        invariant
            k <= src.len(),
            dst@ == old(dst)@ + src@.take(k as int),
        decreases src.len() - k,
    {
        dst.push(src[k]);
        k += 1;
        assert(dst@ =~= old(dst)@ + src@.take(k as int));
    }
    assert(src@.take(src.len() as int) =~= src@);
}

// ---------------------------------------------------------------------------
// First section
// ---------------------------------------------------------------------------
/// The text up to the second occurrence of `p`, trimmed; the whole text,
/// trimmed, when `p` occurs less than twice.
pub open spec fn spec_cut_at_second_h2(t: Seq<char>, p: Seq<char>) -> Seq<char> {
    match find_from(t, p, 0) {
        None => trim_seq(t),
        Some(f) => match find_from(t, p, f + p.len()) {
            Some(k) => trim_seq(t.take(k)),
            None => trim_seq(t),
        },
    }
}

fn cut_chars_at_second(t: &[char], p: &[char]) -> (r: Vec<char>)
    ensures
        r@ == spec_cut_at_second_h2(t@, p@),
{
    assert(t@.subrange(0, t@.len() as int) =~= t@);
    match find_chars_from(t, p, 0) {
        None => trim_chars(t),
        Some(f) => {
            proof {
                lemma_find_from_props(t@, p@, 0);
            }
            assert(occurs_at(t@, p@, f as int));
            assert(f + p@.len() <= t@.len());
            assert(f + p.len() <= t.len());
            match find_chars_from(t, p, f + p.len()) {
                Some(k) => {
                    proof {
                        lemma_find_from_props(t@, p@, f + p@.len());
                    }
                    let (lo, hi) = trim_bounds(t, 0, k);
                    assert(t@.subrange(0, k as int) =~= t@.take(k as int));
                    sub_vec(t, lo, hi)
                },
                None => trim_chars(t),
            }
        },
    }
}

/// `p` occurs at `i` and again, without overlap, at `j`.
pub open spec fn two_apart(t: Seq<char>, p: Seq<char>, i: int, j: int) -> bool {
    occurs_at(t, p, i) && occurs_at(t, p, j) && i + p.len() <= j
}

/// What cutting at the second heading keeps: the trimmed text before the
/// earliest position where `p` occurs a second time (after a whole earlier
/// occurrence); the whole text, trimmed, when `p` never occurs twice. So the
/// first section is always kept whole.
pub proof fn lemma_cut_at_second(t: Seq<char>, p: Seq<char>)
    requires
        p.len() > 0,
    ensures
        (forall|i: int, j: int| !two_apart(t, p, i, j)) ==> spec_cut_at_second_h2(t, p) == trim_seq(t),
        (exists|i: int, j: int| two_apart(t, p, i, j)) ==> exists|k: int|
            {
                &&& spec_cut_at_second_h2(t, p) == trim_seq(t.take(k))
                &&& exists|i: int| #[trigger] two_apart(t, p, i, k)
                &&& forall|i: int, j: int| #[trigger] two_apart(t, p, i, j) ==> k <= j
            },
{
    lemma_find_from_props(t, p, 0);
    match find_from(t, p, 0) {
        None => {
            assert forall|i: int, j: int| !two_apart(t, p, i, j) by {}
        },
        Some(f) => {
            lemma_find_from_props(t, p, f + p.len());
            match find_from(t, p, f + p.len()) {
                Some(k) => {
                    assert(two_apart(t, p, f, k));
                    assert forall|i: int, j: int| #[trigger] two_apart(t, p, i, j) implies k <= j by {
                        if j < k {
                            assert(f <= i);
                        }
                    }
                },
                None => {
                    assert forall|i: int, j: int| !two_apart(t, p, i, j) by {
                        if two_apart(t, p, i, j) {
                            assert(f <= i);
                        }
                    }
                },
            }
        },
    }
}

/// Keeps the text up to the second occurrence of `h2_prefix`, trimmed.
pub fn cut_at_second_h2(text: &str, h2_prefix: &str) -> (r: String)
    ensures
        r@ == spec_cut_at_second_h2(text@, h2_prefix@),
{
    let t = chars_of(text);
    let p = chars_of(h2_prefix);
    let r = cut_chars_at_second(t.as_slice(), p.as_slice());
    string_of(r.as_slice())
}

/// Markdown release notes reduced to their first `## ` section.
pub open spec fn spec_trim_release_notes_markdown(md: Seq<char>) -> Seq<char> {
    let t = trim_seq(md);
    let h2 = seq!['\n', '#', '#', ' '];
    if starts_with_seq(t, seq!['#', '#', ' ']) {
        spec_cut_at_second_h2(seq!['\n'] + t, h2)
    } else {
        spec_cut_at_second_h2(t, h2)
    }
}

/// A trimmed text is its own trim.
proof fn lemma_trim_trimmed(md: Seq<char>)
    ensures
        trim_seq(trim_seq(md)) == trim_seq(md),
        trim_seq(md).len() > 0 ==> !spec_is_whitespace(trim_seq(md)[0]) && !spec_is_whitespace(
            trim_seq(md).last(),
        ),
{
    let (a, b) = lemma_trim_bounds(md);
    let t = trim_seq(md);
    if a < b {
        assert(t[0] == md[a] && t.last() == md[b - 1]);
    }
    lemma_trim_char(t, 0, t.len() as int);
    assert(t.subrange(0, t.len() as int) =~= t);
}

/// Trimming a text that starts with a line break followed by `##` keeps
/// the `##` at its start.
proof fn lemma_trim_keeps_heading(v: Seq<char>)
    requires
        v.len() >= 3,
        v[0] == '\n',
        v[1] == '#',
        v[2] == '#',
    ensures
        starts_with_seq(trim_seq(v), seq!['#', '#']),
{
    let (a, b) = lemma_trim_bounds(v);
    if a == 0 {
        assert(!spec_is_whitespace(v[0]));
    }
    if a > 1 {
        assert(spec_is_whitespace(v[1]));
    }
    if b <= 2 {
        assert(spec_is_whitespace(v[2]));
    }
    assert(trim_seq(v).take(2) =~= seq!['#', '#']);
}

/// Release notes in which no second heading follows are kept whole, only
/// trimmed; notes that start with a `## ` heading keep that heading at the
/// start.
pub proof fn lemma_release_notes_first_section(md: Seq<char>)
    ensures
        (forall|i: int| !occurs_at(trim_seq(md), seq!['\n', '#', '#', ' '], i)) ==> spec_trim_release_notes_markdown(
            md,
        ) == trim_seq(md),
        starts_with_seq(trim_seq(md), seq!['#', '#', ' ']) ==> starts_with_seq(
            spec_trim_release_notes_markdown(md),
            seq!['#', '#'],
        ),
{
    let t = trim_seq(md);
    let p = seq!['\n', '#', '#', ' '];
    lemma_trim_trimmed(md);
    let u = seq!['\n'] + t;
    lemma_cut_at_second(u, p);
    lemma_cut_at_second(t, p);
    if starts_with_seq(t, seq!['#', '#', ' ']) {
        assert(t[0] == '#' && t[1] == '#');
        if forall|i: int| !occurs_at(t, p, i) {
            assert forall|i: int, j: int| !two_apart(u, p, i, j) by {
                if two_apart(u, p, i, j) {
                    assert(j >= 1);
                    assert(t.subrange(j - 1, j - 1 + 4) =~= u.subrange(j, j + 4));
                    assert(occurs_at(t, p, j - 1));
                }
            }
            lemma_trim_char(u, 1, u.len() as int);
            assert(u.subrange(1, u.len() as int) =~= t);
        }
        let r = spec_cut_at_second_h2(u, p);
        if exists|i: int, j: int| two_apart(u, p, i, j) {
            let k = choose|k: int|
                {
                    &&& spec_cut_at_second_h2(u, p) == trim_seq(u.take(k))
                    &&& exists|i: int| #[trigger] two_apart(u, p, i, k)
                    &&& forall|i: int, j: int| #[trigger] two_apart(u, p, i, j) ==> k <= j
                };
            let i = choose|i: int| #[trigger] two_apart(u, p, i, k);
            assert(k >= 4);
            lemma_trim_keeps_heading(u.take(k));
        } else {
            assert forall|i: int, j: int| !two_apart(u, p, i, j) by {}
            lemma_trim_keeps_heading(u);
        }
    } else {
        if forall|i: int| !occurs_at(t, p, i) {
            assert forall|i: int, j: int| !two_apart(t, p, i, j) by {}
        }
    }
}

/// Keeps the release notes from their start to the next `## ` heading.
pub fn trim_release_notes_markdown(md: &str) -> (r: String)
    ensures
        r@ == spec_trim_release_notes_markdown(md@),
{
    let cs = chars_of(md);
    let t = trim_chars(cs.as_slice());
    let h2 = vec!['\n', '#', '#', ' '];
    let h2_start = vec!['#', '#', ' '];
    assert(h2@ =~= seq!['\n', '#', '#', ' ']);
    assert(h2_start@ =~= seq!['#', '#', ' ']);
    let r = if starts_with(t.as_slice(), h2_start.as_slice()) {
        let mut with_nl: Vec<char> = vec!['\n'];
        append_chars(&mut with_nl, t.as_slice());
        assert(with_nl@ =~= seq!['\n'] + t@);
        cut_chars_at_second(with_nl.as_slice(), h2.as_slice())
    } else {
        cut_chars_at_second(t.as_slice(), h2.as_slice())
    };
    string_of(r.as_slice())
}

// ---------------------------------------------------------------------------
// Tidying lines
// ---------------------------------------------------------------------------
/// The pieces of `s` between `\n` characters (always at least one).
pub open spec fn split_lines(s: Seq<char>) -> Seq<Seq<char>>
    decreases s.len(),
{
    proof {
        lemma_find_from_props(s, seq!['\n'], 0);
    }
    match find_from(s, seq!['\n'], 0) {
        None => seq![s],
        Some(p) => seq![s.take(p)] + split_lines(s.skip(p + 1)),
    }
}

/// Index of the first non-empty line at or after `i` (or the count).
pub open spec fn first_filled(ls: Seq<Seq<char>>, i: int) -> int
    decreases ls.len() - i,
{
    if i < 0 || i >= ls.len() {
        ls.len() as int
    } else if ls[i].len() > 0 {
        i
    } else {
        first_filled(ls, i + 1)
    }
}

/// One past the last non-empty line before `j` (or 0).
pub open spec fn last_filled_end(ls: Seq<Seq<char>>, j: int) -> int
    decreases j,
{
    if j <= 0 || j > ls.len() {
        0
    } else if ls[j - 1].len() > 0 {
        j
    } else {
        last_filled_end(ls, j - 1)
    }
}

/// The lines without the empty ones at the start and at the end.
pub open spec fn drop_blank_ends(ls: Seq<Seq<char>>) -> Seq<Seq<char>> {
    let lo = first_filled(ls, 0);
    let hi = last_filled_end(ls, ls.len() as int);
    if lo < hi {
        ls.subrange(lo, hi)
    } else {
        Seq::empty()
    }
}

/// A lone list marker `-` is joined with the next non-empty line (`- text`);
/// blank lines right after a marker are dropped; a marker at the very end
/// stays as `-`. Every kept line is trimmed.
pub open spec fn merge_markers(ls: Seq<Seq<char>>, i: int, pending: bool) -> Seq<Seq<char>>
    decreases ls.len() - i,
{
    if i < 0 || i >= ls.len() {
        if pending {
            seq![seq!['-']]
        } else {
            Seq::empty()
        }
    } else {
        let t = trim_seq(ls[i]);
        if t == seq!['-'] {
            merge_markers(ls, i + 1, true)
        } else if t.len() == 0 {
            if pending {
                merge_markers(ls, i + 1, true)
            } else {
                seq![Seq::<char>::empty()] + merge_markers(ls, i + 1, false)
            }
        } else if pending {
            seq![seq!['-', ' '] + t] + merge_markers(ls, i + 1, false)
        } else {
            seq![t] + merge_markers(ls, i + 1, false)
        }
    }
}

/// Lines joined with `\n` after each, runs of blank lines reduced to one.
pub open spec fn render_lines(ms: Seq<Seq<char>>, i: int, blank: int) -> Seq<char>
    decreases ms.len() - i,
{
    if i < 0 || i >= ms.len() {
        Seq::empty()
    } else if ms[i].len() == 0 {
        (if blank + 1 <= 1 {
            seq!['\n']
        } else {
            Seq::empty()
        }) + render_lines(ms, i + 1, blank + 1)
    } else {
        ms[i] + seq!['\n'] + render_lines(ms, i + 1, 0)
    }
}

/// A text block with trailing spaces removed from every line, blank lines at
/// both ends dropped, runs of blank lines collapsed to one, dangling list
/// markers joined with their content, and no trailing white space.
pub open spec fn spec_normalize_text_block(text: Seq<char>) -> Seq<char> {
    let lines = split_lines(text).map_values(|l: Seq<char>| trim_end_seq(l));
    trim_end_seq(render_lines(merge_markers(drop_blank_ends(lines), 0, false), 0, 0))
}

pub open spec fn views(ls: Seq<Vec<char>>) -> Seq<Seq<char>> {
    ls.map_values(|v: Vec<char>| v@)
}

proof fn lemma_views_push(ls: Seq<Vec<char>>, v: Vec<char>)
    ensures
        views(ls.push(v)) == views(ls).push(v@),
{
    assert(views(ls.push(v)) =~= views(ls).push(v@));
}

/// Splits at `\n` characters and trims the end of every piece.
fn split_trimmed_lines(cs: &[char]) -> (r: Vec<Vec<char>>)
    ensures
        views(r@) == split_lines(cs@).map_values(|l: Seq<char>| trim_end_seq(l)),
{
    let ghost target = split_lines(cs@).map_values(|l: Seq<char>| trim_end_seq(l));
    let mut out: Vec<Vec<char>> = Vec::new();
    let mut start: usize = 0;
    let mut i: usize = 0;
    assert(cs@.skip(0) =~= cs@);
    assert(views(out@) + target =~= target);
    while i < cs.len()
        invariant
            start <= i <= cs.len(),
            forall|k: int| start <= k < i ==> cs@[k] != '\n',
            views(out@) + split_lines(cs@.skip(start as int)).map_values(
                |l: Seq<char>| trim_end_seq(l),
            ) == target,
        decreases cs.len() - i,
    {
        if cs[i] == '\n' {
            let ghost rest = cs@.skip(start as int);
            proof {
                assert(occurs_at(rest, seq!['\n'], i - start)) by {
                    assert(rest.subrange(i - start, i - start + 1) =~= seq!['\n']);
                }
                assert forall|k: int| 0 <= k < i - start implies !occurs_at(rest, seq!['\n'], k) by {
                    assert(rest.subrange(k, k + 1)[0] == cs@[start + k]);
                }
                crate::text::lemma_find_from_first(rest, seq!['\n'], 0, i - start);
                assert(rest.take(i - start) =~= cs@.subrange(start as int, i as int));
                assert(rest.skip(i - start + 1) =~= cs@.skip(i + 1));
            }
            let hi = skip_ws_backward(cs, start, i);
            let line = sub_vec(cs, start, hi);
            proof {
                assert(line@ == trim_end_seq(cs@.subrange(start as int, i as int)));
                lemma_views_push(out@, line);
                let tail = split_lines(cs@.skip(i + 1)).map_values(|l: Seq<char>| trim_end_seq(l));
                assert(split_lines(rest).map_values(|l: Seq<char>| trim_end_seq(l)) =~= seq![
                    line@,
                ] + tail);
                assert(views(out@) + (seq![line@] + tail) =~= views(out@).push(line@) + tail);
            }
            out.push(line);
            start = i + 1;
        }
        i += 1;
    }
    proof {
        let rest = cs@.skip(start as int);
        assert forall|k: int| 0 <= k implies !occurs_at(rest, seq!['\n'], k) by {
            if 0 <= k < rest.len() {
                assert(rest.subrange(k, k + 1)[0] == cs@[start + k]);
            }
        }
        crate::text::lemma_find_from_none(rest, seq!['\n'], 0);
        assert(rest =~= cs@.subrange(start as int, cs@.len() as int));
    }
    let hi = skip_ws_backward(cs, start, cs.len());
    let line = sub_vec(cs, start, hi);
    proof {
        lemma_views_push(out@, line);
        let rest = cs@.skip(start as int);
        assert(line@ == trim_end_seq(cs@.subrange(start as int, cs@.len() as int)));
        assert(split_lines(rest) == seq![rest]);
        assert(split_lines(rest).map_values(|l: Seq<char>| trim_end_seq(l)) =~= seq![line@]);
        assert(views(out@) + seq![line@] =~= views(out@).push(line@));
    }
    out.push(line);
    out
}

/// Removes surrounding blank lines, merges dangling `-` markers with their
/// content, collapses runs of blank lines and trims every line's end.
pub fn normalize_text_block(text: &str) -> (r: String)
    ensures
        r@ == spec_normalize_text_block(text@),
{
    let cs = chars_of(text);
    let lines = split_trimmed_lines(cs.as_slice());
    let ghost ls = views(lines@);
    // blank lines at both ends
    let mut lo: usize = 0;
    while lo < lines.len() && lines[lo].len() == 0
        invariant
            ls == views(lines@),
            lo <= lines.len(),
            first_filled(ls, 0) == first_filled(ls, lo as int),
        decreases lines.len() - lo,
    {
        assert(ls[lo as int] == lines@[lo as int]@);
        lo += 1;
    }
    assert(lo < lines.len() ==> ls[lo as int] == lines@[lo as int]@);
    let mut hi: usize = lines.len();
    while hi > 0 && lines[hi - 1].len() == 0
        invariant
            ls == views(lines@),
            hi <= lines.len(),
            last_filled_end(ls, ls.len() as int) == last_filled_end(ls, hi as int),
        decreases hi,
    {
        assert(ls[hi - 1] == lines@[hi - 1]@);
        hi -= 1;
    }
    assert(hi > 0 ==> ls[hi - 1] == lines@[hi - 1]@);
    let ghost core = drop_blank_ends(ls);
    let (from, to) = if lo < hi { (lo, hi) } else { (0, 0) };
    assert(core =~= ls.subrange(from as int, to as int));
    // list markers
    let mut merged: Vec<Vec<char>> = Vec::new();
    let mut pending = false;
    let mut i = from;
    while i < to
        invariant
            ls == views(lines@),
            from <= i <= to <= lines.len(),
            core == ls.subrange(from as int, to as int),
            views(merged@) + merge_markers(core, i - from, pending) == merge_markers(core, 0, false),
        decreases to - i,
    {
        assert(core[i - from] == lines@[i as int]@);
        let t = trim_chars(lines[i].as_slice());
        let ghost before = views(merged@);
        if t.len() == 1 && t[0] == '-' {
            assert(t@ =~= seq!['-']);
            pending = true;
        } else {
            assert(t@ != seq!['-']);
            if t.len() == 0 {
                if !pending {
                    let e: Vec<char> = Vec::new();
                    proof {
                        lemma_views_push(merged@, e);
                    }
                    merged.push(e);
                    assert(before + (seq![Seq::<char>::empty()] + merge_markers(core, i + 1 - from, false))
                        =~= views(merged@) + merge_markers(core, i + 1 - from, false));
                }
            } else if pending {
                let mut line: Vec<char> = vec!['-', ' '];
                append_chars(&mut line, t.as_slice());
                assert(line@ =~= seq!['-', ' '] + t@);
                proof {
                    lemma_views_push(merged@, line);
                }
                merged.push(line);
                assert(before + (seq![seq!['-', ' '] + t@] + merge_markers(core, i + 1 - from, false))
                    =~= views(merged@) + merge_markers(core, i + 1 - from, false));
                pending = false;
            } else {
                proof {
                    lemma_views_push(merged@, t);
                }
                let ghost tv = t@;
                merged.push(t);
                assert(before + (seq![tv] + merge_markers(core, i + 1 - from, false))
                    =~= views(merged@) + merge_markers(core, i + 1 - from, false));
            }
        }
        i += 1;
    }
    if pending {
        let dash = vec!['-'];
        assert(dash@ =~= seq!['-']);
        let ghost before = views(merged@);
        proof {
            lemma_views_push(merged@, dash);
        }
        merged.push(dash);
        assert(before + seq![seq!['-']] =~= views(merged@));
    } else {
        assert(views(merged@) + Seq::<Seq<char>>::empty() =~= views(merged@));
    }
    // rendering
    let ghost ms = views(merged@);
    let mut out: Vec<char> = Vec::new();
    let mut blank: usize = 0;
    let mut j: usize = 0;
    while j < merged.len()
        invariant
            ms == views(merged@),
            j <= merged.len(),
            blank <= j,
            out@ + render_lines(ms, j as int, blank as int) == render_lines(ms, 0, 0),
        decreases merged.len() - j,
    {
        assert(ms[j as int] == merged@[j as int]@);
        let ghost before = out@;
        if merged[j].len() == 0 {
            blank += 1;
            if blank <= 1 {
                out.push('\n');
                assert(before + (seq!['\n'] + render_lines(ms, j + 1, blank as int)) =~= out@
                    + render_lines(ms, j + 1, blank as int));
            } else {
                assert(before + (Seq::<char>::empty() + render_lines(ms, j + 1, blank as int))
                    =~= out@ + render_lines(ms, j + 1, blank as int));
            }
        } else {
            blank = 0;
            append_chars(&mut out, merged[j].as_slice());
            out.push('\n');
            assert(before + (ms[j as int] + seq!['\n'] + render_lines(ms, j + 1, 0)) =~= out@
                + render_lines(ms, j + 1, 0));
        }
        j += 1;
    }
    assert(out@ + Seq::<char>::empty() =~= out@);
    let end = skip_ws_backward(out.as_slice(), 0, out.len());
    assert(out@.subrange(0, out@.len() as int) =~= out@);
    string_of_range(out.as_slice(), 0, end)
}

// ---------------------------------------------------------------------------
// Release HTML
// ---------------------------------------------------------------------------
/// `s` with every leading `/` removed.
pub open spec fn skip_slashes(s: Seq<char>) -> Seq<char>
    decreases s.len(),
{
    if s.len() > 0 && s[0] == '/' {
        skip_slashes(s.skip(1))
    } else {
        s
    }
}

/// Number of leading characters that are not white space.
pub open spec fn word_len(s: Seq<char>) -> nat
    decreases s.len(),
{
    if s.len() > 0 && !spec_is_whitespace(s[0]) {
        1 + word_len(s.drop_first())
    } else {
        0
    }
}

/// The first white-space separated word of `s` (empty if there is none).
pub open spec fn first_word(s: Seq<char>) -> Seq<char> {
    let rest = s.skip(lead_ws(s) as int);
    rest.take(word_len(rest) as int)
}

/// Lower-case name of the element in a tag's source text (`/h2 class=x` is
/// `h2`).
pub open spec fn tag_name(src: Seq<char>) -> Seq<char> {
    spec_ascii_lower_seq(first_word(skip_slashes(trim_seq(src))))
}

/// What a tag turns into: headings and list items start Markdown lines,
/// `code` becomes a backtick, line breaks and block elements a line break,
/// anything else nothing.
pub open spec fn tag_replacement(src: Seq<char>) -> Seq<char> {
    let name = tag_name(src);
    let close = src.len() > 0 && src[0] == '/';
    if name == seq!['h', '2'] && !close {
        seq!['\n', '\n', '#', '#', ' ']
    } else if name == seq!['h', '3'] && !close {
        seq!['\n', '\n', '#', '#', '#', ' ']
    } else if name == seq!['h', '4'] && !close {
        seq!['\n', '\n', '#', '#', '#', '#', ' ']
    } else if name == seq!['l', 'i'] && !close {
        seq!['\n', '-', ' ']
    } else if name == seq!['c', 'o', 'd', 'e'] {
        seq!['`']
    } else if name == seq!['b', 'r'] || name == seq!['p'] || name == seq!['d', 'i', 'v'] || name
        == seq!['u', 'l'] || name == seq!['o', 'l'] || name == seq!['t', 'a', 'b', 'l', 'e']
        || name == seq!['t', 'r'] || name == seq!['b', 'l', 'o', 'c', 'k', 'q', 'u', 'o', 't', 'e']
        || name == seq!['p', 'r', 'e'] || name == seq!['s', 'e', 'c', 't', 'i', 'o', 'n'] {
        seq!['\n']
    } else {
        Seq::empty()
    }
}

/// The text from position `i` on with every `<...>` tag replaced. When a `<`
/// has no closing `>`, the text before it is emitted twice, followed by the
/// rest.
pub open spec fn strip_tags(cs: Seq<char>, i: int) -> Seq<char>
    decreases cs.len() - i,
{
    if i < 0 || i > cs.len() {
        Seq::empty()
    } else {
        proof {
            lemma_find_from_props(cs, seq!['<'], i);
        }
        match find_from(cs, seq!['<'], i) {
            None => cs.subrange(i, cs.len() as int),
            Some(lt) => {
                proof {
                    lemma_find_from_props(cs, seq!['>'], lt);
                }
                match find_from(cs, seq!['>'], lt) {
                    None => cs.subrange(i, lt) + cs.subrange(i, cs.len() as int),
                    Some(gt) => cs.subrange(i, lt) + tag_replacement(cs.subrange(lt + 1, gt))
                        + strip_tags(cs, gt + 1),
                }
            },
        }
    }
}

/// The release HTML up to its second `<h2`.
pub open spec fn first_h2_section(html: Seq<char>) -> Seq<char> {
    let h2 = seq!['<', 'h', '2'];
    match find_from(html, h2, 0) {
        None => html,
        Some(i) => match find_from(html, h2, i + 3) {
            Some(k) => html.take(k),
            None => html,
        },
    }
}

pub open spec fn spec_html_release_body_to_text(html: Seq<char>) -> Seq<char> {
    spec_normalize_text_block(strip_tags(first_h2_section(html), 0))
}

fn skip_slashes_exec(v: &[char], from: usize, to: usize) -> (r: usize)
    requires
        from <= to <= v.len(),
    ensures
        from <= r <= to,
        skip_slashes(v@.subrange(from as int, to as int)) == v@.subrange(r as int, to as int),
{
    let mut k = from;
    while k < to && v[k] == '/'
        invariant
            from <= k <= to <= v.len(),
            skip_slashes(v@.subrange(from as int, to as int)) == skip_slashes(
                v@.subrange(k as int, to as int),
            ),
        decreases to - k,
    {
        assert(v@.subrange(k as int, to as int).skip(1) =~= v@.subrange(k + 1, to as int));
        k += 1;
    }
    k
}

fn word_end(v: &[char], from: usize, to: usize) -> (r: usize)
    requires
        from <= to <= v.len(),
    ensures
        from <= r <= to,
        r - from == word_len(v@.subrange(from as int, to as int)),
{
    let mut k = from;
    while k < to && !is_whitespace(v[k])
        invariant
            from <= k <= to <= v.len(),
            word_len(v@.subrange(from as int, to as int)) == (k - from) + word_len(
                v@.subrange(k as int, to as int),
            ),
        decreases to - k,
    {
        assert(v@.subrange(k as int, to as int).drop_first() =~= v@.subrange(k + 1, to as int));
        k += 1;
    }
    k
}

fn is_name(name: &Vec<char>, lit: &[char]) -> (r: bool)
    ensures
        r == (name@ == lit@),
{
    seq_eq(name.as_slice(), lit)
}

/// The replacement of the tag whose source is `v[from..to]`.
fn tag_replacement_exec(v: &[char], from: usize, to: usize) -> (r: Vec<char>)
    requires
        from <= to <= v.len(),
    ensures
        r@ == tag_replacement(v@.subrange(from as int, to as int)),
{
    let ghost src = v@.subrange(from as int, to as int);
    let (lo, hi) = trim_bounds(v, from, to);
    let s = skip_slashes_exec(v, lo, hi);
    let w0 = crate::text::skip_ws_forward(v, s, hi);
    let w1 = word_end(v, w0, hi);
    proof {
        let t = v@.subrange(s as int, hi as int);
        assert(t.skip(lead_ws(t) as int) =~= v@.subrange(w0 as int, hi as int));
        assert(v@.subrange(w0 as int, hi as int).take(word_len(v@.subrange(w0 as int, hi as int)) as int)
            =~= v@.subrange(w0 as int, w1 as int));
    }
    let word = sub_vec(v, w0, w1);
    let name = ascii_lower_chars(word.as_slice());
    let close = from < to && v[from] == '/';
    assert(close == (src.len() > 0 && src[0] == '/'));
    if is_name(&name, &['h', '2']) && !close {
        assert(['h', '2']@ =~= seq!['h', '2']);
        return vec!['\n', '\n', '#', '#', ' '];
    }
    assert(['h', '2']@ =~= seq!['h', '2']);
    assert(['h', '3']@ =~= seq!['h', '3']);
    assert(['h', '4']@ =~= seq!['h', '4']);
    assert(['l', 'i']@ =~= seq!['l', 'i']);
    assert(['c', 'o', 'd', 'e']@ =~= seq!['c', 'o', 'd', 'e']);
    if is_name(&name, &['h', '3']) && !close {
        return vec!['\n', '\n', '#', '#', '#', ' '];
    }
    if is_name(&name, &['h', '4']) && !close {
        return vec!['\n', '\n', '#', '#', '#', '#', ' '];
    }
    if is_name(&name, &['l', 'i']) && !close {
        return vec!['\n', '-', ' '];
    }
    if is_name(&name, &['c', 'o', 'd', 'e']) {
        return vec!['`'];
    }
    assert(['b', 'r']@ =~= seq!['b', 'r']);
    assert(['p']@ =~= seq!['p']);
    assert(['d', 'i', 'v']@ =~= seq!['d', 'i', 'v']);
    assert(['u', 'l']@ =~= seq!['u', 'l']);
    assert(['o', 'l']@ =~= seq!['o', 'l']);
    assert(['t', 'a', 'b', 'l', 'e']@ =~= seq!['t', 'a', 'b', 'l', 'e']);
    assert(['t', 'r']@ =~= seq!['t', 'r']);
    assert(['b', 'l', 'o', 'c', 'k', 'q', 'u', 'o', 't', 'e']@ =~= seq![
        'b',
        'l',
        'o',
        'c',
        'k',
        'q',
        'u',
        'o',
        't',
        'e',
    ]);
    assert(['p', 'r', 'e']@ =~= seq!['p', 'r', 'e']);
    assert(['s', 'e', 'c', 't', 'i', 'o', 'n']@ =~= seq!['s', 'e', 'c', 't', 'i', 'o', 'n']);
    if is_name(&name, &['b', 'r']) || is_name(&name, &['p']) || is_name(&name, &['d', 'i', 'v'])
        || is_name(&name, &['u', 'l']) || is_name(&name, &['o', 'l']) || is_name(
        &name,
        &['t', 'a', 'b', 'l', 'e'],
    ) || is_name(&name, &['t', 'r']) || is_name(
        &name,
        &['b', 'l', 'o', 'c', 'k', 'q', 'u', 'o', 't', 'e'],
    ) || is_name(&name, &['p', 'r', 'e']) || is_name(&name, &['s', 'e', 'c', 't', 'i', 'o', 'n']) {
        return vec!['\n'];
    }
    Vec::new()
}

/// Turns release HTML into readable text: `h2`/`h3`/`h4` become Markdown
/// headings, `li` becomes `- `, `code` a backtick, other tags are dropped
/// with line breaks after block elements; everything from the second `<h2`
/// on is cut off, and the result is tidied like `normalize_text_block`.
pub fn html_release_body_to_text(html: &str) -> (r: String)
    ensures
        r@ == spec_html_release_body_to_text(html@),
{
    let all = chars_of(html);
    let h2 = vec!['<', 'h', '2'];
    assert(h2@ =~= seq!['<', 'h', '2']);
    let end = match find_chars_from(all.as_slice(), h2.as_slice(), 0) {
        None => all.len(),
        Some(i) => {
            proof {
                lemma_find_from_props(all@, h2@, 0);
            }
            assert(occurs_at(all@, h2@, i as int));
            assert(i + 3 <= all@.len());
            assert(all@.len() == all.len());
            let from2: usize = i + 3;
            match find_chars_from(all.as_slice(), h2.as_slice(), from2) {
                Some(k) => {
                    proof {
                        lemma_find_from_props(all@, h2@, i + 3);
                    }
                    k
                },
                None => all.len(),
            }
        },
    };
    let cs = sub_vec(all.as_slice(), 0, end);
    assert(cs@ =~= first_h2_section(all@));
    let ghost target = strip_tags(cs@, 0);
    let mut out: Vec<char> = Vec::new();
    let mut i: usize = 0;
    loop
        invariant_except_break
            i <= cs.len(),
            target == strip_tags(cs@, 0),
            out@ + strip_tags(cs@, i as int) == target,
        ensures
            out@ == target,
        decreases cs.len() - i,
    {
        proof {
            lemma_find_from_props(cs@, seq!['<'], i as int);
        }
        match crate::text::find_char_from(cs.as_slice(), '<', i) {
            None => {
                let ghost before = out@;
                let rest = sub_vec(cs.as_slice(), i, cs.len());
                append_chars(&mut out, rest.as_slice());
                assert(out@ =~= before + strip_tags(cs@, i as int));
                break;
            },
            Some(lt) => {
                proof {
                    lemma_find_from_props(cs@, seq!['>'], lt as int);
                }
                assert(occurs_at(cs@, seq!['<'], lt as int));
                assert(cs@.subrange(lt as int, lt + 1)[0] == cs@[lt as int]);
                let ghost before = out@;
                let head = sub_vec(cs.as_slice(), i, lt);
                append_chars(&mut out, head.as_slice());
                match crate::text::find_char_from(cs.as_slice(), '>', lt) {
                    None => {
                        let rest = sub_vec(cs.as_slice(), i, cs.len());
                        append_chars(&mut out, rest.as_slice());
                        assert(out@ =~= before + strip_tags(cs@, i as int));
                        break;
                    },
                    Some(gt) => {
                        assert(occurs_at(cs@, seq!['>'], gt as int));
                        assert(cs@.subrange(gt as int, gt + 1)[0] == cs@[gt as int]);
                        assert(gt != lt);
                        let rep = tag_replacement_exec(cs.as_slice(), lt + 1, gt);
                        append_chars(&mut out, rep.as_slice());
                        assert(before + (head@ + rep@ + strip_tags(cs@, gt + 1)) =~= out@
                            + strip_tags(cs@, gt + 1));
                        i = gt + 1;
                    },
                }
            },
        }
    }
    let text = string_of(out.as_slice());
    normalize_text_block(text.as_str())
}

} // verus!
