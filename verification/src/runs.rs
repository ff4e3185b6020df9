//! Text runs of imported paragraphs: `{{role:body}}` tags inside runs,
//! trimming a paragraph's runs, and choosing between handwriting and the
//! printed template.

use vstd::prelude::*;
use crate::text::{
    chars_of, string_of, string_of_range, trim_seq, trim_bounds, find_from, find_chars_from,
    lemma_find_from_props, starts_with_seq, starts_with, occurs_at, lead_ws, trail_ws,
    skip_ws_forward, skip_ws_backward, push_str, push_chars, trim_start_seq, trim_end_seq,
    lemma_lead_ws_bounds, lemma_trail_ws_bounds,
};
use crate::html::{parse_u32_radix, digits_in_radix, digit_value};
use crate::styles::{TextRunStyle, TextRun, StyleRegistry, register};
use crate::notes::sub_vec;
use crate::models::Align;
use crate::text::str_eq;

verus! {

// ---------------------------------------------------------------------------
// Decimal numbers
// ---------------------------------------------------------------------------
proof fn lemma_digits_grow(s: Seq<char>, k: int)
    requires
        0 <= k <= s.len(),
        digits_in_radix(s, 10) is Some,
    ensures
        digits_in_radix(s.take(k), 10) is Some,
        digits_in_radix(s.take(k), 10).unwrap() <= digits_in_radix(s, 10).unwrap(),
        digits_in_radix(s.take(k), 10).unwrap() >= 0,
    decreases s.len() - k,
{
    if k < s.len() {
        assert(s.drop_last().take(k) =~= s.take(k));
        lemma_digits_nonneg(s.drop_last());
        lemma_digits_grow(s.drop_last(), k);
    } else {
        assert(s.take(k) =~= s);
        lemma_digits_nonneg(s);
    }
}

proof fn lemma_digits_nonneg(s: Seq<char>)
    requires
        digits_in_radix(s, 10) is Some,
    ensures
        digits_in_radix(s, 10).unwrap() >= 0,
    decreases s.len(),
{
    if s.len() > 0 {
        lemma_digits_nonneg(s.drop_last());
    }
}

/// `str::parse::<u32>` on `s[from..to]`: an optional `+`, then digits only,
/// value at most `u32::MAX`.
#[verifier::loop_isolation(false)]
pub fn parse_u32_decimal(s: &[char], from: usize, to: usize) -> (r: Option<u32>)
    requires
        from <= to <= s.len(),
    ensures
        match parse_u32_radix(s@.subrange(from as int, to as int), 10) {
            Some(v) => r matches Some(x) && x as int == v,
            None => r is None,
        },
{
    let ghost whole = s@.subrange(from as int, to as int);
    let start = if from < to && s[from] == '+' { from + 1 } else { from };
    let ghost body = s@.subrange(start as int, to as int);
    assert(whole.len() > 0 && whole[0] == '+' ==> whole.skip(1) =~= body);
    assert(!(whole.len() > 0 && whole[0] == '+') ==> whole =~= body);
    if start == to {
        return None;
    }
    // value of the digits so far, capped just above u32::MAX
    let mut acc: u64 = 0;
    let mut k = start;
    assert(body.take(0) =~= Seq::<char>::empty());
    while k < to
        invariant
            start <= k <= to <= s.len(),
            body == s@.subrange(start as int, to as int),
            digits_in_radix(body.take(k - start), 10) is Some,
            ({
                let v = digits_in_radix(body.take(k - start), 10).unwrap();
                &&& v >= 0
                &&& (v <= u32::MAX ==> acc as int == v)
                &&& (v > u32::MAX ==> acc == 0x1_0000_0000)
            }),
        decreases to - k,
    {
        let c = s[k];
        let ghost pre = body.take(k - start);
        let ghost next = body.take(k + 1 - start);
        assert(next.drop_last() =~= pre);
        assert(next.last() == c);
        if !('0' <= c && c <= '9') {
            proof {
                assert(digits_in_radix(next, 10) is None);
                lemma_digits_none_extends(body, k + 1 - start);
            }
            return None;
        }
        let d = (c as u32 - 0x30) as u64;
        if acc < 0x1_0000_0000 {
            let v = acc * 10 + d;
            acc = if v > 0xFFFF_FFFF { 0x1_0000_0000 } else { v };
        }
        k += 1;
    }
    assert(body.take(to - start) =~= body);
    if acc > 0xFFFF_FFFF {
        None
    } else {
        Some(acc as u32)
    }
}

/// `str::parse::<u32>` on a whole string.
pub fn parse_u32_str(s: &str) -> (r: Option<u32>)
    ensures
        match parse_u32_radix(s@, 10) {
            Some(v) => r matches Some(x) && x as int == v,
            None => r is None,
        },
{
    let cs = chars_of(s);
    assert(cs@.subrange(0, cs@.len() as int) =~= s@);
    parse_u32_decimal(cs.as_slice(), 0, cs.len())
}

/// `str::parse::<i32>`: an optional sign, then digits only, within the
/// range of `i32`.
pub open spec fn spec_parse_i32(s: Seq<char>) -> Option<int> {
    if s.len() > 0 && s[0] == '-' {
        if s.len() > 1 && s[1] == '+' {
            None
        } else {
            match parse_u32_radix(s.skip(1), 10) {
                Some(v) => if v <= 0x8000_0000 {
                    Some(-v)
                } else {
                    None
                },
                None => None,
            }
        }
    } else {
        match parse_u32_radix(s, 10) {
            Some(v) => if v <= i32::MAX {
                Some(v)
            } else {
                None
            },
            None => None,
        }
    }
}

/// `str::parse::<i32>` on a whole string.
pub fn parse_i32_str(s: &str) -> (r: Option<i32>)
    ensures
        match spec_parse_i32(s@) {
            Some(v) => r matches Some(x) && x as int == v,
            None => r is None,
        },
{
    let cs = chars_of(s);
    let n = cs.len();
    if n > 0 && cs[0] == '-' {
        if n > 1 && cs[1] == '+' {
            return None;
        }
        assert(cs@.subrange(1, n as int) =~= s@.skip(1));
        match parse_u32_decimal(cs.as_slice(), 1, n) {
            Some(v) => {
                if v <= 0x8000_0000 {
                    if v == 0x8000_0000 {
                        Some(i32::MIN)
                    } else {
                        Some(-(v as i32))
                    }
                } else {
                    None
                }
            },
            None => None,
        }
    } else {
        assert(cs@.subrange(0, n as int) =~= s@);
        match parse_u32_decimal(cs.as_slice(), 0, n) {
            Some(v) => {
                if v <= 0x7FFF_FFFF {
                    Some(v as i32)
                } else {
                    None
                }
            },
            None => None,
        }
    }
}

proof fn lemma_digits_none_extends(s: Seq<char>, k: int)
    requires
        0 <= k <= s.len(),
        digits_in_radix(s.take(k), 10) is None,
    ensures
        digits_in_radix(s, 10) is None,
    decreases s.len() - k,
{
    if k < s.len() {
        assert(s.take(k + 1).drop_last() =~= s.take(k));
        assert(digits_in_radix(s.take(k + 1), 10) is None);
        lemma_digits_none_extends(s, k + 1);
    } else {
        assert(s.take(k) =~= s);
    }
}

// ---------------------------------------------------------------------------
// Tag styles
// ---------------------------------------------------------------------------
/// The separator of a tag: first ASCII colon, else first full-width colon.
pub open spec fn tag_colon(s: Seq<char>) -> Option<int> {
    match find_from(s, seq![':'], 0) {
        Some(p) => Some(p),
        None => find_from(s, seq!['：'], 0),
    }
}

/// The role and printed flag a tag prefix asks for (`None` for a prefix
/// that needs a registered role): `手写` is role 2, `手写N` role N+1 (2 for
/// N ≤ 1 or no number), `打印...` the printed role 1, a number N role N.
pub open spec fn prefix_role(prefix: Seq<char>) -> Option<(int, bool)> {
    if prefix == "手写"@ {
        Some((2, false))
    } else if starts_with_seq(prefix, "手写"@) {
        match parse_u32_radix(prefix.skip(2), 10) {
            Some(n) => Some((if n <= 1 { 2 } else { n + 1 }, false)),
            None => Some((2, false)),
        }
    } else if starts_with_seq(prefix, "打印"@) {
        Some((1, true))
    } else {
        match parse_u32_radix(prefix, 10) {
            Some(n) => Some((n, false)),
            None => None,
        }
    }
}

/// A tag's body, role and printed flag, and the registry keys after it:
/// with a prefix before the colon, the prefix decides the role (unknown
/// prefixes get the role registered for `tag:<prefix>`); without one the
/// whole text is handwritten in role 2.
pub open spec fn tag_style(content: Seq<char>, keys: Seq<Seq<char>>) -> (
    Seq<char>,
    int,
    bool,
    Seq<Seq<char>>,
) {
    match tag_colon(content) {
        Some(pos) => {
            let prefix = trim_seq(content.take(pos));
            let body = content.skip(pos + 1);
            match prefix_role(prefix) {
                Some((role, printed)) => (body, role, printed, keys),
                None => {
                    let reg = register(keys, "tag:"@ + prefix);
                    (body, reg.1, false, reg.0)
                },
            }
        },
        None => (content, 2, false, keys),
    }
}

/// `手写N` with N = u32::MAX asks for a role past the last one.
pub open spec fn tag_role_in_range(content: Seq<char>) -> bool {
    match tag_colon(content) {
        Some(pos) => {
            let prefix = trim_seq(content.take(pos));
            !(prefix != "手写"@ && starts_with_seq(prefix, "手写"@) && parse_u32_radix(
                prefix.skip(2),
                10,
            ) == Some(u32::MAX as int))
        },
        None => true,
    }
}

/// The style a tag gives: the parent style with the tag's role and flag.
pub open spec fn styled(parent: TextRunStyle, role: int, printed: bool) -> TextRunStyle {
    TextRunStyle { role_id: role as u32, printed, ..parent }
}

/// Reads the role prefix of a `{{...}}` tag's content; returns the tag body
/// and the style for it.
pub fn parse_tag_style(
    tag_content: &str,
    parent_style: &TextRunStyle,
    registry: &mut StyleRegistry,
) -> (r: (String, TextRunStyle))
    requires
        old(registry).wf(),
        old(registry).keys().len() + 3 <= u32::MAX,
        tag_role_in_range(tag_content@),
    ensures
        final(registry).wf(),
        ({
            let t = tag_style(tag_content@, old(registry).keys());
            &&& r.0@ == t.0
            &&& r.1 == styled(*parent_style, t.1, t.2)
            &&& final(registry).keys() == t.3
        }),
{
    let cs = chars_of(tag_content);
    let mut style = parent_style.duplicate();
    let pos = match crate::text::find_char_from(cs.as_slice(), ':', 0) {
        Some(p) => Some(p),
        None => crate::text::find_char_from(cs.as_slice(), '：', 0),
    };
    match pos {
        Some(p) => {
            proof {
                if find_from(cs@, seq![':'], 0) is Some {
                    lemma_find_from_props(cs@, seq![':'], 0);
                } else {
                    lemma_find_from_props(cs@, seq!['：'], 0);
                }
            }
            assert(p + 1 <= cs@.len());
            let (lo, hi) = trim_bounds(cs.as_slice(), 0, p);
            assert(cs@.subrange(0, p as int) =~= cs@.take(p as int));
            let prefix = sub_vec(cs.as_slice(), lo, hi);
            let body = string_of_range(cs.as_slice(), p + 1, cs.len());
            assert(body@ =~= cs@.skip(p + 1));
            let hand = chars_of("手写");
            let print = chars_of("打印");
            proof {
                reveal_strlit("手写");
                reveal_strlit("打印");
            }
            if crate::text::seq_eq(prefix.as_slice(), hand.as_slice()) {
                style.role_id = 2;
                style.printed = false;
            } else if starts_with(prefix.as_slice(), hand.as_slice()) {
                assert(prefix@.skip(2) =~= prefix@.subrange(2, prefix@.len() as int));
                let role_id = match parse_u32_decimal(prefix.as_slice(), 2, prefix.len()) {
                    Some(n) => if n <= 1 {
                        2
                    } else {
                        n + 1
                    },
                    None => 2,
                };
                style.role_id = role_id;
                style.printed = false;
            } else if starts_with(prefix.as_slice(), print.as_slice()) {
                style.role_id = 1;
                style.printed = true;
            } else {
                assert(prefix@ =~= prefix@.subrange(0, prefix@.len() as int));
                match parse_u32_decimal(prefix.as_slice(), 0, prefix.len()) {
                    Some(n) => {
                        style.role_id = n;
                        style.printed = false;
                    },
                    None => {
                        let mut key = String::new();
                        push_str(&mut key, "tag:");
                        push_chars(&mut key, prefix.as_slice());
                        let role_id = registry.get_or_register(key.as_str());
                        style.role_id = role_id;
                        style.printed = false;
                    },
                }
            }
            (body, style)
        },
        None => {
            style.role_id = 2;
            style.printed = false;
            (string_of(cs.as_slice()), style)
        },
    }
}

// ---------------------------------------------------------------------------
// Splitting runs at tags
// ---------------------------------------------------------------------------
pub open spec fn run_view(r: TextRun) -> (Seq<char>, TextRunStyle) {
    (r.text@, r.style)
}

pub open spec fn runs_view(v: Seq<TextRun>) -> Seq<(Seq<char>, TextRunStyle)> {
    v.map_values(|r: TextRun| run_view(r))
}

/// The text from `cursor` on as one more run (nothing when empty).
pub open spec fn tail_run(text: Seq<char>, cursor: int, parent: TextRunStyle) -> Seq<
    (Seq<char>, TextRunStyle),
> {
    if cursor < text.len() {
        seq![(text.subrange(cursor, text.len() as int), parent)]
    } else {
        Seq::empty()
    }
}

/// The runs a run's text splits into from `cursor` on: plain text keeps the
/// run's style, each closed `{{...}}` tag becomes a run in the tag's style
/// (empty bodies are dropped); also the registry keys afterwards.
pub open spec fn split_from(
    text: Seq<char>,
    cursor: int,
    parent: TextRunStyle,
    keys: Seq<Seq<char>>,
) -> (Seq<(Seq<char>, TextRunStyle)>, Seq<Seq<char>>)
    decreases text.len() - cursor,
{
    if cursor < 0 || cursor > text.len() {
        (Seq::empty(), keys)
    } else {
        proof {
            lemma_find_from_props(text, seq!['{', '{'], cursor);
        }
        match find_from(text, seq!['{', '{'], cursor) {
            None => (tail_run(text, cursor, parent), keys),
            Some(ts) => {
                proof {
                    lemma_find_from_props(text, seq!['}', '}'], ts + 2);
                }
                match find_from(text, seq!['}', '}'], ts + 2) {
                    None => (tail_run(text, cursor, parent), keys),
                    Some(ce) => {
                        let pre = if ts > cursor {
                            seq![(text.subrange(cursor, ts), parent)]
                        } else {
                            Seq::empty()
                        };
                        let t = tag_style(text.subrange(ts + 2, ce), keys);
                        let tagged = if t.0.len() > 0 {
                            seq![(t.0, styled(parent, t.1, t.2))]
                        } else {
                            Seq::empty()
                        };
                        let rest = split_from(text, ce + 2, parent, t.3);
                        (pre + tagged + rest.0, rest.1)
                    },
                }
            },
        }
    }
}

/// Every tag met while splitting asks for a role in range.
pub open spec fn split_roles_in_range(text: Seq<char>, cursor: int) -> bool
    decreases text.len() - cursor,
{
    if cursor < 0 || cursor > text.len() {
        true
    } else {
        proof {
            lemma_find_from_props(text, seq!['{', '{'], cursor);
        }
        match find_from(text, seq!['{', '{'], cursor) {
            None => true,
            Some(ts) => {
                proof {
                    lemma_find_from_props(text, seq!['}', '}'], ts + 2);
                }
                match find_from(text, seq!['}', '}'], ts + 2) {
                    None => true,
                    Some(ce) => tag_role_in_range(text.subrange(ts + 2, ce))
                        && split_roles_in_range(text, ce + 2),
                }
            },
        }
    }
}

/// Whether a tag's content asks for a role in range.
pub fn tag_role_ok(content: &[char]) -> (r: bool)
    ensures
        r == tag_role_in_range(content@),
{
    let pos = match crate::text::find_char_from(content, ':', 0) {
        Some(p) => Some(p),
        None => crate::text::find_char_from(content, '：', 0),
    };
    match pos {
        None => true,
        Some(p) => {
            proof {
                if find_from(content@, seq![':'], 0) is Some {
                    lemma_find_from_props(content@, seq![':'], 0);
                } else {
                    lemma_find_from_props(content@, seq!['：'], 0);
                }
            }
            let (lo, hi) = trim_bounds(content, 0, p);
            assert(content@.subrange(0, p as int) =~= content@.take(p as int));
            let prefix = sub_vec(content, lo, hi);
            let hand = chars_of("手写");
            proof {
                reveal_strlit("手写");
            }
            if crate::text::seq_eq(prefix.as_slice(), hand.as_slice()) {
                true
            } else if starts_with(prefix.as_slice(), hand.as_slice()) {
                assert(prefix@.skip(2) =~= prefix@.subrange(2, prefix@.len() as int));
                match parse_u32_decimal(prefix.as_slice(), 2, prefix.len()) {
                    Some(n) => n != 0xFFFF_FFFF,
                    None => true,
                }
            } else {
                true
            }
        },
    }
}

/// Whether every tag of a run's text asks for a role in range.
pub fn split_roles_ok(text: &[char]) -> (r: bool)
    ensures
        r == split_roles_in_range(text@, 0),
{
    let open = vec!['{', '{'];
    let close = vec!['}', '}'];
    assert(open@ =~= seq!['{', '{']);
    assert(close@ =~= seq!['}', '}']);
    let mut cursor: usize = 0;
    loop
        invariant
            cursor <= text.len(),
            open@ == seq!['{', '{'],
            close@ == seq!['}', '}'],
            split_roles_in_range(text@, 0) == split_roles_in_range(text@, cursor as int),
        decreases text.len() - cursor,
    {
        proof {
            lemma_find_from_props(text@, seq!['{', '{'], cursor as int);
        }
        let ts = match find_chars_from(text, open.as_slice(), cursor) {
            None => {
                return true;
            },
            Some(ts) => ts,
        };
        proof {
            lemma_find_from_props(text@, seq!['}', '}'], ts + 2);
        }
        let ce = match find_chars_from(text, close.as_slice(), ts + 2) {
            None => {
                return true;
            },
            Some(ce) => ce,
        };
        let content = sub_vec(text, ts + 2, ce);
        if !tag_role_ok(content.as_slice()) {
            return false;
        }
        cursor = ce + 2;
    }
}

pub proof fn lemma_split_keys_growth(text: Seq<char>, cursor: int, parent: TextRunStyle, keys: Seq<Seq<char>>)
    requires
        0 <= cursor <= text.len(),
    ensures
        split_from(text, cursor, parent, keys).1.len() <= keys.len() + (text.len() - cursor),
    decreases text.len() - cursor,
{
    lemma_find_from_props(text, seq!['{', '{'], cursor);
    match find_from(text, seq!['{', '{'], cursor) {
        None => {},
        Some(ts) => {
            lemma_find_from_props(text, seq!['}', '}'], ts + 2);
            match find_from(text, seq!['}', '}'], ts + 2) {
                None => {},
                Some(ce) => {
                    let t = tag_style(text.subrange(ts + 2, ce), keys);
                    lemma_split_keys_growth(text, ce + 2, parent, t.3);
                },
            }
        },
    }
}

/// Splits the `{{...}}` tags of a run into runs of their own.
pub fn split_syntax_tags(run: &TextRun, registry: &mut StyleRegistry) -> (r: Vec<TextRun>)
    requires
        old(registry).wf(),
        old(registry).keys().len() + run.text@.len() + 3 <= u32::MAX,
        split_roles_in_range(run.text@, 0),
    ensures
        final(registry).wf(),
        (runs_view(r@), final(registry).keys()) == split_from(
            run.text@,
            0,
            run.style,
            old(registry).keys(),
        ),
{
    let text = chars_of(run.text.as_str());
    let open = vec!['{', '{'];
    let close = vec!['}', '}'];
    assert(open@ =~= seq!['{', '{']);
    assert(close@ =~= seq!['}', '}']);
    let ghost target = split_from(text@, 0, run.style, registry.keys());
    let ghost keys0 = registry.keys();
    let mut result: Vec<TextRun> = Vec::new();
    let mut cursor: usize = 0;
    proof {
        lemma_split_keys_growth(text@, 0, run.style, keys0);
    }
    loop
        invariant_except_break
            cursor <= text.len(),
            text@ == run.text@,
            open@ == seq!['{', '{'],
            close@ == seq!['}', '}'],
            keys0 == old(registry).keys(),
            target == split_from(text@, 0, run.style, keys0),
            registry.wf(),
            registry.keys().len() + (text.len() - cursor) + 3 <= u32::MAX,
            split_roles_in_range(text@, cursor as int),
            runs_view(result@) + split_from(text@, cursor as int, run.style, registry.keys()).0
                == target.0,
            split_from(text@, cursor as int, run.style, registry.keys()).1 == target.1,
        ensures
            registry.wf(),
            text@ == run.text@,
            target == split_from(text@, 0, run.style, keys0),
            keys0 == old(registry).keys(),
            runs_view(result@) + tail_run(text@, cursor as int, run.style) == target.0,
            registry.keys() == target.1,
            cursor <= text.len(),
        decreases text.len() - cursor,
    {
        proof {
            lemma_find_from_props(text@, seq!['{', '{'], cursor as int);
        }
        let ts = match find_chars_from(text.as_slice(), open.as_slice(), cursor) {
            None => {
                break;
            },
            Some(ts) => ts,
        };
        assert(occurs_at(text@, seq!['{', '{'], ts as int));
        proof {
            lemma_find_from_props(text@, seq!['}', '}'], ts + 2);
        }
        let ce = match find_chars_from(text.as_slice(), close.as_slice(), ts + 2) {
            None => {
                break;
            },
            Some(ce) => ce,
        };
        assert(occurs_at(text@, seq!['}', '}'], ce as int));
        let ghost before = runs_view(result@);
        let ghost keys_before = registry.keys();
        if ts > cursor {
            let pre = string_of_range(text.as_slice(), cursor, ts);
            let r = TextRun { text: pre, style: run.style.duplicate() };
            result.push(r);
        }
        let ghost after_pre = runs_view(result@);
        let content = string_of_range(text.as_slice(), ts + 2, ce);
        let (clean, st) = parse_tag_style(content.as_str(), &run.style, registry);
        let clean_len = chars_of(clean.as_str()).len();
        if clean_len > 0 {
            result.push(TextRun { text: clean, style: st });
        }
        proof {
            let t = tag_style(text@.subrange(ts + 2, ce as int), keys_before);
            let pre = if ts > cursor {
                seq![(text@.subrange(cursor as int, ts as int), run.style)]
            } else {
                Seq::empty()
            };
            let tagged = if t.0.len() > 0 {
                seq![(t.0, styled(run.style, t.1, t.2))]
            } else {
                Seq::empty()
            };
            assert(after_pre =~= before + pre);
            assert(runs_view(result@) =~= before + pre + tagged);
            let rest = split_from(text@, ce + 2, run.style, t.3);
            assert(before + (pre + tagged + rest.0) =~= runs_view(result@) + rest.0);
        }
        cursor = ce + 2;
    }
    if cursor < text.len() {
        let rem = string_of_range(text.as_slice(), cursor, text.len());
        let ghost before = runs_view(result@);
        result.push(TextRun { text: rem, style: run.style.duplicate() });
        assert(runs_view(result@) =~= before + tail_run(text@, cursor as int, run.style));
    } else {
        assert(runs_view(result@) + tail_run(text@, cursor as int, run.style) =~= runs_view(
            result@,
        ));
    }
    result
}

// ---------------------------------------------------------------------------
// Trimming a paragraph's runs
// ---------------------------------------------------------------------------
/// The text of all runs, in order.
pub open spec fn concat_runs(rs: Seq<(Seq<char>, TextRunStyle)>) -> Seq<char>
    decreases rs.len(),
{
    if rs.len() == 0 {
        Seq::empty()
    } else {
        concat_runs(rs.drop_last()) + rs.last().0
    }
}

/// The parts of runs `k..` (the first of them starting at text position
/// `pos`) that lie inside `[lo, hi)`, with their styles; runs left empty are
/// dropped.
pub open spec fn pieces_within(
    rs: Seq<(Seq<char>, TextRunStyle)>,
    k: int,
    pos: int,
    lo: int,
    hi: int,
) -> Seq<(Seq<char>, TextRunStyle)>
    decreases rs.len() - k,
{
    if k < 0 || k >= rs.len() {
        Seq::empty()
    } else {
        let t = rs[k].0;
        let end = pos + t.len();
        let s = if pos >= lo { pos } else { lo };
        let e = if end <= hi { end } else { hi };
        (if s < e {
            seq![(t.subrange(s - pos, e - pos), rs[k].1)]
        } else {
            Seq::empty()
        }) + pieces_within(rs, k + 1, end, lo, hi)
    }
}

/// A paragraph's trimmed text and its runs cut to that text: white space at
/// the ends of the paragraph is removed from the runs holding it, keeping
/// the spaces between words.
pub open spec fn spec_trim_paragraph_runs(rs: Seq<(Seq<char>, TextRunStyle)>) -> (
    Seq<char>,
    Seq<(Seq<char>, TextRunStyle)>,
) {
    let full = concat_runs(rs);
    if trim_seq(full).len() == 0 {
        (Seq::empty(), Seq::empty())
    } else {
        (
            trim_seq(full),
            pieces_within(rs, 0, 0, lead_ws(full) as int, full.len() - trail_ws(full)),
        )
    }
}

/// Trims a paragraph's text and cuts its runs to the trimmed text.
pub fn trim_paragraph_runs(runs: Vec<TextRun>) -> (r: (String, Vec<TextRun>))
    ensures
        (r.0@, runs_view(r.1@)) == spec_trim_paragraph_runs(runs_view(runs@)),
{
    let ghost rs = runs_view(runs@);
    let mut full: Vec<char> = Vec::new();
    let mut k: usize = 0;
    while k < runs.len()
        invariant
            k <= runs.len(),
            rs == runs_view(runs@),
            full@ == concat_runs(rs.take(k as int)),
        decreases runs.len() - k,
    {
        let t = chars_of(runs[k].text.as_str());
        crate::notes::append_chars(&mut full, t.as_slice());
        assert(rs.take(k + 1).drop_last() =~= rs.take(k as int));
        k += 1;
    }
    assert(rs.take(runs.len() as int) =~= rs);
    let (lo, hi) = trim_bounds(full.as_slice(), 0, full.len());
    assert(full@.subrange(0, full@.len() as int) =~= full@);
    if lo == hi {
        return (String::new(), Vec::new());
    }
    let keep_start = skip_ws_forward(full.as_slice(), 0, full.len());
    let keep_end = skip_ws_backward(full.as_slice(), 0, full.len());
    let text = string_of_range(full.as_slice(), lo, hi);
    let mut out: Vec<TextRun> = Vec::new();
    let mut pos: usize = 0;
    let mut j: usize = 0;
    let ghost target = pieces_within(rs, 0, 0, keep_start as int, keep_end as int);
    while j < runs.len()
        invariant
            j <= runs.len(),
            rs == runs_view(runs@),
            full@ == concat_runs(rs),
            pos == concat_runs(rs.take(j as int)).len(),
            keep_end <= full.len(),
            target == pieces_within(rs, 0, 0, keep_start as int, keep_end as int),
            runs_view(out@) + pieces_within(rs, j as int, pos as int, keep_start as int, keep_end as int)
                == target,
        decreases runs.len() - j,
    {
        let t = chars_of(runs[j].text.as_str());
        proof {
            assert(rs.take(j + 1).drop_last() =~= rs.take(j as int));
            lemma_concat_prefix_len(rs, j + 1);
        }
        let end = pos + t.len();
        let s = if pos >= keep_start { pos } else { keep_start };
        let e = if end <= keep_end { end } else { keep_end };
        let ghost before = runs_view(out@);
        if s < e {
            let piece = string_of_range(t.as_slice(), s - pos, e - pos);
            out.push(TextRun { text: piece, style: runs[j].style.duplicate() });
            assert(runs_view(out@) =~= before + seq![(t@.subrange(s - pos, e - pos), rs[j as int].1)]);
        }
        assert(before + pieces_within(rs, j as int, pos as int, keep_start as int, keep_end as int)
            =~= runs_view(out@) + pieces_within(rs, j + 1, end as int, keep_start as int, keep_end as int));
        pos = end;
        j += 1;
    }
    assert(runs_view(out@) + Seq::<(Seq<char>, TextRunStyle)>::empty() =~= runs_view(out@));
    (text, out)
}

proof fn lemma_concat_prefix_len(rs: Seq<(Seq<char>, TextRunStyle)>, k: int)
    requires
        0 <= k <= rs.len(),
    ensures
        concat_runs(rs.take(k)).len() <= concat_runs(rs).len(),
    decreases rs.len() - k,
{
    if k < rs.len() {
        lemma_concat_prefix_len(rs, k + 1);
        assert(rs.take(k + 1).drop_last() =~= rs.take(k));
    } else {
        assert(rs.take(k) =~= rs);
    }
}

// ---------------------------------------------------------------------------
// Paragraph formatting
// ---------------------------------------------------------------------------
/// Direct formatting of a paragraph (`w:pPr` and its first run).
#[derive(Debug, Clone, Default)]
pub struct ParaFmt {
    pub style_id: Option<String>,
    /// Alignment value (`w:jc`).
    pub jc: Option<String>,
    /// First-line indent in hundredths of a character.
    pub first_line_chars: Option<i32>,
    /// First-line indent in twips.
    pub first_line_twips: Option<i32>,
    /// Size of the first run, in half points.
    pub run_sz_half_pt: Option<u32>,
    /// Font family of the paragraph.
    pub font_family: Option<String>,
}

/// A paragraph style of a document's style sheet.
#[derive(Debug, Clone)]
pub struct StyleDef {
    pub style_id: String,
    pub based_on: Option<String>,
    pub jc: Option<String>,
    pub first_line_chars: Option<i32>,
    pub first_line_twips: Option<i32>,
    /// Default run size, in half points.
    pub sz_half_pt: Option<u32>,
}

/// `center` and `right` align accordingly; anything else (justified,
/// distributed, left, none) aligns left.
pub open spec fn spec_resolve_align(jc: Option<String>) -> Align {
    match jc {
        Some(v) => if v@ == "center"@ {
            Align::Center
        } else if v@ == "right"@ {
            Align::Right
        } else {
            Align::Left
        },
        None => Align::Left,
    }
}

/// The alignment of a paragraph from its `w:jc` value.
pub fn resolve_align(fmt: &ParaFmt) -> (r: Align)
    ensures
        r == spec_resolve_align(fmt.jc),
{
    match &fmt.jc {
        Some(v) => if str_eq(v.as_str(), "center") {
            Align::Center
        } else if str_eq(v.as_str(), "right") {
            Align::Right
        } else {
            Align::Left
        },
        None => Align::Left,
    }
}

/// Index of the first style with the given id.
pub open spec fn style_index(styles: Seq<StyleDef>, id: Seq<char>, k: int) -> Option<int>
    decreases styles.len() - k,
{
    if k < 0 || k >= styles.len() {
        None
    } else if styles[k].style_id@ == id {
        Some(k)
    } else {
        style_index(styles, id, k + 1)
    }
}

/// The style chain from `cur`: the style with that id, then the style it is
/// based on, and so on, until an id repeats, is missing, or has no base,
/// taking at most `fuel` steps (see `lemma_style_chain_complete` for why
/// the number of styles plus one is enough).
pub open spec fn chain_from(
    styles: Seq<StyleDef>,
    cur: Seq<char>,
    seen: Seq<Seq<char>>,
    fuel: nat,
) -> Seq<int>
    decreases fuel,
{
    if fuel == 0 || seen.contains(cur) {
        Seq::empty()
    } else {
        match style_index(styles, cur, 0) {
            None => Seq::empty(),
            Some(i) => seq![i] + match styles[i].based_on {
                Some(b) => chain_from(styles, b@, seen.push(cur), (fuel - 1) as nat),
                None => Seq::empty(),
            },
        }
    }
}

pub open spec fn spec_style_chain(start: Seq<char>, styles: Seq<StyleDef>) -> Seq<int> {
    chain_from(styles, start, Seq::empty(), styles.len() + 1)
}

/// The ids of the styles.
pub open spec fn style_ids(styles: Seq<StyleDef>) -> Set<Seq<char>> {
    styles.map_values(|s: StyleDef| s.style_id@).to_set()
}

/// The style ids not visited yet.
pub open spec fn unvisited(styles: Seq<StyleDef>, seen: Seq<Seq<char>>) -> Set<Seq<char>> {
    style_ids(styles).difference(seen.to_set())
}

proof fn lemma_unvisited_finite(styles: Seq<StyleDef>, seen: Seq<Seq<char>>)
    ensures
        unvisited(styles, seen).finite(),
        unvisited(styles, seen).len() <= styles.len(),
{
    let ids = styles.map_values(|s: StyleDef| s.style_id@);
    ids.lemma_cardinality_of_set();
    vstd::seq_lib::seq_to_set_is_finite(ids);
    vstd::set_lib::lemma_len_difference(style_ids(styles), seen.to_set());
    vstd::set_lib::lemma_set_subset_finite(style_ids(styles), unvisited(styles, seen));
}

/// With more steps than unvisited ids, one more step changes nothing.
proof fn lemma_chain_fuel_more(styles: Seq<StyleDef>, cur: Seq<char>, seen: Seq<Seq<char>>, fuel: nat)
    requires
        fuel > unvisited(styles, seen).len(),
    ensures
        chain_from(styles, cur, seen, fuel) == chain_from(styles, cur, seen, fuel + 1),
    decreases fuel,
{
    lemma_unvisited_finite(styles, seen);
    if !seen.contains(cur) {
        lemma_style_index(styles, cur, 0);
        match style_index(styles, cur, 0) {
            None => {},
            Some(i) => {
                match styles[i].based_on {
                    None => {},
                    Some(b) => {
                        let ids = styles.map_values(|s: StyleDef| s.style_id@);
                        assert(ids[i] == cur);
                        assert(style_ids(styles).contains(cur));
                        let next = seen.push(cur);
                        assert(!seen.to_set().contains(cur));
                        assert forall|x: Seq<char>| #[trigger] next.contains(x) <==> (seen.contains(x) || x
                            == cur) by {
                            if seen.contains(x) {
                                let j = choose|j: int| 0 <= j < seen.len() && seen[j] == x;
                                assert(next[j] == x);
                            }
                            if x == cur {
                                assert(next[seen.len() as int] == cur);
                            }
                            if next.contains(x) {
                                let j = choose|j: int| 0 <= j < next.len() && next[j] == x;
                                if j < seen.len() {
                                    assert(seen[j] == x);
                                }
                            }
                        }
                        assert(next.to_set() =~= seen.to_set().insert(cur));
                        assert(unvisited(styles, next) =~= unvisited(styles, seen).remove(cur));
                        assert(unvisited(styles, seen).contains(cur));
                        lemma_chain_fuel_more(styles, b@, next, (fuel - 1) as nat);
                        assert((fuel + 1 - 1) as nat == fuel);
                    },
                }
            },
        }
    }
}

/// The style chain ends because an id repeats, is missing or has no base,
/// never for want of steps: walking it with any number of steps beyond the
/// number of styles gives the same chain.
pub proof fn lemma_style_chain_complete(start: Seq<char>, styles: Seq<StyleDef>, extra: nat)
    ensures
        spec_style_chain(start, styles) == chain_from(
            styles,
            start,
            Seq::empty(),
            styles.len() + 1 + extra,
        ),
    decreases extra,
{
    if extra > 0 {
        lemma_style_chain_complete(start, styles, (extra - 1) as nat);
        lemma_unvisited_finite(styles, Seq::empty());
        lemma_chain_fuel_more(styles, start, Seq::empty(), (styles.len() + 1 + extra - 1) as nat);
    } else {
        assert(styles.len() + 1 + extra == styles.len() + 1);
    }
}

proof fn lemma_style_index(styles: Seq<StyleDef>, id: Seq<char>, k: int)
    requires
        0 <= k,
    ensures
        style_index(styles, id, k) matches Some(i) ==> k <= i < styles.len() && styles[i].style_id@
            == id,
    decreases styles.len() - k,
{
    if k < styles.len() && styles[k].style_id@ != id {
        lemma_style_index(styles, id, k + 1);
    }
}

fn find_style(styles: &[StyleDef], id: &str) -> (r: Option<usize>)
    ensures
        r matches Some(i) ==> style_index(styles@, id@, 0) == Some(i as int) && i < styles.len(),
        r is None ==> style_index(styles@, id@, 0) is None,
{
    let mut k: usize = 0;
    while k < styles.len()
        invariant
            k <= styles.len(),
            style_index(styles@, id@, 0) == style_index(styles@, id@, k as int),
        decreases styles.len() - k,
    {
        if str_eq(styles[k].style_id.as_str(), id) {
            return Some(k);
        }
        k += 1;
    }
    None
}

fn seen_contains(seen: &Vec<String>, id: &str) -> (r: bool)
    ensures
        r == seen@.map_values(|s: String| s@).contains(id@),
{
    let ghost sv = seen@.map_values(|s: String| s@);
    let mut k: usize = 0;
    while k < seen.len()
        invariant
            k <= seen.len(),
            sv == seen@.map_values(|s: String| s@),
            forall|m: int| 0 <= m < k ==> sv[m] != id@,
        decreases seen.len() - k,
    {
        assert(sv[k as int] == seen@[k as int]@);
        if str_eq(seen[k].as_str(), id) {
            assert(sv.contains(id@));
            return true;
        }
        k += 1;
    }
    false
}

/// The chain of styles a paragraph style inherits from, as positions in
/// `styles`, starting with the style itself.
pub fn style_chain(start: &str, styles: &[StyleDef]) -> (r: Vec<usize>)
    ensures
        r@.map_values(|i: usize| i as int) == spec_style_chain(start@, styles@),
        forall|m: int| 0 <= m < r.len() ==> r@[m] < styles.len(),
{
    let mut chain: Vec<usize> = Vec::new();
    let mut seen: Vec<String> = Vec::new();
    let mut cur: String = start.to_owned();
    let mut fuel: usize = styles.len();
    let ghost target = spec_style_chain(start@, styles@);
    assert(seen@.map_values(|s: String| s@) =~= Seq::<Seq<char>>::empty());
    assert(chain@.map_values(|i: usize| i as int) =~= Seq::<int>::empty());
    loop
        invariant
            fuel <= styles.len(),
            target == spec_style_chain(start@, styles@),
            forall|m: int| 0 <= m < chain.len() ==> chain@[m] < styles.len(),
            chain@.map_values(|i: usize| i as int) + chain_from(
                styles@,
                cur@,
                seen@.map_values(|s: String| s@),
                fuel as nat + 1,
            ) == target,
        decreases fuel,
    {
        let ghost sv = seen@.map_values(|s: String| s@);
        let ghost before = chain@.map_values(|i: usize| i as int);
        if seen_contains(&seen, cur.as_str()) {
            assert(before + Seq::<int>::empty() =~= before);
            return chain;
        }
        let i = match find_style(styles, cur.as_str()) {
            None => {
                assert(before + Seq::<int>::empty() =~= before);
                return chain;
            },
            Some(i) => i,
        };
        chain.push(i);
        assert(chain@.map_values(|i: usize| i as int) =~= before.push(i as int));
        match &styles[i].based_on {
            None => {
                assert(chain_from(styles@, cur@, sv, fuel as nat + 1) == seq![i as int]
                    + Seq::<int>::empty());
                assert(before + (seq![i as int] + Seq::<int>::empty()) =~= before.push(i as int));
                return chain;
            },
            Some(b) => {
                assert(chain_from(styles@, cur@, sv, fuel as nat + 1) == seq![i as int]
                    + chain_from(styles@, b@, sv.push(cur@), fuel as nat));
                if fuel == 0 {
                    assert(chain_from(styles@, b@, sv.push(cur@), 0) =~= Seq::<int>::empty());
                    assert(before + (seq![i as int] + Seq::<int>::empty()) =~= before.push(i as int));
                    return chain;
                }
                let next = b.clone();
                let ghost old_cur = cur@;
                seen.push(cur);
                assert(seen@.map_values(|s: String| s@) =~= sv.push(old_cur));
                assert(before + (seq![i as int] + chain_from(styles@, next@, sv.push(old_cur), fuel as nat))
                    =~= before.push(i as int) + chain_from(styles@, next@, sv.push(old_cur), fuel as nat));
                cur = next;
                fuel -= 1;
            },
        }
    }
}

/// The first `firstLineChars` along a style chain.
pub open spec fn chain_first_line_chars(styles: Seq<StyleDef>, chain: Seq<int>, k: int) -> Option<i32>
    decreases chain.len() - k,
{
    if k < 0 || k >= chain.len() {
        None
    } else {
        match styles[chain[k]].first_line_chars {
            Some(c) => Some(c),
            None => chain_first_line_chars(styles, chain, k + 1),
        }
    }
}

/// The first-line indent in hundredths of a character that a paragraph
/// style passes on: the first one set along its chain.
pub fn style_chain_first_line_chars(start: &str, styles: &[StyleDef]) -> (r: Option<i32>)
    ensures
        r == chain_first_line_chars(styles@, spec_style_chain(start@, styles@), 0),
{
    let chain = style_chain(start, styles);
    let ghost cv = chain@.map_values(|i: usize| i as int);
    let mut k: usize = 0;
    while k < chain.len()
        invariant
            k <= chain.len(),
            cv == chain@.map_values(|i: usize| i as int),
            cv == spec_style_chain(start@, styles@),
            chain_first_line_chars(styles@, cv, 0) == chain_first_line_chars(styles@, cv, k as int),
            forall|m: int| 0 <= m < chain.len() ==> chain@[m] < styles.len(),
        decreases chain.len() - k,
    {
        let i = chain[k];
        if let Some(c) = styles[i].first_line_chars {
            return Some(c);
        }
        k += 1;
    }
    None
}

// ---------------------------------------------------------------------------
// Handwriting or printed template
// ---------------------------------------------------------------------------
/// A run that asks for handwriting by its markup: highlighted, or in a
/// handwriting role of its own (2 and up, not printed).
pub open spec fn marked_for_handwriting(r: TextRun) -> bool {
    r.style.highlight is Some || (r.style.role_id >= 2 && !r.style.printed)
}

pub open spec fn any_marked(paras: Seq<Vec<TextRun>>) -> bool {
    exists|p: int, k: int|
        0 <= p < paras.len() && 0 <= k < paras[p]@.len() && marked_for_handwriting(
            #[trigger] paras[p]@[k],
        )
}

/// A run after classification: when the document marks handwriting
/// anywhere, unmarked default-role text becomes the printed template (role 1).
pub open spec fn classified(r: TextRun, marked: bool) -> TextRun {
    if marked && r.style.role_id == 0 {
        TextRun { text: r.text, style: TextRunStyle { role_id: 1, printed: true, ..r.style } }
    } else {
        r
    }
}

fn has_marked_runs(paras: &Vec<Vec<TextRun>>) -> (r: bool)
    ensures
        r == any_marked(paras@),
{
    let mut p: usize = 0;
    while p < paras.len()
        invariant
            p <= paras.len(),
            forall|i: int, k: int|
                0 <= i < p && 0 <= k < paras@[i]@.len() ==> !marked_for_handwriting(
                    #[trigger] paras@[i]@[k],
                ),
        decreases paras.len() - p,
    {
        let mut k: usize = 0;
        while k < paras[p].len()
            invariant
                p < paras.len(),
                k <= paras@[p as int]@.len(),
                forall|i: int, j: int|
                    0 <= i < p && 0 <= j < paras@[i]@.len() ==> !marked_for_handwriting(
                        #[trigger] paras@[i]@[j],
                    ),
                forall|j: int| 0 <= j < k ==> !marked_for_handwriting(#[trigger] paras@[p as int]@[j]),
            decreases paras@[p as int]@.len() - k,
        {
            let st = &paras[p][k].style;
            if st.highlight.is_some() || (st.role_id >= 2 && !st.printed) {
                assert(marked_for_handwriting(paras@[p as int]@[k as int]));
                return true;
            }
            k += 1;
        }
        p += 1;
    }
    false
}

/// Decides between full handwriting and a printed template: a document
/// without any highlight or handwriting role is handwritten throughout;
/// otherwise its unmarked text (role 0) becomes the printed template.
/// Explicit tags keep their roles either way.
pub fn apply_print_template(paras: Vec<Vec<TextRun>>) -> (r: Vec<Vec<TextRun>>)
    ensures
        r.len() == paras.len(),
        forall|p: int|
            0 <= p < paras.len() ==> (#[trigger] r@[p])@.len() == paras@[p]@.len(),
        forall|p: int, k: int|
            0 <= p < paras.len() && 0 <= k < paras@[p]@.len() ==> #[trigger] r@[p]@[k]
                == classified(paras@[p]@[k], any_marked(paras@)),
{
    let marked = has_marked_runs(&paras);
    let mut out: Vec<Vec<TextRun>> = Vec::new();
    let mut p: usize = 0;
    while p < paras.len()
        invariant
            p <= paras.len(),
            marked == any_marked(paras@),
            out.len() == p,
            forall|i: int| 0 <= i < p ==> (#[trigger] out@[i])@.len() == paras@[i]@.len(),
            forall|i: int, k: int|
                0 <= i < p && 0 <= k < paras@[i]@.len() ==> #[trigger] out@[i]@[k] == classified(
                    paras@[i]@[k],
                    marked,
                ),
        decreases paras.len() - p,
    {
        let mut runs: Vec<TextRun> = Vec::new();
        let mut k: usize = 0;
        while k < paras[p].len()
            invariant
                p < paras.len(),
                k <= paras@[p as int]@.len(),
                runs.len() == k,
                forall|j: int| 0 <= j < k ==> #[trigger] runs@[j] == classified(paras@[p as int]@[j], marked),
            decreases paras@[p as int]@.len() - k,
        {
            let src = &paras[p][k];
            let mut style = src.style.duplicate();
            if marked && style.role_id == 0 {
                style.role_id = 1;
                style.printed = true;
            }
            let text = src.text.clone();
            runs.push(TextRun { text, style });
            k += 1;
        }
        out.push(runs);
        p += 1;
    }
    out
}

/// The first non-zero default run size (half points) along a chain.
pub open spec fn chain_size_half_pt(styles: Seq<StyleDef>, chain: Seq<int>, k: int) -> Option<u32>
    decreases chain.len() - k,
{
    if k < 0 || k >= chain.len() {
        None
    } else {
        match styles[chain[k]].sz_half_pt {
            Some(h) => if h > 0 {
                Some(h)
            } else {
                chain_size_half_pt(styles, chain, k + 1)
            },
            None => chain_size_half_pt(styles, chain, k + 1),
        }
    }
}

/// The font size (half points) a paragraph style passes on: the first
/// non-zero one along its chain.
pub fn style_chain_size_half_pt(start: &str, styles: &[StyleDef]) -> (r: Option<u32>)
    ensures
        r == chain_size_half_pt(styles@, spec_style_chain(start@, styles@), 0),
{
    let chain = style_chain(start, styles);
    let ghost cv = chain@.map_values(|i: usize| i as int);
    let mut k: usize = 0;
    while k < chain.len()
        invariant
            k <= chain.len(),
            cv == chain@.map_values(|i: usize| i as int),
            cv == spec_style_chain(start@, styles@),
            chain_size_half_pt(styles@, cv, 0) == chain_size_half_pt(styles@, cv, k as int),
            forall|m: int| 0 <= m < chain.len() ==> chain@[m] < styles.len(),
        decreases chain.len() - k,
    {
        let i = chain[k];
        if let Some(h) = styles[i].sz_half_pt {
            if h > 0 {
                return Some(h);
            }
        }
        k += 1;
    }
    None
}

/// The size a style chain starting at `id` passes on.
pub open spec fn chain_size_of(id: Seq<char>, styles: Seq<StyleDef>) -> Option<u32> {
    chain_size_half_pt(styles, spec_style_chain(id, styles), 0)
}

/// The document font size of a paragraph, in half points: its first run's
/// size, else what its style chain passes on, else what `Normal`'s passes
/// on, else the document default, else 24 (twelve points).
pub open spec fn spec_doc_font_size_half_pt(fmt: ParaFmt, styles: Seq<StyleDef>, defaults_sz: Option<u32>) -> u32 {
    if fmt.run_sz_half_pt matches Some(h) && h > 0 {
        fmt.run_sz_half_pt->0
    } else if fmt.style_id matches Some(id) && chain_size_of(id@, styles) is Some {
        chain_size_of(fmt.style_id->0@, styles)->0
    } else if chain_size_of("Normal"@, styles) is Some {
        chain_size_of("Normal"@, styles)->0
    } else if defaults_sz matches Some(h) && h > 0 {
        defaults_sz->0
    } else {
        24
    }
}

/// The document font size of a paragraph, in half points (see
/// `spec_doc_font_size_half_pt`).
pub fn doc_font_size_half_pt(fmt: &ParaFmt, styles: &[StyleDef], defaults_sz: Option<u32>) -> (r: u32)
    ensures
        r == spec_doc_font_size_half_pt(*fmt, styles@, defaults_sz),
{
    if let Some(h) = fmt.run_sz_half_pt {
        if h > 0 {
            return h;
        }
    }
    if let Some(id) = &fmt.style_id {
        if let Some(h) = style_chain_size_half_pt(id.as_str(), styles) {
            return h;
        }
    }
    if let Some(h) = style_chain_size_half_pt("Normal", styles) {
        return h;
    }
    if let Some(h) = defaults_sz {
        if h > 0 {
            return h;
        }
    }
    24
}

} // verus!
