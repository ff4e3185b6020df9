//! Decoding HTML character entities.

use vstd::prelude::*;
use crate::text::{
    chars_of, find_from, find_char_from, lemma_find_from_props, string_of, seq_eq, lemma_find_from_first,
    occurs_at,
};

verus! {

/// `char::from_u32`: `None` exactly for surrogates and values past the last
/// code point.
pub assume_specification[ core::char::from_u32 ](i: u32) -> (r: Option<char>)
    ensures
        r matches Some(c) ==> c as u32 == i,
        r is None <==> (i > 0x10FFFF || (0xD800 <= i <= 0xDFFF)),
;

/// Number of UTF-8 bytes of a character.
pub open spec fn char_utf8_len(c: char) -> int {
    if (c as u32) < 0x80 {
        1
    } else if (c as u32) < 0x800 {
        2
    } else if (c as u32) < 0x10000 {
        3
    } else {
        4
    }
}

/// Number of UTF-8 bytes of a text.
pub open spec fn utf8_len(s: Seq<char>) -> int
    decreases s.len(),
{
    if s.len() == 0 {
        0
    } else {
        utf8_len(s.drop_last()) + char_utf8_len(s.last())
    }
}

/// Value of a digit in base 10 or 16 (either case).
pub open spec fn digit_value(c: char, radix: int) -> Option<int> {
    if '0' <= c <= '9' {
        Some(c as int - '0' as int)
    } else if radix == 16 && 'a' <= c <= 'f' {
        Some(c as int - 'a' as int + 10)
    } else if radix == 16 && 'A' <= c <= 'F' {
        Some(c as int - 'A' as int + 10)
    } else {
        None
    }
}

/// Value of a non-empty string of digits, or `None` if some character is not
/// a digit.
pub open spec fn digits_in_radix(s: Seq<char>, radix: int) -> Option<int>
    decreases s.len(),
{
    if s.len() == 0 {
        Some(0)
    } else {
        match (digits_in_radix(s.drop_last(), radix), digit_value(s.last(), radix)) {
            (Some(v), Some(d)) => Some(v * radix + d),
            _ => None,
        }
    }
}

/// `u32::from_str_radix` for radix 10 or 16: an optional `+`, then at least
/// one digit, with a value that fits in `u32`.
pub open spec fn parse_u32_radix(s: Seq<char>, radix: int) -> Option<int> {
    let body = if s.len() > 0 && s[0] == '+' { s.skip(1) } else { s };
    if body.len() == 0 {
        None
    } else {
        match digits_in_radix(body, radix) {
            Some(v) => if v <= u32::MAX { Some(v) } else { None },
            None => None,
        }
    }
}

/// The character with code point `v`.
pub open spec fn char_of(v: int) -> char {
    choose|c: char| #[trigger] code_point(c) == v
}

pub open spec fn code_point(c: char) -> int {
    (c as u32) as int
}

proof fn lemma_char_code_injective(a: char, b: char)
    requires
        a as u32 == b as u32,
    ensures
        a == b,
{
}

/// A Unicode scalar value.
pub open spec fn is_scalar(v: int) -> bool {
    0 <= v <= 0x10FFFF && !(0xD800 <= v <= 0xDFFF)
}

/// The text of an entity `&...;` after decoding: the named entities amp, lt,
/// gt, quot, apos, #39 and nbsp, and numeric entities `&#123;` / `&#x1F;`
/// naming a valid character; anything else stays as it is.
pub open spec fn decode_entity(e: Seq<char>) -> Seq<char> {
    if e == seq!['&', 'a', 'm', 'p', ';'] {
        seq!['&']
    } else if e == seq!['&', 'l', 't', ';'] {
        seq!['<']
    } else if e == seq!['&', 'g', 't', ';'] {
        seq!['>']
    } else if e == seq!['&', 'q', 'u', 'o', 't', ';'] {
        seq!['"']
    } else if e == seq!['&', 'a', 'p', 'o', 's', ';'] || e == seq!['&', '#', '3', '9', ';'] {
        seq!['\'']
    } else if e == seq!['&', 'n', 'b', 's', 'p', ';'] {
        seq![' ']
    } else if e.len() >= 3 && e[0] == '&' && e[1] == '#' && e[e.len() - 1] == ';' {
        let num = e.subrange(2, e.len() - 1);
        let code = if num.len() > 0 && (num[0] == 'x' || num[0] == 'X') {
            parse_u32_radix(num.skip(1), 16)
        } else {
            parse_u32_radix(num, 10)
        };
        match code {
            Some(v) => if is_scalar(v) { seq![char_of(v)] } else { e },
            None => e,
        }
    } else {
        e
    }
}

/// The decoded text from position `i` on. An `&` starts an entity when a `;`
/// follows within ten UTF-8 bytes of it; otherwise it is kept literally.
pub open spec fn unescape_from(cs: Seq<char>, i: int) -> Seq<char>
    decreases cs.len() - i,
{
    if i < 0 || i >= cs.len() {
        Seq::empty()
    } else if cs[i] != '&' {
        seq![cs[i]] + unescape_from(cs, i + 1)
    } else {
        proof {
            lemma_find_from_props(cs, seq![';'], i);
        }
        match find_from(cs, seq![';'], i) {
            Some(e) => if utf8_len(cs.subrange(i, e)) <= 10 {
                decode_entity(cs.subrange(i, e + 1)) + unescape_from(cs, e + 1)
            } else {
                seq!['&'] + unescape_from(cs, i + 1)
            },
            None => seq!['&'] + unescape_from(cs, i + 1),
        }
    }
}

pub open spec fn spec_unescape_html(s: Seq<char>) -> Seq<char> {
    unescape_from(s, 0)
}

proof fn lemma_utf8_len_nonneg(s: Seq<char>)
    ensures
        utf8_len(s) >= s.len(),
    decreases s.len(),
{
    if s.len() > 0 {
        lemma_utf8_len_nonneg(s.drop_last());
    }
}

fn char_len_utf8(c: char) -> (r: usize)
    ensures
        r == char_utf8_len(c),
{
    let u = c as u32;
    if u < 0x80 {
        1
    } else if u < 0x800 {
        2
    } else if u < 0x10000 {
        3
    } else {
        4
    }
}

/// Whether `cs[from..to]` takes at most ten UTF-8 bytes.
fn fits_ten_bytes(cs: &[char], from: usize, to: usize) -> (r: bool)
    requires
        from <= to <= cs.len(),
    ensures
        r == (utf8_len(cs@.subrange(from as int, to as int)) <= 10),
{
    let mut total: usize = 0;
    let mut k = from;
    while k < to
        invariant
            from <= k <= to <= cs.len(),
            total == utf8_len(cs@.subrange(from as int, k as int)),
            total <= 10,
        decreases to - k,
    {
        let ghost prev = cs@.subrange(from as int, k as int);
        assert(cs@.subrange(from as int, k + 1).drop_last() =~= prev);
        total = total + char_len_utf8(cs[k]);
        if total > 10 {
            proof {
                let rest = cs@.subrange(k + 1, to as int);
                lemma_utf8_len_concat(cs@.subrange(from as int, k + 1), rest);
                lemma_utf8_len_nonneg(rest);
                assert(cs@.subrange(from as int, k + 1) + rest =~= cs@.subrange(
                    from as int,
                    to as int,
                ));
            }
            return false;
        }
        k += 1;
    }
    true
}

proof fn lemma_utf8_len_concat(a: Seq<char>, b: Seq<char>)
    ensures
        utf8_len(a + b) == utf8_len(a) + utf8_len(b),
    decreases b.len(),
{
    if b.len() > 0 {
        lemma_utf8_len_concat(a, b.drop_last());
        assert((a + b).drop_last() =~= a + b.drop_last());
    } else {
        assert(a + b =~= a);
    }
}

/// Value of `s[from..to]` read as digits in `radix`, if all are digits.
fn digits_value_exec(s: &[char], from: usize, to: usize, radix: u32) -> (r: Option<u64>)
    requires
        from <= to <= s.len(),
        to - from <= 8,
        radix == 10 || radix == 16,
    ensures
        match digits_in_radix(s@.subrange(from as int, to as int), radix as int) {
            Some(v) => (r matches Some(x) && x as int == v) && v < 0x1_0000_0000,
            None => r is None,
        },
{
    let mut acc: u64 = 0;
    let mut k = from;
    while k < to
        invariant
            from <= k <= to <= s.len(),
            to - from <= 8,
            radix == 10 || radix == 16,
            digits_in_radix(s@.subrange(from as int, k as int), radix as int) == Some(acc as int),
            acc < pow_bound(k - from),
            acc < 0x1_0000_0000,
        decreases to - k,
    {
        let c = s[k];
        let d: u64 = if '0' <= c && c <= '9' {
            (c as u32 - 0x30) as u64
        } else if radix == 16 && 'a' <= c && c <= 'f' {
            (c as u32 - 0x61 + 10) as u64
        } else if radix == 16 && 'A' <= c && c <= 'F' {
            (c as u32 - 0x41 + 10) as u64
        } else {
            proof {
                lemma_digits_none_extends(s@, from as int, k as int, to as int, radix as int);
            }
            return None;
        };
        assert(s@.subrange(from as int, k + 1).drop_last() =~= s@.subrange(from as int, k as int));
        proof {
            lemma_pow_bound_step(k - from, acc as int, d as int, radix as int);
            lemma_pow_bound_le(k + 1 - from);
            assert(acc * radix <= acc * 16) by (nonlinear_arith)
                requires
                    radix <= 16,
            ;
        }
        acc = acc * (radix as u64) + d;
        k += 1;
    }
    proof {
        lemma_pow_bound_le(to - from);
    }
    Some(acc)
}

/// `16` to the power `n`, a bound on any `n`-digit number in base 10 or 16.
pub open spec fn pow_bound(n: int) -> int
    decreases n,
{
    if n <= 0 {
        1
    } else {
        16 * pow_bound(n - 1)
    }
}

proof fn lemma_pow_bound_step(n: int, acc: int, d: int, radix: int)
    requires
        0 <= n,
        0 <= acc < pow_bound(n),
        0 <= d < radix,
        radix == 10 || radix == 16,
    ensures
        acc * radix + d < pow_bound(n + 1),
{
    assert(pow_bound(n + 1) == 16 * pow_bound(n));
    assert(acc * radix <= acc * 16) by (nonlinear_arith)
        requires
            0 <= acc,
            radix <= 16,
    ;
    assert(acc * 16 + d < 16 * pow_bound(n)) by (nonlinear_arith)
        requires
            acc < pow_bound(n),
            d < 16,
    ;
}

proof fn lemma_pow_bound_le(n: int)
    requires
        0 <= n <= 8,
    ensures
        pow_bound(n) <= 0x1_0000_0000,
{
    reveal_with_fuel(pow_bound, 9);
    if n < 8 {
        lemma_pow_bound_mono(n, 8);
    }
}

proof fn lemma_pow_bound_mono(a: int, b: int)
    requires
        0 <= a <= b,
    ensures
        pow_bound(a) <= pow_bound(b),
    decreases b - a,
{
    if a < b {
        lemma_pow_bound_mono(a, b - 1);
        lemma_pow_bound_pos(b - 1);
    }
}

proof fn lemma_pow_bound_pos(n: int)
    ensures
        pow_bound(n) >= 1,
    decreases n,
{
    if n > 0 {
        lemma_pow_bound_pos(n - 1);
    }
}

proof fn lemma_digits_none_extends(s: Seq<char>, from: int, k: int, to: int, radix: int)
    requires
        0 <= from <= k < to <= s.len(),
        digit_value(s[k], radix) is None,
    ensures
        digits_in_radix(s.subrange(from, to), radix) is None,
    decreases to - k,
{
    if to == k + 1 {
        assert(s.subrange(from, to).last() == s[k]);
    } else {
        lemma_digits_none_extends(s, from, k, to - 1, radix);
        assert(s.subrange(from, to).drop_last() =~= s.subrange(from, to - 1));
    }
}

/// `u32::from_str_radix(s[from..to], radix)` for short strings.
pub fn parse_u32_public(s: &[char], from: usize, to: usize, radix: u32) -> (r: Option<u32>)
    requires
        from <= to <= s.len(),
        to - from <= 8,
        radix == 10 || radix == 16,
    ensures
        match parse_u32_radix(s@.subrange(from as int, to as int), radix as int) {
            Some(v) => r matches Some(x) && x as int == v,
            None => r is None,
        },
{
    let ghost whole = s@.subrange(from as int, to as int);
    let start = if from < to && s[from] == '+' { from + 1 } else { from };
    assert(whole.len() > 0 && whole[0] == '+' ==> whole.skip(1) =~= s@.subrange(
        start as int,
        to as int,
    ));
    assert(!(whole.len() > 0 && whole[0] == '+') ==> whole =~= s@.subrange(start as int, to as int));
    if start == to {
        return None;
    }
    let ghost body = s@.subrange(start as int, to as int);
    assert(parse_u32_radix(whole, radix as int) == (match digits_in_radix(body, radix as int) {
        Some(v) => if v <= u32::MAX { Some(v) } else { None },
        None => None,
    }));
    match digits_value_exec(s, start, to, radix) {
        Some(v) => {
            let y = v as u32;
            assert(y as int == v as int);
            Some(y)
        },
        None => None,
    }
}

/// Whether `cs[from..to]` is exactly `lit`.
fn slice_is(cs: &[char], from: usize, to: usize, lit: &[char]) -> (r: bool)
    requires
        from <= to <= cs.len(),
    ensures
        r == (cs@.subrange(from as int, to as int) == lit@),
{
    let sub = vstd::slice::slice_subrange(cs, from, to);
    seq_eq(sub, lit)
}

/// The decoded text of the entity `cs[from..=semi]`.
fn decode_entity_exec(cs: &[char], from: usize, semi: usize) -> (r: Vec<char>)
    requires
        from < semi < cs.len(),
        cs@[from as int] == '&',
        cs@[semi as int] == ';',
        semi - from <= 10,
    ensures
        r@ == decode_entity(cs@.subrange(from as int, semi + 1)),
{
    let to = semi + 1;
    let ghost e = cs@.subrange(from as int, to as int);
    let amp = ['&', 'a', 'm', 'p', ';'];
    let lt = ['&', 'l', 't', ';'];
    let gt = ['&', 'g', 't', ';'];
    let quot = ['&', 'q', 'u', 'o', 't', ';'];
    let apos = ['&', 'a', 'p', 'o', 's', ';'];
    let n39 = ['&', '#', '3', '9', ';'];
    let nbsp = ['&', 'n', 'b', 's', 'p', ';'];
    assert(amp@ =~= seq!['&', 'a', 'm', 'p', ';']);
    assert(lt@ =~= seq!['&', 'l', 't', ';']);
    assert(gt@ =~= seq!['&', 'g', 't', ';']);
    assert(quot@ =~= seq!['&', 'q', 'u', 'o', 't', ';']);
    assert(apos@ =~= seq!['&', 'a', 'p', 'o', 's', ';']);
    assert(n39@ =~= seq!['&', '#', '3', '9', ';']);
    assert(nbsp@ =~= seq!['&', 'n', 'b', 's', 'p', ';']);
    if slice_is(cs, from, to, &amp) {
        return vec!['&'];
    }
    if slice_is(cs, from, to, &lt) {
        return vec!['<'];
    }
    if slice_is(cs, from, to, &gt) {
        return vec!['>'];
    }
    if slice_is(cs, from, to, &quot) {
        return vec!['"'];
    }
    if slice_is(cs, from, to, &apos) || slice_is(cs, from, to, &n39) {
        return vec!['\''];
    }
    if slice_is(cs, from, to, &nbsp) {
        return vec![' '];
    }
    let whole = vstd::slice::slice_to_vec(vstd::slice::slice_subrange(cs, from, to));
    assert(e[0] == cs@[from as int] && e[e.len() - 1] == cs@[semi as int]);
    assert(e.len() >= 2 ==> e[1] == cs@[from + 1]);
    if to - from >= 3 && cs[from + 1] == '#' {
        let ns = from + 2;
        let ne = semi;
        assert(e.subrange(2, e.len() - 1) =~= cs@.subrange(ns as int, ne as int));
        let code = if ns < ne && (cs[ns] == 'x' || cs[ns] == 'X') {
            assert(cs@.subrange(ns as int, ne as int).skip(1) =~= cs@.subrange(ns + 1, ne as int));
            parse_u32_public(cs, ns + 1, ne, 16)
        } else {
            parse_u32_public(cs, ns, ne, 10)
        };
        match code {
            Some(v) => match core::char::from_u32(v) {
                Some(c) => {
                    assert(code_point(c) == v as int);
                    assert(code_point(char_of(v as int)) == v as int);
                    proof {
                        lemma_char_code_injective(char_of(v as int), c);
                    }
                    vec![c]
                },
                None => whole,
            },
            None => whole,
        }
    } else {
        whole
    }
}

/// Decodes the common HTML entities (`&amp; &lt; &gt; &quot; &#39; &apos;
/// &nbsp;` and numeric ones); an `&` that starts no entity stays literal.
pub fn unescape_html(s: &str) -> (r: String)
    ensures
        r@ == spec_unescape_html(s@),
{
    let cs = chars_of(s);
    let ghost all = unescape_from(cs@, 0);
    let mut out: Vec<char> = Vec::new();
    let mut i: usize = 0;
    while i < cs.len()
        invariant
            i <= cs.len(),
            all == unescape_from(cs@, 0),
            out@ + unescape_from(cs@, i as int) == all,
        decreases cs.len() - i,
    {
        let ghost before = out@;
        if cs[i] != '&' {
            out.push(cs[i]);
            assert(before + (seq![cs@[i as int]] + unescape_from(cs@, i + 1)) =~= out@
                + unescape_from(cs@, i + 1));
            i += 1;
        } else {
            proof {
                lemma_find_from_props(cs@, seq![';'], i as int);
            }
            match find_char_from(cs.as_slice(), ';', i) {
                Some(e) => {
                    assert(cs@.subrange(e as int, e + 1)[0] == cs@[e as int]);
                    if fits_ten_bytes(cs.as_slice(), i, e) {
                        proof {
                            lemma_utf8_len_nonneg(cs@.subrange(i as int, e as int));
                        }
                        let d = decode_entity_exec(cs.as_slice(), i, e);
                        let mut k: usize = 0;
                        while k < d.len()
                            invariant
                                k <= d.len(),
                                out@ == before + d@.take(k as int),
                            decreases d.len() - k,
                        {
                            out.push(d[k]);
                            k += 1;
                            assert(out@ =~= before + d@.take(k as int));
                        }
                        assert(d@.take(d.len() as int) =~= d@);
                        assert(before + (d@ + unescape_from(cs@, e + 1)) =~= out@ + unescape_from(
                            cs@,
                            e + 1,
                        ));
                        i = e + 1;
                    } else {
                        out.push('&');
                        assert(before + (seq!['&'] + unescape_from(cs@, i + 1)) =~= out@
                            + unescape_from(cs@, i + 1));
                        i += 1;
                    }
                },
                None => {
                    out.push('&');
                    assert(before + (seq!['&'] + unescape_from(cs@, i + 1)) =~= out@
                        + unescape_from(cs@, i + 1));
                    i += 1;
                },
            }
        }
    }
    assert(out@ + Seq::<char>::empty() =~= out@);
    string_of(out.as_slice())
}

/// Text without `&` is left unchanged.
pub proof fn lemma_unescape_without_ampersand(s: Seq<char>, i: int)
    requires
        0 <= i <= s.len(),
        forall|k: int| 0 <= k < s.len() ==> s[k] != '&',
    ensures
        unescape_from(s, i) == s.subrange(i, s.len() as int),
    decreases s.len() - i,
{
    if i < s.len() {
        lemma_unescape_without_ampersand(s, i + 1);
        assert(unescape_from(s, i) =~= s.subrange(i, s.len() as int));
    } else {
        assert(s.subrange(i, s.len() as int) =~= Seq::<char>::empty());
    }
}


/// The named entities and the characters they stand for.
pub open spec fn named_entity(e: Seq<char>, c: char) -> bool {
    ||| e == seq!['&', 'a', 'm', 'p', ';'] && c == '&'
    ||| e == seq!['&', 'l', 't', ';'] && c == '<'
    ||| e == seq!['&', 'g', 't', ';'] && c == '>'
    ||| e == seq!['&', 'q', 'u', 'o', 't', ';'] && c == '"'
    ||| e == seq!['&', 'a', 'p', 'o', 's', ';'] && c == '\''
    ||| e == seq!['&', '#', '3', '9', ';'] && c == '\''
    ||| e == seq!['&', 'n', 'b', 's', 'p', ';'] && c == ' '
}

proof fn lemma_unescape_tail_plain(s: Seq<char>, i: int)
    requires
        0 <= i <= s.len(),
        forall|k: int| i <= k < s.len() ==> s[k] != '&',
    ensures
        unescape_from(s, i) == s.subrange(i, s.len() as int),
    decreases s.len() - i,
{
    if i < s.len() {
        lemma_unescape_tail_plain(s, i + 1);
        assert(unescape_from(s, i) =~= s.subrange(i, s.len() as int));
    } else {
        assert(s.subrange(i, s.len() as int) =~= Seq::<char>::empty());
    }
}

proof fn lemma_unescape_head_plain(s: Seq<char>, i: int, p: int)
    requires
        0 <= i <= p <= s.len(),
        forall|k: int| i <= k < p ==> s[k] != '&',
    ensures
        unescape_from(s, i) == s.subrange(i, p) + unescape_from(s, p),
    decreases p - i,
{
    if i < p {
        lemma_unescape_head_plain(s, i + 1, p);
        assert(unescape_from(s, i) =~= s.subrange(i, p) + unescape_from(s, p));
    } else {
        assert(s.subrange(i, p) =~= Seq::<char>::empty());
    }
}

proof fn lemma_utf8_len_ascii(s: Seq<char>)
    requires
        forall|k: int| 0 <= k < s.len() ==> (s[k] as u32) < 0x80,
    ensures
        utf8_len(s) == s.len(),
    decreases s.len(),
{
    if s.len() > 0 {
        lemma_utf8_len_ascii(s.drop_last());
    }
}

/// Named entities in text decode to their characters: `&amp;`, `&lt;`,
/// `&gt;`, `&quot;`, `&apos;`/`&#39;` and `&nbsp;` between texts without `&`
/// become `&`, `<`, `>`, `"`, `'` and a space, and the texts around them stay
/// as they are.
pub proof fn lemma_unescape_named_entity(before: Seq<char>, e: Seq<char>, c: char, after: Seq<char>)
    requires
        named_entity(e, c),
        forall|k: int| 0 <= k < before.len() ==> before[k] != '&',
        forall|k: int| 0 <= k < after.len() ==> after[k] != '&',
    ensures
        spec_unescape_html(before + e + after) == before + seq![c] + after,
{
    let s = before + e + after;
    let p = before.len() as int;
    let q = p + e.len() - 1;
    assert(e.len() >= 4 && e[0] == '&' && e[e.len() - 1] == ';');
    assert forall|k: int| 0 <= k < e.len() - 1 implies e[k] != ';' && (e[k] as u32) < 0x80 by {}
    lemma_unescape_head_plain(s, 0, p);
    assert(s.subrange(0, p) =~= before);
    assert(s[p] == '&');
    assert forall|k: int| p <= k < q implies !occurs_at(s, seq![';'], k) by {
        assert(s[k] == e[k - p]);
        assert(s.subrange(k, k + 1)[0] == s[k]);
    }
    assert(s.subrange(q, q + 1) =~= seq![';']);
    lemma_find_from_first(s, seq![';'], p, q);
    assert(s.subrange(p, q) =~= e.subrange(0, e.len() - 1));
    lemma_utf8_len_ascii(e.subrange(0, e.len() - 1));
    assert(s.subrange(p, q + 1) =~= e);
    assert forall|k: int| q + 1 <= k < s.len() implies s[k] != '&' by {
        assert(s[k] == after[k - q - 1]);
    }
    lemma_unescape_tail_plain(s, q + 1);
    assert(s.subrange(q + 1, s.len() as int) =~= after);
    assert(decode_entity(e) == seq![c]);
    assert(spec_unescape_html(s) =~= before + seq![c] + after);
}

} // verus!
