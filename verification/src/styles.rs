//! Run styles of imported documents and the registry that turns highlight
//! colours, text colours and tag prefixes into handwriting roles.

use vstd::prelude::*;
use crate::text::{
    chars_of, string_of, trim_seq, trim_chars, trim_str, spec_ascii_lower_seq, ascii_lower_chars,
    seq_eq, str_eq, push_str, push_chars, lemma_trim_bounds, lemma_trim_char, spec_is_whitespace,
};
use crate::html::{utf8_len, parse_u32_radix, char_utf8_len};
use crate::notes::sub_vec;

verus! {

/// Style of a piece of text: its role, highlight colour name, font and colour
/// overrides, and whether it is printed rather than handwritten.
#[derive(Debug, Clone, PartialEq)]
pub struct TextRunStyle {
    /// Role id; 0 is the default handwriting role, 1 the printed template.
    pub role_id: u32,
    /// Highlight colour name (such as "yellow").
    pub highlight: Option<String>,
    /// Font file override.
    pub font_path: Option<String>,
    /// Colour override.
    pub fill: Option<[u8; 3]>,
    /// Printed (no handwriting jitter).
    pub printed: bool,
    /// Font family named by the document.
    pub font_family: Option<String>,
}

/// The default style: role 0, handwritten, no overrides.
pub open spec fn plain_style() -> TextRunStyle {
    TextRunStyle {
        role_id: 0,
        highlight: None,
        font_path: None,
        fill: None,
        printed: false,
        font_family: None,
    }
}

impl TextRunStyle {
    /// The default style: role 0, handwritten, no overrides.
    pub fn plain() -> (r: TextRunStyle)
        ensures
            r == plain_style(),
    {
        TextRunStyle {
            role_id: 0,
            highlight: None,
            font_path: None,
            fill: None,
            printed: false,
            font_family: None,
        }
    }

    /// The default style with the given role.
    pub fn with_role(role_id: u32) -> (r: TextRunStyle)
        ensures
            r.role_id == role_id && r.highlight is None && r.font_path is None && r.fill is None
                && !r.printed && r.font_family is None,
    {
        TextRunStyle {
            role_id,
            highlight: None,
            font_path: None,
            fill: None,
            printed: false,
            font_family: None,
        }
    }

    /// The default style with the given role and highlight colour.
    pub fn with_highlight(role_id: u32, highlight: &str) -> (r: TextRunStyle)
        ensures
            r.role_id == role_id && r.font_path is None && r.fill is None && !r.printed
                && r.font_family is None,
            r.highlight matches Some(h) && h@ == highlight@,
    {
        TextRunStyle {
            role_id,
            highlight: Some(highlight.to_owned()),
            font_path: None,
            fill: None,
            printed: false,
            font_family: None,
        }
    }

    /// An exact copy.
    pub fn duplicate(&self) -> (r: TextRunStyle)
        ensures
            r == *self,
    {
        TextRunStyle {
            role_id: self.role_id,
            highlight: match &self.highlight {
                Some(h) => Some(h.clone()),
                None => None,
            },
            font_path: match &self.font_path {
                Some(h) => Some(h.clone()),
                None => None,
            },
            fill: self.fill,
            printed: self.printed,
            font_family: match &self.font_family {
                Some(h) => Some(h.clone()),
                None => None,
            },
        }
    }
}

impl Default for TextRunStyle {
    fn default() -> (r: TextRunStyle)
        ensures
            r == plain_style(),
    {
        TextRunStyle::plain()
    }
}

/// A piece of text with one style.
#[derive(Debug, Clone, PartialEq)]
pub struct TextRun {
    pub text: String,
    pub style: TextRunStyle,
}

impl TextRun {
    pub fn new(text: &str, style: TextRunStyle) -> (r: TextRun)
        ensures
            r.text@ == text@,
            r.style == style,
    {
        TextRun { text: text.to_owned(), style }
    }

    /// Text in the default style.
    pub fn from_text(text: &str) -> (r: TextRun)
        ensures
            r.text@ == text@,
            r.style == plain_style(),
    {
        TextRun { text: text.to_owned(), style: TextRunStyle::plain() }
    }
}

// ---------------------------------------------------------------------------
// Grey highlights
// ---------------------------------------------------------------------------
/// The highlight names that mark printed text: the grey shades in their
/// usual spellings.
pub open spec fn gray_names() -> Seq<Seq<char>> {
    seq![
        "lightgray"@, "light_gray"@, "light-gray"@, "darkgray"@, "dark_gray"@, "dark-gray"@,
        "gray-25"@, "gray25"@, "gray_25"@, "gray-50"@, "gray50"@, "gray_50"@, "gray"@, "grey"@,
        "lightgrey"@, "light_grey"@, "light-grey"@, "darkgrey"@, "dark_grey"@, "dark-grey"@,
        "grey-25"@, "grey25"@, "grey_25"@, "grey-50"@, "grey50"@, "grey_50"@,
    ]
}

/// A grey highlight, compared after trimming and ASCII lower-casing.
pub open spec fn spec_is_gray_highlight(val: Seq<char>) -> bool {
    gray_names().contains(spec_ascii_lower_seq(trim_seq(val)))
}

/// Whether a highlight colour name means printed text (a grey).
pub fn is_gray_highlight(val: &str) -> (r: bool)
    ensures
        r == spec_is_gray_highlight(val@),
{
    let t = trim_str(val);
    let lower = ascii_lower_chars(t.as_slice());
    let names = [
        "lightgray", "light_gray", "light-gray", "darkgray", "dark_gray", "dark-gray", "gray-25",
        "gray25", "gray_25", "gray-50", "gray50", "gray_50", "gray", "grey", "lightgrey",
        "light_grey", "light-grey", "darkgrey", "dark_grey", "dark-grey", "grey-25", "grey25",
        "grey_25", "grey-50", "grey50", "grey_50",
    ];
    let ghost g = gray_names();
    assert(names@.map_values(|n: &str| n@) =~= g);
    let mut k: usize = 0;
    while k < names.len()
        invariant
            k <= names.len(),
            names@.map_values(|n: &str| n@) == g,
            g == gray_names(),
            lower@ == spec_ascii_lower_seq(trim_seq(val@)),
            forall|m: int| 0 <= m < k ==> g[m] != lower@,
        decreases names.len() - k,
    {
        let n = chars_of(names[k]);
        assert(g[k as int] == names@[k as int]@);
        if seq_eq(lower.as_slice(), n.as_slice()) {
            assert(g[k as int] == lower@);
            assert(g.contains(lower@));
            return true;
        }
        k += 1;
    }
    assert(!g.contains(lower@));
    false
}

/// A spelling of a grey highlight: light or dark grey (Word's `lightGray`
/// and `darkGray`), plain grey, or the 25% and 50% greys, in both spellings
/// of grey and with or without `_` or `-`.
pub open spec fn grey_spelling(l: Seq<char>) -> bool {
    l == seq!['l', 'i', 'g', 'h', 't', 'g', 'r', 'a', 'y']
        || l == seq!['l', 'i', 'g', 'h', 't', '_', 'g', 'r', 'a', 'y']
        || l == seq!['l', 'i', 'g', 'h', 't', '-', 'g', 'r', 'a', 'y']
        || l == seq!['d', 'a', 'r', 'k', 'g', 'r', 'a', 'y']
        || l == seq!['d', 'a', 'r', 'k', '_', 'g', 'r', 'a', 'y']
        || l == seq!['d', 'a', 'r', 'k', '-', 'g', 'r', 'a', 'y']
        || l == seq!['g', 'r', 'a', 'y', '-', '2', '5']
        || l == seq!['g', 'r', 'a', 'y', '2', '5']
        || l == seq!['g', 'r', 'a', 'y', '_', '2', '5']
        || l == seq!['g', 'r', 'a', 'y', '-', '5', '0']
        || l == seq!['g', 'r', 'a', 'y', '5', '0']
        || l == seq!['g', 'r', 'a', 'y', '_', '5', '0']
        || l == seq!['g', 'r', 'a', 'y']
        || l == seq!['g', 'r', 'e', 'y']
        || l == seq!['l', 'i', 'g', 'h', 't', 'g', 'r', 'e', 'y']
        || l == seq!['l', 'i', 'g', 'h', 't', '_', 'g', 'r', 'e', 'y']
        || l == seq!['l', 'i', 'g', 'h', 't', '-', 'g', 'r', 'e', 'y']
        || l == seq!['d', 'a', 'r', 'k', 'g', 'r', 'e', 'y']
        || l == seq!['d', 'a', 'r', 'k', '_', 'g', 'r', 'e', 'y']
        || l == seq!['d', 'a', 'r', 'k', '-', 'g', 'r', 'e', 'y']
        || l == seq!['g', 'r', 'e', 'y', '-', '2', '5']
        || l == seq!['g', 'r', 'e', 'y', '2', '5']
        || l == seq!['g', 'r', 'e', 'y', '_', '2', '5']
        || l == seq!['g', 'r', 'e', 'y', '-', '5', '0']
        || l == seq!['g', 'r', 'e', 'y', '5', '0']
        || l == seq!['g', 'r', 'e', 'y', '_', '5', '0']
}

/// Trimming and lower-casing a trimmed, lower-cased value changes nothing.
proof fn lemma_lowered_trimmed(val: Seq<char>)
    ensures
        spec_ascii_lower_seq(trim_seq(spec_ascii_lower_seq(trim_seq(val)))) == spec_ascii_lower_seq(
            trim_seq(val),
        ),
{
    let (a, b) = lemma_trim_bounds(val);
    let t = trim_seq(val);
    let l = spec_ascii_lower_seq(t);
    if a < b {
        assert(t[0] == val[a] && t[t.len() - 1] == val[b - 1]);
        assert(!spec_is_whitespace(l[0]));
        assert(!spec_is_whitespace(l[l.len() - 1]));
    }
    lemma_trim_char(l, 0, l.len() as int);
    assert(l.subrange(0, l.len() as int) =~= l);
    assert(spec_ascii_lower_seq(l) =~= l);
}

/// Grey highlights mark printed text: a highlight value whose trimmed,
/// ASCII lower-cased form is a grey spelling (so `darkGray`, ` LightGray `,
/// `grey` ...) is a grey highlight, and only those are; the value
/// `apply_highlight` tests (already trimmed and lower-cased) is judged the
/// same way, so such a highlight makes the run printed text in role 1 and
/// registers no key.
pub proof fn lemma_grey_highlights(val: Seq<char>)
    ensures
        spec_is_gray_highlight(val) <==> grey_spelling(spec_ascii_lower_seq(trim_seq(val))),
        spec_is_gray_highlight(spec_ascii_lower_seq(trim_seq(val))) <==> grey_spelling(
            spec_ascii_lower_seq(trim_seq(val)),
        ),
{
    lemma_lowered_trimmed(val);
    let l = spec_ascii_lower_seq(trim_seq(val));
    let g = gray_names();
    reveal_strlit("lightgray");
    assert(g[0] =~= seq!['l', 'i', 'g', 'h', 't', 'g', 'r', 'a', 'y']);
    reveal_strlit("light_gray");
    assert(g[1] =~= seq!['l', 'i', 'g', 'h', 't', '_', 'g', 'r', 'a', 'y']);
    reveal_strlit("light-gray");
    assert(g[2] =~= seq!['l', 'i', 'g', 'h', 't', '-', 'g', 'r', 'a', 'y']);
    reveal_strlit("darkgray");
    assert(g[3] =~= seq!['d', 'a', 'r', 'k', 'g', 'r', 'a', 'y']);
    reveal_strlit("dark_gray");
    assert(g[4] =~= seq!['d', 'a', 'r', 'k', '_', 'g', 'r', 'a', 'y']);
    reveal_strlit("dark-gray");
    assert(g[5] =~= seq!['d', 'a', 'r', 'k', '-', 'g', 'r', 'a', 'y']);
    reveal_strlit("gray-25");
    assert(g[6] =~= seq!['g', 'r', 'a', 'y', '-', '2', '5']);
    reveal_strlit("gray25");
    assert(g[7] =~= seq!['g', 'r', 'a', 'y', '2', '5']);
    reveal_strlit("gray_25");
    assert(g[8] =~= seq!['g', 'r', 'a', 'y', '_', '2', '5']);
    reveal_strlit("gray-50");
    assert(g[9] =~= seq!['g', 'r', 'a', 'y', '-', '5', '0']);
    reveal_strlit("gray50");
    assert(g[10] =~= seq!['g', 'r', 'a', 'y', '5', '0']);
    reveal_strlit("gray_50");
    assert(g[11] =~= seq!['g', 'r', 'a', 'y', '_', '5', '0']);
    reveal_strlit("gray");
    assert(g[12] =~= seq!['g', 'r', 'a', 'y']);
    reveal_strlit("grey");
    assert(g[13] =~= seq!['g', 'r', 'e', 'y']);
    reveal_strlit("lightgrey");
    assert(g[14] =~= seq!['l', 'i', 'g', 'h', 't', 'g', 'r', 'e', 'y']);
    reveal_strlit("light_grey");
    assert(g[15] =~= seq!['l', 'i', 'g', 'h', 't', '_', 'g', 'r', 'e', 'y']);
    reveal_strlit("light-grey");
    assert(g[16] =~= seq!['l', 'i', 'g', 'h', 't', '-', 'g', 'r', 'e', 'y']);
    reveal_strlit("darkgrey");
    assert(g[17] =~= seq!['d', 'a', 'r', 'k', 'g', 'r', 'e', 'y']);
    reveal_strlit("dark_grey");
    assert(g[18] =~= seq!['d', 'a', 'r', 'k', '_', 'g', 'r', 'e', 'y']);
    reveal_strlit("dark-grey");
    assert(g[19] =~= seq!['d', 'a', 'r', 'k', '-', 'g', 'r', 'e', 'y']);
    reveal_strlit("grey-25");
    assert(g[20] =~= seq!['g', 'r', 'e', 'y', '-', '2', '5']);
    reveal_strlit("grey25");
    assert(g[21] =~= seq!['g', 'r', 'e', 'y', '2', '5']);
    reveal_strlit("grey_25");
    assert(g[22] =~= seq!['g', 'r', 'e', 'y', '_', '2', '5']);
    reveal_strlit("grey-50");
    assert(g[23] =~= seq!['g', 'r', 'e', 'y', '-', '5', '0']);
    reveal_strlit("grey50");
    assert(g[24] =~= seq!['g', 'r', 'e', 'y', '5', '0']);
    reveal_strlit("grey_50");
    assert(g[25] =~= seq!['g', 'r', 'e', 'y', '_', '5', '0']);
    if grey_spelling(l) {
        assert(exists|i: int| 0 <= i < g.len() && g[i] == l);
    }
    if g.contains(l) {
        let i = choose|i: int| 0 <= i < g.len() && g[i] == l;
        assert(0 <= i < 26);
    }
}

// ---------------------------------------------------------------------------
// XML names
// ---------------------------------------------------------------------------
/// The local part of a qualified name: what follows the first `:`.
pub open spec fn spec_local_name(name: Seq<u8>) -> Seq<u8> {
    match first_colon(name, 0) {
        Some(i) => name.skip(i + 1),
        None => name,
    }
}

pub open spec fn first_colon(name: Seq<u8>, k: int) -> Option<int>
    decreases name.len() - k,
{
    if k < 0 || k >= name.len() {
        None
    } else if name[k] == 0x3a {
        Some(k)
    } else {
        first_colon(name, k + 1)
    }
}

/// The local part of an element or attribute name (`w:pPr` gives `pPr`).
pub fn local_name(name: &[u8]) -> (r: &[u8])
    ensures
        r@ == spec_local_name(name@),
{
    let mut k: usize = 0;
    while k < name.len()
        invariant
            k <= name.len(),
            first_colon(name@, 0) == first_colon(name@, k as int),
        decreases name.len() - k,
    {
        if name[k] == 0x3a {
            let r = vstd::slice::slice_subrange(name, k + 1, name.len());
            assert(r@ =~= name@.skip(k + 1));
            return r;
        }
        k += 1;
    }
    name
}

// ---------------------------------------------------------------------------
// Hex colours of run properties
// ---------------------------------------------------------------------------
/// The colour text after trimming and one optional `#`.
pub open spec fn hex_body(val: Seq<char>) -> Seq<char> {
    let s = trim_seq(val);
    if s.len() > 0 && s[0] == '#' {
        s.skip(1)
    } else {
        s
    }
}

/// Some prefix of `s` takes exactly `b` UTF-8 bytes.
pub open spec fn byte_boundary(s: Seq<char>, b: int) -> bool {
    exists|k: int| 0 <= k <= s.len() && utf8_len(#[trigger] s.take(k)) == b
}

/// The number of characters of the prefix taking `b` bytes.
pub open spec fn chars_for_bytes(s: Seq<char>, b: int) -> int {
    choose|k: int| 0 <= k <= s.len() && utf8_len(#[trigger] s.take(k)) == b
}

/// Value of a two-byte hex field: an optional `+` and hex digits, at most 255.
pub open spec fn hex_byte(p: Seq<char>) -> Option<u8> {
    match parse_u32_radix(p, 16) {
        Some(v) => if v <= 255 { Some(v as u8) } else { None },
        None => None,
    }
}

/// A colour value `RRGGBB` (optionally after `#`, surrounding white space
/// allowed, `auto` in any case meaning no colour): six bytes split into
/// three two-byte hex fields.
pub open spec fn spec_parse_hex_color(val: Seq<char>) -> Option<[u8; 3]> {
    let s = trim_seq(val);
    let h = hex_body(val);
    if spec_ascii_lower_seq(s) == "auto"@ {
        None
    } else if utf8_len(h) != 6 {
        None
    } else {
        let k2 = chars_for_bytes(h, 2);
        let k4 = chars_for_bytes(h, 4);
        match (hex_byte(h.take(k2)), hex_byte(h.subrange(k2, k4)), hex_byte(h.skip(k4))) {
            (Some(r), Some(g), Some(b)) => Some([r, g, b]),
            _ => None,
        }
    }
}

/// The colour fields can be cut at byte offsets 2 and 4 without splitting a
/// character (always true for ASCII colour values).
pub open spec fn hex_fields_cuttable(val: Seq<char>) -> bool {
    utf8_len(hex_body(val)) == 6 ==> byte_boundary(hex_body(val), 2) && byte_boundary(
        hex_body(val),
        4,
    )
}

proof fn lemma_utf8_len_take_mono(s: Seq<char>, a: int, b: int)
    requires
        0 <= a <= b <= s.len(),
    ensures
        utf8_len(s.take(a)) + (b - a) <= utf8_len(s.take(b)),
    decreases b - a,
{
    if a < b {
        lemma_utf8_len_take_mono(s, a, b - 1);
        assert(s.take(b).drop_last() =~= s.take(b - 1));
    }
}

proof fn lemma_take_unique(s: Seq<char>, k: int, j: int, b: int)
    requires
        0 <= k <= s.len(),
        0 <= j <= s.len(),
        utf8_len(s.take(k)) == b,
        utf8_len(s.take(j)) == b,
    ensures
        k == j,
{
    if k < j {
        lemma_utf8_len_take_mono(s, k, j);
    } else if j < k {
        lemma_utf8_len_take_mono(s, j, k);
    }
}

/// The number of characters of `s` that take `b` bytes, if a prefix does.
fn prefix_for_bytes(s: &[char], b: usize) -> (r: Option<usize>)
    requires
        b <= 8,
    ensures
        r matches Some(k) ==> k <= s.len() && utf8_len(s@.take(k as int)) == b,
        r is None ==> !byte_boundary(s@, b as int),
{
    let mut k: usize = 0;
    let mut bytes: usize = 0;
    assert(s@.take(0) =~= Seq::<char>::empty());
    while k < s.len() && bytes < b
        invariant
            k <= s.len(),
            bytes == utf8_len(s@.take(k as int)),
            bytes <= b + 4,
            b <= 8,
            forall|j: int| 0 <= j < k ==> utf8_len(#[trigger] s@.take(j)) < b,
        decreases s.len() - k,
    {
        assert(s@.take(k + 1).drop_last() =~= s@.take(k as int));
        let c = s[k];
        let w: usize = if (c as u32) < 0x80 {
            1
        } else if (c as u32) < 0x800 {
            2
        } else if (c as u32) < 0x10000 {
            3
        } else {
            4
        };
        bytes = bytes + w;
        k += 1;
    }
    if bytes == b {
        Some(k)
    } else {
        proof {
            assert forall|j: int| 0 <= j <= s@.len() implies utf8_len(#[trigger] s@.take(j)) != b by {
                if j > k {
                    lemma_utf8_len_take_mono(s@, k as int, j);
                }
            }
        }
        None
    }
}

/// Whether a colour value can be read without cutting a character (see
/// `hex_fields_cuttable`).
pub fn hex_cuttable(val: &str) -> (r: bool)
    ensures
        r == hex_fields_cuttable(val@),
{
    let s = trim_str(val);
    let h = if s.len() > 0 && s[0] == '#' {
        sub_vec(s.as_slice(), 1, s.len())
    } else {
        sub_vec(s.as_slice(), 0, s.len())
    };
    assert(h@ =~= hex_body(val@));
    assert(h@.take(h@.len() as int) =~= h@);
    match prefix_for_bytes(h.as_slice(), 6) {
        None => true,
        Some(k6) => {
            if k6 != h.len() {
                proof {
                    lemma_utf8_len_take_mono(h@, k6 as int, h@.len() as int);
                }
                true
            } else {
                prefix_for_bytes(h.as_slice(), 2).is_some() && prefix_for_bytes(
                    h.as_slice(),
                    4,
                ).is_some()
            }
        },
    }
}

fn hex_byte_exec(p: &[char]) -> (r: Option<u8>)
    requires
        p.len() <= 2,
    ensures
        r == hex_byte(p@),
{
    assert(p@.subrange(0, p@.len() as int) =~= p@);
    match crate::html::parse_u32_public(p, 0, p.len(), 16) {
        Some(v) => if v <= 255 {
            Some(v as u8)
        } else {
            None
        },
        None => None,
    }
}

/// Parses a run colour `RRGGBB` (optional `#`); `auto` gives `None`.
pub fn parse_hex_color(val: &str) -> (r: Option<[u8; 3]>)
    requires
        hex_fields_cuttable(val@),
    ensures
        r == spec_parse_hex_color(val@),
{
    let s = trim_str(val);
    let lower = ascii_lower_chars(s.as_slice());
    let auto = chars_of("auto");
    if seq_eq(lower.as_slice(), auto.as_slice()) {
        return None;
    }
    let h = if s.len() > 0 && s[0] == '#' {
        sub_vec(s.as_slice(), 1, s.len())
    } else {
        sub_vec(s.as_slice(), 0, s.len())
    };
    assert(h@ =~= hex_body(val@));
    let total = prefix_for_bytes(h.as_slice(), 6);
    let k6 = match total {
        Some(k) => k,
        None => {
            proof {
                if utf8_len(h@) == 6 {
                    assert(h@.take(h@.len() as int) =~= h@);
                }
            }
            return None;
        },
    };
    if k6 != h.len() {
        proof {
            lemma_utf8_len_take_mono(h@, k6 as int, h@.len() as int);
            assert(h@.take(h@.len() as int) =~= h@);
        }
        return None;
    }
    assert(h@.take(h@.len() as int) =~= h@);
    let k2 = match prefix_for_bytes(h.as_slice(), 2) {
        Some(k) => k,
        None => {
            return None;
        },
    };
    let k4 = match prefix_for_bytes(h.as_slice(), 4) {
        Some(k) => k,
        None => {
            return None;
        },
    };
    proof {
        let c2 = chars_for_bytes(h@, 2);
        let c4 = chars_for_bytes(h@, 4);
        lemma_take_unique(h@, k2 as int, c2, 2);
        lemma_take_unique(h@, k4 as int, c4, 4);
        if k4 < k2 {
            lemma_utf8_len_take_mono(h@, k4 as int, k2 as int);
        }
        lemma_utf8_len_take_mono(h@, 0, k2 as int);
        lemma_utf8_len_take_mono(h@, k2 as int, k4 as int);
        lemma_utf8_len_take_mono(h@, k4 as int, h@.len() as int);
        assert(h@.take(0) =~= Seq::<char>::empty());
    }
    let p1 = sub_vec(h.as_slice(), 0, k2);
    let p2 = sub_vec(h.as_slice(), k2, k4);
    let p3 = sub_vec(h.as_slice(), k4, h.len());
    assert(p1@ =~= h@.take(k2 as int));
    assert(p3@ =~= h@.skip(k4 as int));
    match (hex_byte_exec(p1.as_slice()), hex_byte_exec(p2.as_slice()), hex_byte_exec(p3.as_slice())) {
        (Some(r), Some(g), Some(b)) => Some([r, g, b]),
        _ => None,
    }
}

// ---------------------------------------------------------------------------
// Role registry
// ---------------------------------------------------------------------------
/// Roles handed out to the style keys met in a document, in the order they
/// are first met: the first key gets role 2, the next role 3, and so on.
/// (Role 1 is reserved for printed grey text, role 0 for plain text.)
#[derive(Debug, Clone)]
pub struct StyleRegistry {
    ordered_keys: Vec<String>,
    next_role_id: u32,
}

/// Position of `key` in `keys`.
pub open spec fn key_index(keys: Seq<Seq<char>>, key: Seq<char>) -> Option<int>
    decreases keys.len(),
{
    if keys.len() == 0 {
        None
    } else {
        match key_index(keys.drop_last(), key) {
            Some(i) => Some(i),
            None => if keys.last() == key {
                Some(keys.len() - 1)
            } else {
                None
            },
        }
    }
}

/// The role of a key, if registered.
pub open spec fn registered_role(keys: Seq<Seq<char>>, key: Seq<char>) -> Option<int> {
    match key_index(keys, key) {
        Some(i) => Some(i + 2),
        None => None,
    }
}

/// Registering a key: the keys afterwards and the key's role.
pub open spec fn register(keys: Seq<Seq<char>>, key: Seq<char>) -> (Seq<Seq<char>>, int) {
    match key_index(keys, key) {
        Some(i) => (keys, i + 2),
        None => (keys.push(key), keys.len() as int + 2),
    }
}

proof fn lemma_key_index(keys: Seq<Seq<char>>, key: Seq<char>)
    ensures
        key_index(keys, key) matches Some(i) ==> 0 <= i < keys.len() && keys[i] == key && forall|
            j: int,
        | 0 <= j < i ==> keys[j] != key,
        key_index(keys, key) is None ==> forall|j: int| 0 <= j < keys.len() ==> keys[j] != key,
    decreases keys.len(),
{
    if keys.len() > 0 {
        let d = keys.drop_last();
        lemma_key_index(d, key);
        assert forall|j: int| 0 <= j < d.len() implies #[trigger] d[j] == keys[j] by {}
        match key_index(d, key) {
            Some(i) => {
                assert(key_index(keys, key) == Some(i));
                assert forall|j: int| 0 <= j < i implies keys[j] != key by {
                    assert(d[j] == keys[j]);
                }
            },
            None => {
                if keys.last() == key {
                    assert(key_index(keys, key) == Some(keys.len() - 1));
                    assert forall|j: int| 0 <= j < keys.len() - 1 implies keys[j] != key by {
                        assert(d[j] == keys[j]);
                    }
                } else {
                    assert(key_index(keys, key) is None);
                    assert forall|j: int| 0 <= j < keys.len() implies keys[j] != key by {
                        if j < keys.len() - 1 {
                            assert(d[j] == keys[j]);
                        }
                    }
                }
            },
        }
    }
}

proof fn lemma_key_index_first(keys: Seq<Seq<char>>, key: Seq<char>, i: int)
    requires
        0 <= i < keys.len(),
        keys[i] == key,
        forall|j: int| 0 <= j < i ==> keys[j] != key,
    ensures
        key_index(keys, key) == Some(i),
    decreases keys.len(),
{
    if i < keys.len() - 1 {
        lemma_key_index_first(keys.drop_last(), key, i);
    } else {
        lemma_key_index(keys.drop_last(), key);
    }
}

proof fn lemma_key_index_push(keys: Seq<Seq<char>>, key: Seq<char>, other: Seq<char>)
    ensures
        key_index(keys.push(key), other) == (match key_index(keys, other) {
            Some(i) => Some(i),
            None => if other == key { Some(keys.len() as int) } else { None },
        }),
{
    assert(keys.push(key).drop_last() =~= keys);
}

impl StyleRegistry {
    /// The registered keys, in order.
    pub closed spec fn keys(&self) -> Seq<Seq<char>> {
        self.ordered_keys@.map_values(|s: String| s@)
    }

    /// The next role is two past the number of keys.
    pub closed spec fn wf(&self) -> bool {
        &&& self.next_role_id == self.ordered_keys@.len() + 2
    }

    /// An empty registry.
    pub fn new() -> (r: StyleRegistry)
        ensures
            r.wf(),
            r.keys() == Seq::<Seq<char>>::empty(),
    {
        let r = StyleRegistry { ordered_keys: Vec::new(), next_role_id: 2 };
        assert(r.keys() =~= Seq::<Seq<char>>::empty());
        r
    }

    /// The role of `key`, registering it first if it is new.
    pub fn get_or_register(&mut self, key: &str) -> (r: u32)
        requires
            old(self).wf(),
            old(self).keys().len() + 3 <= u32::MAX,
        ensures
            final(self).wf(),
            (final(self).keys(), r as int) == register(old(self).keys(), key@),
    {
        proof {
            lemma_key_index(self.keys(), key@);
        }
        let mut k: usize = 0;
        while k < self.ordered_keys.len()
            invariant
                k <= self.ordered_keys.len(),
                self.wf(),
                self.keys() == old(self).keys(),
                *self == *old(self),
                forall|j: int| 0 <= j < k ==> self.keys()[j] != key@,
            decreases self.ordered_keys.len() - k,
        {
            assert(self.keys()[k as int] == self.ordered_keys@[k as int]@);
            if str_eq(self.ordered_keys[k].as_str(), key) {
                proof {
                    lemma_key_index_first(self.keys(), key@, k as int);
                }
                return (k + 2) as u32;
            }
            k += 1;
        }
        proof {
            lemma_key_index(self.keys(), key@);
            if let Some(i) = key_index(self.keys(), key@) {
                assert(self.keys()[i] != key@);
            }
        }
        let role_id = self.next_role_id;
        let ghost before = self.keys();
        self.ordered_keys.push(key.to_owned());
        self.next_role_id = self.next_role_id + 1;
        assert(self.keys() =~= before.push(key@));
        role_id
    }

    /// The role of `key`, if registered.
    pub fn get(&self, key: &str) -> (r: Option<u32>)
        requires
            self.wf(),
        ensures
            match registered_role(self.keys(), key@) {
                Some(v) => r == Some(v as u32),
                None => r is None,
            },
    {
        proof {
            lemma_key_index(self.keys(), key@);
        }
        let mut k: usize = 0;
        while k < self.ordered_keys.len()
            invariant
                k <= self.ordered_keys.len(),
                self.wf(),
                forall|j: int| 0 <= j < k ==> self.keys()[j] != key@,
            decreases self.ordered_keys.len() - k,
        {
            assert(self.keys()[k as int] == self.ordered_keys@[k as int]@);
            if str_eq(self.ordered_keys[k].as_str(), key) {
                proof {
                    lemma_key_index_first(self.keys(), key@, k as int);
                }
                return Some((k + 2) as u32);
            }
            k += 1;
        }
        proof {
            lemma_key_index(self.keys(), key@);
            if let Some(i) = key_index(self.keys(), key@) {
                assert(self.keys()[i] != key@);
            }
        }
        None
    }

    /// The registered keys in the order they were first met.
    pub fn registered_keys(&self) -> (r: &[String])
        ensures
            r@.map_values(|s: String| s@) == self.keys(),
    {
        self.ordered_keys.as_slice()
    }
}

/// Registering a key twice gives the same role and leaves the registry as
/// the first registration left it; a registered key is found again with
/// that role; roles follow first appearance, starting at 2.
pub proof fn lemma_register_stable(keys: Seq<Seq<char>>, key: Seq<char>)
    ensures
        register(register(keys, key).0, key) == register(keys, key),
        registered_role(register(keys, key).0, key) == Some(register(keys, key).1),
        key_index(keys, key) is None ==> register(keys, key).1 == keys.len() + 2,
        forall|other: Seq<char>|
            other != key ==> registered_role(#[trigger] register(keys, key).0, other)
                == registered_role(keys, other),
{
    lemma_key_index(keys, key);
    lemma_key_index_push(keys, key, key);
    assert forall|other: Seq<char>| other != key implies registered_role(
        #[trigger] register(keys, key).0,
        other,
    ) == registered_role(keys, other) by {
        lemma_key_index_push(keys, key, other);
    }
}

// ---------------------------------------------------------------------------
// Applying run properties
// ---------------------------------------------------------------------------
pub open spec fn hex_digits() -> Seq<char> {
    seq!['0', '1', '2', '3', '4', '5', '6', '7', '8', '9', 'a', 'b', 'c', 'd', 'e', 'f']
}

/// Two lower-case hex digits of a byte (`{:02x}`).
pub open spec fn hex2(b: u8) -> Seq<char> {
    seq![hex_digits()[b as int / 16], hex_digits()[b as int % 16]]
}

/// The registry key of a text colour: `color:rrggbb`.
pub open spec fn color_key(rgb: [u8; 3]) -> Seq<char> {
    "color:"@ + hex2(rgb[0]) + hex2(rgb[1]) + hex2(rgb[2])
}

fn push_hex2(out: &mut String, b: u8)
    ensures
        final(out)@ == old(out)@ + hex2(b),
{
    let digits = ['0', '1', '2', '3', '4', '5', '6', '7', '8', '9', 'a', 'b', 'c', 'd', 'e', 'f'];
    assert(digits@ =~= hex_digits());
    out.push(digits[(b / 16) as usize]);
    out.push(digits[(b % 16) as usize]);
    assert(final(out)@ =~= old(out)@ + hex2(b));
}

/// A style that only differs from `old` in role, highlight, colour and
/// printed flag keeps its font settings.
pub open spec fn same_fonts(a: TextRunStyle, b: TextRunStyle) -> bool {
    a.font_path == b.font_path && a.font_family == b.font_family
}

impl StyleRegistry {
    /// Applies a highlight colour to a run style. `none` and empty values
    /// change nothing; a grey marks printed text (role 1); any other colour
    /// gets the role registered for `highlight:<lower-case name>`.
    pub fn apply_highlight(&mut self, val: &str, style: &mut TextRunStyle)
        requires
            old(self).wf(),
            old(self).keys().len() + 3 <= u32::MAX,
        ensures
            final(self).wf(),
            ({
                let t = trim_seq(val@);
                let lower = spec_ascii_lower_seq(t);
                if lower == "none"@ || lower.len() == 0 {
                    final(self).keys() == old(self).keys() && *final(style) == *old(style)
                } else {
                    &&& final(style).highlight matches Some(h) && h@ == t
                    &&& same_fonts(*final(style), *old(style))
                    &&& final(style).fill == old(style).fill
                    &&& if spec_is_gray_highlight(lower) {
                        final(style).role_id == 1 && final(style).printed && final(self).keys()
                            == old(self).keys()
                    } else {
                        (final(self).keys(), final(style).role_id as int) == register(
                            old(self).keys(),
                            "highlight:"@ + lower,
                        ) && !final(style).printed
                    }
                }
            }),
    {
        let t = trim_str(val);
        let lower = ascii_lower_chars(t.as_slice());
        let none = chars_of("none");
        if seq_eq(lower.as_slice(), none.as_slice()) || lower.len() == 0 {
            return;
        }
        style.highlight = Some(string_of(t.as_slice()));
        let lower_s = string_of(lower.as_slice());
        if is_gray_highlight(lower_s.as_str()) {
            style.role_id = 1;
            style.printed = true;
        } else {
            let mut key = String::new();
            push_str(&mut key, "highlight:");
            push_chars(&mut key, lower.as_slice());
            let role_id = self.get_or_register(key.as_str());
            style.role_id = role_id;
            style.printed = false;
        }
    }

    /// Applies a text colour to a run style: a valid colour becomes the
    /// style's colour, and a non-black colour on a run without highlight also
    /// gets the role registered for `color:rrggbb`.
    pub fn apply_color(&mut self, val: &str, style: &mut TextRunStyle)
        requires
            old(self).wf(),
            old(self).keys().len() + 3 <= u32::MAX,
            hex_fields_cuttable(trim_seq(val@)),
        ensures
            final(self).wf(),
            match spec_parse_hex_color(trim_seq(val@)) {
                None => final(self).keys() == old(self).keys() && *final(style) == *old(style),
                Some(rgb) => {
                    &&& final(style).fill == Some(rgb)
                    &&& final(style).highlight == old(style).highlight
                    &&& final(style).printed == old(style).printed
                    &&& same_fonts(*final(style), *old(style))
                    &&& if old(style).highlight is None && rgb != [0u8, 0u8, 0u8] {
                        (final(self).keys(), final(style).role_id as int) == register(
                            old(self).keys(),
                            color_key(rgb),
                        )
                    } else {
                        final(style).role_id == old(style).role_id && final(self).keys()
                            == old(self).keys()
                    }
                },
            },
    {
        let t = trim_str(val);
        let ts = string_of(t.as_slice());
        match parse_hex_color(ts.as_str()) {
            None => {},
            Some(rgb) => {
                style.fill = Some(rgb);
                if style.highlight.is_none() && !(rgb[0] == 0 && rgb[1] == 0 && rgb[2] == 0) {
                    let mut key = String::new();
                    push_str(&mut key, "color:");
                    push_hex2(&mut key, rgb[0]);
                    push_hex2(&mut key, rgb[1]);
                    push_hex2(&mut key, rgb[2]);
                    assert(key@ =~= color_key(rgb));
                    let role_id = self.get_or_register(key.as_str());
                    style.role_id = role_id;
                } else {
                    assert(rgb == [0u8, 0u8, 0u8] ==> rgb[0] == 0 && rgb[1] == 0 && rgb[2] == 0);
                }
            },
        }
    }
}

} // verus!
